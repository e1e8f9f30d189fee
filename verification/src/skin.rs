//! The skin model: a skin's metadata (`skin.json`), the summary the settings
//! page shows of each installed skin, the shell's configuration, and the
//! rules for listing, activating and removing skins.

use vstd::prelude::*;
use vstd::string::*;
use crate::paths::{file_name, final_name, join_path, joined_path};
use crate::text::{
    lemma_text_less_irreflexive, lemma_text_less_total, lemma_text_less_transitive, text_eq,
    text_less, text_lt,
};

verus! {

/// The `theme` part of `skin.json`.
#[derive(Debug, Clone)]
pub struct SkinTheme {
    pub dark: bool,
    pub primary: String,
    pub background: String,
}

impl Default for SkinTheme {
    fn default() -> (r: Self)
        ensures
            !r.dark,
            r.primary@ == Seq::<char>::empty(),
            r.background@ == Seq::<char>::empty(),
    {
        SkinTheme { dark: false, primary: String::new(), background: String::new() }
    }
}

/// A skin's metadata, as `skin.json` holds it.
#[derive(Debug, Clone)]
pub struct SkinMeta {
    pub id: String,
    pub name: String,
    pub version: String,
    pub author: String,
    pub description: String,
    /// A CSS colour or the path of a picture under `assets/`.
    pub preview: String,
    pub theme: SkinTheme,
}

/// What the settings page shows of an installed skin.
#[derive(Debug, Clone)]
pub struct SkinInfo {
    pub id: String,
    pub name: String,
    pub version: String,
    pub author: String,
    pub description: String,
    pub preview: String,
    pub dark: bool,
    pub active: bool,
}

/// The shell's configuration (`config.json`): which skin is active; empty
/// when none is.
#[derive(Debug, Clone)]
pub struct AppConfig {
    pub active_skin: String,
}

impl Default for AppConfig {
    fn default() -> (r: Self)
        ensures
            r.active_skin@ == Seq::<char>::empty(),
    {
        AppConfig { active_skin: String::new() }
    }
}

/// A skin id names one directory inside the skins directory: it is not
/// empty, holds no `/`, and is neither `.` nor `..`.
pub open spec fn is_skin_id(id: Seq<char>) -> bool {
    &&& id.len() > 0
    &&& forall|k: int| 0 <= k < id.len() ==> #[trigger] id[k] != '/'
    &&& id != seq!['.']
    &&& id != seq!['.', '.']
}

/// Whether `id` can be a skin's id.
pub fn valid_skin_id(id: &str) -> (r: bool)
    ensures
        r == is_skin_id(id@),
{
    let n = id.unicode_len();
    if n == 0 {
        return false;
    }
    let mut i: usize = 0;
    while i < n
        invariant
            n == id@.len(),
            i <= n,
            forall|k: int| 0 <= k < i ==> #[trigger] id@[k] != '/',
        decreases n - i,
    {
        if id.get_char(i) == '/' {
            return false;
        }
        i = i + 1;
    }
    if id.get_char(0) == '.' && (n == 1 || (n == 2 && id.get_char(1) == '.')) {
        proof {
            if n == 1 {
                assert(id@ =~= seq!['.']);
            } else {
                assert(id@ =~= seq!['.', '.']);
            }
        }
        return false;
    }
    proof {
        assert(id@.len() == 1 ==> id@[0] != '.');
        assert(id@.len() == 2 ==> id@[0] != '.' || id@[1] != '.');
    }
    true
}

/// The version a `skin.json` without one is given.
pub fn default_version() -> (r: String)
    ensures
        r@ == "0.0.0"@,
{
    "0.0.0".to_owned()
}

/// The summary of the skin installed in the directory `dir` whose
/// `skin.json` reads `meta`: its id is the directory's name (not the `id`
/// that `skin.json` gives), the other fields come from `meta`, and it is not
/// marked active. There is none when `dir` does not end in a name.
pub fn skin_info_from_meta(dir: &str, meta: SkinMeta) -> (r: Option<SkinInfo>)
    ensures
        r is Some <==> final_name(dir@) is Some,
        r matches Some(info) ==> {
            &&& final_name(dir@) == Some(info.id@)
            &&& info.name == meta.name
            &&& info.version == meta.version
            &&& info.author == meta.author
            &&& info.description == meta.description
            &&& info.preview == meta.preview
            &&& info.dark == meta.theme.dark
            &&& !info.active
        },
{
    match file_name(dir) {
        None => None,
        Some(id) => Some(
            SkinInfo {
                id,
                name: meta.name,
                version: meta.version,
                author: meta.author,
                description: meta.description,
                preview: meta.preview,
                dark: meta.theme.dark,
                active: false,
            },
        ),
    }
}

/// Why a skin operation failed.
#[derive(Debug, Clone)]
pub enum SkinError {
    /// No skin with this id is installed.
    NotInstalled(String),
    /// The package file could not be opened; the reason.
    CannotOpen(String),
    /// The package is not a zip archive; the archive reader's reason.
    NotAPackage(String),
    /// An entry of the package could not be read; the reason.
    Archive(String),
    /// The package holds no `skin.json`.
    NoSkinJson,
    /// After installation the skin's `skin.json` cannot be read.
    InvalidAfterInstall,
    /// Reading or writing a file failed; the reason.
    Io(String),
    /// The configuration file's path has no parent directory.
    NoConfigDir,
}

/// The message the settings page shows for an error.
pub open spec fn error_message(e: SkinError) -> Seq<char> {
    match e {
        SkinError::NotInstalled(id) => "皮肤 "@ + id@ + " 不存在"@,
        SkinError::CannotOpen(why) => "打开文件失败: "@ + why@,
        SkinError::NotAPackage(why) => "不是有效的 .dshskin 包: "@ + why@,
        SkinError::Archive(why) => why@,
        SkinError::NoSkinJson => "包内未找到 skin.json"@,
        SkinError::InvalidAfterInstall => "解压后 skin.json 无效"@,
        SkinError::Io(why) => why@,
        SkinError::NoConfigDir => "无效配置路径"@,
    }
}

impl SkinError {
    /// The message the settings page shows for this error.
    pub fn message(&self) -> (r: String)
        ensures
            r@ == error_message(*self),
    {
        match self {
            SkinError::NotInstalled(id) => {
                let mut m = "皮肤 ".to_owned();
                m.append(id.as_str());
                m.append(" 不存在");
                m
            },
            SkinError::CannotOpen(why) => {
                let mut m = "打开文件失败: ".to_owned();
                m.append(why.as_str());
                m
            },
            SkinError::NotAPackage(why) => {
                let mut m = "不是有效的 .dshskin 包: ".to_owned();
                m.append(why.as_str());
                m
            },
            SkinError::Archive(why) => why.clone(),
            SkinError::NoSkinJson => "包内未找到 skin.json".to_owned(),
            SkinError::InvalidAfterInstall => "解压后 skin.json 无效".to_owned(),
            SkinError::Io(why) => why.clone(),
            SkinError::NoConfigDir => "无效配置路径".to_owned(),
        }
    }
}

/// `info`, marked active exactly when its id is `active`.
pub open spec fn marked(info: SkinInfo, active: Seq<char>) -> SkinInfo {
    SkinInfo {
        id: info.id,
        name: info.name,
        version: info.version,
        author: info.author,
        description: info.description,
        preview: info.preview,
        dark: info.dark,
        active: info.id@ == active,
    }
}

/// `p` takes the positions `0..n` to distinct positions `0..n`.
pub open spec fn is_index_permutation(p: Seq<int>, n: int) -> bool {
    &&& p.len() == n
    &&& forall|k: int| 0 <= k < n ==> 0 <= #[trigger] p[k] < n
    &&& forall|k: int, l: int| 0 <= k < l < n ==> #[trigger] p[k] != #[trigger] p[l]
}

/// No skin's name comes before the name of a skin listed ahead of it.
pub open spec fn sorted_by_name(r: Seq<SkinInfo>) -> bool {
    forall|k: int, l: int| 0 <= k < l < r.len() ==> !text_less(#[trigger] r[l].name@, #[trigger] r[k].name@)
}

/// `r` lists the skins of `src`, marked against `active`, in the order of
/// their names, skins of equal names in their order in `src`; `p` tells for
/// each entry of `r` the position in `src` it comes from.
pub open spec fn is_listing_with(
    r: Seq<SkinInfo>,
    src: Seq<SkinInfo>,
    active: Seq<char>,
    p: Seq<int>,
) -> bool {
    &&& r.len() == src.len()
    &&& is_index_permutation(p, src.len() as int)
    &&& forall|k: int| 0 <= k < r.len() ==> #[trigger] r[k] == marked(src[p[k]], active)
    &&& sorted_by_name(r)
    &&& forall|k: int, l: int|
        0 <= k < l < r.len() && #[trigger] r[k].name@ == #[trigger] r[l].name@ ==> p[k] < p[l]
}

/// `r` is the listing of `src` against the active skin `active`: each skin of
/// `src` once, marked active exactly when its id is `active`, sorted by name
/// with a stable sort.
pub open spec fn is_listing_of(r: Seq<SkinInfo>, src: Seq<SkinInfo>, active: Seq<char>) -> bool {
    exists|p: Seq<int>| is_listing_with(r, src, active, p)
}

/// The listing reports each skin as it was found: every field (id, name,
/// version, author, description, preview, whether it is dark) is the one of
/// the skin it comes from, and only the active flag is set anew, true
/// exactly for the skin whose id is the active one.
pub proof fn lemma_listing_keeps_each_skin(
    r: Seq<SkinInfo>,
    src: Seq<SkinInfo>,
    active: Seq<char>,
    p: Seq<int>,
)
    requires
        is_listing_with(r, src, active, p),
    ensures
        forall|k: int|
            0 <= k < r.len() ==> {
                let s = #[trigger] src[p[k]];
                &&& 0 <= p[k] < src.len()
                &&& r[k].id@ == s.id@
                &&& r[k].name@ == s.name@
                &&& r[k].version@ == s.version@
                &&& r[k].author@ == s.author@
                &&& r[k].description@ == s.description@
                &&& r[k].preview@ == s.preview@
                &&& r[k].dark == s.dark
                &&& r[k].active == (s.id@ == active)
            },
{
    assert forall|k: int| 0 <= k < r.len() implies {
        let s = #[trigger] src[p[k]];
        &&& 0 <= p[k] < src.len()
        &&& r[k].id@ == s.id@
        &&& r[k].name@ == s.name@
        &&& r[k].version@ == s.version@
        &&& r[k].author@ == s.author@
        &&& r[k].description@ == s.description@
        &&& r[k].preview@ == s.preview@
        &&& r[k].dark == s.dark
        &&& r[k].active == (s.id@ == active)
    } by {
        assert(r[k] == marked(src[p[k]], active));
    }
}

/// Of three names, the "no earlier than" relation is transitive.
proof fn lemma_not_less_transitive(a: Seq<char>, b: Seq<char>, c: Seq<char>)
    requires
        !text_less(a, b),
        !text_less(b, c),
    ensures
        !text_less(a, c),
{
    lemma_text_less_total(a, b);
    if text_less(a, c) {
        if a != b {
            lemma_text_less_transitive(b, a, c);
        }
    }
}

/// Orders the skins found on disk for the settings page: marks the skin whose
/// id is `active` as active (and every other as not), then sorts by name,
/// keeping skins of equal names in the order they were found.
pub fn order_skins(found: Vec<SkinInfo>, active: &str) -> (r: Vec<SkinInfo>)
    ensures
        is_listing_of(r@, found@, active@),
{
    let ghost src = found@;
    let active_id = active.to_owned();
    let mut rest = found;
    let mut out: Vec<SkinInfo> = Vec::new();
    let ghost mut p: Seq<int> = Seq::empty();
    proof {
        assert(rest@ =~= src.take(src.len() as int));
    }
    while rest.len() > 0
        invariant
            active_id@ == active@,
            rest@ == src.take(rest.len() as int),
            rest.len() <= src.len(),
            out.len() + rest.len() == src.len(),
            p.len() == out.len(),
            forall|k: int| 0 <= k < out.len() ==> rest.len() <= #[trigger] p[k] < src.len(),
            forall|k: int, l: int| 0 <= k < l < out.len() ==> #[trigger] p[k] != #[trigger] p[l],
            forall|k: int|
                0 <= k < out.len() ==> #[trigger] out@[k] == marked(src[p[k]], active@),
            sorted_by_name(out@),
            forall|k: int, l: int|
                0 <= k < l < out.len() && #[trigger] out@[k].name@ == #[trigger] out@[l].name@
                    ==> p[k] < p[l],
        decreases rest.len(),
    {
        let ghost before = rest@;
        let mut x = rest.pop().unwrap();
        let i = rest.len();
        proof {
            assert(x == src[i as int]);
            assert(rest@ =~= src.take(i as int));
        }
        x.active = x.id == active_id;
        assert(x == marked(src[i as int], active@));
        let mut j: usize = 0;
        while j < out.len() && text_lt(out[j].name.as_str(), x.name.as_str())
            invariant
                j <= out.len(),
                forall|k: int| 0 <= k < j ==> text_less(#[trigger] out@[k].name@, x.name@),
            decreases out.len() - j,
        {
            j = j + 1;
        }
        let ghost old_out = out@;
        let ghost old_p = p;
        assert(sorted_by_name(old_out));
        proof {
            if j < out.len() {
                assert(!text_less(old_out[j as int].name@, x.name@));
            }
        }
        out.insert(j, x);
        proof {
            p = old_p.insert(j as int, i as int);
            assert(out@ == old_out.insert(j as int, x));
            assert forall|k: int| 0 <= k < out.len() implies rest.len() <= #[trigger] p[k] < src.len() by {
                if k < j {
                    assert(p[k] == old_p[k]);
                } else if k > j {
                    assert(p[k] == old_p[k - 1]);
                }
            }
            assert forall|k: int, l: int| 0 <= k < l < out.len() implies #[trigger] p[k] != #[trigger] p[l] by {
                if k < j {
                    assert(p[k] == old_p[k]);
                } else if k > j {
                    assert(p[k] == old_p[k - 1]);
                }
                if l < j {
                    assert(p[l] == old_p[l]);
                } else if l > j {
                    assert(p[l] == old_p[l - 1]);
                }
            }
            assert forall|k: int| 0 <= k < out.len() implies #[trigger] out@[k] == marked(src[p[k]], active@) by {
                if k < j {
                    assert(out@[k] == old_out[k]);
                    assert(p[k] == old_p[k]);
                } else if k > j {
                    assert(out@[k] == old_out[k - 1]);
                    assert(p[k] == old_p[k - 1]);
                }
            }
            assert forall|k: int, l: int| 0 <= k < l < out@.len() implies !text_less(#[trigger] out@[l].name@, #[trigger] out@[k].name@) by {
                if l < j {
                    assert(out@[k] == old_out[k]);
                    assert(out@[l] == old_out[l]);
                } else if l == j {
                    assert(out@[k] == old_out[k]);
                    assert(text_less(old_out[k].name@, x.name@));
                    lemma_text_less_total(old_out[k].name@, x.name@);
                } else if k > j {
                    assert(out@[k] == old_out[k - 1]);
                    assert(out@[l] == old_out[l - 1]);
                } else if k == j {
                    assert(out@[l] == old_out[l - 1]);
                    if l - 1 == j {
                        lemma_text_less_irreflexive(old_out[j as int].name@);
                    } else {
                        assert(sorted_by_name(old_out));
                        assert(!text_less(old_out[l - 1].name@, old_out[j as int].name@));
                    }
                    lemma_not_less_transitive(old_out[l - 1].name@, old_out[j as int].name@, x.name@);
                } else {
                    assert(out@[k] == old_out[k]);
                    assert(out@[l] == old_out[l - 1]);
                }
            }
            assert forall|k: int, l: int| 0 <= k < l < out.len() && #[trigger] out@[k].name@ == #[trigger] out@[l].name@ implies p[k] < p[l] by {
                if l < j {
                    assert(out@[k] == old_out[k]);
                    assert(out@[l] == old_out[l]);
                    assert(p[k] == old_p[k]);
                    assert(p[l] == old_p[l]);
                } else if l == j {
                    assert(out@[k] == old_out[k]);
                    assert(text_less(old_out[k].name@, x.name@));
                    lemma_text_less_irreflexive(x.name@);
                } else if k > j {
                    assert(out@[k] == old_out[k - 1]);
                    assert(out@[l] == old_out[l - 1]);
                    assert(p[k] == old_p[k - 1]);
                    assert(p[l] == old_p[l - 1]);
                } else if k == j {
                    assert(p[l] == old_p[l - 1]);
                } else {
                    assert(out@[k] == old_out[k]);
                    assert(out@[l] == old_out[l - 1]);
                    assert(p[k] == old_p[k]);
                    assert(p[l] == old_p[l - 1]);
                }
            }
        }
    }
    proof {
        assert(is_listing_with(out@, src, active@, p));
    }
    out
}


/// The `theme.css` of skin `id` in the skins directory `root`.
pub open spec fn theme_path_of(root: Seq<char>, id: Seq<char>) -> Seq<char> {
    joined_path(joined_path(root, id), "theme.css"@)
}

/// The `theme.css` that is injected when the configuration names `active`:
/// none when no skin is active (`active` empty).
pub open spec fn active_theme_of(root: Seq<char>, active: Seq<char>) -> Option<Seq<char>> {
    if active.len() == 0 {
        None
    } else {
        Some(theme_path_of(root, active))
    }
}

/// The `theme.css` of skin `id` in the skins directory `root`.
pub fn theme_path(root: &str, id: &str) -> (r: String)
    ensures
        r@ == theme_path_of(root@, id@),
{
    let dir = join_path(root, id);
    join_path(dir.as_str(), "theme.css")
}

impl AppConfig {
    /// The `theme.css` to inject for this configuration in the skins
    /// directory `root`: none when no skin is active.
    pub fn active_theme(&self, root: &str) -> (r: Option<String>)
        ensures
            r matches Some(p) ==> active_theme_of(root@, self.active_skin@) == Some(p@),
            r is None ==> active_theme_of(root@, self.active_skin@) is None,
    {
        if self.active_skin.as_str().unicode_len() == 0 {
            None
        } else {
            Some(theme_path(root, self.active_skin.as_str()))
        }
    }

    /// Records `id` as the active skin.
    pub fn activate(&mut self, id: &str)
        ensures
            final(self).active_skin@ == id@,
    {
        self.active_skin = id.to_owned();
    }

    /// Takes account of the removal of skin `id`: when it was the active
    /// skin, no skin is active any more. Tells whether the configuration
    /// changed (and so is to be saved).
    pub fn forget_removed(&mut self, id: &str) -> (changed: bool)
        ensures
            changed == (old(self).active_skin@ == id@),
            changed ==> final(self).active_skin@ == Seq::<char>::empty(),
            !changed ==> final(self).active_skin@ == old(self).active_skin@,
    {
        if text_eq(self.active_skin.as_str(), id) {
            self.active_skin = String::new();
            true
        } else {
            false
        }
    }
}

/// Activating a skin makes its `theme.css` the one injected from then on:
/// what activation reads is what the shell injects at its next start, for
/// every id that is not empty.
pub proof fn lemma_activation_selects_theme(cfg: AppConfig, root: Seq<char>, id: Seq<char>)
    requires
        cfg.active_skin@ == id,
        id.len() > 0,
    ensures
        active_theme_of(root, cfg.active_skin@) == Some(theme_path_of(root, id)),
{
}

/// Removing the active skin leaves no skin active, so nothing is injected;
/// removing another skin leaves the active one as it was.
pub proof fn lemma_removal_clears_theme(
    before: Seq<char>,
    after: Seq<char>,
    removed: Seq<char>,
    root: Seq<char>,
    changed: bool,
)
    requires
        changed == (before == removed),
        changed ==> after == Seq::<char>::empty(),
        !changed ==> after == before,
    ensures
        before == removed ==> active_theme_of(root, after) is None,
        before != removed ==> active_theme_of(root, after) == active_theme_of(root, before),
{
}

/// In a listing, the skins marked active are exactly those whose id is the
/// active one; so when the ids are distinct, at most one skin is active.
pub proof fn lemma_listing_marks_active(r: Seq<SkinInfo>, src: Seq<SkinInfo>, active: Seq<char>)
    requires
        is_listing_of(r, src, active),
    ensures
        forall|k: int| 0 <= k < r.len() ==> (#[trigger] r[k].active <==> r[k].id@ == active),
        (forall|a: int, b: int|
            0 <= a < b < src.len() ==> #[trigger] src[a].id@ != #[trigger] src[b].id@) ==> forall|
            k: int,
            l: int,
        |
            0 <= k < l < r.len() && #[trigger] r[k].active ==> !#[trigger] r[l].active,
{
    let p = choose|p: Seq<int>| is_listing_with(r, src, active, p);
    assert forall|k: int| 0 <= k < r.len() implies (#[trigger] r[k].active <==> r[k].id@ == active) by {
        assert(r[k] == marked(src[p[k]], active));
    }
    if forall|a: int, b: int|
        0 <= a < b < src.len() ==> #[trigger] src[a].id@ != #[trigger] src[b].id@ {
        assert forall|k: int, l: int|
            0 <= k < l < r.len() && #[trigger] r[k].active implies !#[trigger] r[l].active by {
            assert(r[k] == marked(src[p[k]], active));
            assert(r[l] == marked(src[p[l]], active));
            assert(p[k] != p[l]);
            if p[k] < p[l] {
                assert(src[p[k]].id@ != src[p[l]].id@);
            } else {
                assert(src[p[l]].id@ != src[p[k]].id@);
            }
        }
    }
}

} // verus!
