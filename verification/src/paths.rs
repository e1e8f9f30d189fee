//! Unix paths held as text: their components, joining, prefixes and final
//! names, with the same meaning as `std::path::Path` gives them; and the
//! places where the shell keeps its data.

use vstd::prelude::*;
use vstd::string::*;
use crate::skin::is_skin_id;
use crate::text::{lemma_split_on_nonempty, opt_text, split_char, split_on, texts};

verus! {

/// A piece between separators that names something: neither empty nor `.`.
pub open spec fn is_named_piece(g: Seq<char>) -> bool {
    g.len() > 0 && g != seq!['.']
}

/// The pieces of `g` that name something, in order.
pub open spec fn named_pieces(g: Seq<Seq<char>>) -> Seq<Seq<char>>
    decreases g.len(),
{
    if g.len() == 0 {
        Seq::empty()
    } else {
        let r = named_pieces(g.drop_last());
        if is_named_piece(g.last()) {
            r.push(g.last())
        } else {
            r
        }
    }
}

pub open spec fn is_rooted(p: Seq<char>) -> bool {
    p.len() > 0 && p[0] == '/'
}

/// The components of a Unix path, as `Path::components` yields them: the
/// root, written `/`, when the path starts with `/`; otherwise a leading
/// `.` when the path's first piece is `.`; then each piece between
/// separators that is neither empty nor `.` (so `..` stays, and repeated or
/// trailing separators vanish).
pub open spec fn path_components(p: Seq<char>) -> Seq<Seq<char>> {
    let pieces = split_on(p, '/');
    let head: Seq<Seq<char>> = if is_rooted(p) {
        seq![seq!['/']]
    } else if pieces[0] == seq!['.'] {
        seq![seq!['.']]
    } else {
        Seq::empty()
    };
    head + named_pieces(pieces)
}

/// `base` joined with `rel`, as `Path::join` does on Unix: an absolute `rel`
/// replaces `base`; otherwise `rel` is appended, after a `/` unless `base`
/// is empty or already ends with one.
pub open spec fn joined_path(base: Seq<char>, rel: Seq<char>) -> Seq<char> {
    if is_rooted(rel) {
        rel
    } else if base.len() == 0 || base.last() == '/' {
        base + rel
    } else {
        base + seq!['/'] + rel
    }
}

/// The final component of `p` when it is a name (not the root, `.` or `..`),
/// as `Path::file_name` gives it.
pub open spec fn final_name(p: Seq<char>) -> Option<Seq<char>> {
    let c = path_components(p);
    if c.len() > 0 && c.last() != seq!['/'] && c.last() != seq!['.'] && c.last() != seq!['.', '.'] {
        Some(c.last())
    } else {
        None
    }
}

fn is_named(g: &String) -> (r: bool)
    ensures
        r == is_named_piece(g@),
{
    let n = g.as_str().unicode_len();
    if n == 0 {
        false
    } else if n == 1 && g.as_str().get_char(0) == '.' {
        assert(g@ =~= seq!['.']);
        false
    } else {
        assert(g@.len() != 1 ==> g@ != seq!['.']);
        assert(g@.len() == 1 ==> g@[0] != '.');
        true
    }
}

fn text_is(g: &String, c: char) -> (r: bool)
    ensures
        r == (g@ == seq![c]),
{
    let n = g.as_str().unicode_len();
    if n == 1 && g.as_str().get_char(0) == c {
        assert(g@ =~= seq![c]);
        true
    } else {
        assert(g@.len() == 1 ==> g@[0] != c);
        false
    }
}

fn root_text() -> (r: String)
    ensures
        r@ == seq!['/'],
{
    proof {
        reveal_strlit("/");
    }
    "/".to_owned()
}

fn dot_text() -> (r: String)
    ensures
        r@ == seq!['.'],
{
    proof {
        reveal_strlit(".");
    }
    ".".to_owned()
}

/// The components of `p`, as `Path::components` yields them, each as text.
pub fn components(p: &str) -> (r: Vec<String>)
    ensures
        texts(r@) == path_components(p@),
{
    let pieces = split_char(p, '/');
    proof {
        lemma_split_on_nonempty(p@, '/');
    }
    let ghost g = texts(pieces@);
    let n = p.unicode_len();
    let rooted = n > 0 && p.get_char(0) == '/';
    let mut out: Vec<String> = Vec::new();
    if rooted {
        out.push(root_text());
    } else if text_is(&pieces[0], '.') {
        out.push(dot_text());
    }
    let ghost head = texts(out@);
    proof {
        assert(g[0] == pieces@[0]@);
        if rooted {
            assert(head =~= seq![seq!['/']]);
        } else if g[0] == seq!['.'] {
            assert(head =~= seq![seq!['.']]);
        } else {
            assert(head =~= Seq::<Seq<char>>::empty());
        }
        assert(g.take(0) =~= Seq::<Seq<char>>::empty());
        assert(texts(out@) =~= head + named_pieces(g.take(0)));
    }
    let mut i: usize = 0;
    while i < pieces.len()
        invariant
            g == texts(pieces@),
            i <= pieces.len(),
            texts(out@) == head + named_pieces(g.take(i as int)),
        decreases pieces.len() - i,
    {
        proof {
            assert(g.take(i + 1).drop_last() =~= g.take(i as int));
            assert(g.take(i + 1).last() == pieces@[i as int]@);
        }
        if is_named(&pieces[i]) {
            let ghost before = texts(out@);
            out.push(pieces[i].clone());
            proof {
                assert(texts(out@) =~= before.push(pieces@[i as int]@));
            }
        }
        i = i + 1;
    }
    proof {
        assert(g.take(pieces.len() as int) =~= g);
    }
    out
}

/// `p` lies strictly inside `base`: `base`'s components are a prefix of
/// `p`'s, at least one component follows, and none of those that follow is
/// `..`, so `p` stays inside `base` also once `..` is resolved.
pub open spec fn path_stays_within(p: Seq<char>, base: Seq<char>) -> bool {
    let cp = path_components(p);
    let cb = path_components(base);
    &&& cb.len() < cp.len()
    &&& cp.take(cb.len() as int) == cb
    &&& forall|k: int| cb.len() <= k < cp.len() ==> #[trigger] cp[k] != seq!['.', '.']
}

fn is_parent_text(g: &String) -> (r: bool)
    ensures
        r == (g@ == seq!['.', '.']),
{
    let n = g.as_str().unicode_len();
    if n == 2 && g.as_str().get_char(0) == '.' && g.as_str().get_char(1) == '.' {
        assert(g@ =~= seq!['.', '.']);
        true
    } else {
        assert(g@.len() == 2 ==> g@[0] != '.' || g@[1] != '.');
        false
    }
}

/// Whether `p` lies strictly inside `base`, `..` components taken into
/// account.
pub fn path_within(p: &str, base: &str) -> (r: bool)
    ensures
        r == path_stays_within(p@, base@),
{
    let cp = components(p);
    let cb = components(base);
    if cb.len() >= cp.len() {
        return false;
    }
    let mut i: usize = 0;
    while i < cb.len()
        invariant
            texts(cp@) == path_components(p@),
            texts(cb@) == path_components(base@),
            cb.len() < cp.len(),
            i <= cb.len(),
            forall|k: int| 0 <= k < i ==> texts(cp@)[k] == texts(cb@)[k],
        decreases cb.len() - i,
    {
        proof {
            assert(texts(cp@)[i as int] == cp@[i as int]@);
            assert(texts(cb@)[i as int] == cb@[i as int]@);
        }
        if !(cp[i] == cb[i]) {
            proof {
                assert(texts(cp@).take(cb.len() as int)[i as int] != texts(cb@)[i as int]);
            }
            return false;
        }
        i = i + 1;
    }
    proof {
        assert(texts(cp@).take(cb.len() as int) =~= texts(cb@));
    }
    let mut j: usize = cb.len();
    while j < cp.len()
        invariant
            texts(cp@) == path_components(p@),
            texts(cb@) == path_components(base@),
            texts(cp@).take(cb.len() as int) == texts(cb@),
            cb.len() <= j <= cp.len(),
            forall|k: int| cb.len() <= k < j ==> #[trigger] texts(cp@)[k] != seq!['.', '.'],
        decreases cp.len() - j,
    {
        proof {
            assert(texts(cp@)[j as int] == cp@[j as int]@);
        }
        if is_parent_text(&cp[j]) {
            return false;
        }
        j = j + 1;
    }
    true
}

/// Joins `rel` onto `base`, as `Path::join` does on Unix.
pub fn join_path(base: &str, rel: &str) -> (r: String)
    ensures
        r@ == joined_path(base@, rel@),
{
    let nr = rel.unicode_len();
    if nr > 0 && rel.get_char(0) == '/' {
        return rel.to_owned();
    }
    let nb = base.unicode_len();
    let mut out = base.to_owned();
    if nb > 0 && base.get_char(nb - 1) != '/' {
        out.append("/");
        proof {
            reveal_strlit("/");
        }
    }
    out.append(rel);
    out
}

/// The final component of `p` when it is a name, as `Path::file_name` gives it.
pub fn file_name(p: &str) -> (r: Option<String>)
    ensures
        r matches Some(x) ==> final_name(p@) == Some(x@),
        r is None ==> final_name(p@) is None,
{
    let mut c = components(p);
    let ghost t = texts(c@);
    if c.len() == 0 {
        return None;
    }
    let last = c.pop().unwrap();
    proof {
        assert(last@ == t.last());
    }
    let n = last.as_str().unicode_len();
    if text_is(&last, '/') || text_is(&last, '.') || (n == 2 && last.as_str().get_char(0) == '.'
        && last.as_str().get_char(1) == '.') {
        proof {
            if n == 2 && last@[0] == '.' && last@[1] == '.' {
                assert(last@ =~= seq!['.', '.']);
            }
        }
        None
    } else {
        proof {
            assert(last@.len() == 2 ==> last@ != seq!['.', '.'] || (last@[0] == '.' && last@[1]
                == '.'));
        }
        Some(last)
    }
}


/// The name of the shell's own directory inside the user's configuration
/// directory.
pub const APP_DIR_NAME: &'static str = "com.likun.dsh-desktop";

/// The shell's data directory under the configuration directory `config`,
/// or under `.` when there is none.
pub open spec fn data_dir_for(config: Option<Seq<char>>) -> Seq<char> {
    let base = match config {
        Some(c) => c,
        None => seq!['.'],
    };
    joined_path(base, APP_DIR_NAME@)
}

/// Calls `dirs::config_dir` and gives the path as text (through
/// `to_string_lossy`, so a path that is not UTF-8 has its invalid bytes
/// replaced). The result depends on the environment (`$XDG_CONFIG_HOME` or
/// `$HOME` on Linux, the home directory on macOS), so nothing is stated of it.
#[verifier::external_body]
fn user_config_dir() -> Option<String> {
    match dirs::config_dir() {
        Some(p) => Some(p.to_string_lossy().into_owned()),
        None => None,
    }
}

/// The shell's data directory for a given configuration directory.
pub fn app_data_dir_in(config: Option<String>) -> (r: String)
    ensures
        r@ == data_dir_for(opt_text(config)),
{
    let base = match config {
        Some(c) => c,
        None => {
            proof {
                reveal_strlit(".");
            }
            ".".to_owned()
        },
    };
    join_path(base.as_str(), APP_DIR_NAME)
}

/// The shell's data directory (holding `skins/` and `config.json`): its own
/// directory inside the user's configuration directory, or inside `.` when
/// the platform names none.
pub fn app_data_dir() -> (r: String)
    ensures
        exists|config: Option<Seq<char>>| r@ == data_dir_for(config),
{
    let config = user_config_dir();
    let ghost c = opt_text(config);
    let r = app_data_dir_in(config);
    assert(r@ == data_dir_for(c));
    r
}

/// The directory that holds the installed skins, inside the data directory.
pub fn skins_dir_in(data_dir: &str) -> (r: String)
    ensures
        r@ == joined_path(data_dir@, "skins"@),
{
    join_path(data_dir, "skins")
}

/// The file that records the active skin, inside the data directory.
pub fn config_path_in(data_dir: &str) -> (r: String)
    ensures
        r@ == joined_path(data_dir@, "config.json"@),
{
    join_path(data_dir, "config.json")
}

/// The directory that holds the installed skins.
pub fn skins_dir() -> (r: String)
    ensures
        exists|config: Option<Seq<char>>| r@ == joined_path(data_dir_for(config), "skins"@),
{
    let d = app_data_dir();
    skins_dir_in(d.as_str())
}

/// The file that records the active skin.
pub fn config_path() -> (r: String)
    ensures
        exists|config: Option<Seq<char>>| r@ == joined_path(data_dir_for(config), "config.json"@),
{
    let d = app_data_dir();
    config_path_in(d.as_str())
}

/// The directory of the skin `id` inside the skins directory `root`.
pub fn skin_dir_in(root: &str, id: &str) -> (r: String)
    ensures
        r@ == joined_path(root@, id@),
{
    join_path(root, id)
}


/// Splitting `a` followed by a text without separators extends the last
/// piece of `a`.
proof fn lemma_split_on_append(a: Seq<char>, b: Seq<char>, c: char)
    requires
        forall|k: int| 0 <= k < b.len() ==> b[k] != c,
    ensures
        split_on(a + b, c) == split_on(a, c).update(
            split_on(a, c).len() - 1,
            split_on(a, c).last() + b,
        ),
    decreases b.len(),
{
    lemma_split_on_nonempty(a, c);
    let sa = split_on(a, c);
    if b.len() == 0 {
        assert(a + b =~= a);
        assert(sa.last() + b =~= sa.last());
        assert(sa.update(sa.len() - 1, sa.last()) =~= sa);
    } else {
        let b0 = b.drop_last();
        lemma_split_on_append(a, b0, c);
        assert((a + b).drop_last() =~= a + b0);
        assert((a + b).last() == b.last());
        let p = split_on(a + b0, c);
        assert(p == sa.update(sa.len() - 1, sa.last() + b0));
        assert(p.last() == sa.last() + b0);
        assert((sa.last() + b0).push(b.last()) =~= sa.last() + b);
        assert(p.update(p.len() - 1, p.last().push(b.last())) =~= sa.update(
            sa.len() - 1,
            sa.last() + b,
        ));
    }
}

proof fn lemma_named_pieces_push(g: Seq<Seq<char>>, x: Seq<char>)
    ensures
        named_pieces(g.push(x)) == if is_named_piece(x) {
            named_pieces(g).push(x)
        } else {
            named_pieces(g)
        },
{
    assert(g.push(x).drop_last() =~= g);
}

/// The components of a directory joined with a skin id (a single name) are
/// the directory's components followed by the id: the joined path's parent
/// is the directory.
pub proof fn lemma_components_of_join(root: Seq<char>, id: Seq<char>)
    requires
        is_skin_id(id),
    ensures
        path_components(joined_path(root, id)) == path_components(root).push(id),
{
    let sep = seq!['/'];
    assert(forall|k: int| 0 <= k < id.len() ==> id[k] != '/');
    assert(id != seq!['.']);
    assert(is_named_piece(id));
    assert(id[0] != '/');
    if root.len() == 0 {
        lemma_split_on_append(root, id, '/');
        assert(root + id =~= id);
        assert(split_on(root, '/') =~= seq![Seq::<char>::empty()]);
        let e: Seq<Seq<char>> = Seq::empty();
        assert(seq![Seq::<char>::empty()] =~= e.push(Seq::<char>::empty()));
        lemma_named_pieces_push(e, Seq::<char>::empty());
        assert(Seq::<char>::empty() + id =~= id);
        assert(split_on(id, '/') =~= seq![id]);
        assert(seq![id] =~= e.push(id));
        lemma_named_pieces_push(e, id);
        assert(path_components(root) =~= Seq::<Seq<char>>::empty());
        assert(path_components(id) =~= seq![id]);
    } else {
        let base = if root.last() == '/' {
            root.drop_last()
        } else {
            root
        };
        let front = base.push('/');
        assert(joined_path(root, id) == front + id) by {
            if root.last() == '/' {
                assert(base.push('/') =~= root);
            } else {
                assert(root + sep + id =~= front + id);
            }
        }
        lemma_split_on_nonempty(base, '/');
        assert(front.drop_last() =~= base);
        let sb = split_on(base, '/');
        assert(split_on(front, '/') == sb.push(Seq::<char>::empty()));
        lemma_split_on_append(front, id, '/');
        let sf = sb.push(Seq::<char>::empty());
        assert(Seq::<char>::empty() + id =~= id);
        assert(sf.update(sf.len() - 1, sf.last() + id) =~= sb.push(id));
        assert(split_on(front + id, '/') == sb.push(id));
        lemma_named_pieces_push(sb, id);
        lemma_named_pieces_push(sb, Seq::<char>::empty());
        // The root's own pieces: those of `base`, with an empty last piece
        // when the root ends with `/`.
        if root.last() == '/' {
            assert(split_on(root, '/') == sf);
        }
        assert(named_pieces(split_on(root, '/')) == named_pieces(sb));
        assert(split_on(root, '/')[0] == sb[0]);
        assert((front + id)[0] == root[0]);
        assert(path_components(joined_path(root, id)) =~= path_components(root).push(id));
    }
}

/// The directory of a skin lies strictly inside the skins directory.
pub proof fn lemma_skin_dir_within(root: Seq<char>, id: Seq<char>)
    requires
        is_skin_id(id),
    ensures
        path_stays_within(joined_path(root, id), root),
{
    lemma_components_of_join(root, id);
    let cb = path_components(root);
    assert(cb.push(id).take(cb.len() as int) =~= cb);
}

/// A path inside a skin's directory lies inside the skins directory, in that
/// skin's directory: the component after the skins directory's is the id.
pub proof fn lemma_within_skin_is_within_root(p: Seq<char>, root: Seq<char>, id: Seq<char>)
    requires
        is_skin_id(id),
        path_stays_within(p, joined_path(root, id)),
    ensures
        path_stays_within(p, root),
        path_components(p)[path_components(root).len() as int] == id,
{
    lemma_components_of_join(root, id);
    let cp = path_components(p);
    let cb = path_components(root);
    let cd = cb.push(id);
    assert(cp.take(cd.len() as int) == cd);
    assert(cp[cb.len() as int] == cp.take(cd.len() as int)[cb.len() as int]);
    assert(cp.take(cb.len() as int) =~= cd.take(cb.len() as int));
    assert(cd.take(cb.len() as int) =~= cb);
    assert forall|k: int| cb.len() <= k < cp.len() implies #[trigger] cp[k] != seq!['.', '.'] by {
        if k == cb.len() {
            assert(cp[k] == id);
        }
    }
}

/// The layout of the data directory `d`: the skins directory and the
/// configuration file are each `d` followed by one more component (`skins`,
/// `config.json`), so both lie inside `d` with `d` as their parent, and the
/// configuration file is not inside the skins directory.
pub proof fn lemma_data_layout(d: Seq<char>)
    ensures
        path_components(joined_path(d, "skins"@)) == path_components(d).push("skins"@),
        path_components(joined_path(d, "config.json"@)) == path_components(d).push(
            "config.json"@,
        ),
        path_stays_within(joined_path(d, "skins"@), d),
        path_stays_within(joined_path(d, "config.json"@), d),
        !path_stays_within(joined_path(d, "config.json"@), joined_path(d, "skins"@)),
        joined_path(d, "config.json"@) != joined_path(d, "skins"@),
{
    reveal_strlit("skins");
    reveal_strlit("config.json");
    assert(is_skin_id("skins"@)) by {
        assert("skins"@.len() == 5);
        assert("skins"@ != seq!['.']);
        assert("skins"@ != seq!['.', '.']);
    }
    assert(is_skin_id("config.json"@)) by {
        assert("config.json"@.len() == 11);
        assert("config.json"@ != seq!['.']);
        assert("config.json"@ != seq!['.', '.']);
    }
    lemma_components_of_join(d, "skins"@);
    lemma_components_of_join(d, "config.json"@);
    lemma_skin_dir_within(d, "skins"@);
    lemma_skin_dir_within(d, "config.json"@);
    assert("skins"@ != "config.json"@) by {
        assert("skins"@.len() != "config.json"@.len());
    }
    let cd = path_components(d);
    assert(cd.push("skins"@).last() != cd.push("config.json"@).last());
}

} // verus!
