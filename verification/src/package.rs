//! Skin packages (`.dshskin`, a zip archive): which skin a package holds,
//! and where each of its entries is put when it is installed.

use vstd::prelude::*;
use vstd::string::*;
use crate::paths::{
    join_path, joined_path, lemma_within_skin_is_within_root, path_components, path_stays_within,
    path_within, skin_dir_in,
};
use crate::skin::{is_skin_id, valid_skin_id, SkinError};
use crate::text::{
    join_with, joined, lemma_split_after_piece, lemma_split_join, lemma_split_on_nonempty, opt_text, split_char, split_on, text_eq, texts,
};

verus! {

/// A package entry that holds the skin's metadata: `skin.json` at the top of
/// the package, or `<dir>/skin.json` one directory down.
pub open spec fn is_metadata_entry(name: Seq<char>) -> bool {
    let p = split_on(name, '/');
    (p.len() == 1 || p.len() == 2) && p.last() == "skin.json"@
}

/// The directory a metadata entry sits in, when it is not at the top.
pub open spec fn package_root(meta_name: Seq<char>) -> Option<Seq<char>> {
    let p = split_on(meta_name, '/');
    if p.len() == 2 {
        Some(p[0])
    } else {
        None
    }
}

/// The id a package installs under, given its metadata entry's name and the
/// `id` its `skin.json` declares (if it declares one): the directory the
/// metadata sits in when that is a valid skin id, else the declared id when
/// it is one (a package with its `skin.json` at the top), else `skin`.
pub open spec fn chosen_skin_id(meta_name: Seq<char>, declared: Option<Seq<char>>) -> Seq<char> {
    if package_root(meta_name) is Some && is_skin_id(package_root(meta_name)->0) {
        package_root(meta_name)->0
    } else if declared is Some && is_skin_id(declared->0) {
        declared->0
    } else {
        "skin"@
    }
}

/// `parts` without its leading pieces equal to `x`.
pub open spec fn without_leading(parts: Seq<Seq<char>>, x: Seq<char>) -> Seq<Seq<char>>
    decreases parts.len(),
{
    if parts.len() > 0 && parts[0] == x {
        without_leading(parts.drop_first(), x)
    } else {
        parts
    }
}

/// The path, relative to the skin's directory, at which the entry `name` is
/// put: for a package whose metadata sits in the directory `root`, the name
/// without its leading pieces equal to `root`; the whole name for a package
/// with its metadata at the top, or when stripping leaves nothing.
pub open spec fn relative_entry_path(name: Seq<char>, root: Option<Seq<char>>) -> Seq<char> {
    let pieces = split_on(name, '/');
    let kept = match root {
        Some(r) => without_leading(pieces, r),
        None => pieces,
    };
    let rel = joined(kept, "/"@);
    if rel.len() == 0 {
        name
    } else {
        rel
    }
}

/// An entry that stands for a directory: its name ends with `/`.
pub open spec fn is_dir_entry(name: Seq<char>) -> bool {
    name.len() > 0 && name.last() == '/'
}

/// Where the entry `name` is written when the skin's directory is `dest`:
/// nowhere for a directory entry, nor when the joined path would not lie
/// strictly inside `dest` (an absolute name, or one whose `..` would climb
/// out); otherwise `dest` joined with the entry's relative path.
pub open spec fn entry_target(name: Seq<char>, root: Option<Seq<char>>, dest: Seq<char>) -> Option<Seq<char>> {
    if is_dir_entry(name) {
        None
    } else {
        let out = joined_path(dest, relative_entry_path(name, root));
        if path_stays_within(out, dest) {
            Some(out)
        } else {
            None
        }
    }
}

/// An entry whose name does not start with the package's directory keeps
/// its whole name: a package with its `skin.json` at the top has each
/// file entry written at the skin's directory joined with the entry's own
/// name (`assets/preview.png` to `<dest>/assets/preview.png`), whatever the
/// number of its pieces, whenever that path lies inside the directory.
pub proof fn lemma_unprefixed_entry_keeps_its_name(
    name: Seq<char>,
    root: Option<Seq<char>>,
    dest: Seq<char>,
)
    requires
        root is None || split_on(name, '/')[0] != root->0,
    ensures
        relative_entry_path(name, root) == name,
        !is_dir_entry(name) && path_stays_within(joined_path(dest, name), dest) ==> entry_target(
            name,
            root,
            dest,
        ) == Some(joined_path(dest, name)),
        is_dir_entry(name) || !path_stays_within(joined_path(dest, name), dest) ==> entry_target(
            name,
            root,
            dest,
        ) is None,
{
    reveal_strlit("/");
    lemma_split_join(name, '/');
    lemma_split_on_nonempty(name, '/');
    assert("/"@ =~= seq!['/']);
    let pieces = split_on(name, '/');
    match root {
        Some(r) => {
            assert(without_leading(pieces, r) == pieces);
        },
        None => {},
    }
}

/// In a package whose metadata sits in the directory `root`, an entry
/// `<root>/<rest>` is written at the skin's directory joined with `rest`
/// (`pkg/assets/bg.png` to `<dest>/assets/bg.png`), whatever the number of
/// pieces of `rest`, whenever that path lies inside the directory.
pub proof fn lemma_entry_under_package_dir(
    root: Seq<char>,
    rest: Seq<char>,
    dest: Seq<char>,
)
    requires
        forall|k: int| 0 <= k < root.len() ==> root[k] != '/',
        rest.len() > 0,
        split_on(rest, '/')[0] != root,
    ensures
        relative_entry_path(root.push('/') + rest, Some(root)) == rest,
        !is_dir_entry(rest) && path_stays_within(joined_path(dest, rest), dest) ==> entry_target(
            root.push('/') + rest,
            Some(root),
            dest,
        ) == Some(joined_path(dest, rest)),
        is_dir_entry(rest) || !path_stays_within(joined_path(dest, rest), dest) ==> entry_target(
            root.push('/') + rest,
            Some(root),
            dest,
        ) is None,
{
    reveal_strlit("/");
    assert("/"@ =~= seq!['/']);
    let name = root.push('/') + rest;
    lemma_split_after_piece(root, rest, '/');
    lemma_split_join(rest, '/');
    lemma_split_on_nonempty(rest, '/');
    let q = split_on(rest, '/');
    let pieces = seq![root] + q;
    assert(pieces[0] == root);
    assert(pieces.drop_first() =~= q);
    assert(without_leading(q, root) == q);
    assert(without_leading(pieces, root) == q);
    assert(name.last() == rest.last());
}

/// Whether the entry `name` holds the skin's metadata.
pub fn metadata_entry(name: &str) -> (r: bool)
    ensures
        r == is_metadata_entry(name@),
{
    let parts = split_char(name, '/');
    proof {
        lemma_split_on_nonempty(name@, '/');
    }
    let n = parts.len();
    if n == 1 || n == 2 {
        proof {
            assert(texts(parts@).last() == parts@[n - 1]@);
        }
        text_eq(parts[n - 1].as_str(), "skin.json")
    } else {
        false
    }
}

/// The id a package installs under (see `chosen_skin_id`).
pub fn skin_id_for(meta_name: &str, declared: Option<String>) -> (r: String)
    ensures
        r@ == chosen_skin_id(meta_name@, opt_text(declared)),
        is_skin_id(r@),
{
    let parts = split_char(meta_name, '/');
    if parts.len() == 2 {
        proof {
            assert(texts(parts@)[0] == parts@[0]@);
        }
        if valid_skin_id(parts[0].as_str()) {
            return parts[0].clone();
        }
    }
    if let Some(d) = declared {
        if valid_skin_id(d.as_str()) {
            return d;
        }
    }
    proof {
        reveal_strlit("skin");
        assert("skin"@[0] == 's');
        assert forall|k: int| 0 <= k < "skin"@.len() implies #[trigger] "skin"@[k] != '/' by {
        }
    }
    "skin".to_owned()
}

/// The entry's path relative to the skin's directory.
pub fn relative_path_of_entry(name: &str, root: Option<&str>) -> (r: String)
    ensures
        r@ == relative_entry_path(
            name@,
            match root {
                Some(x) => Some(x@),
                None => None,
            },
        ),
{
    let parts = split_char(name, '/');
    let ghost g = texts(parts@);
    let mut k: usize = 0;
    match root {
        None => {},
        Some(x) => {
            proof {
                assert(g.skip(0) =~= g);
            }
            while k < parts.len() && text_eq(parts[k].as_str(), x)
                invariant
                    g == texts(parts@),
                    k <= parts.len(),
                    without_leading(g, x@) == without_leading(g.skip(k as int), x@),
                decreases parts.len() - k,
            {
                proof {
                    assert(g.skip(k as int).drop_first() =~= g.skip(k + 1));
                    assert(g.skip(k as int)[0] == parts@[k as int]@);
                }
                k = k + 1;
            }
            proof {
                if k < parts.len() {
                    assert(g.skip(k as int)[0] == parts@[k as int]@);
                }
            }
        },
    }
    let ghost kept = g.skip(k as int);
    proof {
        if root is None {
            assert(g.skip(0) =~= g);
        }
    }
    let mut rest: Vec<String> = Vec::new();
    let mut j: usize = k;
    proof {
        assert(texts(rest@) =~= g.subrange(k as int, k as int));
    }
    while j < parts.len()
        invariant
            g == texts(parts@),
            k <= j <= parts.len(),
            texts(rest@) == g.subrange(k as int, j as int),
        decreases parts.len() - j,
    {
        let ghost before = texts(rest@);
        rest.push(parts[j].clone());
        proof {
            assert(texts(rest@) =~= before.push(parts@[j as int]@));
            assert(g.subrange(k as int, j + 1) =~= g.subrange(k as int, j as int).push(g[j as int]));
        }
        j = j + 1;
    }
    proof {
        assert(g.subrange(k as int, parts.len() as int) =~= kept);
    }
    let rel = join_with(&rest, "/");
    if rel.as_str().unicode_len() == 0 {
        name.to_owned()
    } else {
        rel
    }
}

/// Where the entry `name` is written when the skin's directory is `dest`,
/// or `None` when it is skipped.
pub fn extraction_target(name: &str, root: Option<&str>, dest: &str) -> (r: Option<String>)
    ensures
        r matches Some(x) ==> entry_target(
            name@,
            match root {
                Some(x) => Some(x@),
                None => None,
            },
            dest@,
        ) == Some(x@),
        r is None ==> entry_target(
            name@,
            match root {
                Some(x) => Some(x@),
                None => None,
            },
            dest@,
        ) is None,
{
    let n = name.unicode_len();
    if n > 0 && name.get_char(n - 1) == '/' {
        return None;
    }
    let rel = relative_path_of_entry(name, root);
    let out = join_path(dest, rel.as_str());
    if path_within(out.as_str(), dest) {
        Some(out)
    } else {
        None
    }
}

#[verifier::external_type_specification]
#[verifier::external_body]
#[verifier::reject_recursive_types(R)]
pub struct ExZipArchive<R>(zip::ZipArchive<R>);

#[verifier::external_type_specification]
#[verifier::external_body]
#[verifier::reject_recursive_types(T)]
pub struct ExCursor<T>(std::io::Cursor<T>);

#[verifier::external_type_specification]
#[verifier::external_body]
pub struct ExZipError(zip::result::ZipError);

#[verifier::external_type_specification]
#[verifier::external_body]
pub struct ExIoError(std::io::Error);

/// A skin package opened as a zip archive over its bytes.
pub type PackageArchive = zip::ZipArchive<std::io::Cursor<Vec<u8>>>;

/// The names of a package archive's entries, in the archive's order.
pub uninterp spec fn archive_entry_names(archive: zip::ZipArchive<std::io::Cursor<Vec<u8>>>) -> Seq<Seq<char>>;

/// For each entry of a package archive, in the archive's order, whether
/// `ZipArchive::by_index` opens it (it does not for an encrypted entry or an
/// unknown compression method).
pub uninterp spec fn archive_entry_opens(archive: zip::ZipArchive<std::io::Cursor<Vec<u8>>>) -> Seq<bool>;

/// For each entry of a package archive, in the archive's order, its
/// decompressed contents when reading the opened entry to its end succeeds,
/// and `None` when it fails (corrupt data).
pub uninterp spec fn archive_entry_data(archive: zip::ZipArchive<std::io::Cursor<Vec<u8>>>) -> Seq<Option<Seq<u8>>>;

/// Whether `zip::ZipArchive::new` accepts these bytes as a zip archive (it
/// reads only from the bytes, with its default configuration, so the answer
/// depends on them alone).
pub uninterp spec fn zip_accepts(bytes: Seq<u8>) -> bool;

/// The names of the entries of the zip archive these bytes hold, in the
/// archive's order, as `zip::ZipArchive::new` reads them.
pub uninterp spec fn zip_entry_names(bytes: Seq<u8>) -> Seq<Seq<char>>;

/// For each entry of the zip archive these bytes hold, in the archive's
/// order, whether `ZipArchive::by_index` opens it.
pub uninterp spec fn zip_entry_opens(bytes: Seq<u8>) -> Seq<bool>;

/// For each entry of the zip archive these bytes hold, in the archive's
/// order, its decompressed contents when reading it to its end succeeds,
/// and `None` when it fails.
pub uninterp spec fn zip_entry_data(bytes: Seq<u8>) -> Seq<Option<Seq<u8>>>;

/// Calls `zip::ZipArchive::new` on the package's bytes, held in a
/// `std::io::Cursor`. It reads the archive's central directory; it succeeds
/// exactly on the bytes it accepts, which are named, not spelled out, and
/// the archive it gives has the entries those bytes hold.
#[verifier::external_body]
fn read_archive(bytes: Vec<u8>) -> (r: Result<PackageArchive, zip::result::ZipError>)
    ensures
        r is Ok <==> zip_accepts(bytes@),
        r matches Ok(a) ==> archive_entry_names(a) == zip_entry_names(bytes@)
            && archive_entry_opens(a) == zip_entry_opens(bytes@) && archive_entry_data(a)
            == zip_entry_data(bytes@),
{
    zip::ZipArchive::new(std::io::Cursor::new(bytes))
}

/// Calls `ZipArchive::len`: the number of entries, which the archive's lists
/// of entry names, of whether each opens and of entry contents all have.
#[verifier::external_body]
fn archive_len(archive: &PackageArchive) -> (r: usize)
    ensures
        r == archive_entry_names(*archive).len(),
        r == archive_entry_opens(*archive).len(),
        r == archive_entry_data(*archive).len(),
{
    archive.len()
}

/// Calls `ZipArchive::by_index` for entry `i`, takes its name
/// (`ZipFile::name`) and reads it to its end (`Read::read_to_end`): its name,
/// and its decompressed contents or why they could not be read. `by_index`
/// fails with `FileNotFound` past the last entry, and with
/// `UnsupportedArchive`, `InvalidArchive`, `InvalidPassword` or an I/O error
/// on an entry it cannot open; both steps read from the archive's bytes
/// alone, so whether an entry opens and whether it reads are named per
/// entry. The archive's entries stay as they were.
#[verifier::external_body]
fn read_entry(archive: &mut PackageArchive, i: usize) -> (r: Result<
    (String, Result<Vec<u8>, std::io::Error>),
    zip::result::ZipError,
>)
    ensures
        archive_entry_names(*final(archive)) == archive_entry_names(*old(archive)),
        archive_entry_opens(*final(archive)) == archive_entry_opens(*old(archive)),
        archive_entry_data(*final(archive)) == archive_entry_data(*old(archive)),
        i < archive_entry_names(*old(archive)).len() ==> (r is Ok <==> archive_entry_opens(
            *old(archive),
        )[i as int]),
        i >= archive_entry_names(*old(archive)).len() ==> r is Err,
        r matches Ok((n, d)) ==> i < archive_entry_names(*old(archive)).len() && n@
            == archive_entry_names(*old(archive))[i as int] && (d is Ok <==> archive_entry_data(
            *old(archive),
        )[i as int] is Some) && (d matches Ok(b) ==> archive_entry_data(*old(archive))[i as int]
            == Some(b@)),
{
    match archive.by_index(i) {
        Ok(mut f) => {
            let name = f.name().to_owned();
            let mut buf: Vec<u8> = Vec::new();
            let data = match std::io::Read::read_to_end(&mut f, &mut buf) {
                Ok(_) => Ok(buf),
                Err(e) => Err(e),
            };
            Ok((name, data))
        },
        Err(e) => Err(e),
    }
}

/// Calls `Display` of `zip::result::ZipError` (through `to_string`). The text
/// is not stated.
#[verifier::external_body]
fn zip_error_text(e: &zip::result::ZipError) -> String {
    e.to_string()
}

/// Calls `Display` of `std::io::Error` (through `to_string`). The text is not
/// stated.
#[verifier::external_body]
fn io_error_text(e: &std::io::Error) -> String {
    e.to_string()
}

/// Opens the bytes of a `.dshskin` file as a zip archive, which holds the
/// entries of those bytes; a file that is not one is refused with the
/// archive reader's reason.
pub fn open_package(bytes: Vec<u8>) -> (r: Result<PackageArchive, SkinError>)
    ensures
        r is Ok <==> zip_accepts(bytes@),
        r matches Ok(a) ==> archive_entry_names(a) == zip_entry_names(bytes@)
            && archive_entry_opens(a) == zip_entry_opens(bytes@) && archive_entry_data(a)
            == zip_entry_data(bytes@),
        r matches Err(e) ==> e is NotAPackage,
{
    match read_archive(bytes) {
        Ok(a) => Ok(a),
        Err(e) => Err(SkinError::NotAPackage(zip_error_text(&e))),
    }
}

/// The entry that holds a package's metadata, with its contents when they
/// read (installing the package then fails at that entry).
#[derive(Debug)]
pub struct PackageMetadata {
    pub index: usize,
    pub name: String,
    pub contents: Option<Vec<u8>>,
}

/// The bytes an optional buffer holds.
pub open spec fn opt_bytes(o: Option<Vec<u8>>) -> Option<Seq<u8>> {
    match o {
        Some(v) => Some(v@),
        None => None,
    }
}

/// A file that installing a package writes: where, and what.
#[derive(Debug)]
pub struct PlannedFile {
    pub path: String,
    pub data: Vec<u8>,
}

/// How a package is installed: the skin it holds, the directory it goes to,
/// the files to write there in order, and, when reading the package stopped
/// early, why (the files before that point are still written, as they are by
/// an extraction that fails part way).
#[derive(Debug)]
pub struct InstallPlan {
    pub skin_id: String,
    pub dest: String,
    pub files: Vec<PlannedFile>,
    pub failure: Option<SkinError>,
}

/// The paths and contents of planned files.
pub open spec fn file_views(v: Seq<PlannedFile>) -> Seq<(Seq<char>, Seq<u8>)> {
    v.map_values(|f: PlannedFile| (f.path@, f.data@))
}

/// Where the search for the metadata entry stops among the first `m`
/// entries: at the first entry that does not open or that holds the
/// metadata.
pub open spec fn metadata_stop(names: Seq<Seq<char>>, opens: Seq<bool>, m: int) -> Option<int>
    decreases m,
{
    if m <= 0 {
        None
    } else {
        match metadata_stop(names, opens, m - 1) {
            Some(k) => Some(k),
            None => if !opens[m - 1] || is_metadata_entry(names[m - 1]) {
                Some(m - 1)
            } else {
                None
            },
        }
    }
}

/// Where extracting the first `m` entries into `dest` fails: at the first
/// entry that does not open, or that has a target but whose contents do not
/// read.
pub open spec fn extraction_stop(
    names: Seq<Seq<char>>,
    opens: Seq<bool>,
    data: Seq<Option<Seq<u8>>>,
    root: Option<Seq<char>>,
    dest: Seq<char>,
    m: int,
) -> Option<int>
    decreases m,
{
    if m <= 0 {
        None
    } else {
        match extraction_stop(names, opens, data, root, dest, m - 1) {
            Some(k) => Some(k),
            None => if !opens[m - 1] || (entry_target(names[m - 1], root, dest) is Some
                && data[m - 1] is None) {
                Some(m - 1)
            } else {
                None
            },
        }
    }
}

/// The files written for the first `m` entries: each entry that has a
/// target, with its contents.
pub open spec fn planned_files(
    names: Seq<Seq<char>>,
    data: Seq<Option<Seq<u8>>>,
    root: Option<Seq<char>>,
    dest: Seq<char>,
    m: int,
) -> Seq<(Seq<char>, Seq<u8>)>
    decreases m,
{
    if m <= 0 {
        Seq::empty()
    } else {
        let r = planned_files(names, data, root, dest, m - 1);
        match entry_target(names[m - 1], root, dest) {
            Some(t) => match data[m - 1] {
                Some(b) => r.push((t, b)),
                None => r,
            },
            None => r,
        }
    }
}

/// Every planned file lies strictly inside `dest`, with no `..` to climb out.
pub proof fn lemma_planned_files_stay_within(
    names: Seq<Seq<char>>,
    data: Seq<Option<Seq<u8>>>,
    root: Option<Seq<char>>,
    dest: Seq<char>,
    m: int,
)
    ensures
        forall|k: int|
            0 <= k < planned_files(names, data, root, dest, m).len() ==> path_stays_within(
                #[trigger] planned_files(names, data, root, dest, m)[k].0,
                dest,
            ),
    decreases m,
{
    if m > 0 {
        lemma_planned_files_stay_within(names, data, root, dest, m - 1);
        let r = planned_files(names, data, root, dest, m - 1);
        match entry_target(names[m - 1], root, dest) {
            Some(t) => match data[m - 1] {
                Some(b) => {
                    let q = r.push((t, b));
                    assert forall|k: int| 0 <= k < q.len() implies path_stays_within(
                        #[trigger] q[k].0,
                        dest,
                    ) by {
                        if k < r.len() {
                            assert(q[k] == r[k]);
                        }
                    }
                },
                None => {},
            },
            None => {},
        }
    }
}

/// Each planned file, read back through `file_views`, lies inside `dest`.
proof fn lemma_files_stay_within(
    files: Seq<PlannedFile>,
    planned: Seq<(Seq<char>, Seq<u8>)>,
    dest: Seq<char>,
)
    requires
        file_views(files) == planned,
        forall|k: int| 0 <= k < planned.len() ==> path_stays_within(#[trigger] planned[k].0, dest),
    ensures
        forall|k: int| 0 <= k < files.len() ==> path_stays_within(#[trigger] files[k].path@, dest),
{
    assert forall|k: int| 0 <= k < files.len() implies path_stays_within(
        #[trigger] files[k].path@,
        dest,
    ) by {
        assert(file_views(files)[k] == (files[k].path@, files[k].data@));
        assert(planned[k].0 == files[k].path@);
    }
}

/// Files inside a skin's directory lie inside the skins directory, in that
/// skin's own directory, so installing a skin leaves the others untouched.
proof fn lemma_files_in_their_skin(files: Seq<PlannedFile>, root: Seq<char>, id: Seq<char>)
    requires
        is_skin_id(id),
        forall|k: int|
            0 <= k < files.len() ==> path_stays_within(
                #[trigger] files[k].path@,
                joined_path(root, id),
            ),
    ensures
        forall|k: int|
            0 <= k < files.len() ==> path_stays_within(#[trigger] files[k].path@, root)
                && path_components(files[k].path@)[path_components(root).len() as int] == id,
{
    assert forall|k: int| 0 <= k < files.len() implies path_stays_within(
        #[trigger] files[k].path@,
        root,
    ) && path_components(files[k].path@)[path_components(root).len() as int] == id by {
        lemma_within_skin_is_within_root(files[k].path@, root, id);
    }
}

/// Finds the entry that holds the package's metadata and reads it: the first
/// entry named `skin.json` or `<dir>/skin.json`, with its contents when they
/// read. The search fails on an entry up to it that does not open; without
/// such an entry the package holds no metadata.
pub fn find_metadata(archive: &mut PackageArchive) -> (r: Result<PackageMetadata, SkinError>)
    ensures
        archive_entry_names(*final(archive)) == archive_entry_names(*old(archive)),
        archive_entry_opens(*final(archive)) == archive_entry_opens(*old(archive)),
        archive_entry_data(*final(archive)) == archive_entry_data(*old(archive)),
        ({
            let names = archive_entry_names(*old(archive));
            let opens = archive_entry_opens(*old(archive));
            let data = archive_entry_data(*old(archive));
            match metadata_stop(names, opens, names.len() as int) {
                None => r matches Err(e) && e is NoSkinJson,
                Some(j) => if opens[j] {
                    r matches Ok(m) && m.index == j && m.name@ == names[j] && is_metadata_entry(
                        m.name@,
                    ) && data[j] == opt_bytes(m.contents)
                } else {
                    r matches Err(e) && e is Archive
                },
            }
        }),
{
    let ghost names = archive_entry_names(*archive);
    let ghost opens = archive_entry_opens(*archive);
    let ghost data = archive_entry_data(*archive);
    let n = archive_len(archive);
    let mut i: usize = 0;
    while i < n
        invariant
            archive_entry_names(*archive) == names,
            archive_entry_opens(*archive) == opens,
            archive_entry_data(*archive) == data,
            names == archive_entry_names(*old(archive)),
            opens == archive_entry_opens(*old(archive)),
            data == archive_entry_data(*old(archive)),
            n == names.len(),
            n == opens.len(),
            n == data.len(),
            i <= n,
            metadata_stop(names, opens, i as int) is None,
        decreases n - i,
    {
        proof {
            lemma_metadata_stop_prefix(names, opens, i as int + 1, n as int);
        }
        match read_entry(archive, i) {
            Err(e) => {
                return Err(SkinError::Archive(zip_error_text(&e)));
            },
            Ok((name, contents)) => {
                if metadata_entry(name.as_str()) {
                    let contents = match contents {
                        Ok(c) => Some(c),
                        Err(_) => None,
                    };
                    return Ok(PackageMetadata { index: i, name, contents });
                }
            },
        }
        i = i + 1;
    }
    Err(SkinError::NoSkinJson)
}

/// Once the search stops among the first `i` entries, it stops there among
/// any more.
proof fn lemma_metadata_stop_prefix(names: Seq<Seq<char>>, opens: Seq<bool>, i: int, m: int)
    requires
        0 <= i <= m,
    ensures
        metadata_stop(names, opens, i) is Some ==> metadata_stop(names, opens, m) == metadata_stop(
            names,
            opens,
            i,
        ),
    decreases m - i,
{
    if i < m {
        lemma_metadata_stop_prefix(names, opens, i, m - 1);
    }
}

/// Once extraction stops among the first `i` entries, it stops there among
/// any more.
proof fn lemma_extraction_stop_prefix(
    names: Seq<Seq<char>>,
    opens: Seq<bool>,
    data: Seq<Option<Seq<u8>>>,
    root: Option<Seq<char>>,
    dest: Seq<char>,
    i: int,
    m: int,
)
    requires
        0 <= i <= m,
    ensures
        extraction_stop(names, opens, data, root, dest, i) is Some ==> extraction_stop(
            names,
            opens,
            data,
            root,
            dest,
            m,
        ) == extraction_stop(names, opens, data, root, dest, i),
    decreases m - i,
{
    if i < m {
        lemma_extraction_stop_prefix(names, opens, data, root, dest, i, m - 1);
    }
}

/// Plans the installation of a package into the skins directory `root`,
/// given the name of its metadata entry and the `id` its `skin.json`
/// declares: the skin's id is `chosen_skin_id`, its directory is `root`
/// joined with that id, and each entry, in order, is written to its target
/// there (directory entries, and entries whose target would not lie inside
/// that directory, are skipped). When an entry does not open, or one with a
/// target does not read, the plan holds the files of the entries before it
/// and the reason.
pub fn plan_install(
    archive: &mut PackageArchive,
    root: &str,
    metadata_name: &str,
    declared_id: Option<String>,
) -> (plan: InstallPlan)
    ensures
        archive_entry_names(*final(archive)) == archive_entry_names(*old(archive)),
        archive_entry_opens(*final(archive)) == archive_entry_opens(*old(archive)),
        archive_entry_data(*final(archive)) == archive_entry_data(*old(archive)),
        plan.skin_id@ == chosen_skin_id(metadata_name@, opt_text(declared_id)),
        package_root(metadata_name@) matches Some(d) ==> (is_skin_id(d) ==> plan.skin_id@ == d),
        is_skin_id(plan.skin_id@),
        plan.dest@ == joined_path(root@, plan.skin_id@),
        ({
            let names = archive_entry_names(*old(archive));
            let opens = archive_entry_opens(*old(archive));
            let data = archive_entry_data(*old(archive));
            let pr = package_root(metadata_name@);
            match extraction_stop(names, opens, data, pr, plan.dest@, names.len() as int) {
                None => plan.failure is None && file_views(plan.files@) == planned_files(
                    names,
                    data,
                    pr,
                    plan.dest@,
                    names.len() as int,
                ),
                Some(k) => plan.failure matches Some(e) && e is Archive && file_views(plan.files@)
                    == planned_files(names, data, pr, plan.dest@, k),
            }
        }),
        forall|k: int|
            0 <= k < plan.files.len() ==> path_stays_within(
                #[trigger] plan.files@[k].path@,
                plan.dest@,
            ),
        forall|k: int|
            0 <= k < plan.files.len() ==> path_stays_within(#[trigger] plan.files@[k].path@, root@)
                && path_components(plan.files@[k].path@)[path_components(root@).len() as int]
                == plan.skin_id@,
{
    let ghost names = archive_entry_names(*archive);
    let ghost opens = archive_entry_opens(*archive);
    let ghost data = archive_entry_data(*archive);
    let ghost pr = package_root(metadata_name@);
    let ghost wanted = chosen_skin_id(metadata_name@, opt_text(declared_id));
    let skin_id = skin_id_for(metadata_name, declared_id);
    let dest = skin_dir_in(root, skin_id.as_str());
    let parts = split_char(metadata_name, '/');
    let strip: Option<&str> = if parts.len() == 2 {
        Some(parts[0].as_str())
    } else {
        None
    };
    proof {
        if parts.len() == 2 {
            assert(texts(parts@)[0] == parts@[0]@);
        }
        assert(match strip {
            Some(x) => Some(x@),
            None => None,
        } == pr);
    }
    let n = archive_len(archive);
    let mut files: Vec<PlannedFile> = Vec::new();
    let mut i: usize = 0;
    proof {
        assert(file_views(files@) =~= planned_files(names, data, pr, dest@, 0));
    }
    while i < n
        invariant
            archive_entry_names(*archive) == names,
            archive_entry_opens(*archive) == opens,
            archive_entry_data(*archive) == data,
            names == archive_entry_names(*old(archive)),
            opens == archive_entry_opens(*old(archive)),
            data == archive_entry_data(*old(archive)),
            match strip {
                Some(x) => Some(x@),
                None => None,
            } == pr,
            skin_id@ == wanted,
            wanted == chosen_skin_id(metadata_name@, opt_text(declared_id)),
            pr == package_root(metadata_name@),
            is_skin_id(skin_id@),
            dest@ == joined_path(root@, skin_id@),
            n == names.len(),
            n == opens.len(),
            n == data.len(),
            i <= n,
            extraction_stop(names, opens, data, pr, dest@, i as int) is None,
            file_views(files@) == planned_files(names, data, pr, dest@, i as int),
        decreases n - i,
    {
        let ghost before = file_views(files@);
        proof {
            lemma_extraction_stop_prefix(names, opens, data, pr, dest@, i as int + 1, n as int);
        }
        match read_entry(archive, i) {
            Err(e) => {
                let failure = Some(SkinError::Archive(zip_error_text(&e)));
                proof {
                    assert(!opens[i as int]);
                    assert(extraction_stop(names, opens, data, pr, dest@, i as int + 1) == Some(
                        i as int,
                    ));
                    lemma_extraction_stop_prefix(names, opens, data, pr, dest@, i as int + 1, n as int);
                    assert(extraction_stop(names, opens, data, pr, dest@, n as int) == Some(i as int));
                }
                let plan = InstallPlan { skin_id, dest, files, failure };
                proof {
                    lemma_planned_files_stay_within(names, data, pr, plan.dest@, i as int);
                    lemma_files_stay_within(
                        plan.files@,
                        planned_files(names, data, pr, plan.dest@, i as int),
                        plan.dest@,
                    );
                    lemma_files_in_their_skin(plan.files@, root@, plan.skin_id@);
                }
                return plan;
            },
            Ok((name, contents)) => {
                match extraction_target(name.as_str(), strip, dest.as_str()) {
                    None => {},
                    Some(path) => {
                        match contents {
                            Err(e) => {
                                let failure = Some(SkinError::Archive(io_error_text(&e)));
                                proof {
                                    assert(data[i as int] is None);
                                    assert(entry_target(names[i as int], pr, dest@) is Some);
                                    assert(extraction_stop(names, opens, data, pr, dest@, i as int + 1)
                                        == Some(i as int));
                                    lemma_extraction_stop_prefix(names, opens, data, pr, dest@, i as int + 1, n as int);
                                    assert(extraction_stop(names, opens, data, pr, dest@, n as int) == Some(i as int));
                                }
                                let plan = InstallPlan { skin_id, dest, files, failure };
                                proof {
                                    lemma_planned_files_stay_within(
                                        names,
                                        data,
                                        pr,
                                        plan.dest@,
                                        i as int,
                                    );
                                    lemma_files_stay_within(
                                        plan.files@,
                                        planned_files(names, data, pr, plan.dest@, i as int),
                                        plan.dest@,
                                    );
                                    lemma_files_in_their_skin(plan.files@, root@, plan.skin_id@);
                                }
                                return plan;
                            },
                            Ok(d) => {
                                files.push(PlannedFile { path, data: d });
                                proof {
                                    assert(file_views(files@) =~= before.push((path@, d@)));
                                }
                            },
                        }
                    },
                }
            },
        }
        i = i + 1;
    }
    let plan = InstallPlan { skin_id, dest, files, failure: None };
    proof {
        lemma_planned_files_stay_within(names, data, pr, plan.dest@, n as int);
        lemma_files_stay_within(
            plan.files@,
            planned_files(names, data, pr, plan.dest@, n as int),
            plan.dest@,
        );
        lemma_files_in_their_skin(plan.files@, root@, plan.skin_id@);
    }
    plan
}

} // verus!
