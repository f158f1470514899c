//! File results: parsing the NUL-separated path list that a Spotlight
//! metadata query prints.
use vstd::prelude::*;
use vstd::utf8::{decode_utf8, valid_utf8};

use crate::text::{chars_of, string_views};

verus! {

/// Most file results shown.
pub const MAX_FILE_RESULTS: usize = 40;

/// A file or folder result.
#[derive(Clone, Debug, PartialEq, Eq)]
pub struct FileEntry {
    pub name: String,
    pub path: String,
    pub parent: String,
}

/// A file result, as plain values.
pub struct FileView {
    pub name: Seq<char>,
    pub path: Seq<char>,
    pub parent: Seq<char>,
}

impl View for FileEntry {
    type V = FileView;

    open spec fn view(&self) -> FileView {
        FileView { name: self.name@, path: self.path@, parent: self.parent@ }
    }
}

/// What `String::from_utf8_lossy` returns for the bytes.
pub uninterp spec fn utf8_lossy(bytes: Seq<u8>) -> Seq<char>;

/// What `Path::file_name` returns for the path.
pub uninterp spec fn path_file_name(path: Seq<char>) -> Option<Seq<char>>;

/// What `Path::parent` returns for the path.
pub uninterp spec fn path_parent(path: Seq<char>) -> Option<Seq<char>>;

/// What `Path::extension` returns for the path.
pub uninterp spec fn path_extension(path: Seq<char>) -> Option<Seq<char>>;

/// Calls `String::from_utf8_lossy`. Claimed: the result is the named
/// `utf8_lossy` of the bytes, and valid UTF-8 decodes to its characters.
/// Unsaid: how invalid sequences are replaced.
#[verifier::external_body]
fn decode_lossy(bytes: &[u8]) -> (res: String)
    ensures
        res@ == utf8_lossy(bytes@),
        valid_utf8(bytes@) ==> res@ == decode_utf8(bytes@),
{
    String::from_utf8_lossy(bytes).into_owned()
}

/// Calls `Path::file_name` on `path`. Claimed: the result is the named
/// `path_file_name` of the path. Unsaid: how components are split.
#[verifier::external_body]
fn file_name_of(path: &str) -> (res: Option<String>)
    ensures
        res matches Some(name) ==> path_file_name(path@) == Some(name@),
        res is None ==> path_file_name(path@) is None,
{
    std::path::Path::new(path).file_name().map(|name| name.to_string_lossy().into_owned())
}

/// Calls `Path::parent` on `path`. Claimed: the result is the named
/// `path_parent` of the path, and a parent, having lost the last component,
/// is shorter than the path. Unsaid: how components are split.
#[verifier::external_body]
fn parent_of(path: &str) -> (res: Option<String>)
    ensures
        res matches Some(parent) ==> path_parent(path@) == Some(parent@) && parent@.len() < path@.len(),
        res is None ==> path_parent(path@) is None,
{
    std::path::Path::new(path).parent().map(|parent| parent.to_string_lossy().into_owned())
}

/// Calls `Path::extension` on `path`. Claimed: the result is the named
/// `path_extension` of the path. Unsaid: which dots start an extension.
#[verifier::external_body]
pub(crate) fn extension_of(path: &str) -> (res: Option<String>)
    ensures
        res matches Some(ext) ==> path_extension(path@) == Some(ext@),
        res is None ==> path_extension(path@) is None,
{
    std::path::Path::new(path).extension().map(|ext| ext.to_string_lossy().into_owned())
}

/// The pieces of `bytes` between NUL bytes, empty ones included (what
/// `split(|b| *b == 0)` yields).
pub open spec fn pieces(bytes: Seq<u8>) -> Seq<Seq<u8>>
    decreases bytes.len(),
{
    if bytes.len() == 0 {
        seq![Seq::empty()]
    } else {
        let prev = pieces(bytes.drop_last());
        if bytes.last() == 0 {
            prev.push(Seq::empty())
        } else {
            prev.update(prev.len() - 1, prev.last().push(bytes.last()))
        }
    }
}

/// The non-empty pieces of `bytes` between NUL bytes.
pub open spec fn nonempty_pieces(bytes: Seq<u8>) -> Seq<Seq<u8>> {
    pieces(bytes).filter(|piece: Seq<u8>| piece.len() > 0)
}

/// The pieces joined with a NUL byte between neighbours.
pub open spec fn join_with_nul(parts: Seq<Seq<u8>>) -> Seq<u8>
    decreases parts.len(),
{
    if parts.len() == 0 {
        Seq::empty()
    } else if parts.len() == 1 {
        parts[0]
    } else {
        join_with_nul(parts.drop_last()) + seq![0u8] + parts.last()
    }
}

/// Splitting at NUL bytes loses nothing and leaves no NUL inside a piece:
/// joining the pieces with NUL bytes gives the bytes back.
pub proof fn lemma_pieces_rejoin(bytes: Seq<u8>)
    ensures
        pieces(bytes).len() >= 1,
        join_with_nul(pieces(bytes)) == bytes,
        forall|i: int| 0 <= i < pieces(bytes).len() ==> !(#[trigger] pieces(bytes)[i]).contains(0u8),
    decreases bytes.len(),
{
    if bytes.len() > 0 {
        let t = bytes.drop_last();
        lemma_pieces_rejoin(t);
        let prev = pieces(t);
        let c = bytes.last();
        let cur = pieces(bytes);
        if c == 0 {
            assert(cur.drop_last() =~= prev);
            assert(join_with_nul(cur) =~= t + seq![0u8] + Seq::<u8>::empty());
            assert(bytes =~= t + seq![0u8]);
            assert forall|i: int| 0 <= i < cur.len() implies !(#[trigger] cur[i]).contains(0u8) by {
                if i < prev.len() {
                    assert(cur[i] == prev[i]);
                } else {
                    assert(cur[i] =~= Seq::<u8>::empty());
                }
            }
        } else {
            let last = prev.last().push(c);
            if prev.len() == 1 {
                assert(cur[0] == last);
                assert(join_with_nul(cur) =~= bytes);
            } else {
                assert(cur.drop_last() =~= prev.drop_last());
                assert(join_with_nul(cur) =~= join_with_nul(prev).push(c));
                assert(bytes =~= t.push(c));
            }
            assert forall|i: int| 0 <= i < cur.len() implies !(#[trigger] cur[i]).contains(0u8) by {
                if i < prev.len() - 1 {
                    assert(cur[i] == prev[i]);
                } else {
                    assert(cur[i] == last);
                    assert(!prev[prev.len() - 1].contains(0u8));
                    if last.contains(0u8) {
                        let j = choose|j: int| 0 <= j < last.len() && last[j] == 0u8;
                        if j < last.len() - 1 {
                            assert(prev.last()[j] == 0u8);
                        }
                    }
                }
            }
        }
    }
}

/// The path or one of its ancestors (the path, its parent, the parent's
/// parent and so on) has the extension `app`.
pub open spec fn inside_app_bundle(path: Seq<char>) -> bool
    decreases path.len(),
{
    if path_extension(path) == Some("app"@) {
        true
    } else {
        match path_parent(path) {
            Some(parent) => if parent.len() < path.len() {
                inside_app_bundle(parent)
            } else {
                false
            },
            None => false,
        }
    }
}

/// The parent of a path as text, empty where there is none.
pub open spec fn parent_text(path: Seq<char>) -> Seq<char> {
    match path_parent(path) {
        Some(parent) => parent,
        None => Seq::empty(),
    }
}

/// The results of the paths so far and the paths seen: a path inside an
/// application bundle is skipped; otherwise a path already seen is skipped,
/// and a new one is remembered and gives a result when it has a file name.
pub open spec fn collect_files(paths: Seq<Seq<char>>) -> (Seq<FileView>, Seq<Seq<char>>)
    decreases paths.len(),
{
    if paths.len() == 0 {
        (Seq::empty(), Seq::empty())
    } else {
        let prev = collect_files(paths.drop_last());
        let path = paths.last();
        if inside_app_bundle(path) || prev.1.contains(path) {
            prev
        } else {
            match path_file_name(path) {
                Some(name) => (
                    prev.0.push(FileView { name, path, parent: parent_text(path) }),
                    prev.1.push(path),
                ),
                None => (prev.0, prev.1.push(path)),
            }
        }
    }
}

/// The file results of the output of a metadata query: its non-empty
/// NUL-separated paths, decoded, filtered by `collect_files`, and at most
/// `limit` of them.
pub open spec fn parsed_files(output: Seq<u8>, limit: usize) -> Seq<FileView> {
    let found = collect_files(nonempty_pieces(output).map_values(|piece: Seq<u8>| utf8_lossy(piece))).0;
    if found.len() <= limit {
        found
    } else {
        found.take(limit as int)
    }
}

/// The views of a run of byte vectors.
pub open spec fn byte_views(v: Seq<Vec<u8>>) -> Seq<Seq<u8>> {
    v.map_values(|piece: Vec<u8>| piece@)
}

/// The views of a run of file results.
pub open spec fn file_views(v: Seq<FileEntry>) -> Seq<FileView> {
    v.map_values(|f: FileEntry| f@)
}

proof fn lemma_pieces_nonempty(bytes: Seq<u8>)
    ensures
        pieces(bytes).len() >= 1,
    decreases bytes.len(),
{
    if bytes.len() > 0 {
        lemma_pieces_nonempty(bytes.drop_last());
    }
}

/// The non-empty pieces of `output` between NUL bytes.
fn split_paths(output: &[u8]) -> (res: Vec<Vec<u8>>)
    ensures
        byte_views(res@) == nonempty_pieces(output@),
{
    let ghost nonempty = |piece: Seq<u8>| piece.len() > 0;
    let mut done: Vec<Vec<u8>> = Vec::new();
    let mut current: Vec<u8> = Vec::new();
    let mut i: usize = 0;
    while i < output.len()
        invariant
            i <= output@.len(),
            nonempty == |piece: Seq<u8>| piece.len() > 0,
            pieces(output@.take(i as int)).len() >= 1,
            current@ == pieces(output@.take(i as int)).last(),
            byte_views(done@) == pieces(output@.take(i as int)).drop_last().filter(nonempty),
        decreases output@.len() - i,
    {
        let ghost prefix = output@.take(i as int);
        let ghost before = pieces(prefix);
        let ghost next = output@.take(i + 1);
        proof {
            assert(next.drop_last() =~= prefix);
            assert(next.last() == output@[i as int]);
        }
        let b = output[i];
        if b == 0 {
            proof {
                assert(pieces(next) == before.push(Seq::empty()));
                assert(pieces(next).drop_last() =~= before);
                assert(before =~= before.drop_last().push(before.last()));
                before.drop_last().lemma_filter_push(before.last(), nonempty);
            }
            if current.len() > 0 {
                let ghost prev_done = done@;
                done.push(current);
                proof {
                    assert(byte_views(done@) =~= byte_views(prev_done).push(done@.last()@));
                }
            }
            current = Vec::new();
        } else {
            proof {
                lemma_pieces_nonempty(prefix);
                assert(pieces(next).drop_last() =~= before.drop_last());
            }
            current.push(b);
        }
        i = i + 1;
        proof {
            lemma_pieces_nonempty(output@.take(i as int));
        }
    }
    let ghost all = pieces(output@.take(i as int));
    proof {
        assert(output@.take(i as int) =~= output@);
        assert(all =~= all.drop_last().push(all.last()));
        all.drop_last().lemma_filter_push(all.last(), nonempty);
    }
    if current.len() > 0 {
        let ghost prev_done = done@;
        done.push(current);
        proof {
            assert(byte_views(done@) =~= byte_views(prev_done).push(done@.last()@));
        }
    }
    done
}

/// Whether the text is `app`.
fn is_app_extension(s: &str) -> (res: bool)
    ensures
        res == (s@ == "app"@),
{
    let chars = chars_of(s);
    proof {
        reveal_strlit("app");
    }
    let res = chars.len() == 3 && chars[0] == 'a' && chars[1] == 'p' && chars[2] == 'p';
    proof {
        if res {
            assert(chars@ =~= "app"@);
        }
    }
    res
}

/// Whether the path lies inside an application bundle.
fn in_app_bundle(path: &str) -> (res: bool)
    ensures
        res == inside_app_bundle(path@),
    decreases path@.len(),
{
    let is_app = match extension_of(path) {
        Some(ext) => is_app_extension(ext.as_str()),
        None => false,
    };
    if is_app {
        return true;
    }
    match parent_of(path) {
        Some(parent) => in_app_bundle(parent.as_str()),
        None => false,
    }
}

/// Whether `seen` holds `path`.
fn seen_before(seen: &Vec<String>, path: &String) -> (res: bool)
    ensures
        res == string_views(seen@).contains(path@),
{
    let mut i: usize = 0;
    while i < seen.len()
        invariant
            i <= seen@.len(),
            forall|k: int| 0 <= k < i ==> seen@[k]@ != path@,
        decreases seen@.len() - i,
    {
        if seen[i] == *path {
            proof {
                assert(string_views(seen@)[i as int] == path@);
            }
            return true;
        }
        i = i + 1;
    }
    proof {
        if string_views(seen@).contains(path@) {
            let k = choose|k: int| 0 <= k < string_views(seen@).len() && string_views(seen@)[k] == path@;
            assert(seen@[k]@ == path@);
        }
    }
    false
}

/// Parses the NUL-separated output of a metadata query into at most `limit`
/// file results (see `parsed_files`).
pub fn parse_paths(output: &[u8], limit: usize) -> (res: Vec<FileEntry>)
    ensures
        file_views(res@) == parsed_files(output@, limit),
{
    let segments = split_paths(output);
    let ghost paths = nonempty_pieces(output@).map_values(|piece: Seq<u8>| utf8_lossy(piece));
    let mut found: Vec<FileEntry> = Vec::new();
    let mut seen: Vec<String> = Vec::new();
    let mut i: usize = 0;
    while i < segments.len()
        invariant
            i <= segments@.len(),
            byte_views(segments@) == nonempty_pieces(output@),
            paths == nonempty_pieces(output@).map_values(|piece: Seq<u8>| utf8_lossy(piece)),
            file_views(found@) == collect_files(paths.take(i as int)).0,
            string_views(seen@) == collect_files(paths.take(i as int)).1,
        decreases segments@.len() - i,
    {
        let ghost next = paths.take(i + 1);
        proof {
            assert(next.drop_last() =~= paths.take(i as int));
            assert(byte_views(segments@)[i as int] == segments@[i as int]@);
            assert(next.last() == utf8_lossy(segments@[i as int]@));
        }
        let path = decode_lossy(segments[i].as_slice());
        if !in_app_bundle(path.as_str()) && !seen_before(&seen, &path) {
            let ghost prev_seen = seen@;
            seen.push(path.clone());
            proof {
                assert(string_views(seen@) =~= string_views(prev_seen).push(path@));
            }
            match file_name_of(path.as_str()) {
                Some(name) => {
                    let parent = match parent_of(path.as_str()) {
                        Some(parent) => parent,
                        None => String::new(),
                    };
                    let ghost prev_found = found@;
                    found.push(FileEntry { name, path, parent });
                    proof {
                        assert(file_views(found@) =~= file_views(prev_found).push(found@.last()@));
                    }
                },
                None => {},
            }
        }
        i = i + 1;
    }
    proof {
        assert(paths.take(i as int) =~= paths);
    }
    let ghost all = found@;
    found.truncate(limit);
    proof {
        if all.len() > limit {
            assert(file_views(found@) =~= file_views(all).take(limit as int));
        } else {
            assert(found@ =~= all);
        }
    }
    found
}

proof fn lemma_collect_files(paths: Seq<Seq<char>>)
    ensures
        ({
            let (found, seen) = collect_files(paths);
            &&& forall|i: int| 0 <= i < found.len() ==> seen.contains(#[trigger] found[i].path)
            &&& forall|i: int| 0 <= i < found.len() ==> !inside_app_bundle(#[trigger] found[i].path)
            &&& forall|i: int, j: int| 0 <= i < j < found.len() ==> #[trigger] found[i].path != #[trigger] found[j].path
        }),
    decreases paths.len(),
{
    if paths.len() > 0 {
        lemma_collect_files(paths.drop_last());
        let (found, seen) = collect_files(paths.drop_last());
        let path = paths.last();
        if !(inside_app_bundle(path) || seen.contains(path)) {
            let seen2 = seen.push(path);
            assert forall|i: int| 0 <= i < found.len() implies seen2.contains(#[trigger] found[i].path) by {
                let k = choose|k: int| 0 <= k < seen.len() && seen[k] == found[i].path;
                assert(seen2[k] == found[i].path);
            }
            assert(seen2[seen.len() as int] == path);
        }
    }
}

/// No two file results have the same path, no result lies inside an
/// application bundle, and there are at most `limit` of them.
pub proof fn lemma_parsed_files_are_distinct_and_outside_apps(output: Seq<u8>, limit: usize)
    ensures
        ({
            let files = parsed_files(output, limit);
            &&& files.len() <= limit
            &&& forall|i: int| 0 <= i < files.len() ==> !inside_app_bundle(#[trigger] files[i].path)
            &&& forall|i: int, j: int| 0 <= i < j < files.len() ==> #[trigger] files[i].path != #[trigger] files[j].path
        }),
{
    let paths = nonempty_pieces(output).map_values(|piece: Seq<u8>| utf8_lossy(piece));
    lemma_collect_files(paths);
    let found = collect_files(paths).0;
    let files = parsed_files(output, limit);
    assert forall|i: int| 0 <= i < files.len() implies files[i] == found[i] by {}
}

/// The `k`-th ancestor of a path, as `Path::ancestors` walks them: the path
/// itself, then its parent, the parent's parent, and so on; `None` once a
/// path has no parent.
pub open spec fn ancestor(path: Seq<char>, k: nat) -> Option<Seq<char>>
    decreases k,
{
    if k == 0 {
        Some(path)
    } else {
        match ancestor(path, (k - 1) as nat) {
            Some(a) => path_parent(a),
            None => None,
        }
    }
}

/// Every parent along the path's ancestors is shorter than its child (what
/// `parent_of` claims of `Path::parent`).
pub open spec fn parents_shrink(path: Seq<char>) -> bool {
    forall|k: nat|
        match #[trigger] ancestor(path, k) {
            Some(a) => match path_parent(a) {
                Some(q) => q.len() < a.len(),
                None => true,
            },
            None => true,
        }
}

/// The `k`-th ancestor of the path exists and has the extension `app`.
pub open spec fn app_ancestor(path: Seq<char>, k: nat) -> bool {
    match ancestor(path, k) {
        Some(a) => path_extension(a) == Some("app"@),
        None => false,
    }
}

proof fn lemma_ancestor_step(path: Seq<char>, k: nat)
    ensures
        ancestor(path, k + 1) == match path_parent(path) {
            Some(q) => ancestor(q, k),
            None => None,
        },
    decreases k,
{
    if k > 0 {
        lemma_ancestor_step(path, (k - 1) as nat);
        assert(ancestor(path, k + 1) == match ancestor(path, k) {
            Some(a) => path_parent(a),
            None => None,
        });
        match path_parent(path) {
            Some(q) => {
                assert(ancestor(q, k) == match ancestor(q, (k - 1) as nat) {
                    Some(a) => path_parent(a),
                    None => None,
                });
            },
            None => {},
        }
    } else {
        assert(ancestor(path, 0) == Some(path));
        assert(ancestor(path, 1) == path_parent(path));
    }
}

proof fn lemma_parent_parents_shrink(path: Seq<char>, q: Seq<char>)
    requires
        parents_shrink(path),
        path_parent(path) == Some(q),
    ensures
        parents_shrink(q),
{
    assert forall|k: nat| match #[trigger] ancestor(q, k) {
        Some(a) => match path_parent(a) {
            Some(r) => r.len() < a.len(),
            None => true,
        },
        None => true,
    } by {
        lemma_ancestor_step(path, k);
        assert(ancestor(path, k + 1) == ancestor(q, k));
    }
}

/// A path counts as inside an application bundle exactly when the path
/// itself or any of its ancestors, however far up, has the extension `app`.
pub proof fn lemma_inside_app_bundle_iff_app_ancestor(path: Seq<char>)
    requires
        parents_shrink(path),
    ensures
        inside_app_bundle(path) <==> exists|k: nat| #[trigger] app_ancestor(path, k),
    decreases path.len(),
{
    if path_extension(path) == Some("app"@) {
        assert(app_ancestor(path, 0));
    } else {
        match path_parent(path) {
            Some(q) => {
                assert(ancestor(path, 0) == Some(path));
                assert(q.len() < path.len());
                lemma_parent_parents_shrink(path, q);
                lemma_inside_app_bundle_iff_app_ancestor(q);
                if inside_app_bundle(q) {
                    let k = choose|k: nat| #[trigger] app_ancestor(q, k);
                    lemma_ancestor_step(path, k);
                    assert(app_ancestor(path, k + 1));
                }
                if exists|k: nat| #[trigger] app_ancestor(path, k) {
                    let k = choose|k: nat| #[trigger] app_ancestor(path, k);
                    assert(k > 0);
                    lemma_ancestor_step(path, (k - 1) as nat);
                    assert(app_ancestor(q, (k - 1) as nat));
                }
            },
            None => {
                if exists|k: nat| #[trigger] app_ancestor(path, k) {
                    let k = choose|k: nat| #[trigger] app_ancestor(path, k);
                    assert(k > 0);
                    lemma_ancestor_step(path, (k - 1) as nat);
                }
            },
        }
    }
}

} // verus!
