//! Decisions about installed applications: which directory entries are
//! applications, what they are called, in which order they are listed and
//! which icon file stands in for a missing one.
use vstd::prelude::*;

use crate::search::{key_before, lemma_key_before_strict, lemma_key_before_transitive};
use crate::text::{chars_less, chars_of, lowercase, lowercase_chars, string_from_chars, string_views};

verus! {

/// The file name ends with `.app`.
pub open spec fn has_app_suffix(name: Seq<char>) -> bool {
    name.len() >= 4 && name.skip(name.len() - 4) == ".app"@
}

/// The name without every trailing `.app` (what `trim_end_matches(".app")`
/// leaves).
pub open spec fn without_app_suffixes(name: Seq<char>) -> Seq<char>
    decreases name.len(),
{
    if has_app_suffix(name) {
        without_app_suffixes(name.take(name.len() - 4))
    } else {
        name
    }
}

/// The four characters of `name` from `at` on are `.app`.
pub open spec fn app_block(name: Seq<char>, at: int) -> bool {
    0 <= at && at + 4 <= name.len() && name.subrange(at, at + 4) == ".app"@
}

/// Dropping the `.app` suffixes keeps a prefix that no longer ends in `.app`
/// and removes only whole `.app` blocks.
pub proof fn lemma_app_suffixes_removed(name: Seq<char>)
    ensures
        ({
            let r = without_app_suffixes(name);
            &&& r.len() <= name.len()
            &&& name.take(r.len() as int) == r
            &&& !has_app_suffix(r)
            &&& (name.len() - r.len()) % 4 == 0
            &&& forall|at: int|
                r.len() <= at < name.len() && (at - r.len()) % 4 == 0 ==> #[trigger] app_block(name, at)
        }),
    decreases name.len(),
{
    if has_app_suffix(name) {
        let p = name.take(name.len() - 4);
        lemma_app_suffixes_removed(p);
        let r = without_app_suffixes(p);
        assert(without_app_suffixes(name) == r);
        assert(name.take(r.len() as int) =~= p.take(r.len() as int));
        assert forall|at: int| r.len() <= at < name.len() && (at - r.len()) % 4 == 0 implies #[trigger] app_block(name, at) by {
            if at < p.len() {
                assert(app_block(p, at));
                assert(name.subrange(at, at + 4) =~= p.subrange(at, at + 4));
            } else {
                assert(at == name.len() - 4);
                assert(name.subrange(at, at + 4) =~= name.skip(name.len() - 4));
            }
        }
    } else {
        assert(name.take(name.len() as int) =~= name);
    }
}

fn ends_with_app(name: &[char], end: usize) -> (res: bool)
    requires
        end <= name@.len(),
    ensures
        res == has_app_suffix(name@.take(end as int)),
{
    proof {
        reveal_strlit(".app");
    }
    if end < 4 {
        return false;
    }
    let res = name[end - 4] == '.' && name[end - 3] == 'a' && name[end - 2] == 'p' && name[end - 1] == 'p';
    proof {
        let t = name@.take(end as int);
        let tail = t.skip(t.len() - 4);
        if res {
            assert(tail =~= ".app"@);
        } else {
            if tail == ".app"@ {
                assert(tail[0] == t[end - 4]);
                assert(tail[1] == t[end - 3]);
                assert(tail[2] == t[end - 2]);
                assert(tail[3] == t[end - 1]);
            }
        }
    }
    res
}

/// Whether a directory entry's file name names an application bundle.
pub fn is_app_bundle_name(file_name: &str) -> (res: bool)
    ensures
        res == has_app_suffix(file_name@),
{
    let chars = chars_of(file_name);
    proof {
        assert(chars@.take(chars@.len() as int) =~= chars@);
    }
    ends_with_app(chars.as_slice(), chars.len())
}

/// The name of an application: the bundle's display name, else its bundle
/// name, else the file name without its `.app` suffixes.
pub open spec fn app_name_of(display_name: Option<Seq<char>>, bundle_name: Option<Seq<char>>, file_name: Seq<char>) -> Seq<char> {
    match display_name {
        Some(name) => name,
        None => match bundle_name {
            Some(name) => name,
            None => without_app_suffixes(file_name),
        },
    }
}

/// Chooses the name an application is listed under (see `app_name_of`).
pub fn app_name(display_name: Option<String>, bundle_name: Option<String>, file_name: &str) -> (res: String)
    ensures
        res@ == app_name_of(
            match display_name {
                Some(n) => Some(n@),
                None => None,
            },
            match bundle_name {
                Some(n) => Some(n@),
                None => None,
            },
            file_name@,
        ),
{
    match display_name {
        Some(name) => name,
        None => match bundle_name {
            Some(name) => name,
            None => {
                let chars = chars_of(file_name);
                let mut end: usize = chars.len();
                proof {
                    assert(chars@.take(end as int) =~= chars@);
                }
                while ends_with_app(chars.as_slice(), end)
                    invariant
                        end <= chars@.len(),
                        without_app_suffixes(chars@.take(end as int)) == without_app_suffixes(file_name@),
                    decreases end,
                {
                    proof {
                        assert(chars@.take(end as int).take(end - 4) =~= chars@.take(end - 4));
                    }
                    end = end - 4;
                }
                let mut kept = chars;
                kept.truncate(end);
                string_from_chars(kept.as_slice())
            },
        },
    }
}

/// The listing order of applications: sorted by lowercased name, ties in
/// their found order.
pub open spec fn listed_before(names: Seq<Seq<char>>, i: int, j: int) -> bool {
    key_before(0, lowercase(names[i]), i, 0, lowercase(names[j]), j)
}

/// Drops each entry whose path equals that of the entry kept before it
/// (what `dedup_by` on the paths keeps).
pub open spec fn dedup_paths(paths: Seq<Seq<char>>, order: Seq<usize>) -> Seq<usize>
    decreases order.len(),
{
    if order.len() == 0 {
        Seq::empty()
    } else {
        let kept = dedup_paths(paths, order.drop_last());
        if kept.len() > 0 && paths[kept.last() as int] == paths[order.last() as int] {
            kept
        } else {
            kept.push(order.last())
        }
    }
}

/// Keeps each entry of `order` whose path differs from that of the entry
/// right before it in `order`.
pub open spec fn path_changes(paths: Seq<Seq<char>>, order: Seq<usize>) -> Seq<usize>
    decreases order.len(),
{
    if order.len() == 0 {
        Seq::empty()
    } else {
        let kept = path_changes(paths, order.drop_last());
        if order.len() >= 2 && paths[order.last() as int] == paths[order[order.len() - 2] as int] {
            kept
        } else {
            kept.push(order.last())
        }
    }
}

/// Dropping the entries whose path repeats that of the last one kept drops
/// exactly the entries whose path repeats that of their direct predecessor,
/// so that no two neighbours in the result share a path, and the last entry
/// kept has the path of the last entry looked at.
pub proof fn lemma_dedup_drops_adjacent_repeats(paths: Seq<Seq<char>>, order: Seq<usize>)
    ensures
        dedup_paths(paths, order) == path_changes(paths, order),
        order.len() > 0 ==> dedup_paths(paths, order).len() > 0 && paths[dedup_paths(paths, order).last() as int]
            == paths[order.last() as int],
        forall|i: int|
            0 <= i < dedup_paths(paths, order).len() - 1 ==> paths[#[trigger] dedup_paths(paths, order)[i] as int]
                != paths[dedup_paths(paths, order)[i + 1] as int],
    decreases order.len(),
{
    if order.len() > 0 {
        let t = order.drop_last();
        lemma_dedup_drops_adjacent_repeats(paths, t);
        let prev = dedup_paths(paths, t);
        let cur = dedup_paths(paths, order);
        if t.len() > 0 {
            assert(t.last() == order[order.len() - 2]);
        }
        assert forall|i: int| 0 <= i < cur.len() - 1 implies paths[#[trigger] cur[i] as int] != paths[cur[i + 1] as int] by {
            if cur.len() > prev.len() && i == cur.len() - 2 {
                assert(cur[i] == prev.last());
            } else {
                assert(cur[i] == prev[i]);
                assert(cur[i + 1] == prev[i + 1]);
            }
        }
    }
}

/// `sorted` lists every index below `n` once, in `listed_before` order.
pub open spec fn is_name_order(names: Seq<Seq<char>>, sorted: Seq<usize>) -> bool {
    &&& sorted.len() == names.len()
    &&& forall|k: int| 0 <= k < sorted.len() ==> #[trigger] sorted[k] < names.len()
    &&& forall|i: usize| i < names.len() ==> #[trigger] sorted.contains(i)
    &&& forall|a: int, b: int| 0 <= a < b < sorted.len()
        ==> listed_before(names, #[trigger] sorted[a] as int, #[trigger] sorted[b] as int)
}

fn sort_by_name(names: &[String]) -> (res: Vec<usize>)
    ensures
        is_name_order(string_views(names@), res@),
{
    let ghost nv = string_views(names@);
    let mut res: Vec<usize> = Vec::new();
    let mut lowers: Vec<Vec<char>> = Vec::new();
    let mut i: usize = 0;
    while i < names.len()
        invariant
            i <= names@.len(),
            nv == string_views(names@),
            res@.len() == i,
            lowers@.len() == i,
            forall|k: int| 0 <= k < res@.len() ==> #[trigger] res@[k] < i && lowers@[k]@ == lowercase(nv[res@[k] as int]),
            forall|j: usize| j < i ==> #[trigger] res@.contains(j),
            forall|a: int, b: int| 0 <= a < b < res@.len()
                ==> listed_before(nv, #[trigger] res@[a] as int, #[trigger] res@[b] as int),
        decreases names@.len() - i,
    {
        proof {
            assert(nv[i as int] == names@[i as int]@);
        }
        let li = lowercase_chars(names[i].as_str());
        let mut p: usize = 0;
        while p < res.len() && !chars_less(li.as_slice(), lowers[p].as_slice())
            invariant
                p <= res@.len(),
                res@.len() == lowers@.len(),
                forall|k: int| 0 <= k < p ==> !key_before(0, li@, i as int, 0, #[trigger] lowers@[k]@, res@[k] as int),
                forall|k: int| 0 <= k < res@.len() ==> #[trigger] res@[k] < i,
            decreases res@.len() - p,
        {
            p = p + 1;
        }
        let ghost old_res = res@;
        let ghost old_lowers = lowers@;
        proof {
            assert forall|k: int| 0 <= k < p implies listed_before(nv, #[trigger] old_res[k] as int, i as int) by {
                lemma_key_before_strict(0, li@, i as int, 0, old_lowers[k]@, old_res[k] as int);
            }
            if p < old_res.len() {
                assert(listed_before(nv, i as int, old_res[p as int] as int));
                assert forall|k: int| p <= k < old_res.len() implies listed_before(nv, i as int, #[trigger] old_res[k] as int) by {
                    if k > p {
                        let a = old_res[p as int] as int;
                        let b = old_res[k] as int;
                        lemma_key_before_transitive(0, li@, i as int, 0, lowercase(nv[a]), a, 0, lowercase(nv[b]), b);
                    }
                }
            }
        }
        res.insert(p, i);
        lowers.insert(p, li);
        proof {
            assert forall|a: int, b: int| 0 <= a < b < res@.len() implies listed_before(nv, #[trigger] res@[a] as int, #[trigger] res@[b] as int) by {
                if a < p && b < p {
                    assert(res@[a] == old_res[a] && res@[b] == old_res[b]);
                } else if a < p && b == p {
                } else if a < p {
                    assert(res@[a] == old_res[a] && res@[b] == old_res[b - 1]);
                } else if a == p {
                    assert(res@[b] == old_res[b - 1]);
                } else {
                    assert(res@[a] == old_res[a - 1] && res@[b] == old_res[b - 1]);
                }
            }
            assert forall|j: usize| j < i + 1 implies #[trigger] res@.contains(j) by {
                if j == i {
                    assert(res@[p as int] == i);
                } else {
                    assert(old_res.contains(j));
                    let k = choose|k: int| 0 <= k < old_res.len() && old_res[k] == j;
                    if k < p {
                        assert(res@[k] == j);
                    } else {
                        assert(res@[k + 1] == j);
                    }
                }
            }
        }
        i = i + 1;
    }
    res
}

/// The order in which applications are listed: sorted by lowercased name
/// (stable), then an entry whose path repeats that of the entry kept before
/// it is dropped. Returns indices into the input.
pub fn order_apps(names: &[String], paths: &[String]) -> (res: Vec<usize>)
    requires
        names@.len() == paths@.len(),
    ensures
        exists|sorted: Seq<usize>| is_name_order(string_views(names@), sorted)
            && res@ == dedup_paths(string_views(paths@), sorted),
{
    let sorted = sort_by_name(names);
    let ghost pv = string_views(paths@);
    let mut res: Vec<usize> = Vec::new();
    let mut k: usize = 0;
    while k < sorted.len()
        invariant
            k <= sorted@.len(),
            sorted@.len() == names@.len(),
            names@.len() == paths@.len(),
            pv == string_views(paths@),
            forall|m: int| 0 <= m < sorted@.len() ==> #[trigger] sorted@[m] < names@.len(),
            res@ == dedup_paths(pv, sorted@.take(k as int)),
            forall|m: int| 0 <= m < res@.len() ==> #[trigger] res@[m] < names@.len(),
        decreases sorted@.len() - k,
    {
        let ghost next = sorted@.take(k + 1);
        proof {
            assert(next.drop_last() =~= sorted@.take(k as int));
            assert(next.last() == sorted@[k as int]);
        }
        let candidate = sorted[k];
        let keep = if res.len() == 0 {
            true
        } else {
            let last = res[res.len() - 1];
            proof {
                assert(pv[last as int] == paths@[last as int]@);
                assert(pv[candidate as int] == paths@[candidate as int]@);
            }
            !(paths[last] == paths[candidate])
        };
        if keep {
            res.push(candidate);
        }
        k = k + 1;
    }
    proof {
        assert(sorted@.take(k as int) =~= sorted@);
    }
    res
}

/// The position of the largest size, the last one among equals (what
/// `max_by_key` picks); `None` for no sizes.
pub open spec fn last_largest(sizes: Seq<u64>) -> Option<int>
    decreases sizes.len(),
{
    if sizes.len() == 0 {
        None
    } else {
        match last_largest(sizes.drop_last()) {
            Some(i) => if sizes.last() >= sizes[i] {
                Some(sizes.len() - 1)
            } else {
                Some(i)
            },
            None => Some(sizes.len() - 1),
        }
    }
}

/// `last_largest` picks the position of a largest size, and no later size
/// equals or exceeds it; it finds one exactly when there are sizes.
pub proof fn lemma_last_largest_is_last_maximum(sizes: Seq<u64>)
    ensures
        last_largest(sizes) is None <==> sizes.len() == 0,
        last_largest(sizes) matches Some(k) ==> {
            &&& 0 <= k < sizes.len()
            &&& forall|j: int| 0 <= j < sizes.len() ==> #[trigger] sizes[j] <= sizes[k]
            &&& forall|j: int| k < j < sizes.len() ==> #[trigger] sizes[j] < sizes[k]
        },
    decreases sizes.len(),
{
    if sizes.len() > 0 {
        let t = sizes.drop_last();
        lemma_last_largest_is_last_maximum(t);
        let n = sizes.len() - 1;
        match last_largest(t) {
            Some(k) => {
                assert(t[k] == sizes[k]);
                if sizes.last() >= sizes[k] {
                    assert forall|j: int| 0 <= j < sizes.len() implies #[trigger] sizes[j] <= sizes[n] by {
                        if j < n {
                            assert(t[j] == sizes[j]);
                        }
                    }
                } else {
                    assert forall|j: int| 0 <= j < sizes.len() implies #[trigger] sizes[j] <= sizes[k] by {
                        if j < n {
                            assert(t[j] == sizes[j]);
                        }
                    }
                    assert forall|j: int| k < j < sizes.len() implies #[trigger] sizes[j] < sizes[k] by {
                        if j < n {
                            assert(t[j] == sizes[j]);
                        }
                    }
                }
            },
            None => {},
        }
    }
}

/// Picks the icon file with the largest size, the last one among equals.
pub fn largest_last(sizes: &[u64]) -> (res: Option<usize>)
    ensures
        res matches Some(i) ==> last_largest(sizes@) == Some(i as int) && i < sizes@.len(),
        res is None <==> sizes@.len() == 0,
        res is None ==> last_largest(sizes@) is None,
{
    let mut best: Option<usize> = None;
    let mut i: usize = 0;
    while i < sizes.len()
        invariant
            i <= sizes@.len(),
            best matches Some(b) ==> b < i && last_largest(sizes@.take(i as int)) == Some(b as int),
            best is None ==> last_largest(sizes@.take(i as int)) is None,
            best is None <==> i == 0,
        decreases sizes@.len() - i,
    {
        let ghost next = sizes@.take(i + 1);
        proof {
            assert(next.drop_last() =~= sizes@.take(i as int));
            assert(next.last() == sizes@[i as int]);
        }
        best = match best {
            Some(b) => if sizes[i] >= sizes[b] {
                Some(i)
            } else {
                Some(b)
            },
            None => Some(i),
        };
        i = i + 1;
    }
    proof {
        assert(sizes@.take(i as int) =~= sizes@);
    }
    best
}

/// The characters of `Path::join` of the two paths (on the Unix targets the
/// launcher is built for).
pub uninterp spec fn path_join(base: Seq<char>, part: Seq<char>) -> Seq<char>;

/// The characters of `Path::with_extension` of the path and extension (on the
/// Unix targets the launcher is built for).
pub uninterp spec fn path_with_extension(path: Seq<char>, extension: Seq<char>) -> Seq<char>;

/// Calls `Path::join`. Claimed: the result is the named `path_join` of the
/// arguments. Unsaid: where separators go, and that an absolute `part`
/// replaces `base`.
#[verifier::external_body]
fn join_path(base: &str, part: &str) -> (res: String)
    ensures
        res@ == path_join(base@, part@),
{
    std::path::Path::new(base).join(part).to_string_lossy().into_owned()
}

/// Calls `Path::with_extension`, which panics on an extension that holds a
/// path separator; `requires` leaves such extensions out. Claimed: the result
/// is the named `path_with_extension` of the arguments. Unsaid: which part of
/// the file name counts as its extension.
#[verifier::external_body]
fn replace_extension(path: &str, extension: &str) -> (res: String)
    requires
        !extension@.contains('/'),
    ensures
        res@ == path_with_extension(path@, extension@),
{
    std::path::Path::new(path).with_extension(extension).to_string_lossy().into_owned()
}

/// The directory of a bundle that holds its resources.
pub open spec fn resources_dir(app_path: Seq<char>) -> Seq<char> {
    path_join(app_path, "Contents/Resources"@)
}

/// Where the icon file named in a bundle's metadata may lie, in the order in
/// which they are tried: the named file in the bundle's resources, then the
/// same path with the extension `icns`.
pub fn icon_candidates(app_path: &str, icon_file: &str) -> (res: (String, String))
    ensures
        res.0@ == path_join(resources_dir(app_path@), icon_file@),
        res.1@ == path_with_extension(res.0@, "icns"@),
{
    let resources = join_path(app_path, "Contents/Resources");
    let named = join_path(resources.as_str(), icon_file);
    proof {
        reveal_strlit("icns");
        assert(!"icns"@.contains('/')) by {
            if "icns"@.contains('/') {
                let i = choose|i: int| 0 <= i < "icns"@.len() && "icns"@[i] == '/';
                assert(0 <= i < 4);
            }
        }
    }
    let with_extension = replace_extension(named.as_str(), "icns");
    (named, with_extension)
}

/// The complete icons that `icns::IconFamily::read` finds in the bytes, in
/// the order `available_icons` lists them, each as its pixel width and the
/// four bytes of its OSType; `None` where the bytes are no icon family.
pub uninterp spec fn icns_icons(bytes: Seq<u8>) -> Option<Seq<(u64, Seq<u8>)>>;

/// Width, height and RGBA pixels of the icon at `index` of the icon family
/// in the bytes, as `get_icon_with_type` and `convert_to(RGBA)` give them;
/// `None` where it does not decode.
pub uninterp spec fn icns_rgba(bytes: Seq<u8>, index: int) -> Option<(u32, u32, Seq<u8>)>;

/// The big-endian 32-bit number at `at`.
pub open spec fn be_u32(b: Seq<u8>, at: int) -> int {
    b[at] * 0x1000000 + b[at + 1] * 0x10000 + b[at + 2] * 0x100 + b[at + 3]
}

/// The data of the first element with the given OSType, scanning the
/// elements of an icon family from byte `pos` while `pos` is below the
/// family's stated length, as `IconFamily::read` splits them: four bytes of
/// OSType, a big-endian length that counts the eight header bytes, the data.
pub open spec fn element_data(bytes: Seq<u8>, pos: int, family_length: int, ostype: Seq<u8>) -> Option<Seq<u8>>
    decreases bytes.len() - pos,
{
    if pos < 0 || pos >= family_length || pos + 8 > bytes.len() {
        None
    } else {
        let length = be_u32(bytes, pos + 4);
        if length < 8 || pos + length > bytes.len() {
            None
        } else if bytes.subrange(pos, pos + 4) == ostype {
            Some(bytes.subrange(pos + 8, pos + length))
        } else {
            element_data(bytes, pos + length, family_length, ostype)
        }
    }
}

/// The eight bytes that open every PNG stream.
pub open spec fn png_signature() -> Seq<u8> {
    seq![137u8, 80, 78, 71, 13, 10, 26, 10]
}

/// PNG data whose header (the IHDR chunk, which must come first) states a
/// width and height for which 32 bits per pixel, plus 7, fit in a `u32`:
/// `icns` sizes its pixel buffer so, in `u32` arithmetic, before it checks
/// anything. Data that is no PNG needs nothing.
pub open spec fn png_size_fits(data: Seq<u8>) -> bool {
    data.len() >= 24 && data.take(8) == png_signature() ==> 32 * be_u32(data, 16) * be_u32(data, 20) + 7
        <= u32::MAX
}

/// The element that an icon of this OSType is decoded from is sized so that
/// decoding it stays within `u32` arithmetic.
pub open spec fn icon_size_fits(bytes: Seq<u8>, ostype: Seq<u8>) -> bool {
    bytes.len() >= 8 ==> match element_data(bytes, 8, be_u32(bytes, 4), ostype) {
        Some(data) => png_size_fits(data),
        None => true,
    }
}

/// Calls `icns::IconFamily::read` and `available_icons`, then `pixel_width`
/// and `ostype` of each icon type. `IconFamily::read` keeps its position in
/// a `u32`, so `requires` asks for at most `u32::MAX` bytes. Claimed: the
/// result is the named `icns_icons` of the bytes. Unsaid: how the format is
/// read.
#[verifier::external_body]
fn icon_list(bytes: &[u8]) -> (res: Option<Vec<(u64, Vec<u8>)>>)
    requires
        bytes@.len() <= u32::MAX,
    ensures
        res matches Some(icons) ==> icns_icons(bytes@) == Some(icons@.map_values(|icon: (u64, Vec<u8>)| (icon.0, icon.1@))),
        res is None ==> icns_icons(bytes@) is None,
{
    icns::IconFamily::read(std::io::Cursor::new(bytes)).ok().map(|family| {
        family
            .available_icons()
            .into_iter()
            .map(|icon_type| (u64::from(icon_type.pixel_width()), icon_type.ostype().0.to_vec()))
            .collect()
    })
}

/// Calls `icns::IconFamily::read`, then `get_icon_with_type` on the icon type
/// at `index` of `available_icons` and `convert_to(PixelFormat::RGBA)`.
/// `requires` asks for at most `u32::MAX` bytes, an index that `icon_list`
/// listed (where indexing cannot fail), and an element whose PNG header fits
/// the `u32` size computation (see `icon_size_fits`). Claimed: the result is
/// the named `icns_rgba` of the bytes and index. Unsaid: how icons are
/// decoded.
#[verifier::external_body]
fn icon_rgba(bytes: &[u8], index: usize) -> (res: Option<(u32, u32, Vec<u8>)>)
    requires
        bytes@.len() <= u32::MAX,
        icns_icons(bytes@) matches Some(icons) && index < icons.len() && icon_size_fits(bytes@, icons[index as int].1),
    ensures
        res matches Some(icon) ==> icns_rgba(bytes@, index as int) == Some((icon.0, icon.1, icon.2@)),
        res is None ==> icns_rgba(bytes@, index as int) is None,
{
    let family = icns::IconFamily::read(std::io::Cursor::new(bytes)).ok()?;
    let icon_type = family.available_icons()[index];
    let icon = family.get_icon_with_type(icon_type).ok()?.convert_to(icns::PixelFormat::RGBA);
    Some((icon.width(), icon.height(), icon.data().to_vec()))
}

fn read_be_u32(b: &[u8], at: usize) -> (res: u64)
    requires
        at + 4 <= b@.len(),
    ensures
        res == be_u32(b@, at as int),
        res <= u32::MAX,
{
    (b[at] as u64) * 0x1000000 + (b[at + 1] as u64) * 0x10000 + (b[at + 2] as u64) * 0x100 + (b[at + 3] as u64)
}

fn same_bytes(b: &[u8], at: usize, other: &[u8]) -> (res: bool)
    requires
        at + other@.len() <= b@.len(),
    ensures
        res == (b@.subrange(at as int, at + other@.len()) == other@),
{
    let mut i: usize = 0;
    while i < other.len()
        invariant
            i <= other@.len(),
            other.len() == other@.len(),
            at + other@.len() <= b@.len(),
            b.len() == b@.len(),
            forall|k: int| 0 <= k < i ==> b@[at + k] == other@[k],
        decreases other@.len() - i,
    {
        if b[at + i] != other[i] {
            proof {
                assert(b@.subrange(at as int, at + other@.len())[i as int] != other@[i as int]);
            }
            return false;
        }
        i = i + 1;
    }
    proof {
        assert(b@.subrange(at as int, at + other@.len()) =~= other@);
    }
    true
}

/// Whether decoding the icon of this OSType stays within `u32` arithmetic
/// (see `icon_size_fits`).
fn icon_fits(bytes: &[u8], ostype: &[u8]) -> (res: bool)
    ensures
        res == icon_size_fits(bytes@, ostype@),
{
    if bytes.len() < 8 {
        return true;
    }
    let family_length = read_be_u32(bytes, 4);
    let mut pos: usize = 8;
    let ghost fl = be_u32(bytes@, 4);
    loop
        invariant
            8 <= pos <= bytes@.len() || (8 <= pos && pos + 8 > bytes@.len()),
            family_length == fl,
            fl == be_u32(bytes@, 4),
            bytes@.len() >= 8,
            element_data(bytes@, pos as int, fl, ostype@) == element_data(bytes@, 8, fl, ostype@),
        decreases bytes@.len() - pos,
    {
        if pos as u64 >= family_length || pos > bytes.len() || bytes.len() - pos < 8 {
            assert(element_data(bytes@, pos as int, fl, ostype@) is None);
            return true;
        }
        let length = read_be_u32(bytes, pos + 4);
        if length < 8 || length > (bytes.len() - pos) as u64 {
            assert(element_data(bytes@, pos as int, fl, ostype@) is None);
            return true;
        }
        let length = length as usize;
        if ostype.len() == 4 && same_bytes(bytes, pos, ostype) {
            let data = &bytes[pos + 8..pos + length];
            proof {
                assert(data@ =~= bytes@.subrange(pos + 8, pos + length));
            }
            if data.len() >= 24 && same_bytes(data, 0, &[137u8, 80, 78, 71, 13, 10, 26, 10]) {
                proof {
                    assert(data@.subrange(0, 8) =~= data@.take(8));
                }
                let w = read_be_u32(data, 16) as u128;
                let h = read_be_u32(data, 20) as u128;
                assert(w * h <= 0xFFFF_FFFF * 0xFFFF_FFFFu128) by (nonlinear_arith)
                    requires
                        w <= 0xFFFF_FFFF,
                        h <= 0xFFFF_FFFF,
                ;
                let ghost bw = be_u32(data@, 16);
                let ghost bh = be_u32(data@, 20);
                assert(32 * bw * bh == 32 * (w * h)) by (nonlinear_arith)
                    requires
                        bw == w,
                        bh == h,
                ;
                assert(element_data(bytes@, pos as int, fl, ostype@) == Some(data@));
                return 32 * (w * h) + 7 <= 0xFFFF_FFFF;
            } else {
                proof {
                    if data@.len() >= 24 {
                        assert(data@.subrange(0, 8) =~= data@.take(8));
                    }
                }
                return true;
            }
        }
        proof {
            if ostype@.len() != 4 {
                assert(bytes@.subrange(pos as int, pos + 4).len() == 4);
            }
        }
        pos = pos + length;
    }
}

/// The icon an `.icns` file shows: of its complete icons the widest, the
/// last among equals, as width, height and RGBA pixels; `None` also where
/// its PNG header is too large for `icns`'s `u32` size computation.
pub open spec fn decoded_icon(bytes: Seq<u8>) -> Option<(u32, u32, Seq<u8>)> {
    match icns_icons(bytes) {
        Some(icons) => match last_largest(icons.map_values(|icon: (u64, Seq<u8>)| icon.0)) {
            Some(k) => if icon_size_fits(bytes, icons[k].1) {
                icns_rgba(bytes, k)
            } else {
                None
            },
            None => None,
        },
        None => None,
    }
}

/// Decodes the widest icon of an `.icns` file (see `decoded_icon`). An icon
/// family states its length as a `u32`; `requires` asks for no more bytes.
pub fn decode_icon(bytes: &[u8]) -> (res: Option<(u32, u32, Vec<u8>)>)
    requires
        bytes@.len() <= u32::MAX,
    ensures
        res matches Some(icon) ==> decoded_icon(bytes@) == Some((icon.0, icon.1, icon.2@)),
        res is None ==> decoded_icon(bytes@) is None,
{
    let icons = match icon_list(bytes) {
        Some(icons) => icons,
        None => return None,
    };
    let ghost iv = icons@.map_values(|icon: (u64, Vec<u8>)| (icon.0, icon.1@));
    let mut widths: Vec<u64> = Vec::new();
    let mut i: usize = 0;
    while i < icons.len()
        invariant
            i <= icons@.len(),
            iv == icons@.map_values(|icon: (u64, Vec<u8>)| (icon.0, icon.1@)),
            widths@ == iv.take(i as int).map_values(|icon: (u64, Seq<u8>)| icon.0),
        decreases icons@.len() - i,
    {
        widths.push(icons[i].0);
        i = i + 1;
        proof {
            assert(widths@ =~= iv.take(i as int).map_values(|icon: (u64, Seq<u8>)| icon.0));
        }
    }
    proof {
        assert(iv.take(i as int) =~= iv);
    }
    match largest_last(widths.as_slice()) {
        Some(k) => {
            if icon_fits(bytes, icons[k].1.as_slice()) {
                icon_rgba(bytes, k)
            } else {
                None
            }
        },
        None => None,
    }
}

/// For a property list in `bytes` whose top level is a dictionary, the
/// string stored under `key` (`None` inside where the key is missing or holds
/// no string); `None` where the bytes are no such property list.
pub uninterp spec fn plist_string_entry(bytes: Seq<u8>, key: Seq<char>) -> Option<Option<Seq<char>>>;

/// Calls `plist::Value::from_reader`, `as_dictionary`, `Dictionary::get` and
/// `Value::as_string`. Claimed: the result is the named `plist_string_entry`
/// of the bytes and key. Unsaid: how property lists are read.
#[verifier::external_body]
fn plist_string(bytes: &[u8], key: &str) -> (res: Option<Option<String>>)
    ensures
        plist_string_entry(bytes@, key@) == match res {
            Some(Some(v)) => Some(Some(v@)),
            Some(None) => Some(None),
            None => None::<Option<Seq<char>>>,
        },
{
    let value = plist::Value::from_reader(std::io::Cursor::new(bytes)).ok()?;
    let dictionary = value.as_dictionary()?;
    Some(dictionary.get(key).and_then(plist::Value::as_string).map(str::to_owned))
}

/// What an application bundle's `Info.plist` says of it.
pub struct BundleMetadata {
    pub display_name: Option<String>,
    pub bundle_name: Option<String>,
    pub icon_file: Option<String>,
}

/// The plain values of bundle metadata.
pub open spec fn metadata_view(m: BundleMetadata) -> (Option<Seq<char>>, Option<Seq<char>>, Option<Seq<char>>) {
    (
        match m.display_name {
            Some(v) => Some(v@),
            None => None,
        },
        match m.bundle_name {
            Some(v) => Some(v@),
            None => None,
        },
        match m.icon_file {
            Some(v) => Some(v@),
            None => None,
        },
    )
}

/// The metadata in an `Info.plist`: the strings under `CFBundleDisplayName`,
/// `CFBundleName` and `CFBundleIconFile`; `None` where the bytes are no
/// dictionary property list.
pub open spec fn bundle_metadata_of(bytes: Seq<u8>) -> Option<(Option<Seq<char>>, Option<Seq<char>>, Option<Seq<char>>)> {
    match (
        plist_string_entry(bytes, "CFBundleDisplayName"@),
        plist_string_entry(bytes, "CFBundleName"@),
        plist_string_entry(bytes, "CFBundleIconFile"@),
    ) {
        (Some(display_name), Some(bundle_name), Some(icon_file)) => Some((display_name, bundle_name, icon_file)),
        _ => None,
    }
}

/// Reads a bundle's metadata from the bytes of its `Info.plist` (see
/// `bundle_metadata_of`).
pub fn bundle_metadata(bytes: &[u8]) -> (res: Option<BundleMetadata>)
    ensures
        res matches Some(m) ==> bundle_metadata_of(bytes@) == Some(metadata_view(m)),
        res is None ==> bundle_metadata_of(bytes@) is None,
{
    let display_name = plist_string(bytes, "CFBundleDisplayName");
    let bundle_name = plist_string(bytes, "CFBundleName");
    let icon_file = plist_string(bytes, "CFBundleIconFile");
    match (display_name, bundle_name, icon_file) {
        (Some(display_name), Some(bundle_name), Some(icon_file)) => Some(
            BundleMetadata { display_name, bundle_name, icon_file },
        ),
        _ => None,
    }
}

} // verus!
