//! Decisions of the search window: moving the selection through the result
//! list, editing the query, and ranking applications against the query.
use vstd::prelude::*;
use vstd::utf8::{char_is_scalar, encode_utf8, encode_scalar};

use crate::fuzzy::{score, score_result};
use crate::text::{
    chars_less, chars_lt, chars_of, is_alphanumeric, lemma_chars_lt_asymmetric, lemma_chars_lt_irreflexive,
    lemma_chars_lt_total, lemma_chars_lt_transitive, lowercase, lowercase_chars, push_all, string_from_chars,
    str_equals, string_views, unicode_alphanumeric,
};
use crate::theme::MAX_VISIBLE_RESULTS;

verus! {

/// Selection and first visible row after moving the selection up one row.
pub open spec fn moved_up(selected: usize, visible_start: usize) -> (usize, usize) {
    let s = if selected == 0 { 0 } else { (selected - 1) as usize };
    (s, if s < visible_start { s } else { visible_start })
}

/// Selection and first visible row after moving the selection down one row
/// in a list of `count` results.
pub open spec fn moved_down(selected: usize, visible_start: usize, count: usize) -> (usize, usize) {
    if selected + 1 < count {
        let s = (selected + 1) as usize;
        (
            s,
            if s >= visible_start + MAX_VISIBLE_RESULTS {
                (s + 1 - MAX_VISIBLE_RESULTS) as usize
            } else {
                visible_start
            },
        )
    } else {
        (selected, visible_start)
    }
}

/// Moves the selection up one row (not past the first) and scrolls so that
/// it stays visible.
pub fn move_selection_up(selected: &mut usize, visible_start: &mut usize)
    ensures
        (*final(selected), *final(visible_start)) == moved_up(*old(selected), *old(visible_start)),
{
    *selected = selected.saturating_sub(1);
    if *selected < *visible_start {
        *visible_start = *selected;
    }
}

/// Moves the selection down one row (not past the last of `result_count`)
/// and scrolls so that it stays visible.
pub fn move_selection_down(selected: &mut usize, visible_start: &mut usize, result_count: usize)
    requires
        *old(selected) < usize::MAX,
        *old(selected) + 1 < result_count ==> *old(visible_start) + MAX_VISIBLE_RESULTS <= usize::MAX,
    ensures
        (*final(selected), *final(visible_start)) == moved_down(*old(selected), *old(visible_start), result_count),
{
    if *selected + 1 < result_count {
        *selected = *selected + 1;
        if *selected >= *visible_start + MAX_VISIBLE_RESULTS {
            *visible_start = *selected + 1 - MAX_VISIBLE_RESULTS;
        }
    }
}

/// The selected row is among the visible rows.
pub open spec fn selection_visible(selected: usize, visible_start: usize) -> bool {
    visible_start <= selected < visible_start + MAX_VISIBLE_RESULTS
}

/// Moving the selection keeps it visible.
pub proof fn lemma_moves_keep_selection_visible(selected: usize, visible_start: usize, count: usize)
    requires
        selection_visible(selected, visible_start),
        selected < usize::MAX,
    ensures
        selection_visible(moved_up(selected, visible_start).0, moved_up(selected, visible_start).1),
        selection_visible(
            moved_down(selected, visible_start, count).0,
            moved_down(selected, visible_start, count).1,
        ),
{
}

/// Moving down keeps the selection inside a non-empty list, and moving up
/// never leaves it either.
pub proof fn lemma_moves_stay_in_list(selected: usize, visible_start: usize, count: usize)
    requires
        selected < count,
    ensures
        moved_down(selected, visible_start, count).0 < count,
        moved_up(selected, visible_start).0 < count,
{
}

/// Each move goes one row, stopping at the ends of the list, and the view
/// scrolls only as far as it must: moving down selects the next row while
/// there is one, and then either keeps the first visible row or makes the
/// selection the last visible one; moving up selects the previous row (the
/// first stays) and either keeps the first visible row or makes the
/// selection the first visible one; and a move down followed by a move up
/// returns to the row it started from.
pub proof fn lemma_moves_go_one_row(selected: usize, visible_start: usize, count: usize)
    requires
        selection_visible(selected, visible_start),
        selected < count,
        count < usize::MAX,
    ensures
        ({
            let (s, v) = moved_down(selected, visible_start, count);
            &&& s == (if selected + 1 < count {
                selected + 1
            } else {
                selected as int
            })
            &&& v == visible_start || v + MAX_VISIBLE_RESULTS == s + 1
            &&& visible_start <= v
        }),
        ({
            let (s, v) = moved_up(selected, visible_start);
            &&& s == (if selected > 0 {
                selected - 1
            } else {
                0
            })
            &&& v == visible_start || v == s
            &&& v <= visible_start
        }),
        selected + 1 < count ==> moved_up(
            moved_down(selected, visible_start, count).0,
            moved_down(selected, visible_start, count).1,
        ).0 == selected,
{
}

/// `s` without its longest suffix of characters whose alphanumeric property
/// is `alphanumeric`.
pub open spec fn strip_trailing(s: Seq<char>, alphanumeric: bool) -> Seq<char>
    decreases s.len(),
{
    if s.len() > 0 && unicode_alphanumeric(s.last()) == alphanumeric {
        strip_trailing(s.drop_last(), alphanumeric)
    } else {
        s
    }
}

/// The query after deleting the word before the caret at its end: first the
/// trailing characters that are not alphanumeric, then the alphanumeric run
/// before them.
pub open spec fn word_deleted(s: Seq<char>) -> Seq<char> {
    strip_trailing(strip_trailing(s, false), true)
}

proof fn lemma_strip_trailing_prefix(s: Seq<char>, alphanumeric: bool, n: int)
    requires
        0 <= n <= s.len(),
        forall|k: int| n <= k < s.len() ==> unicode_alphanumeric(#[trigger] s[k]) == alphanumeric,
        n == 0 || unicode_alphanumeric(s[n - 1]) != alphanumeric,
    ensures
        strip_trailing(s, alphanumeric) == s.take(n),
    decreases s.len() - n,
{
    if n < s.len() {
        let t = s.drop_last();
        assert forall|k: int| n <= k < t.len() implies unicode_alphanumeric(#[trigger] t[k]) == alphanumeric by {
            assert(t[k] == s[k]);
        }
        if n > 0 {
            assert(t[n - 1] == s[n - 1]);
        }
        lemma_strip_trailing_prefix(t, alphanumeric, n);
        assert(t.take(n) =~= s.take(n));
    } else {
        assert(s.take(n) =~= s);
    }
}

fn strip_trailing_end(s: &[char], end: usize, alphanumeric: bool) -> (res: usize)
    requires
        end <= s@.len(),
    ensures
        res <= end,
        strip_trailing(s@.take(end as int), alphanumeric) == s@.take(res as int),
{
    let mut n: usize = end;
    while n > 0 && is_alphanumeric(s[n - 1]) == alphanumeric
        invariant
            n <= end <= s@.len(),
            forall|k: int| n <= k < end ==> unicode_alphanumeric(#[trigger] s@[k]) == alphanumeric,
        decreases n,
    {
        n = n - 1;
    }
    proof {
        let t = s@.take(end as int);
        assert forall|k: int| n <= k < t.len() implies unicode_alphanumeric(#[trigger] t[k]) == alphanumeric by {
            assert(t[k] == s@[k]);
        }
        if n > 0 {
            assert(t[n - 1] == s@[n - 1]);
        }
        lemma_strip_trailing_prefix(t, alphanumeric, n as int);
        assert(t.take(n as int) =~= s@.take(n as int));
    }
    n
}

proof fn lemma_strip_trailing_shape(s: Seq<char>, alphanumeric: bool)
    ensures
        strip_trailing(s, alphanumeric).len() <= s.len(),
        strip_trailing(s, alphanumeric) == s.take(strip_trailing(s, alphanumeric).len() as int),
        forall|k: int|
            strip_trailing(s, alphanumeric).len() <= k < s.len() ==> unicode_alphanumeric(#[trigger] s[k])
                == alphanumeric,
        strip_trailing(s, alphanumeric).len() == 0 || unicode_alphanumeric(
            s[strip_trailing(s, alphanumeric).len() - 1],
        ) != alphanumeric,
    decreases s.len(),
{
    if s.len() > 0 && unicode_alphanumeric(s.last()) == alphanumeric {
        let t = s.drop_last();
        lemma_strip_trailing_shape(t, alphanumeric);
        let n = strip_trailing(t, alphanumeric).len() as int;
        assert(t.take(n) =~= s.take(n));
        assert forall|k: int| n <= k < s.len() implies unicode_alphanumeric(#[trigger] s[k]) == alphanumeric by {
            if k < t.len() {
                assert(t[k] == s[k]);
            }
        }
        if n > 0 {
            assert(t[n - 1] == s[n - 1]);
        }
    } else {
        assert(s.take(s.len() as int) =~= s);
    }
}

/// `s` splits at `n <= m` into a kept prefix `[0, n)`, a run of alphanumeric
/// characters `[n, m)` that is as long as it can be, and a trailing run of
/// other characters `[m, len)` that is as long as it can be.
pub open spec fn last_word_split(s: Seq<char>, n: int, m: int) -> bool {
    &&& 0 <= n <= m <= s.len()
    &&& forall|k: int| m <= k < s.len() ==> !unicode_alphanumeric(#[trigger] s[k])
    &&& m == 0 || unicode_alphanumeric(s[m - 1])
    &&& forall|k: int| n <= k < m ==> unicode_alphanumeric(#[trigger] s[k])
    &&& n == 0 || !unicode_alphanumeric(s[n - 1])
}

/// Deleting a word keeps a prefix of the query and removes exactly the
/// trailing characters that are not alphanumeric, together with the whole
/// run of alphanumeric characters before them: with `m` where that trailing
/// run starts and `n` the length kept, the characters in `[m, len)` are not
/// alphanumeric and the one before `m` is; those in `[n, m)` are
/// alphanumeric and the one before `n` is not.
pub proof fn lemma_word_deleted_removes_the_last_word(s: Seq<char>)
    ensures
        ({
            let r = word_deleted(s);
            let n = r.len() as int;
            &&& n <= s.len()
            &&& r == s.take(n)
            &&& exists|m: int| #[trigger] last_word_split(s, n, m)
        }),
{
    let t = strip_trailing(s, false);
    lemma_strip_trailing_shape(s, false);
    lemma_strip_trailing_shape(t, true);
    let m = t.len() as int;
    let r = word_deleted(s);
    let n = r.len() as int;
    assert(r =~= s.take(n));
    assert forall|k: int| n <= k < m implies unicode_alphanumeric(#[trigger] s[k]) by {
        assert(t[k] == s[k]);
    }
    if m > 0 {
        assert(t[m - 1] == s[m - 1]);
    }
    if n > 0 {
        assert(t[n - 1] == s[n - 1]);
    }
    assert(last_word_split(s, n, m));
}

/// Deletes the word before the caret at the end of the query (see
/// `word_deleted`).
pub fn delete_word(query: &mut String)
    ensures
        final(query)@ == word_deleted(old(query)@),
{
    let chars = chars_of(query.as_str());
    let first = strip_trailing_end(chars.as_slice(), chars.len(), false);
    let second = strip_trailing_end(chars.as_slice(), first, true);
    proof {
        assert(chars@.take(chars@.len() as int) =~= chars@);
    }
    let mut kept = chars;
    kept.truncate(second);
    *query = string_from_chars(kept.as_slice());
}

/// Order of ranked results: higher score first, then lowercased name in
/// code-point order, then the position in the input.
pub open spec fn key_before(s1: int, n1: Seq<char>, i1: int, s2: int, n2: Seq<char>, i2: int) -> bool {
    ||| s1 > s2
    ||| s1 == s2 && chars_lt(n1, n2)
    ||| s1 == s2 && n1 == n2 && i1 < i2
}

pub(crate) proof fn lemma_key_before_strict(s1: int, n1: Seq<char>, i1: int, s2: int, n2: Seq<char>, i2: int)
    ensures
        key_before(s1, n1, i1, s2, n2, i2) ==> !key_before(s2, n2, i2, s1, n1, i1),
        i1 != i2 ==> key_before(s1, n1, i1, s2, n2, i2) || key_before(s2, n2, i2, s1, n1, i1),
{
    lemma_chars_lt_irreflexive(n1);
    if chars_lt(n1, n2) {
        lemma_chars_lt_asymmetric(n1, n2);
    }
    if n1 != n2 {
        lemma_chars_lt_total(n1, n2);
    }
}

pub(crate) proof fn lemma_key_before_transitive(
    s1: int,
    n1: Seq<char>,
    i1: int,
    s2: int,
    n2: Seq<char>,
    i2: int,
    s3: int,
    n3: Seq<char>,
    i3: int,
)
    requires
        key_before(s1, n1, i1, s2, n2, i2),
        key_before(s2, n2, i2, s3, n3, i3),
    ensures
        key_before(s1, n1, i1, s3, n3, i3),
{
    if s1 == s2 && s2 == s3 {
        if chars_lt(n1, n2) && chars_lt(n2, n3) {
            lemma_chars_lt_transitive(n1, n2, n3);
        }
    }
}

/// Application `i` ranks before application `j` for the query.
pub open spec fn ranks_before(query: Seq<char>, names: Seq<Seq<char>>, i: int, j: int) -> bool {
    key_before(
        score_result(query, names[i])->0,
        lowercase(names[i]),
        i,
        score_result(query, names[j])->0,
        lowercase(names[j]),
        j,
    )
}

/// The ranking of the applications for a query: for the empty query every
/// application in its order; else exactly the applications that the query
/// matches, each once, ordered by `ranks_before` (a stable sort by score,
/// highest first, then by lowercased name).
pub open spec fn is_ranking(query: Seq<char>, names: Seq<Seq<char>>, ranked: Seq<usize>) -> bool {
    if query.len() == 0 {
        ranked == Seq::new(names.len(), |i: int| i as usize)
    } else {
        &&& forall|k: int| 0 <= k < ranked.len() ==> #[trigger] ranked[k] < names.len()
            && score_result(query, names[ranked[k] as int]) is Some
        &&& forall|i: int| 0 <= i < names.len() && score_result(query, names[i]) is Some
            ==> ranked.contains(i as usize)
        &&& forall|a: int, b: int| 0 <= a < b < ranked.len()
            ==> ranks_before(query, names, #[trigger] ranked[a] as int, #[trigger] ranked[b] as int)
    }
}

/// Ranks applications by name against the query (see `is_ranking`).
pub fn rank_matches(query: &str, names: &[String]) -> (res: Vec<usize>)
    ensures
        is_ranking(query@, string_views(names@), res@),
{
    let ghost nv = string_views(names@);
    let mut res: Vec<usize> = Vec::new();
    if query.is_empty() {
        let mut i: usize = 0;
        while i < names.len()
            invariant
                i <= names@.len(),
                res@ == Seq::new(i as nat, |k: int| k as usize),
            decreases names@.len() - i,
        {
            res.push(i);
            i = i + 1;
            proof {
                assert(res@ =~= Seq::new(i as nat, |k: int| k as usize));
            }
        }
        return res;
    }
    let mut scores: Vec<i32> = Vec::new();
    let mut lowers: Vec<Vec<char>> = Vec::new();
    let mut i: usize = 0;
    while i < names.len()
        invariant
            i <= names@.len(),
            nv == string_views(names@),
            query@.len() > 0,
            res@.len() == scores@.len(),
            res@.len() == lowers@.len(),
            forall|k: int| 0 <= k < res@.len() ==> #[trigger] res@[k] < i
                && score_result(query@, nv[res@[k] as int]) == Some(scores@[k] as int)
                && lowers@[k]@ == lowercase(nv[res@[k] as int]),
            forall|j: int| 0 <= j < i && score_result(query@, nv[j]) is Some ==> res@.contains(j as usize),
            forall|a: int, b: int| 0 <= a < b < res@.len()
                ==> ranks_before(query@, nv, #[trigger] res@[a] as int, #[trigger] res@[b] as int),
        decreases names@.len() - i,
    {
        proof {
            assert(nv[i as int] == names@[i as int]@);
        }
        match score(query, names[i].as_str()) {
            None => {},
            Some(si) => {
                let li = lowercase_chars(names[i].as_str());
                let mut p: usize = 0;
                while p < res.len() && !(si > scores[p] || (si == scores[p] && chars_less(li.as_slice(), lowers[p].as_slice())))
                    invariant
                        p <= res@.len(),
                        res@.len() == scores@.len(),
                        res@.len() == lowers@.len(),
                        forall|k: int| 0 <= k < p ==> !key_before(
                            si as int,
                            li@,
                            i as int,
                            #[trigger] scores@[k] as int,
                            lowers@[k]@,
                            res@[k] as int,
                        ),
                        forall|k: int| 0 <= k < res@.len() ==> #[trigger] res@[k] < i,
                    decreases res@.len() - p,
                {
                    p = p + 1;
                }
                let ghost old_res = res@;
                let ghost old_scores = scores@;
                let ghost old_lowers = lowers@;
                proof {
                    assert forall|k: int| 0 <= k < p implies ranks_before(query@, nv, #[trigger] old_res[k] as int, i as int) by {
                        lemma_key_before_strict(si as int, li@, i as int, old_scores[k] as int, old_lowers[k]@, old_res[k] as int);
                    }
                    if p < old_res.len() {
                        assert(ranks_before(query@, nv, i as int, old_res[p as int] as int));
                        assert forall|k: int| p <= k < old_res.len() implies ranks_before(query@, nv, i as int, #[trigger] old_res[k] as int) by {
                            if k > p {
                                let a = old_res[p as int] as int;
                                let b = old_res[k] as int;
                                lemma_key_before_transitive(
                                    si as int, li@, i as int,
                                    score_result(query@, nv[a])->0, lowercase(nv[a]), a,
                                    score_result(query@, nv[b])->0, lowercase(nv[b]), b,
                                );
                            }
                        }
                    }
                }
                res.insert(p, i);
                scores.insert(p, si);
                lowers.insert(p, li);
                proof {
                    assert forall|a: int, b: int| 0 <= a < b < res@.len() implies ranks_before(query@, nv, #[trigger] res@[a] as int, #[trigger] res@[b] as int) by {
                        if a < p && b < p {
                            assert(res@[a] == old_res[a] && res@[b] == old_res[b]);
                        } else if a < p && b == p {
                        } else if a < p {
                            assert(res@[a] == old_res[a] && res@[b] == old_res[b - 1]);
                        } else if a == p {
                            assert(res@[b] == old_res[b - 1]);
                        } else {
                            assert(res@[a] == old_res[a - 1] && res@[b] == old_res[b - 1]);
                        }
                    }
                    assert forall|j: int| 0 <= j < i + 1 && score_result(query@, nv[j]) is Some implies res@.contains(j as usize) by {
                        if j == i {
                            assert(res@[p as int] == i);
                        } else {
                            let k = choose|k: int| 0 <= k < old_res.len() && old_res[k] == j as usize;
                            if k < p {
                                assert(res@[k] == j as usize);
                            } else {
                                assert(res@[k + 1] == j as usize);
                            }
                        }
                    }
                }
            },
        }
        i = i + 1;
    }
    res
}

/// The query text with line breaks turned into spaces, as pasted or typed
/// text is inserted (`replace(['\r', '\n'], " ")`).
pub open spec fn without_line_breaks(s: Seq<char>) -> Seq<char> {
    s.map_values(|c: char| if c == '\r' || c == '\n' { ' ' } else { c })
}

/// Turns carriage returns and line feeds into spaces.
pub fn single_line(text: &str) -> (res: String)
    ensures
        res@ == without_line_breaks(text@),
{
    let chars = chars_of(text);
    let mut out: Vec<char> = Vec::new();
    let mut i: usize = 0;
    while i < chars.len()
        invariant
            i <= chars@.len(),
            chars@ == text@,
            out@ == without_line_breaks(chars@).take(i as int),
        decreases chars@.len() - i,
    {
        let c = chars[i];
        if c == '\r' || c == '\n' {
            out.push(' ');
        } else {
            out.push(c);
        }
        i = i + 1;
        proof {
            assert(out@ =~= without_line_breaks(chars@).take(i as int));
        }
    }
    proof {
        assert(without_line_breaks(chars@).take(i as int) =~= without_line_breaks(chars@));
    }
    string_from_chars(out.as_slice())
}

/// Bytes of the character in UTF-8.
pub open spec fn utf8_width(c: char) -> nat {
    let v = c as u32;
    if v <= 0x7F {
        1
    } else if v <= 0x7FF {
        2
    } else if v <= 0xFFFF {
        3
    } else {
        4
    }
}

/// 16-bit code units of the character in UTF-16.
pub open spec fn utf16_width(c: char) -> nat {
    if (c as u32) <= 0xFFFF {
        1
    } else {
        2
    }
}

/// Bytes of the first `k` characters in UTF-8.
pub open spec fn utf8_prefix(s: Seq<char>, k: int) -> nat
    decreases k,
{
    if k <= 0 {
        0
    } else {
        utf8_prefix(s, k - 1) + utf8_width(s[k - 1])
    }
}

/// Code units of the first `k` characters in UTF-16.
pub open spec fn utf16_prefix(s: Seq<char>, k: int) -> nat
    decreases k,
{
    if k <= 0 {
        0
    } else {
        utf16_prefix(s, k - 1) + utf16_width(s[k - 1])
    }
}

proof fn lemma_encode_scalar_len(c: char)
    ensures
        encode_scalar(c as u32).len() == utf8_width(c),
{
    broadcast use char_is_scalar;
    assert(vstd::utf8::is_scalar(c as u32));
}

proof fn lemma_utf8_prefix_drop_first(s: Seq<char>, k: int)
    requires
        1 <= k <= s.len(),
    ensures
        utf8_prefix(s, k) == utf8_width(s[0]) + utf8_prefix(s.drop_first(), k - 1),
    decreases k,
{
    assert(utf8_prefix(s, 0) == 0);
    assert(utf8_prefix(s.drop_first(), 0) == 0);
    if k > 1 {
        lemma_utf8_prefix_drop_first(s, k - 1);
        assert(s.drop_first()[k - 2] == s[k - 1]);
    }
}

/// `utf8_prefix` counts the bytes of the UTF-8 encoding: over the whole
/// sequence it is the length of what vstd's `encode_utf8` gives.
pub proof fn lemma_utf8_len(s: Seq<char>)
    ensures
        encode_utf8(s).len() == utf8_prefix(s, s.len() as int),
    decreases s.len(),
{
    if s.len() > 0 {
        lemma_utf8_len(s.drop_first());
        lemma_encode_scalar_len(s[0]);
        lemma_utf8_prefix_drop_first(s, s.len() as int);
    }
}

proof fn lemma_prefixes_grow(s: Seq<char>, j: int, k: int)
    requires
        0 <= j <= k <= s.len(),
    ensures
        utf8_prefix(s, j) + (k - j) <= utf8_prefix(s, k),
        utf16_prefix(s, j) + (k - j) <= utf16_prefix(s, k),
        utf16_prefix(s, k) - utf16_prefix(s, j) <= utf8_prefix(s, k) - utf8_prefix(s, j),
    decreases k - j,
{
    if j < k {
        lemma_prefixes_grow(s, j, k - 1);
    }
}

/// The UTF-16 offset of the character boundary at UTF-8 byte `offset`
/// (`query[..offset].encode_utf16().count()`).
pub fn offset_to_utf16(query: &str, offset: usize) -> (res: usize)
    requires
        exists|k: int| 0 <= k <= query@.len() && utf8_prefix(query@, k) == offset,
    ensures
        forall|k: int| 0 <= k <= query@.len() && utf8_prefix(query@, k) == offset ==> res == utf16_prefix(query@, k),
{
    let chars = chars_of(query);
    let ghost kb = choose|k: int| 0 <= k <= query@.len() && utf8_prefix(query@, k) == offset;
    let mut bytes: usize = 0;
    let mut units: usize = 0;
    let mut i: usize = 0;
    while bytes < offset
        invariant
            chars@ == query@,
            0 <= kb <= chars@.len(),
            utf8_prefix(chars@, kb) == offset,
            i <= kb,
            bytes == utf8_prefix(chars@, i as int),
            units == utf16_prefix(chars@, i as int),
            bytes <= offset,
            units <= bytes,
        decreases kb - i,
    {
        proof {
            if i == kb {
                assert(false);
            }
            lemma_prefixes_grow(chars@, i as int, kb);
            lemma_prefixes_grow(chars@, i + 1, kb);
            lemma_prefixes_grow(chars@, 0, i + 1);
            assert(chars.len() == chars@.len());
        }
        let c = chars[i];
        let v = c as u32;
        let w8: usize = if v <= 0x7F { 1 } else if v <= 0x7FF { 2 } else if v <= 0xFFFF { 3 } else { 4 };
        let w16: usize = if v <= 0xFFFF { 1 } else { 2 };
        bytes = bytes + w8;
        units = units + w16;
        i = i + 1;
    }
    proof {
        assert forall|k: int| 0 <= k <= query@.len() && utf8_prefix(query@, k) == offset implies units == utf16_prefix(query@, k) by {
            if k < i {
                lemma_prefixes_grow(chars@, k + 1, i as int);
                lemma_prefixes_grow(chars@, k, k + 1);
            } else if k > i {
                lemma_prefixes_grow(chars@, i + 1, k);
                lemma_prefixes_grow(chars@, i as int, i + 1);
            }
        }
    }
    units
}

fn char_index_at(chars: &[char], offset: usize) -> (res: usize)
    requires
        exists|k: int| 0 <= k <= chars@.len() && utf8_prefix(chars@, k) == offset,
    ensures
        res <= chars@.len(),
        utf8_prefix(chars@, res as int) == offset,
        forall|k: int| 0 <= k <= chars@.len() && utf8_prefix(chars@, k) == offset ==> k == res,
{
    let ghost kb = choose|k: int| 0 <= k <= chars@.len() && utf8_prefix(chars@, k) == offset;
    let mut bytes: usize = 0;
    let mut i: usize = 0;
    while bytes < offset
        invariant
            0 <= kb <= chars@.len(),
            utf8_prefix(chars@, kb) == offset,
            i <= kb,
            bytes == utf8_prefix(chars@, i as int),
            bytes <= offset,
        decreases kb - i,
    {
        proof {
            if i == kb {
                assert(false);
            }
            lemma_prefixes_grow(chars@, i + 1, kb);
        }
        let v = chars[i] as u32;
        let w8: usize = if v <= 0x7F { 1 } else if v <= 0x7FF { 2 } else if v <= 0xFFFF { 3 } else { 4 };
        bytes = bytes + w8;
        i = i + 1;
    }
    proof {
        assert forall|k: int| 0 <= k <= chars@.len() && utf8_prefix(chars@, k) == offset implies k == i by {
            if k < i {
                lemma_prefixes_grow(chars@, k + 1, i as int);
                lemma_prefixes_grow(chars@, k, k + 1);
            } else if k > i {
                lemma_prefixes_grow(chars@, i + 1, k);
                lemma_prefixes_grow(chars@, i as int, i + 1);
            }
        }
    }
    i
}

/// Replaces the bytes `start..end` of the query, both character boundaries,
/// with `text` (`String::replace_range`).
pub fn replace_span(query: &str, start: usize, end: usize, text: &str) -> (res: String)
    requires
        start <= end,
        exists|k: int| 0 <= k <= query@.len() && utf8_prefix(query@, k) == start,
        exists|k: int| 0 <= k <= query@.len() && utf8_prefix(query@, k) == end,
    ensures
        forall|ks: int, ke: int|
            0 <= ks <= query@.len() && 0 <= ke <= query@.len() && utf8_prefix(query@, ks) == start
                && utf8_prefix(query@, ke) == end ==> res@ == query@.take(ks) + text@ + query@.skip(ke),
{
    let chars = chars_of(query);
    let ks = char_index_at(chars.as_slice(), start);
    let ke = char_index_at(chars.as_slice(), end);
    proof {
        if ks > ke {
            lemma_prefixes_grow(chars@, ke + 1, ks as int);
            lemma_prefixes_grow(chars@, ke as int, ke + 1);
        }
    }
    let mut out: Vec<char> = Vec::new();
    push_all(&mut out, &chars.as_slice()[0..ks]);
    let text_chars = chars_of(text);
    push_all(&mut out, text_chars.as_slice());
    push_all(&mut out, &chars.as_slice()[ke..chars.len()]);
    proof {
        assert(chars@.subrange(0, ks as int) =~= query@.take(ks as int));
        assert(chars@.subrange(ke as int, chars@.len() as int) =~= query@.skip(ke as int));
    }
    string_from_chars(out.as_slice())
}

/// The results in the visible window, from `visible_start` on and at most
/// `MAX_VISIBLE_RESULTS` of them, that still need an icon loaded, in order.
pub open spec fn needs_icon_in_window(visible_start: int, needs_icon: Seq<bool>, i: int) -> bool {
    &&& visible_start <= i < visible_start + MAX_VISIBLE_RESULTS
    &&& 0 <= i < needs_icon.len()
    &&& needs_icon[i]
}

/// Chooses the visible results whose icons are still to load (see
/// `needs_icon_in_window`), in increasing order.
pub fn icon_requests(visible_start: usize, needs_icon: &[bool]) -> (res: Vec<usize>)
    ensures
        forall|k: int| 0 <= k < res@.len() ==> needs_icon_in_window(visible_start as int, needs_icon@, #[trigger] res@[k] as int),
        forall|i: int| needs_icon_in_window(visible_start as int, needs_icon@, i) ==> res@.contains(i as usize),
        forall|a: int, b: int| 0 <= a < b < res@.len() ==> #[trigger] res@[a] < #[trigger] res@[b],
{
    let mut res: Vec<usize> = Vec::new();
    if visible_start >= needs_icon.len() {
        return res;
    }
    let end: usize = if needs_icon.len() - visible_start > MAX_VISIBLE_RESULTS {
        visible_start + MAX_VISIBLE_RESULTS
    } else {
        needs_icon.len()
    };
    let mut i: usize = visible_start;
    while i < end
        invariant
            visible_start <= i <= end <= needs_icon@.len(),
            end == needs_icon@.len() || end == visible_start + MAX_VISIBLE_RESULTS,
            end <= visible_start + MAX_VISIBLE_RESULTS,
            forall|k: int| 0 <= k < res@.len() ==> needs_icon_in_window(visible_start as int, needs_icon@, #[trigger] res@[k] as int)
                && res@[k] < i,
            forall|j: int| visible_start <= j < i && needs_icon_in_window(visible_start as int, needs_icon@, j) ==> res@.contains(j as usize),
            forall|a: int, b: int| 0 <= a < b < res@.len() ==> #[trigger] res@[a] < #[trigger] res@[b],
        decreases end - i,
    {
        if needs_icon[i] {
            let ghost prev = res@;
            res.push(i);
            proof {
                assert forall|j: int| visible_start <= j < i + 1 && needs_icon_in_window(visible_start as int, needs_icon@, j) implies res@.contains(j as usize) by {
                    if j == i {
                        assert(res@[prev.len() as int] == i);
                    } else {
                        assert(prev.contains(j as usize));
                        let k = choose|k: int| 0 <= k < prev.len() && prev[k] == j as usize;
                        assert(res@[k] == j as usize);
                    }
                }
            }
        }
        i = i + 1;
    }
    res
}

/// The UTF-8 byte offset for UTF-16 offset `offset`: the start of the first
/// character at or after it, or the whole length when none is.
pub open spec fn utf8_for_utf16(s: Seq<char>, offset: nat, k: int) -> nat
    decreases s.len() - k,
{
    if k < 0 || k >= s.len() {
        utf8_prefix(s, s.len() as int)
    } else if utf16_prefix(s, k) >= offset {
        utf8_prefix(s, k)
    } else {
        utf8_for_utf16(s, offset, k + 1)
    }
}

/// Converts a UTF-16 offset into the query to a UTF-8 byte offset (see
/// `utf8_for_utf16`).
pub fn offset_from_utf16(query: &str, offset: usize) -> (res: usize)
    requires
        encode_utf8(query@).len() <= usize::MAX,
    ensures
        res == utf8_for_utf16(query@, offset as nat, 0),
{
    let chars = chars_of(query);
    proof {
        lemma_utf8_len(query@);
    }
    let mut bytes: usize = 0;
    let mut units: usize = 0;
    let mut i: usize = 0;
    while i < chars.len()
        invariant
            chars@ == query@,
            i <= chars@.len(),
            utf8_prefix(chars@, chars@.len() as int) <= usize::MAX,
            bytes == utf8_prefix(chars@, i as int),
            units == utf16_prefix(chars@, i as int),
            units <= bytes,
            utf8_for_utf16(chars@, offset as nat, i as int) == utf8_for_utf16(chars@, offset as nat, 0),
        decreases chars@.len() - i,
    {
        if units >= offset {
            return bytes;
        }
        proof {
            lemma_prefixes_grow(chars@, i + 1, chars@.len() as int);
            lemma_prefixes_grow(chars@, i as int, i + 1);
            lemma_prefixes_grow(chars@, 0, i + 1);
        }
        let c = chars[i];
        let v = c as u32;
        let w8: usize = if v <= 0x7F { 1 } else if v <= 0x7FF { 2 } else if v <= 0xFFFF { 3 } else { 4 };
        let w16: usize = if v <= 0xFFFF { 1 } else { 2 };
        bytes = bytes + w8;
        units = units + w16;
        i = i + 1;
    }
    query.len()
}

/// Converting a character boundary to UTF-16 and back gives the same byte
/// offset.
pub proof fn lemma_utf16_round_trip(s: Seq<char>, k: int)
    requires
        0 <= k <= s.len(),
    ensures
        utf8_for_utf16(s, utf16_prefix(s, k), 0) == utf8_prefix(s, k),
{
    lemma_utf16_search(s, utf16_prefix(s, k), k, 0);
}

proof fn lemma_utf16_search(s: Seq<char>, offset: nat, k: int, j: int)
    requires
        0 <= j <= k <= s.len(),
        offset == utf16_prefix(s, k),
    ensures
        utf8_for_utf16(s, offset, j) == utf8_prefix(s, k),
    decreases k - j,
{
    if j < k {
        lemma_prefixes_grow(s, j + 1, k);
        lemma_prefixes_grow(s, j, j + 1);
        if j < s.len() {
            lemma_utf16_search(s, offset, k, j + 1);
        }
    }
}

/// What a key press asks of the search window.
#[derive(Clone, Copy, PartialEq, Eq, Structural, Debug)]
pub enum KeyCommand {
    /// Backspace with Command: clear the query.
    ClearQuery,
    /// Backspace with Option: delete the word before the caret.
    DeleteWord,
    /// Backspace: delete the last character.
    DeleteChar,
    /// Escape: hide the window.
    Hide,
    /// Enter: open the selected result.
    Open,
    /// Up arrow: select the previous result.
    SelectPrevious,
    /// Down arrow: select the next result.
    SelectNext,
    /// Any other key: nothing.
    Ignore,
}

/// The command of a key press, from the key's name and the Command
/// (`platform`) and Option (`alt`) modifiers.
pub open spec fn key_command_of(key: Seq<char>, platform: bool, alt: bool) -> KeyCommand {
    if key == "backspace"@ {
        if platform {
            KeyCommand::ClearQuery
        } else if alt {
            KeyCommand::DeleteWord
        } else {
            KeyCommand::DeleteChar
        }
    } else if key == "escape"@ {
        KeyCommand::Hide
    } else if key == "enter"@ {
        KeyCommand::Open
    } else if key == "up"@ {
        KeyCommand::SelectPrevious
    } else if key == "down"@ {
        KeyCommand::SelectNext
    } else {
        KeyCommand::Ignore
    }
}

/// Decides what a key press asks (see `key_command_of`).
pub fn key_command(key: &str, platform: bool, alt: bool) -> (res: KeyCommand)
    ensures
        res == key_command_of(key@, platform, alt),
{
    if str_equals(key, "backspace") {
        if platform {
            KeyCommand::ClearQuery
        } else if alt {
            KeyCommand::DeleteWord
        } else {
            KeyCommand::DeleteChar
        }
    } else if str_equals(key, "escape") {
        KeyCommand::Hide
    } else if str_equals(key, "enter") {
        KeyCommand::Open
    } else if str_equals(key, "up") {
        KeyCommand::SelectPrevious
    } else if str_equals(key, "down") {
        KeyCommand::SelectNext
    } else {
        KeyCommand::Ignore
    }
}

/// The query after a command that edits it; other commands leave it.
pub open spec fn edited_query(query: Seq<char>, command: KeyCommand) -> Seq<char> {
    match command {
        KeyCommand::ClearQuery => Seq::empty(),
        KeyCommand::DeleteWord => word_deleted(query),
        KeyCommand::DeleteChar => if query.len() > 0 {
            query.drop_last()
        } else {
            query
        },
        _ => query,
    }
}

/// Applies a query-editing command to the query (see `edited_query`).
pub fn edit_query(query: &mut String, command: KeyCommand)
    ensures
        final(query)@ == edited_query(old(query)@, command),
{
    match command {
        KeyCommand::ClearQuery => {
            *query = String::new();
        },
        KeyCommand::DeleteWord => {
            delete_word(query);
        },
        KeyCommand::DeleteChar => {
            let mut chars = chars_of(query.as_str());
            if chars.len() > 0 {
                let _ = chars.pop();
                *query = string_from_chars(chars.as_slice());
            }
        },
        _ => {},
    }
}

/// A clipboard-history action that destroys entries and so waits for a
/// second request before it runs.
#[derive(Clone, Copy, PartialEq, Eq, Structural, Debug)]
pub enum ClipboardAction {
    /// Delete the entry with this id.
    Delete(u64),
    /// Delete every entry.
    ClearAll,
}

/// The pending action after a request, and whether the request confirmed
/// it: a request confirms exactly when the same action was already pending,
/// and then nothing is pending any more; otherwise the requested action
/// becomes the pending one.
pub open spec fn after_request(pending: Option<ClipboardAction>, action: ClipboardAction) -> (
    Option<ClipboardAction>,
    bool,
) {
    if pending == Some(action) {
        (None, true)
    } else {
        (Some(action), false)
    }
}

/// The confirmation step of destructive clipboard-history actions.
pub struct Confirmation {
    pending: Option<ClipboardAction>,
}

impl View for Confirmation {
    type V = Option<ClipboardAction>;

    closed spec fn view(&self) -> Option<ClipboardAction> {
        self.pending
    }
}

impl Confirmation {
    /// Nothing pending.
    pub fn new() -> (res: Self)
        ensures
            res@ is None,
    {
        Confirmation { pending: None }
    }

    /// Requests an action; returns whether this request confirms it (see
    /// `after_request`).
    pub fn request(&mut self, action: ClipboardAction) -> (confirmed: bool)
        ensures
            (final(self)@, confirmed) == after_request(old(self)@, action),
    {
        if self.pending == Some(action) {
            self.pending = None;
            true
        } else {
            self.pending = Some(action);
            false
        }
    }

    /// Forgets the pending action.
    pub fn cancel(&mut self)
        ensures
            final(self)@ is None,
    {
        self.pending = None;
    }

    /// The action waiting for its second request, if any.
    pub fn pending(&self) -> (res: Option<ClipboardAction>)
        ensures
            res == self@,
    {
        self.pending
    }
}

/// A destructive action runs only on its second request in a row: from
/// nothing pending, the first request does not confirm it and the second
/// does, leaving nothing pending.
pub proof fn lemma_second_request_confirms(action: ClipboardAction)
    ensures
        after_request(None, action) == (Some(action), false),
        after_request(Some(action), action) == (None::<ClipboardAction>, true),
{
}

/// A request never confirms an action other than the pending one: asking
/// for a different action replaces the pending one without running anything.
pub proof fn lemma_other_request_does_not_confirm(pending: ClipboardAction, action: ClipboardAction)
    requires
        pending != action,
    ensures
        after_request(Some(pending), action) == (Some(action), false),
{
}

/// What the search window does after a key press, besides the state
/// changes that `key_step` makes.
#[derive(Clone, Copy, PartialEq, Eq, Structural, Debug)]
pub enum KeyAction {
    /// Nothing more.
    Nothing,
    /// Compute the results again for the new query or mode.
    Refilter,
    /// Hide the window.
    Hide,
    /// Open (or copy) the selected result.
    Open,
}

/// The part of the search window's state that key presses change.
pub struct KeyState {
    /// The text typed so far.
    pub query: String,
    /// Whether the whole query is selected, so that an edit replaces it.
    pub query_selected: bool,
    /// Whether the window shows the clipboard history.
    pub clipboard_mode: bool,
    /// The selected row.
    pub selected: usize,
    /// The first visible row.
    pub visible_start: usize,
    /// How often the selection moved (it restarts the selection animation).
    pub move_count: u64,
}

/// Whether the command edits the query.
pub open spec fn edits_query(command: KeyCommand) -> bool {
    command == KeyCommand::ClearQuery || command == KeyCommand::DeleteWord || command == KeyCommand::DeleteChar
}

/// Whether the command moves the selection.
pub open spec fn moves_selection(command: KeyCommand) -> bool {
    command == KeyCommand::SelectPrevious || command == KeyCommand::SelectNext
}

/// The action a command asks for: a refilter after an edit or after leaving
/// the clipboard history with Escape, hiding on Escape otherwise, opening on
/// Enter.
pub open spec fn key_action_of(command: KeyCommand, clipboard_mode: bool) -> KeyAction {
    if edits_query(command) {
        KeyAction::Refilter
    } else if command == KeyCommand::Hide {
        if clipboard_mode {
            KeyAction::Refilter
        } else {
            KeyAction::Hide
        }
    } else if command == KeyCommand::Open {
        KeyAction::Open
    } else {
        KeyAction::Nothing
    }
}

/// The query after a command: an edit of a fully selected query empties it,
/// other edits apply (see `edited_query`), other commands leave it.
pub open spec fn query_after(query: Seq<char>, query_selected: bool, command: KeyCommand) -> Seq<char> {
    if edits_query(command) && query_selected {
        Seq::empty()
    } else {
        edited_query(query, command)
    }
}

/// The selection and first visible row after a command.
pub open spec fn selection_after(selected: usize, visible_start: usize, command: KeyCommand, result_count: usize) -> (
    usize,
    usize,
) {
    if command == KeyCommand::SelectPrevious {
        moved_up(selected, visible_start)
    } else if command == KeyCommand::SelectNext {
        moved_down(selected, visible_start, result_count)
    } else {
        (selected, visible_start)
    }
}

/// Applies a key command to the window's state and returns what else to do:
/// any command but `Ignore` cancels a pending clipboard confirmation; edits
/// change the query and drop its selection; Escape leaves the clipboard
/// history first; the arrows move the selection over `result_count` rows.
pub fn key_step(state: &mut KeyState, confirmation: &mut Confirmation, command: KeyCommand, result_count: usize) -> (action: KeyAction)
    requires
        moves_selection(command) ==> old(state).move_count < u64::MAX,
        command == KeyCommand::SelectNext ==> old(state).selected < usize::MAX,
        command == KeyCommand::SelectNext && old(state).selected + 1 < result_count ==> old(state).visible_start
            + MAX_VISIBLE_RESULTS <= usize::MAX,
    ensures
        action == key_action_of(command, old(state).clipboard_mode),
        final(confirmation)@ == (if command == KeyCommand::Ignore {
            old(confirmation)@
        } else {
            None
        }),
        final(state).query@ == query_after(old(state).query@, old(state).query_selected, command),
        final(state).query_selected == (old(state).query_selected && !edits_query(command)),
        final(state).clipboard_mode == (old(state).clipboard_mode && command != KeyCommand::Hide),
        (final(state).selected, final(state).visible_start) == selection_after(
            old(state).selected,
            old(state).visible_start,
            command,
            result_count,
        ),
        final(state).move_count == (if moves_selection(command) {
            old(state).move_count + 1
        } else {
            old(state).move_count as int
        }),
{
    if command != KeyCommand::Ignore {
        confirmation.cancel();
    }
    match command {
        KeyCommand::ClearQuery | KeyCommand::DeleteWord | KeyCommand::DeleteChar => {
            if state.query_selected {
                state.query = String::new();
            } else {
                edit_query(&mut state.query, command);
            }
            state.query_selected = false;
            KeyAction::Refilter
        },
        KeyCommand::Hide => {
            if state.clipboard_mode {
                state.clipboard_mode = false;
                KeyAction::Refilter
            } else {
                KeyAction::Hide
            }
        },
        KeyCommand::Open => KeyAction::Open,
        KeyCommand::SelectPrevious => {
            move_selection_up(&mut state.selected, &mut state.visible_start);
            state.move_count = state.move_count + 1;
            KeyAction::Nothing
        },
        KeyCommand::SelectNext => {
            move_selection_down(&mut state.selected, &mut state.visible_start, result_count);
            state.move_count = state.move_count + 1;
            KeyAction::Nothing
        },
        KeyCommand::Ignore => KeyAction::Nothing,
    }
}

/// The row to select after an entry was deleted and the list rebuilt with
/// `result_count` rows: the same position where it still exists, else the
/// last row (0 for an empty list).
pub open spec fn selection_after_delete_of(previous: usize, result_count: usize) -> usize {
    if result_count == 0 {
        0
    } else if previous < result_count {
        previous
    } else {
        (result_count - 1) as usize
    }
}

/// Keeps the selection in place after a delete (see
/// `selection_after_delete_of`).
pub fn selection_after_delete(previous: usize, result_count: usize) -> (res: usize)
    ensures
        res == selection_after_delete_of(previous, result_count),
{
    if result_count == 0 {
        0
    } else if previous < result_count {
        previous
    } else {
        result_count - 1
    }
}

} // verus!
