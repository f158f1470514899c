//! Subsequence fuzzy matching with word-start and consecutive-character
//! bonuses.
use vstd::prelude::*;

use crate::text::{is_alphanumeric, lowercase, lowercase_chars, unicode_alphanumeric, utf8_len};

verus! {

/// Bonus for a match that directly follows the previous match.
pub open spec fn adjacency_bonus(last: Option<int>, ti: int) -> int {
    match last {
        Some(l) => if ti == l + 1 { 10 } else { 5 },
        None => 5,
    }
}

/// Bonus for a match at the start of a word: the first character, or one
/// that follows a character that is not alphanumeric.
pub open spec fn word_start_bonus(target: Seq<char>, ti: int) -> int {
    if ti == 0 || !unicode_alphanumeric(target[ti - 1]) {
        15
    } else {
        0
    }
}

/// State of the greedy left-to-right scan after the first `n` target
/// characters: how many query characters matched, the running total, and
/// where the last match was.
pub open spec fn scan(query: Seq<char>, target: Seq<char>, n: nat) -> (nat, int, Option<int>)
    decreases n,
{
    if n == 0 {
        (0, 0, None)
    } else {
        let prev = scan(query, target, (n - 1) as nat);
        let ti = n - 1;
        if prev.0 < query.len() && target[ti] == query[prev.0 as int] {
            (
                prev.0 + 1,
                prev.1 + adjacency_bonus(prev.2, ti) + word_start_bonus(target, ti),
                Some(ti),
            )
        } else {
            prev
        }
    }
}

/// Rust's `i32` division by 4, which rounds toward zero.
pub open spec fn quarter_toward_zero(x: int) -> int {
    if x >= 0 {
        x / 4
    } else {
        -((-x) / 4)
    }
}

/// Length penalty: a quarter of the target's length in bytes, taken as `i32`
/// (the `usize` to `i32` cast wraps as Rust's does).
pub open spec fn length_penalty(target_bytes: usize) -> int {
    quarter_toward_zero(target_bytes as i32 as int)
}

/// Score of an already lowercased query against an already lowercased target
/// whose text before lowercasing is `target_bytes` bytes long: `None` unless every
/// query character is matched in order; the empty query scores 0.
pub open spec fn lowered_score(query: Seq<char>, target: Seq<char>, target_bytes: usize) -> Option<int> {
    if query.len() == 0 {
        Some(0)
    } else {
        let s = scan(query, target, target.len());
        if s.0 == query.len() {
            Some(s.1 - length_penalty(target_bytes))
        } else {
            None
        }
    }
}

proof fn lemma_scan_bounds(query: Seq<char>, target: Seq<char>, n: nat)
    requires
        n <= target.len(),
    ensures
        scan(query, target, n).0 <= query.len(),
        scan(query, target, n).0 <= n,
        0 <= scan(query, target, n).1 <= 25 * scan(query, target, n).0,
        scan(query, target, n).2 matches Some(l) ==> 0 <= l < n,
    decreases n,
{
    if n > 0 {
        lemma_scan_bounds(query, target, (n - 1) as nat);
    }
}

/// The score fits Rust's `i32` arithmetic: the running total never exceeds
/// `i32::MAX` (it only grows, so its final value decides) and the total less
/// the length penalty is an `i32`. Where it does not, an `i32` score has no
/// value to give, and scoring gives `None`.
pub open spec fn score_fits(query: Seq<char>, target: Seq<char>, target_bytes: usize) -> bool {
    query.len() == 0 || {
        let total = scan(query, target, target.len()).1;
        &&& total <= i32::MAX
        &&& i32::MIN <= total - length_penalty(target_bytes) <= i32::MAX
    }
}

/// What scoring returns: the score where it fits an `i32`, else `None`.
pub open spec fn checked_score(query: Seq<char>, target: Seq<char>, target_bytes: usize) -> Option<int> {
    if score_fits(query, target, target_bytes) {
        lowered_score(query, target, target_bytes)
    } else {
        None
    }
}

/// Scores an already lowercased query against an already lowercased target
/// whose text before lowercasing is `target_bytes` bytes long (see `checked_score`).
pub fn score_lowercased(query: &[char], target: &[char], target_bytes: usize) -> (res: Option<i32>)
    ensures
        res is Some <==> checked_score(query@, target@, target_bytes) is Some,
        res matches Some(v) ==> checked_score(query@, target@, target_bytes) == Some(v as int),
{
    if query.len() == 0 {
        return Some(0);
    }
    let mut total: i64 = 0;
    let mut overflowed = false;
    let mut last_match: Option<usize> = None;
    let mut qi: usize = 0;
    let mut ti: usize = 0;
    while ti < target.len()
        invariant
            ti <= target@.len(),
            scan(query@, target@, ti as nat).0 == qi,
            !overflowed ==> scan(query@, target@, ti as nat).1 == total && total <= i32::MAX,
            overflowed ==> scan(query@, target@, ti as nat).1 > i32::MAX,
            0 <= total <= i32::MAX,
            scan(query@, target@, ti as nat).2 == (match last_match {
                Some(l) => Some(l as int),
                None => None::<int>,
            }),
        decreases target@.len() - ti,
    {
        proof {
            lemma_scan_bounds(query@, target@, ti as nat);
        }
        let tc = target[ti];
        if qi < query.len() && tc == query[qi] {
            let adjacency: i64 = match last_match {
                Some(last) => if ti == last + 1 { 10 } else { 5 },
                None => 5,
            };
            let word_start: i64 = if ti == 0 || !is_alphanumeric(target[ti - 1]) {
                15
            } else {
                0
            };
            if !overflowed {
                let next = total + adjacency + word_start;
                if next > i32::MAX as i64 {
                    overflowed = true;
                } else {
                    total = next;
                }
            }
            last_match = Some(ti);
            qi = qi + 1;
        }
        ti = ti + 1;
    }
    proof {
        lemma_scan_bounds(query@, target@, ti as nat);
    }
    if qi == query.len() {
        if overflowed {
            return None;
        }
        let penalty: i32 = (target_bytes as i32) / 4;
        let value: i64 = total - penalty as i64;
        if value < i32::MIN as i64 || value > i32::MAX as i64 {
            None
        } else {
            Some(value as i32)
        }
    } else {
        None
    }
}

/// What `score` returns: the score of the lowercased query against the
/// lowercased target where it fits an `i32`, else `None`.
pub open spec fn score_result(query: Seq<char>, target: Seq<char>) -> Option<int> {
    checked_score(lowercase(query), lowercase(target), utf8_len(target))
}

/// Subsequence fuzzy matcher: `None` unless the lowercased query occurs in
/// order (not necessarily contiguously) in the lowercased target. Matches at
/// a word start and directly after the previous match score higher; longer
/// targets score lower.
pub fn score(query: &str, target: &str) -> (res: Option<i32>)
    ensures
        res matches Some(v) ==> score_result(query@, target@) == Some(v as int),
        res is None ==> score_result(query@, target@) is None,
{
    let query_lower = lowercase_chars(query);
    let target_lower = lowercase_chars(target);
    score_lowercased(query_lower.as_slice(), target_lower.as_slice(), target.len())
}

/// `idx` lists, in increasing order, positions of `target` that hold the
/// characters of `query` one after another.
pub open spec fn embeds(idx: Seq<int>, query: Seq<char>, target: Seq<char>) -> bool {
    &&& idx.len() == query.len()
    &&& forall|i: int, j: int| 0 <= i < j < idx.len() ==> idx[i] < idx[j]
    &&& forall|i: int| 0 <= i < idx.len() ==> 0 <= #[trigger] idx[i] < target.len() && target[idx[i]] == query[i]
}

/// `query` occurs in `target` in order, not necessarily contiguously.
pub open spec fn is_subsequence(query: Seq<char>, target: Seq<char>) -> bool {
    exists|idx: Seq<int>| embeds(idx, query, target)
}

/// Positions at which the greedy scan matched, after `n` target characters.
pub open spec fn greedy_positions(query: Seq<char>, target: Seq<char>, n: nat) -> Seq<int>
    decreases n,
{
    if n == 0 {
        Seq::empty()
    } else {
        let prev = scan(query, target, (n - 1) as nat);
        if prev.0 < query.len() && target[n - 1] == query[prev.0 as int] {
            greedy_positions(query, target, (n - 1) as nat).push(n - 1)
        } else {
            greedy_positions(query, target, (n - 1) as nat)
        }
    }
}

proof fn lemma_greedy_positions(query: Seq<char>, target: Seq<char>, n: nat)
    requires
        n <= target.len(),
    ensures
        embeds(greedy_positions(query, target, n), query.take(scan(query, target, n).0 as int), target),
        forall|i: int| 0 <= i < greedy_positions(query, target, n).len()
            ==> #[trigger] greedy_positions(query, target, n)[i] < n,
    decreases n,
{
    lemma_scan_bounds(query, target, n);
    if n > 0 {
        lemma_greedy_positions(query, target, (n - 1) as nat);
        lemma_scan_bounds(query, target, (n - 1) as nat);
    }
}

proof fn lemma_scan_matched_le(query: Seq<char>, target: Seq<char>, n: nat)
    ensures
        scan(query, target, n).0 <= query.len(),
    decreases n,
{
    if n > 0 {
        lemma_scan_matched_le(query, target, (n - 1) as nat);
    }
}

proof fn lemma_scan_monotonic(query: Seq<char>, target: Seq<char>, m: nat, n: nat)
    requires
        m <= n,
    ensures
        scan(query, target, m).0 <= scan(query, target, n).0,
    decreases n,
{
    if m < n {
        lemma_scan_monotonic(query, target, m, (n - 1) as nat);
    }
}

proof fn lemma_embedding_is_found(query: Seq<char>, target: Seq<char>, idx: Seq<int>, k: nat)
    requires
        embeds(idx, query, target),
        k < query.len(),
    ensures
        scan(query, target, (idx[k as int] + 1) as nat).0 >= k + 1,
    decreases k,
{
    let n = idx[k as int];
    lemma_scan_bounds(query, target, n as nat);
    if k > 0 {
        lemma_embedding_is_found(query, target, idx, (k - 1) as nat);
        lemma_scan_monotonic(query, target, (idx[k - 1] + 1) as nat, n as nat);
    }
}

/// A query scores (is not `None`) exactly when it occurs in the target as a
/// subsequence.
pub proof fn lemma_score_iff_subsequence(query: Seq<char>, target: Seq<char>, target_bytes: usize)
    ensures
        lowered_score(query, target, target_bytes) is Some <==> is_subsequence(query, target),
{
    if query.len() == 0 {
        assert(embeds(Seq::empty(), query, target));
    } else {
        let s = scan(query, target, target.len());
        lemma_scan_bounds(query, target, target.len());
        if s.0 == query.len() {
            lemma_greedy_positions(query, target, target.len());
            assert(query.take(query.len() as int) =~= query);
            assert(embeds(greedy_positions(query, target, target.len()), query, target));
        }
        if is_subsequence(query, target) {
            let idx = choose|idx: Seq<int>| embeds(idx, query, target);
            let k = (query.len() - 1) as nat;
            lemma_embedding_is_found(query, target, idx, k);
            lemma_scan_monotonic(query, target, (idx[k as int] + 1) as nat, target.len());
        }
    }
}

proof fn lemma_prefix_scan(short: Seq<char>, long: Seq<char>, target: Seq<char>, n: nat)
    requires
        short.len() <= long.len(),
        long.take(short.len() as int) == short,
    ensures
        ({
            let a = scan(short, target, n);
            let b = scan(long, target, n);
            a == b || (a.0 == short.len() && b.0 >= short.len() && b.1 >= a.1 + 5 * (b.0 - short.len()))
        }),
    decreases n,
{
    if n > 0 {
        lemma_prefix_scan(short, long, target, (n - 1) as nat);
        lemma_scan_matched_le(short, target, (n - 1) as nat);
        let a = scan(short, target, (n - 1) as nat);
        let b = scan(long, target, (n - 1) as nat);
        assert(adjacency_bonus(b.2, n - 1) >= 5);
        assert(word_start_bonus(target, n - 1) >= 0);
        if a == b && a.0 < short.len() {
            assert(short[a.0 as int] == long.take(short.len() as int)[a.0 as int]);
        }
    }
}

/// Extending a (non-empty) query that matches by more characters that still
/// match raises its score: an exact match outranks a partial one.
pub proof fn lemma_longer_match_scores_higher(
    short: Seq<char>,
    long: Seq<char>,
    target: Seq<char>,
    target_bytes: usize,
)
    requires
        0 < short.len() < long.len(),
        long.take(short.len() as int) == short,
        lowered_score(short, target, target_bytes) is Some,
        lowered_score(long, target, target_bytes) is Some,
    ensures
        lowered_score(long, target, target_bytes)->0 > lowered_score(short, target, target_bytes)->0,
{
    lemma_prefix_scan(short, long, target, target.len());
}

/// `score` is `Some` exactly when the lowercased query is a subsequence of
/// the lowercased target, wherever the score fits an `i32`.
pub proof fn lemma_score_some_iff_subsequence(query: Seq<char>, target: Seq<char>)
    requires
        score_fits(lowercase(query), lowercase(target), utf8_len(target)),
    ensures
        score_result(query, target) is Some <==> is_subsequence(lowercase(query), lowercase(target)),
{
    lemma_score_iff_subsequence(lowercase(query), lowercase(target), utf8_len(target));
}

/// The empty query scores 0 against every target.
pub proof fn lemma_empty_query_score_is_zero(query: Seq<char>, target: Seq<char>)
    requires
        lowercase(query).len() == 0,
    ensures
        score_result(query, target) == Some(0int),
{
}

/// Only the lowercase forms of the query and the target decide the score.
pub proof fn lemma_score_ignores_case(query_a: Seq<char>, query_b: Seq<char>, target: Seq<char>)
    requires
        lowercase(query_a) == lowercase(query_b),
    ensures
        score_result(query_a, target) == score_result(query_b, target),
{
}

/// How many matched positions directly follow the previous matched one.
pub open spec fn adjacent_count(idx: Seq<int>) -> int
    decreases idx.len(),
{
    if idx.len() <= 1 {
        0
    } else {
        adjacent_count(idx.drop_last()) + if idx.last() == idx[idx.len() - 2] + 1 {
            1int
        } else {
            0
        }
    }
}

/// How many matched positions start a word: the first character of the
/// target, or one after a character that is not alphanumeric.
pub open spec fn word_start_count(target: Seq<char>, idx: Seq<int>) -> int
    decreases idx.len(),
{
    if idx.len() == 0 {
        0
    } else {
        word_start_count(target, idx.drop_last()) + if idx.last() == 0 || !unicode_alphanumeric(
            target[idx.last() - 1],
        ) {
            1int
        } else {
            0
        }
    }
}

proof fn lemma_scan_is_bonus_sum(query: Seq<char>, target: Seq<char>, n: nat)
    requires
        n <= target.len(),
    ensures
        ({
            let g = greedy_positions(query, target, n);
            let sc = scan(query, target, n);
            &&& g.len() == sc.0
            &&& sc.1 == 5 * g.len() + 5 * adjacent_count(g) + 15 * word_start_count(target, g)
            &&& sc.2 == (if g.len() == 0 {
                None::<int>
            } else {
                Some(g.last())
            })
        }),
    decreases n,
{
    if n > 0 {
        lemma_scan_is_bonus_sum(query, target, (n - 1) as nat);
        let g0 = greedy_positions(query, target, (n - 1) as nat);
        let g = greedy_positions(query, target, n);
        if g.len() > g0.len() {
            assert(g.drop_last() =~= g0);
            if g.len() >= 2 {
                assert(g[g.len() - 2] == g0.last());
            }
        }
    }
}

/// The score of a query that matches is a sum of bonuses over the matched
/// positions (the leftmost, greedy ones): 5 for every match, 5 more for
/// each match that directly follows the previous one, 15 for each match at
/// a word start, less a quarter of the target's byte length.
pub proof fn lemma_score_is_bonus_sum(query: Seq<char>, target: Seq<char>, target_bytes: usize)
    requires
        query.len() > 0,
        is_subsequence(query, target),
    ensures
        ({
            let g = greedy_positions(query, target, target.len());
            lowered_score(query, target, target_bytes) == Some(
                5 * query.len() + 5 * adjacent_count(g) + 15 * word_start_count(target, g) - length_penalty(
                    target_bytes,
                ),
            )
        }),
{
    lemma_score_iff_subsequence(query, target, target_bytes);
    lemma_scan_is_bonus_sum(query, target, target.len());
}

} // verus!
