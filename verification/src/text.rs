//! Character-level helpers shared by the other modules.
use vstd::prelude::*;
use vstd::utf8::encode_utf8;

verus! {

broadcast use vstd::string::group_string_axioms;

/// What `str::to_lowercase` returns for a string with the given characters.
pub uninterp spec fn lowercase(s: Seq<char>) -> Seq<char>;

/// The characters of `str::to_uppercase` of a string with these characters.
pub uninterp spec fn uppercase(s: Seq<char>) -> Seq<char>;

/// The characters of `char::to_uppercase` of the character.
pub uninterp spec fn char_uppercase(c: char) -> Seq<char>;

/// Whether `char::is_alphanumeric` holds of the character.
pub uninterp spec fn unicode_alphanumeric(c: char) -> bool;

/// Whether the character has the Unicode `White_Space` property, which is
/// what `char::is_whitespace` tests: its 25 code points.
pub open spec fn unicode_white_space(c: char) -> bool {
    let n = c as u32;
    ||| 0x9 <= n <= 0xd
    ||| n == 0x20
    ||| n == 0x85
    ||| n == 0xa0
    ||| n == 0x1680
    ||| 0x2000 <= n <= 0x200a
    ||| n == 0x2028
    ||| n == 0x2029
    ||| n == 0x202f
    ||| n == 0x205f
    ||| n == 0x3000
}

/// Calls `str::to_lowercase`. Claimed: the result's characters are the named
/// result `lowercase` of the argument's characters, a function of them alone,
/// and the empty string lowercases to the empty string. Unsaid: what the
/// Unicode case mapping is.
#[verifier::external_body]
pub(crate) fn to_lowercase(s: &str) -> (res: String)
    ensures
        res@ == lowercase(s@),
        s@.len() == 0 ==> res@.len() == 0,
{
    s.to_lowercase()
}

/// Calls `str::to_uppercase`. Claimed: the result's characters are the named
/// result `uppercase` of the argument's characters, a function of them alone.
/// Unsaid: what the Unicode case mapping is.
#[verifier::external_body]
pub(crate) fn to_uppercase(s: &str) -> (res: String)
    ensures
        res@ == uppercase(s@),
{
    s.to_uppercase()
}

/// Calls `char::to_uppercase` and collects what it yields. Claimed: the
/// result's characters are the named result `char_uppercase` of the
/// character. Unsaid: what the Unicode case mapping is.
#[verifier::external_body]
pub(crate) fn char_to_uppercase(c: char) -> (res: String)
    ensures
        res@ == char_uppercase(c),
{
    c.to_uppercase().collect()
}

/// Calls `char::is_alphanumeric`. Claimed: the result is the named property
/// `unicode_alphanumeric` of the character. Unsaid: which characters have it.
#[verifier::external_body]
pub(crate) fn is_alphanumeric(c: char) -> (res: bool)
    ensures
        res == unicode_alphanumeric(c),
{
    c.is_alphanumeric()
}

/// Whether the character is white space (see `unicode_white_space`).
pub(crate) fn is_whitespace(c: char) -> (res: bool)
    ensures
        res == unicode_white_space(c),
{
    let n = c as u32;
    (0x9 <= n && n <= 0xd) || n == 0x20 || n == 0x85 || n == 0xa0 || n == 0x1680 || (0x2000 <= n
        && n <= 0x200a) || n == 0x2028 || n == 0x2029 || n == 0x202f || n == 0x205f || n == 0x3000
}

/// Collects characters into a `String` (std's `FromIterator<&char>`).
/// Claimed: the string holds exactly those characters, in order.
#[verifier::external_body]
pub(crate) fn string_from_chars(chars: &[char]) -> (res: String)
    ensures
        res@ == chars@,
{
    chars.iter().collect()
}

/// The length in bytes of the UTF-8 encoding of `s`, as `str::len`
/// reports it.
pub open spec fn utf8_len(s: Seq<char>) -> usize {
    encode_utf8(s).len() as usize
}

/// The views of a run of strings.
pub open spec fn string_views(v: Seq<String>) -> Seq<Seq<char>> {
    v.map_values(|s: String| s@)
}

/// The characters of `s`, in order.
pub fn chars_of(s: &str) -> (res: Vec<char>)
    ensures
        res@ == s@,
{
    let mut res: Vec<char> = Vec::new();
    for c in it: s.chars()
        invariant
            it.seq() == s@,
            res@ == it.seq().take(it.index() as int),
    {
        res.push(c);
    }
    res
}

/// The characters of `s` with `str::to_lowercase` applied.
pub fn lowercase_chars(s: &str) -> (res: Vec<char>)
    ensures
        res@ == lowercase(s@),
        s@.len() == 0 ==> res@.len() == 0,
{
    let lower = to_lowercase(s);
    chars_of(lower.as_str())
}

/// `s` without its leading white space.
pub open spec fn trim_start(s: Seq<char>) -> Seq<char>
    decreases s.len(),
{
    if s.len() > 0 && unicode_white_space(s[0]) {
        trim_start(s.drop_first())
    } else {
        s
    }
}

/// `s` without its trailing white space.
pub open spec fn trim_end(s: Seq<char>) -> Seq<char>
    decreases s.len(),
{
    if s.len() > 0 && unicode_white_space(s.last()) {
        trim_end(s.drop_last())
    } else {
        s
    }
}

/// `s` without leading and trailing white space (what `str::trim` returns).
pub open spec fn trim(s: Seq<char>) -> Seq<char> {
    trim_end(trim_start(s))
}

/// Trimming the start drops exactly the leading white space: where the
/// first `i` characters are white space and the next is not (or there is
/// none), the rest from `i` on is what stays.
pub proof fn lemma_trim_start_suffix(s: Seq<char>, i: int)
    requires
        0 <= i <= s.len(),
        forall|k: int| 0 <= k < i ==> unicode_white_space(#[trigger] s[k]),
        i == s.len() || !unicode_white_space(s[i]),
    ensures
        trim_start(s) == s.subrange(i, s.len() as int),
    decreases i,
{
    if i > 0 {
        let t = s.drop_first();
        assert forall|k: int| 0 <= k < i - 1 implies unicode_white_space(#[trigger] t[k]) by {
            assert(t[k] == s[k + 1]);
        }
        if i < s.len() {
            assert(t[i - 1] == s[i]);
        }
        lemma_trim_start_suffix(t, i - 1);
        assert(t.subrange(i - 1, t.len() as int) =~= s.subrange(i, s.len() as int));
    } else {
        assert(s.subrange(0, s.len() as int) =~= s);
    }
}

/// Trimming the end drops exactly the trailing white space: where the
/// characters from `j` on are white space and the one before is not (or
/// there is none), the first `j` characters are what stays.
pub proof fn lemma_trim_end_prefix(s: Seq<char>, j: int)
    requires
        0 <= j <= s.len(),
        forall|k: int| j <= k < s.len() ==> unicode_white_space(#[trigger] s[k]),
        j == 0 || !unicode_white_space(s[j - 1]),
    ensures
        trim_end(s) == s.subrange(0, j),
    decreases s.len() - j,
{
    if j < s.len() {
        let t = s.drop_last();
        assert forall|k: int| j <= k < t.len() implies unicode_white_space(#[trigger] t[k]) by {
            assert(t[k] == s[k]);
        }
        if j > 0 {
            assert(t[j - 1] == s[j - 1]);
        }
        lemma_trim_end_prefix(t, j);
        assert(t.subrange(0, j) =~= s.subrange(0, j));
    } else {
        assert(s.subrange(0, j) =~= s);
    }
}

/// The characters of `s` with leading and trailing white space removed, as
/// `str::trim` does.
pub fn trim_chars(s: &[char]) -> (res: Vec<char>)
    ensures
        res@ == trim(s@),
{
    let mut start: usize = 0;
    while start < s.len() && is_whitespace(s[start])
        invariant
            start <= s@.len(),
            forall|k: int| 0 <= k < start ==> unicode_white_space(#[trigger] s@[k]),
        decreases s@.len() - start,
    {
        start = start + 1;
    }
    proof {
        lemma_trim_start_suffix(s@, start as int);
    }
    let mut end: usize = s.len();
    while end > start && is_whitespace(s[end - 1])
        invariant
            start <= end <= s@.len(),
            forall|k: int| end <= k < s@.len() ==> unicode_white_space(#[trigger] s@[k]),
        decreases end,
    {
        end = end - 1;
    }
    let ghost rest = s@.subrange(start as int, s@.len() as int);
    proof {
        assert forall|k: int| end - start <= k < rest.len() implies unicode_white_space(#[trigger] rest[k]) by {
            assert(rest[k] == s@[k + start]);
        }
        if end > start {
            assert(rest[end - start - 1] == s@[end - 1]);
        }
        lemma_trim_end_prefix(rest, end - start);
        assert(rest.subrange(0, end - start) =~= s@.subrange(start as int, end as int));
    }
    let mut res: Vec<char> = Vec::new();
    let mut i: usize = start;
    while i < end
        invariant
            start <= i <= end <= s@.len(),
            res@ == s@.subrange(start as int, i as int),
        decreases end - i,
    {
        res.push(s[i]);
        i = i + 1;
        proof {
            assert(res@ =~= s@.subrange(start as int, i as int));
        }
    }
    res
}

/// The maximal runs of non-white-space characters of `s`, in order (what
/// `str::split_whitespace` yields).
pub open spec fn words(s: Seq<char>) -> Seq<Seq<char>>
    decreases s.len(),
{
    if s.len() == 0 {
        Seq::empty()
    } else {
        let prev = words(s.drop_last());
        let c = s.last();
        if unicode_white_space(c) {
            prev
        } else if s.len() >= 2 && !unicode_white_space(s[s.len() - 2]) {
            prev.update(prev.len() - 1, prev.last().push(c))
        } else {
            prev.push(seq![c])
        }
    }
}

/// The pieces joined with one space between neighbours.
pub open spec fn join_with_space(pieces: Seq<Seq<char>>) -> Seq<char>
    decreases pieces.len(),
{
    if pieces.len() == 0 {
        Seq::empty()
    } else if pieces.len() == 1 {
        pieces[0]
    } else {
        join_with_space(pieces.drop_last()) + seq![' '] + pieces.last()
    }
}

proof fn lemma_words_nonempty_when_word_char(s: Seq<char>)
    requires
        s.len() > 0,
        !unicode_white_space(s.last()),
    ensures
        words(s).len() > 0,
    decreases s.len(),
{
    if s.len() >= 2 && !unicode_white_space(s[s.len() - 2]) {
        assert(s.drop_last().last() == s[s.len() - 2]);
        lemma_words_nonempty_when_word_char(s.drop_last());
    }
}

/// The pieces one after another.
pub open spec fn concat(pieces: Seq<Seq<char>>) -> Seq<char>
    decreases pieces.len(),
{
    if pieces.len() == 0 {
        Seq::empty()
    } else {
        concat(pieces.drop_last()) + pieces.last()
    }
}

/// How many runs of characters that are not white space `s` holds: the
/// positions that hold such a character right at the start or after white
/// space.
pub open spec fn run_count(s: Seq<char>) -> int
    decreases s.len(),
{
    if s.len() == 0 {
        0
    } else {
        run_count(s.drop_last()) + if !unicode_white_space(s.last()) && (s.len() == 1 || unicode_white_space(
            s[s.len() - 2],
        )) {
            1int
        } else {
            0
        }
    }
}

/// The words of a text are its maximal runs of characters that are not
/// white space: there is one word per run, no word is empty or holds white
/// space, and together they are the text with its white space removed.
pub proof fn lemma_words_are_the_runs(s: Seq<char>)
    ensures
        words(s).len() == run_count(s),
        forall|i: int| 0 <= i < words(s).len() ==> (#[trigger] words(s)[i]).len() > 0,
        forall|i: int, k: int|
            0 <= i < words(s).len() && 0 <= k < words(s)[i].len() ==> !unicode_white_space(#[trigger] words(s)[i][k]),
        concat(words(s)) == s.filter(|c: char| !unicode_white_space(c)),
    decreases s.len(),
{
    if s.len() > 0 {
        let t = s.drop_last();
        let c = s.last();
        let pred = |x: char| !unicode_white_space(x);
        lemma_words_are_the_runs(t);
        assert(s =~= t.push(c));
        t.lemma_filter_push(c, pred);
        let prev = words(t);
        let cur = words(s);
        if unicode_white_space(c) {
        } else if s.len() >= 2 && !unicode_white_space(s[s.len() - 2]) {
            assert(t.last() == s[s.len() - 2]);
            lemma_words_nonempty_when_word_char(t);
            let last = prev.last().push(c);
            assert(cur == prev.update(prev.len() - 1, last));
            assert(cur.drop_last() =~= prev.drop_last());
            assert(concat(cur) =~= concat(prev).push(c));
            assert forall|i: int, k: int|
                0 <= i < cur.len() && 0 <= k < cur[i].len() implies !unicode_white_space(#[trigger] cur[i][k]) by {
                if i < prev.len() - 1 {
                    assert(cur[i] == prev[i]);
                } else if k < prev.last().len() {
                    assert(cur[i][k] == prev[prev.len() - 1][k]);
                }
            }
            assert forall|i: int| 0 <= i < cur.len() implies (#[trigger] cur[i]).len() > 0 by {
                if i < prev.len() - 1 {
                    assert(cur[i] == prev[i]);
                }
            }
        } else {
            assert(cur == prev.push(seq![c]));
            assert(cur.drop_last() =~= prev);
            assert(concat(cur) =~= concat(prev).push(c));
            assert forall|i: int, k: int|
                0 <= i < cur.len() && 0 <= k < cur[i].len() implies !unicode_white_space(#[trigger] cur[i][k]) by {
                if i < prev.len() {
                    assert(cur[i] == prev[i]);
                }
            }
            assert forall|i: int| 0 <= i < cur.len() implies (#[trigger] cur[i]).len() > 0 by {
                if i < prev.len() {
                    assert(cur[i] == prev[i]);
                }
            }
        }
    }
}

proof fn lemma_join_extend_last(pieces: Seq<Seq<char>>, c: char)
    requires
        pieces.len() > 0,
    ensures
        join_with_space(pieces.update(pieces.len() - 1, pieces.last().push(c)))
            == join_with_space(pieces).push(c),
{
    let updated = pieces.update(pieces.len() - 1, pieces.last().push(c));
    if pieces.len() == 1 {
        assert(updated[0] == pieces[0].push(c));
    } else {
        assert(updated.drop_last() =~= pieces.drop_last());
        assert(join_with_space(updated) =~= join_with_space(pieces).push(c));
    }
}

proof fn lemma_join_push(pieces: Seq<Seq<char>>, c: char)
    ensures
        join_with_space(pieces.push(seq![c])) == if pieces.len() == 0 {
            seq![c]
        } else {
            join_with_space(pieces).push(' ').push(c)
        },
{
    let pushed = pieces.push(seq![c]);
    assert(pushed.drop_last() =~= pieces);
    if pieces.len() > 0 {
        assert(join_with_space(pushed) =~= join_with_space(pieces).push(' ').push(c));
    }
}

/// The words of `s` joined with single spaces, as
/// `s.split_whitespace().collect::<Vec<_>>().join(" ")` computes it.
pub fn collapse_whitespace(s: &[char]) -> (res: Vec<char>)
    ensures
        res@ == join_with_space(words(s@)),
{
    let mut res: Vec<char> = Vec::new();
    let mut i: usize = 0;
    let mut prev_is_word: bool = false;
    while i < s.len()
        invariant
            i <= s@.len(),
            res@ == join_with_space(words(s@.take(i as int))),
            prev_is_word == (i > 0 && !unicode_white_space(s@[i - 1])),
        decreases s@.len() - i,
    {
        let c = s[i];
        let ghost prefix = s@.take(i as int);
        let ghost next = s@.take(i + 1);
        proof {
            assert(next.drop_last() =~= prefix);
            assert(next.last() == c);
            if i > 0 {
                assert(next[next.len() - 2] == s@[i - 1]);
            }
        }
        if is_whitespace(c) {
            prev_is_word = false;
        } else if prev_is_word {
            proof {
                lemma_words_nonempty_when_word_char(prefix);
                lemma_join_extend_last(words(prefix), c);
            }
            res.push(c);
            prev_is_word = true;
        } else {
            proof {
                lemma_join_push(words(prefix), c);
            }
            if res.len() > 0 {
                proof {
                    if words(prefix).len() == 0 {
                        assert(join_with_space(words(prefix)).len() == 0);
                    }
                }
                res.push(' ');
            } else {
                proof {
                    if words(prefix).len() > 0 {
                        lemma_words_are_nonempty(prefix);
                        lemma_join_nonempty(words(prefix));
                    }
                }
            }
            res.push(c);
            prev_is_word = true;
        }
        i = i + 1;
    }
    proof {
        assert(s@.take(s@.len() as int) =~= s@);
    }
    res
}

proof fn lemma_words_are_nonempty(s: Seq<char>)
    ensures
        forall|k: int| 0 <= k < words(s).len() ==> (#[trigger] words(s)[k]).len() > 0,
    decreases s.len(),
{
    if s.len() > 0 {
        lemma_words_are_nonempty(s.drop_last());
        if s.len() >= 2 && !unicode_white_space(s[s.len() - 2]) {
            assert(s.drop_last().last() == s[s.len() - 2]);
            lemma_words_nonempty_when_word_char(s.drop_last());
        }
    }
}

proof fn lemma_join_nonempty(pieces: Seq<Seq<char>>)
    requires
        pieces.len() > 0,
        forall|k: int| 0 <= k < pieces.len() ==> (#[trigger] pieces[k]).len() > 0,
    ensures
        join_with_space(pieces).len() > 0,
    decreases pieces.len(),
{
    if pieces.len() > 1 {
        assert(pieces.last() == pieces[pieces.len() - 1]);
    } else {
        assert(pieces[0].len() > 0);
    }
}

/// `needle` occurs contiguously in `haystack` (the empty needle always does).
pub open spec fn contains_run(haystack: Seq<char>, needle: Seq<char>) -> bool {
    exists|i: int| 0 <= i <= haystack.len() - needle.len() && #[trigger] haystack.subrange(i, i + needle.len()) == needle
}

/// Whether `needle` occurs contiguously in `haystack`, as `str::contains`
/// with a string pattern decides.
pub fn contains_chars(haystack: &[char], needle: &[char]) -> (res: bool)
    ensures
        res == contains_run(haystack@, needle@),
{
    if needle.len() > haystack.len() {
        return false;
    }
    let last_start: usize = haystack.len() - needle.len();
    let mut start: usize = 0;
    while start <= last_start
        invariant
            needle@.len() <= haystack@.len(),
            last_start == haystack@.len() - needle@.len(),
            start <= last_start + 1,
            forall|i: int| 0 <= i < start ==> #[trigger] haystack@.subrange(i, i + needle@.len()) != needle@,
        decreases last_start + 1 - start,
    {
        let mut k: usize = 0;
        let mut same: bool = true;
        while k < needle.len()
            invariant
                start <= last_start,
                needle@.len() <= haystack@.len(),
                last_start == haystack@.len() - needle@.len(),
                k <= needle@.len(),
                same == (forall|m: int| 0 <= m < k ==> haystack@[start + m] == needle@[m]),
            decreases needle@.len() - k,
        {
            assert(start + k < haystack@.len() && haystack@.len() == haystack.len());
            if haystack[start + k] != needle[k] {
                same = false;
            }
            k = k + 1;
        }
        if same {
            assert(haystack@.subrange(start as int, start + needle@.len()) =~= needle@);
            return true;
        }
        proof {
            let m = choose|m: int| 0 <= m < needle@.len() && haystack@[start + m] != needle@[m];
            assert(haystack@.subrange(start as int, start + needle@.len())[m] != needle@[m]);
        }
        if start == last_start {
            return false;
        }
        start = start + 1;
    }
    false
}

/// The character of the decimal digit `d`.
pub open spec fn digit_char(d: nat) -> char {
    if d == 0 { '0' } else if d == 1 { '1' } else if d == 2 { '2' } else if d == 3 { '3' }
    else if d == 4 { '4' } else if d == 5 { '5' } else if d == 6 { '6' } else if d == 7 { '7' }
    else if d == 8 { '8' } else { '9' }
}

/// The decimal numeral of `n`, without leading zeros (what `format!("{n}")`
/// writes for an unsigned integer).
pub open spec fn decimal(n: nat) -> Seq<char>
    decreases n,
{
    if n < 10 {
        seq![digit_char(n)]
    } else {
        decimal(n / 10).push(digit_char(n % 10))
    }
}

/// The number that a string of ASCII digits stands for in base ten.
pub open spec fn numeral_value(s: Seq<char>) -> int
    decreases s.len(),
{
    if s.len() == 0 {
        0
    } else {
        numeral_value(s.drop_last()) * 10 + ((s.last() as u32) - ('0' as u32))
    }
}

proof fn lemma_digit_char_value(d: nat)
    requires
        d < 10,
    ensures
        (digit_char(d) as u32) - ('0' as u32) == d,
        '0' <= digit_char(d) <= '9',
{
    assert(('0' as u32) == 48);
    if d == 0 {
    } else if d == 1 {
        assert(('1' as u32) == 49);
    } else if d == 2 {
        assert(('2' as u32) == 50);
    } else if d == 3 {
        assert(('3' as u32) == 51);
    } else if d == 4 {
        assert(('4' as u32) == 52);
    } else if d == 5 {
        assert(('5' as u32) == 53);
    } else if d == 6 {
        assert(('6' as u32) == 54);
    } else if d == 7 {
        assert(('7' as u32) == 55);
    } else if d == 8 {
        assert(('8' as u32) == 56);
    } else {
        assert(('9' as u32) == 57);
    }
}

/// `decimal(n)` is the base-ten numeral of `n`: ASCII digits only, worth
/// `n`, with no leading zero except for 0 itself.
pub proof fn lemma_decimal_is_the_numeral(n: nat)
    ensures
        forall|i: int| 0 <= i < decimal(n).len() ==> '0' <= #[trigger] decimal(n)[i] <= '9',
        numeral_value(decimal(n)) == n,
        decimal(n).len() >= 1,
        decimal(n).len() == 1 || decimal(n)[0] != '0',
        n > 0 ==> decimal(n)[0] != '0',
    decreases n,
{
    lemma_digit_char_value(n % 10);
    if n < 10 {
        let r = decimal(n);
        assert(r.drop_last() =~= Seq::<char>::empty());
        assert(numeral_value(r.drop_last()) == 0);
        assert(r.last() == digit_char(n));
        assert(n % 10 == n);
        assert(numeral_value(r) == numeral_value(r.drop_last()) * 10 + ((r.last() as u32) - ('0' as u32)));
    } else {
        lemma_decimal_is_the_numeral(n / 10);
        let d = decimal(n / 10);
        let r = decimal(n);
        assert(r == d.push(digit_char(n % 10)));
        assert(r.drop_last() =~= d);
        assert(r[0] == d[0]);
        assert(n == (n / 10) * 10 + n % 10);
        assert(r.last() == digit_char(n % 10));
        assert(numeral_value(r) == numeral_value(d) * 10 + ((r.last() as u32) - ('0' as u32)));
        assert forall|i: int| 0 <= i < r.len() implies '0' <= #[trigger] r[i] <= '9' by {
            if i < d.len() {
                assert(r[i] == d[i]);
            }
        }
    }
}

fn digit_to_char(d: usize) -> (c: char)
    requires
        d < 10,
    ensures
        c == digit_char(d as nat),
{
    if d == 0 { '0' } else if d == 1 { '1' } else if d == 2 { '2' } else if d == 3 { '3' }
    else if d == 4 { '4' } else if d == 5 { '5' } else if d == 6 { '6' } else if d == 7 { '7' }
    else if d == 8 { '8' } else { '9' }
}

/// The decimal numeral of `n`.
pub fn decimal_chars(n: usize) -> (res: Vec<char>)
    ensures
        res@ == decimal(n as nat),
    decreases n,
{
    if n < 10 {
        let mut res: Vec<char> = Vec::new();
        res.push(digit_to_char(n));
        res
    } else {
        let mut res = decimal_chars(n / 10);
        res.push(digit_to_char(n % 10));
        res
    }
}

/// Appends the characters of `s` to `dst`.
pub fn push_str_chars(dst: &mut Vec<char>, s: &str)
    ensures
        final(dst)@ == old(dst)@ + s@,
{
    let chars = chars_of(s);
    push_all(dst, chars.as_slice());
}

/// Appends the characters of `src` to `dst`.
pub fn push_all(dst: &mut Vec<char>, src: &[char])
    ensures
        final(dst)@ == old(dst)@ + src@,
{
    let mut i: usize = 0;
    while i < src.len()
        invariant
            i <= src@.len(),
            dst@ == old(dst)@ + src@.take(i as int),
        decreases src@.len() - i,
    {
        dst.push(src[i]);
        i = i + 1;
        proof {
            assert(dst@ =~= old(dst)@ + src@.take(i as int));
        }
    }
    proof {
        assert(src@.take(src@.len() as int) =~= src@);
    }
}

/// `a` comes before `b` in lexicographic order of code points (the order
/// in which `String` compares, since UTF-8 keeps code-point order).
pub open spec fn chars_lt(a: Seq<char>, b: Seq<char>) -> bool
    decreases a.len(),
{
    if a.len() == 0 {
        b.len() > 0
    } else if b.len() == 0 {
        false
    } else if a[0] != b[0] {
        a[0] < b[0]
    } else {
        chars_lt(a.drop_first(), b.drop_first())
    }
}

/// Lexicographic order is irreflexive.
pub proof fn lemma_chars_lt_irreflexive(a: Seq<char>)
    ensures
        !chars_lt(a, a),
    decreases a.len(),
{
    if a.len() > 0 {
        lemma_chars_lt_irreflexive(a.drop_first());
    }
}

/// Lexicographic order is total on distinct sequences.
pub proof fn lemma_chars_lt_total(a: Seq<char>, b: Seq<char>)
    requires
        a != b,
    ensures
        chars_lt(a, b) || chars_lt(b, a),
    decreases a.len(),
{
    if a.len() > 0 && b.len() > 0 && a[0] == b[0] {
        if a.drop_first() == b.drop_first() {
            assert(a =~= seq![a[0]] + a.drop_first());
            assert(b =~= seq![b[0]] + b.drop_first());
        }
        lemma_chars_lt_total(a.drop_first(), b.drop_first());
    } else if a.len() == 0 && b.len() == 0 {
        assert(a =~= b);
    }
}

/// Lexicographic order is asymmetric.
pub proof fn lemma_chars_lt_asymmetric(a: Seq<char>, b: Seq<char>)
    requires
        chars_lt(a, b),
    ensures
        !chars_lt(b, a),
    decreases a.len(),
{
    if a.len() > 0 && b.len() > 0 && a[0] == b[0] {
        lemma_chars_lt_asymmetric(a.drop_first(), b.drop_first());
    }
}

/// Lexicographic order is transitive.
pub proof fn lemma_chars_lt_transitive(a: Seq<char>, b: Seq<char>, c: Seq<char>)
    requires
        chars_lt(a, b),
        chars_lt(b, c),
    ensures
        chars_lt(a, c),
    decreases a.len(),
{
    if a.len() > 0 && b.len() > 0 && c.len() > 0 && a[0] == b[0] && b[0] == c[0] {
        lemma_chars_lt_transitive(a.drop_first(), b.drop_first(), c.drop_first());
    }
}

/// `a` and `b` first differ at `i`, where `a` holds the smaller code point.
pub open spec fn first_difference_smaller(a: Seq<char>, b: Seq<char>, i: int) -> bool {
    &&& 0 <= i < a.len()
    &&& i < b.len()
    &&& a.take(i) == b.take(i)
    &&& a[i] < b[i]
}

/// The order of names is lexicographic on code points: `a` comes before `b`
/// exactly when, at the first position where they differ, `a` holds the
/// smaller code point, or when `a` is a proper prefix of `b`; their lengths
/// decide nothing else.
pub proof fn lemma_chars_lt_is_lexicographic(a: Seq<char>, b: Seq<char>)
    ensures
        chars_lt(a, b) <==> (exists|i: int| #[trigger] first_difference_smaller(a, b, i)) || (a.len() < b.len()
            && b.take(a.len() as int) == a),
    decreases a.len(),
{
    if a.len() == 0 {
        assert(b.take(0) =~= a);
        if exists|i: int| #[trigger] first_difference_smaller(a, b, i) {
            let i = choose|i: int| #[trigger] first_difference_smaller(a, b, i);
            assert(false);
        }
    } else if b.len() == 0 {
        if exists|i: int| #[trigger] first_difference_smaller(a, b, i) {
            let i = choose|i: int| #[trigger] first_difference_smaller(a, b, i);
            assert(false);
        }
    } else if a[0] != b[0] {
        if a[0] < b[0] {
            assert(a.take(0) =~= b.take(0));
            assert(first_difference_smaller(a, b, 0));
        } else {
            if exists|i: int| #[trigger] first_difference_smaller(a, b, i) {
                let i = choose|i: int| #[trigger] first_difference_smaller(a, b, i);
                if i > 0 {
                    assert(a.take(i)[0] == b.take(i)[0]);
                }
            }
            if a.len() < b.len() && b.take(a.len() as int) == a {
                assert(b.take(a.len() as int)[0] == b[0]);
            }
        }
    } else {
        let a1 = a.drop_first();
        let b1 = b.drop_first();
        lemma_chars_lt_is_lexicographic(a1, b1);
        if exists|i: int| #[trigger] first_difference_smaller(a1, b1, i) {
            let i = choose|i: int| #[trigger] first_difference_smaller(a1, b1, i);
            assert(a.take(i + 1) =~= seq![a[0]] + a1.take(i));
            assert(b.take(i + 1) =~= seq![b[0]] + b1.take(i));
            assert(first_difference_smaller(a, b, i + 1));
        }
        if exists|i: int| #[trigger] first_difference_smaller(a, b, i) {
            let i = choose|i: int| #[trigger] first_difference_smaller(a, b, i);
            assert(i > 0);
            assert(a1.take(i - 1) =~= a.take(i).drop_first());
            assert(b1.take(i - 1) =~= b.take(i).drop_first());
            assert(first_difference_smaller(a1, b1, i - 1));
        }
        if a1.len() < b1.len() && b1.take(a1.len() as int) == a1 {
            assert(b.take(a.len() as int) =~= seq![b[0]] + b1.take(a1.len() as int));
            assert(a =~= seq![a[0]] + a1);
        }
        if a.len() < b.len() && b.take(a.len() as int) == a {
            assert(b1.take(a1.len() as int) =~= b.take(a.len() as int).drop_first());
        }
    }
}

/// Whether `a` comes before `b` in lexicographic order of code points.
pub fn chars_less(a: &[char], b: &[char]) -> (res: bool)
    ensures
        res == chars_lt(a@, b@),
{
    let mut i: usize = 0;
    proof {
        assert(a@.skip(0) =~= a@);
        assert(b@.skip(0) =~= b@);
    }
    while i < a.len() && i < b.len() && a[i] == b[i]
        invariant
            i <= a@.len(),
            i <= b@.len(),
            chars_lt(a@, b@) == chars_lt(a@.skip(i as int), b@.skip(i as int)),
        decreases a@.len() - i,
    {
        proof {
            assert(a@.skip(i as int).drop_first() =~= a@.skip(i + 1));
            assert(b@.skip(i as int).drop_first() =~= b@.skip(i + 1));
        }
        i = i + 1;
    }
    if i == a.len() {
        i < b.len()
    } else if i == b.len() {
        false
    } else {
        a[i] < b[i]
    }
}

/// Whether two strings hold the same characters.
pub fn str_equals(a: &str, b: &str) -> (res: bool)
    ensures
        res == (a@ == b@),
{
    let x = chars_of(a);
    let y = chars_of(b);
    if x.len() != y.len() {
        return false;
    }
    let mut i: usize = 0;
    while i < x.len()
        invariant
            i <= x@.len(),
            x@ == a@,
            y@ == b@,
            x@.len() == y@.len(),
            forall|k: int| 0 <= k < i ==> x@[k] == y@[k],
        decreases x@.len() - i,
    {
        if x[i] != y[i] {
            proof {
                assert(x@[i as int] != y@[i as int]);
            }
            return false;
        }
        i = i + 1;
    }
    proof {
        assert(x@ =~= y@);
    }
    true
}

} // verus!
