//! The global shortcut: reading it from the configuration text, checking it
//! and labelling it with the macOS modifier glyphs.
use vstd::prelude::*;

use global_hotkey::hotkey::HotKey;

use crate::text::{chars_of, push_all, push_str_chars, string_from_chars, trim, trim_chars};

verus! {

/// The shortcut used when none is configured or the configured one is invalid.
pub const DEFAULT_SHORTCUT: &'static str = "super+Space";

/// The environment variable that overrides the configuration file.
pub const SHORTCUT_ENV: &'static str = "BETTER_SPOTLIGHT_SHORTCUT";

/// Modifier bit of the Control key.
pub const CONTROL_BIT: u32 = 0x8;
/// Modifier bit of the Option (Alt) key.
pub const ALT_BIT: u32 = 0x1;
/// Modifier bit of the Shift key.
pub const SHIFT_BIT: u32 = 0x200;
/// Modifier bit of the Command (Super) key.
pub const SUPER_BIT: u32 = 0x2000;

#[verifier::external_type_specification]
#[verifier::external_body]
pub struct ExHotKey(HotKey);

/// A hotkey with what the library reads of it: its modifier bits and the
/// name of its key.
pub struct Shortcut {
    pub hotkey: HotKey,
    pub modifiers: u32,
    pub key: String,
}

/// What parsing a hotkey description gives: the modifier bits and the key's
/// name, or the error's message (on the macOS target the launcher is built
/// for; `CmdOrCtrl` means the Command key there).
pub uninterp spec fn hotkey_parse(text: Seq<char>) -> Result<(u32, Seq<char>), Seq<char>>;

/// What a hotkey holds, as plain values: the bits of its `mods` field and
/// the `Display` form of its `key` field.
pub uninterp spec fn hotkey_parts(hotkey: HotKey) -> (u32, Seq<char>);

/// The shortcut's `modifiers` and `key` are those of its hotkey.
pub open spec fn shortcut_wf(s: Shortcut) -> bool {
    hotkey_parts(s.hotkey) == (s.modifiers, s.key@)
}

/// The plain values of a hotkey parse result.
pub open spec fn parsed_view(res: Result<Shortcut, String>) -> Result<(u32, Seq<char>), Seq<char>> {
    match res {
        Ok(s) => Ok((s.modifiers, s.key@)),
        Err(e) => Err(e@),
    }
}

/// Calls `<HotKey as FromStr>::from_str` of `global_hotkey`. Claimed: the
/// result is the named `hotkey_parse` of the text, with `modifiers` the bits
/// of the hotkey's `mods`, `key` the `Display` form of its `key` and an
/// error given by its `Display` form (so `hotkey_parts` of the hotkey are the
/// `modifiers` and `key` handed back); and "super+Space" parses to the Command
/// modifier and the key "Space", as `parse_hotkey` in the crate's source
/// shows. Unsaid: which texts parse and to what.
#[verifier::external_body]
fn parse_hotkey(text: &str) -> (res: Result<Shortcut, String>)
    ensures
        hotkey_parse(text@) == parsed_view(res),
        res matches Ok(s) ==> hotkey_parts(s.hotkey) == (s.modifiers, s.key@),
        res is Err ==> text@ != "super+Space"@,
        res matches Ok(s) ==> (text@ == "super+Space"@ ==> s.modifiers == SUPER_BIT && s.key@ == "Space"@),
{
    text.parse::<HotKey>().map(|hotkey| Shortcut {
        hotkey,
        modifiers: hotkey.mods.bits(),
        key: hotkey.key.to_string(),
    }).map_err(|error| error.to_string())
}

/// The resolved shortcut, its label and an optional warning to show.
pub struct ShortcutConfig {
    pub shortcut: Shortcut,
    pub label: String,
    pub warning: Option<String>,
}

/// The pieces of `s` between line feeds, empty ones included.
pub open spec fn split_newlines(s: Seq<char>) -> Seq<Seq<char>>
    decreases s.len(),
{
    if s.len() == 0 {
        seq![Seq::empty()]
    } else {
        let prev = split_newlines(s.drop_last());
        if s.last() == '\n' {
            prev.push(Seq::empty())
        } else {
            prev.update(prev.len() - 1, prev.last().push(s.last()))
        }
    }
}

/// A line without the carriage return of a `\r\n` ending.
pub open spec fn strip_cr(line: Seq<char>) -> Seq<char> {
    if line.len() > 0 && line.last() == '\r' {
        line.drop_last()
    } else {
        line
    }
}

/// The lines of `s` as `str::lines` yields them: split at `\n` or `\r\n`,
/// without the terminators; a final line ending adds no empty line.
pub open spec fn lines(s: Seq<char>) -> Seq<Seq<char>> {
    let pieces = split_newlines(s);
    let ended = ended_lines(pieces);
    if pieces.last().len() == 0 {
        ended
    } else {
        ended.push(pieces.last())
    }
}

/// All pieces but the last, each without its carriage return.
pub open spec fn ended_lines(pieces: Seq<Seq<char>>) -> Seq<Seq<char>> {
    pieces.drop_last().map_values(|line: Seq<char>| strip_cr(line))
}

/// The position of the first `c` in `s`.
pub open spec fn first_index_of(s: Seq<char>, c: char) -> Option<int>
    decreases s.len(),
{
    if s.len() == 0 {
        None
    } else {
        match first_index_of(s.drop_last(), c) {
            Some(i) => Some(i),
            None => if s.last() == c {
                Some(s.len() - 1)
            } else {
                None
            },
        }
    }
}

/// What one configuration line says of the shortcut: a blank line or a
/// `#` comment says nothing; `shortcut = value` gives the trimmed value;
/// another `key = value` says nothing; a line without `=` is the shortcut.
pub open spec fn line_value(line: Seq<char>) -> Option<Seq<char>> {
    let t = trim(line);
    if t.len() == 0 || t[0] == '#' {
        None
    } else {
        match first_index_of(t, '=') {
            Some(k) => if trim(t.take(k)) == "shortcut"@ {
                Some(trim(t.skip(k + 1)))
            } else {
                None
            },
            None => Some(t),
        }
    }
}

/// The first value that the lines from `i` on give.
pub open spec fn first_value_from(lines: Seq<Seq<char>>, i: int) -> Option<Seq<char>>
    decreases lines.len() - i,
{
    if i < 0 || i >= lines.len() {
        None
    } else {
        match line_value(lines[i]) {
            Some(v) => Some(v),
            None => first_value_from(lines, i + 1),
        }
    }
}

/// The shortcut that a configuration text names, if any.
pub open spec fn shortcut_value_of(contents: Seq<char>) -> Option<Seq<char>> {
    first_value_from(lines(contents), 0)
}

/// The pieces joined with a line feed between neighbours.
pub open spec fn join_with_newline(pieces: Seq<Seq<char>>) -> Seq<char>
    decreases pieces.len(),
{
    if pieces.len() == 0 {
        Seq::empty()
    } else if pieces.len() == 1 {
        pieces[0]
    } else {
        join_with_newline(pieces.drop_last()) + seq!['\n'] + pieces.last()
    }
}

/// Splitting at line feeds loses nothing and leaves no line feed inside a
/// piece: joining the pieces with line feeds gives the text back.
pub proof fn lemma_split_newlines_rejoins(s: Seq<char>)
    ensures
        split_newlines(s).len() >= 1,
        join_with_newline(split_newlines(s)) == s,
        forall|i: int| 0 <= i < split_newlines(s).len() ==> !(#[trigger] split_newlines(s)[i]).contains('\n'),
    decreases s.len(),
{
    if s.len() > 0 {
        let t = s.drop_last();
        lemma_split_newlines_rejoins(t);
        let prev = split_newlines(t);
        let c = s.last();
        let cur = split_newlines(s);
        if c == '\n' {
            assert(cur.drop_last() =~= prev);
            assert(join_with_newline(cur) =~= t + seq!['\n'] + Seq::<char>::empty());
            assert(s =~= t + seq!['\n']);
            assert forall|i: int| 0 <= i < cur.len() implies !(#[trigger] cur[i]).contains('\n') by {
                if i < prev.len() {
                    assert(cur[i] == prev[i]);
                } else {
                    assert(cur[i] =~= Seq::<char>::empty());
                }
            }
        } else {
            let last = prev.last().push(c);
            if prev.len() == 1 {
                assert(cur[0] == last);
                assert(join_with_newline(cur) =~= s);
            } else {
                assert(cur.drop_last() =~= prev.drop_last());
                assert(join_with_newline(cur) =~= join_with_newline(prev).push(c));
                assert(s =~= t.push(c));
            }
            assert forall|i: int| 0 <= i < cur.len() implies !(#[trigger] cur[i]).contains('\n') by {
                if i < prev.len() - 1 {
                    assert(cur[i] == prev[i]);
                } else {
                    assert(cur[i] == last);
                    assert(!prev[prev.len() - 1].contains('\n'));
                    if last.contains('\n') {
                        let j = choose|j: int| 0 <= j < last.len() && last[j] == '\n';
                        if j < last.len() - 1 {
                            assert(prev.last()[j] == '\n');
                        }
                    }
                }
            }
        }
    }
}

/// `first_index_of` finds the first occurrence: it holds `c` and no
/// earlier position does; it finds none exactly when `c` does not occur.
pub proof fn lemma_first_index_is_first(s: Seq<char>, c: char)
    ensures
        first_index_of(s, c) is None <==> !s.contains(c),
        first_index_of(s, c) matches Some(i) ==> 0 <= i < s.len() && s[i] == c && forall|j: int|
            0 <= j < i ==> #[trigger] s[j] != c,
    decreases s.len(),
{
    if s.len() > 0 {
        let t = s.drop_last();
        lemma_first_index_is_first(t, c);
        assert forall|j: int| 0 <= j < t.len() implies #[trigger] t[j] == s[j] by {}
        if s.contains(c) && first_index_of(s, c) is None {
            let j = choose|j: int| 0 <= j < s.len() && s[j] == c;
            if j < t.len() {
                assert(t[j] == c);
            }
        }
        if first_index_of(t, c) is None && t.contains(c) {
            assert(false);
        }
        if !s.contains(c) && t.contains(c) {
            let j = choose|j: int| 0 <= j < t.len() && t[j] == c;
            assert(s[j] == c);
        }
        match first_index_of(t, c) {
            Some(i) => {
                assert(s[i] == t[i]);
                assert forall|j: int| 0 <= j < i implies #[trigger] s[j] != c by {
                    assert(t[j] == s[j]);
                }
            },
            None => {
                assert forall|j: int| 0 <= j < t.len() implies #[trigger] s[j] != c by {
                    assert(t[j] == s[j]);
                    if t[j] == c {
                        assert(t.contains(c));
                    }
                }
            },
        }
    }
}

/// The views of a run of character vectors.
pub open spec fn char_vec_views(v: Seq<Vec<char>>) -> Seq<Seq<char>> {
    v.map_values(|line: Vec<char>| line@)
}

proof fn lemma_split_newlines_nonempty(s: Seq<char>)
    ensures
        split_newlines(s).len() >= 1,
    decreases s.len(),
{
    if s.len() > 0 {
        lemma_split_newlines_nonempty(s.drop_last());
    }
}

fn split_newlines_of(s: &[char]) -> (res: Vec<Vec<char>>)
    ensures
        char_vec_views(res@) == split_newlines(s@),
{
    let mut done: Vec<Vec<char>> = Vec::new();
    let mut current: Vec<char> = Vec::new();
    let mut i: usize = 0;
    proof {
        assert(s@.take(0) =~= Seq::<char>::empty());
        assert(char_vec_views(done@.push(current)) =~= split_newlines(s@.take(0)));
    }
    while i < s.len()
        invariant
            i <= s@.len(),
            char_vec_views(done@.push(current)) == split_newlines(s@.take(i as int)),
        decreases s@.len() - i,
    {
        let ghost prefix = s@.take(i as int);
        let ghost next = s@.take(i + 1);
        let ghost before = char_vec_views(done@.push(current));
        proof {
            assert(next.drop_last() =~= prefix);
            assert(next.last() == s@[i as int]);
            lemma_split_newlines_nonempty(prefix);
        }
        let c = s[i];
        if c == '\n' {
            let ghost old_current = current@;
            done.push(current);
            current = Vec::new();
            proof {
                assert(char_vec_views(done@.push(current)) =~= before.push(Seq::empty()));
            }
        } else {
            current.push(c);
            proof {
                assert(char_vec_views(done@.push(current)) =~= before.update(before.len() - 1, before.last().push(c)));
            }
        }
        i = i + 1;
    }
    proof {
        assert(s@.take(i as int) =~= s@);
    }
    done.push(current);
    done
}

fn strip_cr_of(line: &Vec<char>) -> (res: Vec<char>)
    ensures
        res@ == strip_cr(line@),
{
    let mut end: usize = line.len();
    if end > 0 && line[end - 1] == '\r' {
        end = end - 1;
    }
    let mut res: Vec<char> = Vec::new();
    let mut i: usize = 0;
    while i < end
        invariant
            i <= end <= line@.len(),
            end == if line@.len() > 0 && line@.last() == '\r' { line@.len() - 1 } else { line@.len() as int },
            res@ == line@.take(i as int),
        decreases end - i,
    {
        res.push(line[i]);
        i = i + 1;
        proof {
            assert(res@ =~= line@.take(i as int));
        }
    }
    proof {
        assert(res@ =~= strip_cr(line@));
    }
    res
}

/// The lines of `s` (see `lines`).
fn lines_of(s: &[char]) -> (res: Vec<Vec<char>>)
    ensures
        char_vec_views(res@) == lines(s@),
{
    let pieces = split_newlines_of(s);
    proof {
        lemma_split_newlines_nonempty(s@);
    }
    let ghost pv = char_vec_views(pieces@);
    let last_index: usize = pieces.len() - 1;
    let mut res: Vec<Vec<char>> = Vec::new();
    let mut i: usize = 0;
    while i < last_index
        invariant
            i <= last_index,
            last_index == pieces@.len() - 1,
            pv == char_vec_views(pieces@),
            pv == split_newlines(s@),
            char_vec_views(res@) == ended_lines(pv).take(i as int),
        decreases last_index - i,
    {
        let stripped = strip_cr_of(&pieces[i]);
        let ghost prev = res@;
        res.push(stripped);
        i = i + 1;
        proof {
            assert(pv[i - 1] == pieces@[i - 1]@);
            assert(char_vec_views(res@) =~= char_vec_views(prev).push(res@[i - 1]@));
            assert(ended_lines(pv)[i - 1] == strip_cr(pv.drop_last()[i - 1]));
            assert(ended_lines(pv).take(i as int) =~= ended_lines(pv).take(i - 1).push(ended_lines(pv)[i - 1]));
        }
    }
    proof {
        assert(ended_lines(pv).take(i as int)
            =~= ended_lines(pv));
        assert(pv.last() == pieces@[last_index as int]@);
    }
    if pieces[last_index].len() > 0 {
        let mut last: Vec<char> = Vec::new();
        push_all(&mut last, pieces[last_index].as_slice());
        let ghost prev = res@;
        res.push(last);
        proof {
            assert(char_vec_views(res@) =~= char_vec_views(prev).push(pv.last()));
        }
    }
    res
}

fn first_equals_at(s: &[char], c: char) -> (res: Option<usize>)
    ensures
        res matches Some(i) ==> first_index_of(s@, c) == Some(i as int),
        res is None ==> first_index_of(s@, c) is None,
{
    let mut i: usize = 0;
    while i < s.len()
        invariant
            i <= s@.len(),
            first_index_of(s@.take(i as int), c) is None,
        decreases s@.len() - i,
    {
        let ghost next = s@.take(i + 1);
        proof {
            assert(next.drop_last() =~= s@.take(i as int));
        }
        if s[i] == c {
            proof {
                assert(first_index_of(next, c) == Some(i as int));
                lemma_first_index_extends(s@, i as int + 1, i as int, c);
            }
            return Some(i);
        }
        i = i + 1;
    }
    proof {
        assert(s@.take(i as int) =~= s@);
    }
    None
}

proof fn lemma_first_index_extends(s: Seq<char>, n: int, k: int, c: char)
    requires
        0 <= n <= s.len(),
        first_index_of(s.take(n), c) == Some(k),
    ensures
        first_index_of(s, c) == Some(k),
    decreases s.len() - n,
{
    if n < s.len() {
        assert(s.take(n + 1).drop_last() =~= s.take(n));
        lemma_first_index_extends(s, n + 1, k, c);
    } else {
        assert(s.take(n) =~= s);
    }
}

fn copy_from(s: &[char], from: usize, to: usize) -> (res: Vec<char>)
    requires
        from <= to <= s@.len(),
    ensures
        res@ == s@.subrange(from as int, to as int),
{
    let mut res: Vec<char> = Vec::new();
    let mut i: usize = from;
    while i < to
        invariant
            from <= i <= to <= s@.len(),
            res@ == s@.subrange(from as int, i as int),
        decreases to - i,
    {
        res.push(s[i]);
        i = i + 1;
        proof {
            assert(res@ =~= s@.subrange(from as int, i as int));
        }
    }
    res
}

fn is_shortcut_key(s: &[char]) -> (res: bool)
    ensures
        res == (s@ == "shortcut"@),
{
    proof {
        reveal_strlit("shortcut");
    }
    let res = s.len() == 8 && s[0] == 's' && s[1] == 'h' && s[2] == 'o' && s[3] == 'r' && s[4] == 't'
        && s[5] == 'c' && s[6] == 'u' && s[7] == 't';
    proof {
        if res {
            assert(s@ =~= "shortcut"@);
        }
    }
    res
}

fn line_value_of(line: &[char]) -> (res: Option<Vec<char>>)
    ensures
        res matches Some(v) ==> line_value(line@) == Some(v@),
        res is None ==> line_value(line@) is None,
{
    let t = trim_chars(line);
    if t.len() == 0 || t[0] == '#' {
        return None;
    }
    match first_equals_at(t.as_slice(), '=') {
        Some(k) => {
            proof {
                lemma_first_index_in_range(t@, '=');
            }
            let key = copy_from(t.as_slice(), 0, k);
            let key_trimmed = trim_chars(key.as_slice());
            proof {
                assert(key@ =~= t@.take(k as int));
            }
            if is_shortcut_key(key_trimmed.as_slice()) {
                let value = copy_from(t.as_slice(), k + 1, t.len());
                proof {
                    assert(value@ =~= t@.skip(k + 1));
                }
                Some(trim_chars(value.as_slice()))
            } else {
                None
            }
        },
        None => Some(t),
    }
}

proof fn lemma_first_index_in_range(s: Seq<char>, c: char)
    ensures
        first_index_of(s, c) matches Some(i) ==> 0 <= i < s.len() && s[i] == c,
    decreases s.len(),
{
    if s.len() > 0 {
        lemma_first_index_in_range(s.drop_last(), c);
    }
}

/// The shortcut that a configuration text names: from the first line that
/// is either `shortcut = value` or a bare value (see `line_value`).
pub fn shortcut_value(contents: &str) -> (res: Option<String>)
    ensures
        res matches Some(v) ==> shortcut_value_of(contents@) == Some(v@),
        res is None ==> shortcut_value_of(contents@) is None,
{
    let chars = chars_of(contents);
    let all = lines_of(chars.as_slice());
    let ghost lv = char_vec_views(all@);
    let mut i: usize = 0;
    while i < all.len()
        invariant
            i <= all@.len(),
            lv == char_vec_views(all@),
            lv == lines(contents@),
            first_value_from(lv, i as int) == first_value_from(lv, 0),
        decreases all@.len() - i,
    {
        proof {
            assert(lv[i as int] == all@[i as int]@);
        }
        match line_value_of(all[i].as_slice()) {
            Some(v) => return Some(string_from_chars(v.as_slice())),
            None => {},
        }
        i = i + 1;
    }
    None
}

/// The glyph `c` where `present`, else nothing.
pub open spec fn glyph(present: bool, c: char) -> Seq<char> {
    if present {
        seq![c]
    } else {
        Seq::empty()
    }
}

/// How a key is labelled: "Space" for the space bar, a letter key without
/// its "Key" prefix, and "Key" for any other key.
pub open spec fn key_label(key: Seq<char>) -> Seq<char> {
    if key == "Space"@ {
        "Space"@
    } else if key.len() >= 3 && key.take(3) == "Key"@ {
        key.skip(3)
    } else {
        "Key"@
    }
}

/// The macOS label of a shortcut: ⌃ ⌥ ⇧ ⌘ for the modifiers present, in
/// that order, then the key's label.
pub open spec fn label_of(modifiers: u32, key: Seq<char>) -> Seq<char> {
    glyph(modifiers & CONTROL_BIT != 0, '⌃') + glyph(modifiers & ALT_BIT != 0, '⌥') + glyph(
        modifiers & SHIFT_BIT != 0,
        '⇧',
    ) + glyph(modifiers & SUPER_BIT != 0, '⌘') + key_label(key)
}

fn push_glyph(label: &mut Vec<char>, present: bool, c: char)
    ensures
        final(label)@ == old(label)@ + glyph(present, c),
{
    if present {
        label.push(c);
    } else {
        proof {
            assert(old(label)@ + glyph(present, c) =~= old(label)@);
        }
    }
}

fn key_label_of(key: &[char]) -> (res: Vec<char>)
    ensures
        res@ == key_label(key@),
{
    proof {
        reveal_strlit("Space");
        reveal_strlit("Key");
    }
    let is_space = key.len() == 5 && key[0] == 'S' && key[1] == 'p' && key[2] == 'a' && key[3] == 'c'
        && key[4] == 'e';
    if is_space {
        proof {
            assert(key@ =~= "Space"@);
        }
        return chars_of("Space");
    }
    proof {
        assert(key@ != "Space"@);
    }
    if key.len() >= 3 && key[0] == 'K' && key[1] == 'e' && key[2] == 'y' {
        proof {
            assert(key@.take(3) =~= "Key"@);
        }
        copy_from(key, 3, key.len())
    } else {
        proof {
            if key@.len() >= 3 && key@.take(3) == "Key"@ {
                assert(key@.take(3)[0] == 'K' && key@.take(3)[1] == 'e' && key@.take(3)[2] == 'y');
            }
        }
        chars_of("Key")
    }
}

/// The macOS label of the shortcut (see `label_of`).
pub fn shortcut_label(shortcut: &Shortcut) -> (res: String)
    ensures
        res@ == label_of(shortcut.modifiers, shortcut.key@),
{
    let m = shortcut.modifiers;
    let mut label: Vec<char> = Vec::new();
    push_glyph(&mut label, m & CONTROL_BIT != 0, '⌃');
    push_glyph(&mut label, m & ALT_BIT != 0, '⌥');
    push_glyph(&mut label, m & SHIFT_BIT != 0, '⇧');
    push_glyph(&mut label, m & SUPER_BIT != 0, '⌘');
    let key_chars = chars_of(shortcut.key.as_str());
    let key = key_label_of(key_chars.as_slice());
    push_all(&mut label, key.as_slice());
    string_from_chars(label.as_slice())
}

/// The result of checking a shortcut text: the parsed hotkey, or an error
/// message; a hotkey without any modifier is refused.
pub open spec fn shortcut_check(value: Seq<char>) -> Result<(u32, Seq<char>), Seq<char>> {
    match hotkey_parse(value) {
        Ok((modifiers, key)) => if modifiers == 0 {
            Err("include at least one modifier"@)
        } else {
            Ok((modifiers, key))
        },
        Err(e) => Err(e),
    }
}

/// Parses a shortcut such as `super+shift+KeyK`; refuses one without a
/// modifier (see `shortcut_check`).
pub fn parse_shortcut(value: &str) -> (res: Result<Shortcut, String>)
    ensures
        parsed_view(res) == shortcut_check(value@),
        res matches Ok(s) ==> shortcut_wf(s),
{
    match parse_hotkey(value) {
        Ok(shortcut) => {
            if shortcut.modifiers == 0 {
                Err(String::from_str("include at least one modifier"))
            } else {
                Ok(shortcut)
            }
        },
        Err(e) => Err(e),
    }
}

/// A configuration as plain values: modifier bits, key name, label,
/// warning.
pub open spec fn config_view(c: &ShortcutConfig) -> (u32, Seq<char>, Seq<char>, Option<Seq<char>>) {
    (
        c.shortcut.modifiers,
        c.shortcut.key@,
        c.label@,
        match c.warning {
            Some(w) => Some(w@),
            None => None,
        },
    )
}

/// The configuration of a hotkey with the given warning.
pub open spec fn config_of(modifiers: u32, key: Seq<char>, warning: Option<Seq<char>>) -> (
    u32,
    Seq<char>,
    Seq<char>,
    Option<Seq<char>>,
) {
    (modifiers, key, label_of(modifiers, key), warning)
}

/// The configuration of the default shortcut (⌘Space) with the given warning.
pub open spec fn default_config_of(warning: Option<Seq<char>>) -> (u32, Seq<char>, Seq<char>, Option<Seq<char>>) {
    config_of(SUPER_BIT, "Space"@, warning)
}

/// The warning for an invalid shortcut from `source`.
pub open spec fn invalid_message(source: Seq<char>, error: Seq<char>) -> Seq<char> {
    "Invalid shortcut in "@ + source + " ("@ + error + "). Using ⌘Space."@
}

/// The configuration that a shortcut text from `source` gives: the shortcut
/// itself, or the default with a warning that names the source and the
/// error.
pub open spec fn fallback_config_of(value: Seq<char>, source: Seq<char>) -> (u32, Seq<char>, Seq<char>, Option<Seq<char>>) {
    match shortcut_check(value) {
        Ok((modifiers, key)) => config_of(modifiers, key, None),
        Err(e) => default_config_of(Some(invalid_message(source, e))),
    }
}

/// The default shortcut (⌘Space) with the given warning.
pub fn default_config(warning: Option<String>) -> (res: ShortcutConfig)
    ensures
        shortcut_wf(res.shortcut),
        config_view(&res) == default_config_of(
            match warning {
                Some(w) => Some(w@),
                None => None,
            },
        ),
{
    let shortcut = match parse_hotkey(DEFAULT_SHORTCUT) {
        Ok(shortcut) => shortcut,
        Err(_) => vstd::pervasive::unreached(),
    };
    let label = shortcut_label(&shortcut);
    ShortcutConfig { shortcut, label, warning }
}

/// Reads a shortcut text from `source`: the shortcut itself, or the
/// default ⌘Space with a warning (see `fallback_config_of`).
pub fn parse_or_fallback(value: &str, source: &str) -> (res: ShortcutConfig)
    ensures
        shortcut_wf(res.shortcut),
        config_view(&res) == fallback_config_of(value@, source@),
{
    match parse_shortcut(value) {
        Ok(shortcut) => {
            let label = shortcut_label(&shortcut);
            ShortcutConfig { shortcut, label, warning: None }
        },
        Err(error) => {
            let mut message: Vec<char> = Vec::new();
            push_str_chars(&mut message, "Invalid shortcut in ");
            push_str_chars(&mut message, source);
            push_str_chars(&mut message, " (");
            push_str_chars(&mut message, error.as_str());
            push_str_chars(&mut message, "). Using ⌘Space.");
            default_config(Some(string_from_chars(message.as_slice())))
        },
    }
}

/// What reading the configuration file gave.
pub enum ConfigFile {
    /// The location of the file could not be resolved.
    NoPath,
    /// There is no file at the location.
    Missing,
    /// The file could not be read; `path` as displayed and the error's message.
    Unreadable { path: String, error: String },
    /// The file's contents, with `path` as displayed.
    Contents { path: String, text: String },
}

/// The configuration that the environment value (if set) or else the
/// configuration file gives.
pub open spec fn resolved_config(env_value: Option<Seq<char>>, file: ConfigFile) -> (
    u32,
    Seq<char>,
    Seq<char>,
    Option<Seq<char>>,
) {
    match env_value {
        Some(value) => fallback_config_of(value, SHORTCUT_ENV@),
        None => match file {
            ConfigFile::NoPath => default_config_of(Some("Could not resolve the shortcut config path."@)),
            ConfigFile::Missing => default_config_of(None),
            ConfigFile::Unreadable { path, error } => default_config_of(
                Some("Could not read "@ + path@ + " ("@ + error@ + "). Using ⌘Space."@),
            ),
            ConfigFile::Contents { path, text } => match shortcut_value_of(text@) {
                Some(value) => fallback_config_of(value, path@),
                None => default_config_of(Some("No shortcut entry in "@ + path@ + ". Using ⌘Space."@)),
            },
        },
    }
}

/// Resolves the shortcut: the environment value wins when set; else the
/// configuration file's shortcut entry; else ⌘Space, with a warning that
/// says why where something went wrong (see `resolved_config`).
pub fn resolve_shortcut(env_value: Option<String>, file: ConfigFile) -> (res: ShortcutConfig)
    ensures
        shortcut_wf(res.shortcut),
        config_view(&res) == resolved_config(
            match env_value {
                Some(v) => Some(v@),
                None => None,
            },
            file,
        ),
{
    match env_value {
        Some(value) => parse_or_fallback(value.as_str(), SHORTCUT_ENV),
        None => match file {
            ConfigFile::NoPath => default_config(Some(String::from_str("Could not resolve the shortcut config path."))),
            ConfigFile::Missing => default_config(None),
            ConfigFile::Unreadable { path, error } => {
                let mut message: Vec<char> = Vec::new();
                push_str_chars(&mut message, "Could not read ");
                push_str_chars(&mut message, path.as_str());
                push_str_chars(&mut message, " (");
                push_str_chars(&mut message, error.as_str());
                push_str_chars(&mut message, "). Using ⌘Space.");
                default_config(Some(string_from_chars(message.as_slice())))
            },
            ConfigFile::Contents { path, text } => match shortcut_value(text.as_str()) {
                Some(value) => parse_or_fallback(value.as_str(), path.as_str()),
                None => {
                    let mut message: Vec<char> = Vec::new();
                    push_str_chars(&mut message, "No shortcut entry in ");
                    push_str_chars(&mut message, path.as_str());
                    push_str_chars(&mut message, ". Using ⌘Space.");
                    default_config(Some(string_from_chars(message.as_slice())))
                },
            },
        },
    }
}

/// Where a modifier glyph stands in the macOS order ⌃ ⌥ ⇧ ⌘; 4 for any
/// other character.
pub open spec fn glyph_rank(c: char) -> int {
    if c == '⌃' {
        0
    } else if c == '⌥' {
        1
    } else if c == '⇧' {
        2
    } else if c == '⌘' {
        3
    } else {
        4
    }
}

/// A shortcut's label is its modifier glyphs, then the key's label: each
/// glyph appears exactly when its modifier is held, and the glyphs come in
/// the order ⌃ ⌥ ⇧ ⌘ whatever the modifiers are.
pub proof fn lemma_label_lists_modifiers_in_order(modifiers: u32, key: Seq<char>)
    ensures
        ({
            let l = label_of(modifiers, key);
            let n = l.len() - key_label(key).len();
            &&& 0 <= n <= 4
            &&& l.skip(n) == key_label(key)
            &&& forall|i: int, j: int| 0 <= i < j < n ==> glyph_rank(#[trigger] l[i]) < glyph_rank(#[trigger] l[j])
            &&& forall|i: int| 0 <= i < n ==> glyph_rank(#[trigger] l[i]) < 4
            &&& (l.take(n).contains('⌃') <==> modifiers & CONTROL_BIT != 0)
            &&& (l.take(n).contains('⌥') <==> modifiers & ALT_BIT != 0)
            &&& (l.take(n).contains('⇧') <==> modifiers & SHIFT_BIT != 0)
            &&& (l.take(n).contains('⌘') <==> modifiers & SUPER_BIT != 0)
        }),
{
    let c = modifiers & CONTROL_BIT != 0;
    let a = modifiers & ALT_BIT != 0;
    let sh = modifiers & SHIFT_BIT != 0;
    let su = modifiers & SUPER_BIT != 0;
    let g = glyph(c, '⌃') + glyph(a, '⌥') + glyph(sh, '⇧') + glyph(su, '⌘');
    let l = label_of(modifiers, key);
    assert(l =~= g + key_label(key));
    let n = g.len() as int;
    assert(l.skip(n) =~= key_label(key));
    assert(l.take(n) =~= g);
    assert forall|i: int| 0 <= i < n implies glyph_rank(#[trigger] g[i]) < 4 && (g[i] == '⌃' ==> c) && (g[i] == '⌥'
        ==> a) && (g[i] == '⇧' ==> sh) && (g[i] == '⌘' ==> su) by {
    }
    assert forall|i: int, j: int| 0 <= i < j < n implies glyph_rank(#[trigger] g[i]) < glyph_rank(#[trigger] g[j]) by {
    }
    assert forall|i: int| 0 <= i < n implies glyph_rank(#[trigger] l[i]) < 4 by {
        assert(l[i] == g[i]);
    }
    assert forall|i: int, j: int| 0 <= i < j < n implies glyph_rank(#[trigger] l[i]) < glyph_rank(#[trigger] l[j]) by {
        assert(l[i] == g[i]);
        assert(l[j] == g[j]);
    }
    if c {
        assert(g[0] == '⌃');
    }
    if a {
        assert(g[(if c { 1int } else { 0 })] == '⌥');
    }
    if sh {
        assert(g[(if c { 1int } else { 0 }) + (if a { 1int } else { 0 })] == '⇧');
    }
    if su {
        assert(g[(if c { 1int } else { 0 }) + (if a { 1int } else { 0 }) + (if sh { 1int } else { 0 })] == '⌘');
    }
}

} // verus!
