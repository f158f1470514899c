//! In-memory clipboard history: the most recent unique text entries, newest
//! first.
use vstd::prelude::*;

use crate::text::{
    chars_of, collapse_whitespace, contains_chars, contains_run, decimal, decimal_chars,
    join_with_space, lowercase, lowercase_chars, push_all, str_equals, string_from_chars, trim, trim_chars, utf8_len,
    words,
};

verus! {

broadcast use vstd::seq_lib::group_seq_properties;

/// How many entries the history keeps.
pub const MAX_ENTRIES: usize = 50;

/// Longest text, in UTF-8 bytes, that the history captures.
pub const MAX_ENTRY_BYTES: usize = 100_000;

/// How many characters of an entry its preview shows.
pub const PREVIEW_CHARS: usize = 160;

/// One captured text.
#[derive(Clone)]
pub struct ClipboardEntry {
    pub id: u64,
    pub text: String,
    preview: String,
    metadata: String,
}

/// What an entry holds, as plain values.
pub struct EntryView {
    pub id: u64,
    pub text: Seq<char>,
    pub preview: Seq<char>,
    pub metadata: Seq<char>,
}

impl View for ClipboardEntry {
    type V = EntryView;

    closed spec fn view(&self) -> EntryView {
        EntryView { id: self.id, text: self.text@, preview: self.preview@, metadata: self.metadata@ }
    }
}

/// At most `n` leading characters of `s`.
pub open spec fn take_at_most(s: Seq<char>, n: nat) -> Seq<char> {
    if s.len() <= n {
        s
    } else {
        s.take(n as int)
    }
}

/// The preview of a text: its words joined by single spaces, cut to
/// `PREVIEW_CHARS` characters.
pub open spec fn preview_text(text: Seq<char>) -> Seq<char> {
    take_at_most(join_with_space(words(text)), PREVIEW_CHARS as nat)
}

/// The metadata line of a text: its character count and "character" or
/// "characters".
pub open spec fn metadata_text(text: Seq<char>) -> Seq<char> {
    decimal(text.len()) + if text.len() == 1 {
        " character"@
    } else {
        " characters"@
    }
}

/// The preview and the metadata of the entry are those of its text.
pub open spec fn entry_wf(e: EntryView) -> bool {
    &&& e.preview == preview_text(e.text)
    &&& e.metadata == metadata_text(e.text)
}

/// A text that the history accepts: not blank, and at most
/// `MAX_ENTRY_BYTES` bytes long in UTF-8.
pub open spec fn capturable(text: Seq<char>) -> bool {
    &&& trim(text).len() > 0
    &&& utf8_len(text) <= MAX_ENTRY_BYTES
}

/// The entry that a capture with the given id and text creates.
pub open spec fn new_entry(id: u64, text: Seq<char>) -> EntryView {
    EntryView { id, text, preview: preview_text(text), metadata: metadata_text(text) }
}

impl ClipboardEntry {
    /// The preview shown for the entry.
    pub fn preview(&self) -> (res: &str)
        ensures
            res@ == self@.preview,
    {
        self.preview.as_str()
    }

    /// The entry's id.
    pub fn id(&self) -> (res: u64)
        ensures
            res == self@.id,
    {
        self.id
    }

    /// The entry's text.
    pub fn text(&self) -> (res: &str)
        ensures
            res@ == self@.text,
    {
        self.text.as_str()
    }

    /// The entry's metadata line (its character count).
    pub fn metadata(&self) -> (res: &str)
        ensures
            res@ == self@.metadata,
    {
        self.metadata.as_str()
    }

    fn new(id: u64, text: String) -> (res: Self)
        ensures
            res@ == new_entry(id, text@),
    {
        let chars = chars_of(text.as_str());
        let collapsed = collapse_whitespace(chars.as_slice());
        let mut preview_chars: Vec<char> = Vec::new();
        let mut i: usize = 0;
        while i < collapsed.len() && i < PREVIEW_CHARS
            invariant
                i <= collapsed@.len(),
                i <= PREVIEW_CHARS,
                preview_chars@ == collapsed@.take(i as int),
            decreases collapsed@.len() - i,
        {
            preview_chars.push(collapsed[i]);
            i = i + 1;
            proof {
                assert(preview_chars@ =~= collapsed@.take(i as int));
            }
        }
        proof {
            if collapsed@.len() <= PREVIEW_CHARS {
                assert(collapsed@.take(i as int) =~= collapsed@);
            }
        }
        let character_count = chars.len();
        let mut metadata_chars = decimal_chars(character_count);
        if character_count == 1 {
            let unit = chars_of(" character");
            push_all(&mut metadata_chars, unit.as_slice());
        } else {
            let unit = chars_of(" characters");
            push_all(&mut metadata_chars, unit.as_slice());
        }
        let preview = string_from_chars(preview_chars.as_slice());
        let metadata = string_from_chars(metadata_chars.as_slice());
        ClipboardEntry { id, text, preview, metadata }
    }

    fn duplicate(&self) -> (res: Self)
        ensures
            res@ == self@,
    {
        ClipboardEntry {
            id: self.id,
            text: self.text.clone(),
            preview: self.preview.clone(),
            metadata: self.metadata.clone(),
        }
    }
}

/// What the history holds, as plain values.
pub struct HistoryView {
    pub entries: Seq<EntryView>,
    pub next_id: u64,
    pub last_observed: Option<Seq<char>>,
}

/// The history's invariant: at most `MAX_ENTRIES` entries, each capturable
/// and consistent with its text, newest first (ids strictly decreasing and
/// never above the last id handed out), no text twice.
pub open spec fn history_wf(h: HistoryView) -> bool {
    &&& h.entries.len() <= MAX_ENTRIES
    &&& forall|i: int|
        0 <= i < h.entries.len() ==> {
            &&& entry_wf(#[trigger] h.entries[i])
            &&& capturable(h.entries[i].text)
            &&& h.entries[i].id <= h.next_id
        }
    &&& forall|i: int, j: int| 0 <= i < j < h.entries.len() ==> #[trigger] h.entries[i].id > #[trigger] h.entries[j].id
    &&& forall|i: int, j: int|
        0 <= i < j < h.entries.len() ==> #[trigger] h.entries[i].text != #[trigger] h.entries[j].text
}

/// Keeps the entries whose text differs from `text`.
pub open spec fn without_text(entries: Seq<EntryView>, text: Seq<char>) -> Seq<EntryView> {
    entries.filter(|e: EntryView| e.text != text)
}

/// Keeps the entries whose id differs from `id`.
pub open spec fn without_id(entries: Seq<EntryView>, id: u64) -> Seq<EntryView> {
    entries.filter(|e: EntryView| e.id != id)
}

/// Offering `text` adds an entry: it is not the last text observed, it is
/// capturable, and it is not already the newest entry.
pub open spec fn would_add(h: HistoryView, text: Seq<char>) -> bool {
    &&& h.last_observed != Some(text)
    &&& capturable(text)
    &&& !(h.entries.len() > 0 && h.entries[0].text == text)
}

/// The history after offering `text`, and whether it was added: a text equal
/// to the last one observed is ignored; otherwise it becomes the last one
/// observed, and it is added when `would_add` holds. An added text gets the
/// next id, goes first, replaces an older entry with the same text, and the
/// oldest entries beyond `MAX_ENTRIES` drop out.
pub open spec fn capture_result(h: HistoryView, text: Seq<char>) -> (HistoryView, bool) {
    if h.last_observed == Some(text) {
        (h, false)
    } else if !would_add(h, text) {
        (HistoryView { last_observed: Some(text), ..h }, false)
    } else {
        let id = (h.next_id + 1) as u64;
        let entries = seq![new_entry(id, text)] + without_text(h.entries, text);
        (
            HistoryView {
                entries: if entries.len() <= MAX_ENTRIES {
                    entries
                } else {
                    entries.take(MAX_ENTRIES as int)
                },
                next_id: id,
                last_observed: Some(text),
            },
            true,
        )
    }
}

/// The entries a search returns: all of them for a blank query, else those
/// whose lowercased text contains the trimmed, lowercased query.
pub open spec fn search_result(h: HistoryView, query: Seq<char>) -> Seq<EntryView> {
    let q = lowercase(trim(query));
    if q.len() == 0 {
        h.entries
    } else {
        h.entries.filter(|e: EntryView| contains_run(lowercase(e.text), q))
    }
}

/// Positions in `s` of the elements that `s.filter(pred)` keeps, in
/// increasing order.
proof fn lemma_filter_positions<A>(s: Seq<A>, pred: spec_fn(A) -> bool) -> (idx: Seq<int>)
    ensures
        idx.len() == s.filter(pred).len(),
        forall|i: int| 0 <= i < idx.len() ==> 0 <= #[trigger] idx[i] < s.len() && s.filter(pred)[i] == s[idx[i]],
        forall|i: int, j: int| 0 <= i < j < idx.len() ==> #[trigger] idx[i] < #[trigger] idx[j],
    decreases s.len(),
{
    reveal(Seq::filter);
    if s.len() == 0 {
        Seq::empty()
    } else {
        let prev = lemma_filter_positions(s.drop_last(), pred);
        if pred(s.last()) {
            prev.push(s.len() - 1)
        } else {
            prev
        }
    }
}

/// Filtering keeps the history's invariant.
proof fn lemma_filter_keeps_wf(h: HistoryView, pred: spec_fn(EntryView) -> bool)
    requires
        history_wf(h),
    ensures
        history_wf(HistoryView { entries: h.entries.filter(pred), ..h }),
{
    let f = h.entries.filter(pred);
    let idx = lemma_filter_positions(h.entries, pred);
    assert forall|i: int| 0 <= i < f.len() implies {
        &&& entry_wf(#[trigger] f[i])
        &&& capturable(f[i].text)
        &&& f[i].id <= h.next_id
    } by {
        assert(f[i] == h.entries[idx[i]]);
    }
    assert forall|i: int, j: int| 0 <= i < j < f.len() implies #[trigger] f[i].id > #[trigger] f[j].id by {
        assert(f[i] == h.entries[idx[i]]);
        assert(f[j] == h.entries[idx[j]]);
    }
    assert forall|i: int, j: int| 0 <= i < j < f.len() implies #[trigger] f[i].text != #[trigger] f[j].text by {
        assert(f[i] == h.entries[idx[i]]);
        assert(f[j] == h.entries[idx[j]]);
    }
}

/// A capture keeps the history's invariant.
pub proof fn lemma_capture_keeps_wf(h: HistoryView, text: Seq<char>)
    requires
        history_wf(h),
        would_add(h, text) ==> h.next_id < u64::MAX,
    ensures
        history_wf(capture_result(h, text).0),
{
    if would_add(h, text) {
        let pred = |e: EntryView| e.text != text;
        let kept = without_text(h.entries, text);
        lemma_filter_keeps_wf(h, pred);
        let idx = lemma_filter_positions(h.entries, pred);
        let id = (h.next_id + 1) as u64;
        let all = seq![new_entry(id, text)] + kept;
        let res = capture_result(h, text).0;
        assert forall|i: int| 0 <= i < kept.len() implies #[trigger] kept[i].text != text by {
            h.entries.lemma_filter_pred(pred, i);
        }
        assert forall|i: int| 0 <= i < res.entries.len() implies {
            &&& entry_wf(#[trigger] res.entries[i])
            &&& capturable(res.entries[i].text)
            &&& res.entries[i].id <= res.next_id
        } by {
            assert(res.entries[i] == all[i]);
            if i > 0 {
                assert(all[i] == kept[i - 1]);
            }
        }
        assert forall|i: int, j: int| 0 <= i < j < res.entries.len() implies #[trigger] res.entries[i].id
            > #[trigger] res.entries[j].id by {
            assert(res.entries[i] == all[i]);
            assert(res.entries[j] == all[j]);
            assert(all[j] == kept[j - 1]);
            if i > 0 {
                assert(all[i] == kept[i - 1]);
            }
        }
        assert forall|i: int, j: int| 0 <= i < j < res.entries.len() implies #[trigger] res.entries[i].text
            != #[trigger] res.entries[j].text by {
            assert(res.entries[i] == all[i]);
            assert(res.entries[j] == all[j]);
            assert(all[j] == kept[j - 1]);
            if i > 0 {
                assert(all[i] == kept[i - 1]);
            }
        }
    }
}

/// The clipboard history.
pub struct ClipboardHistory {
    entries: Vec<ClipboardEntry>,
    next_id: u64,
    last_observed: Option<String>,
}

/// The views of a run of entries.
pub open spec fn entry_views(entries: Seq<ClipboardEntry>) -> Seq<EntryView> {
    entries.map_values(|e: ClipboardEntry| e@)
}

impl View for ClipboardHistory {
    type V = HistoryView;

    closed spec fn view(&self) -> HistoryView {
        HistoryView {
            entries: entry_views(self.entries@),
            next_id: self.next_id,
            last_observed: match self.last_observed {
                Some(s) => Some(s@),
                None => None,
            },
        }
    }
}

impl Default for ClipboardHistory {
    /// An empty history that has observed nothing.
    fn default() -> (res: Self)
        ensures
            res@.entries.len() == 0,
            res@.next_id == 0,
            res@.last_observed is None,
            history_wf(res@),
    {
        ClipboardHistory { entries: Vec::new(), next_id: 0, last_observed: None }
    }
}

impl ClipboardHistory {
    /// The history's invariant holds.
    pub open spec fn wf(&self) -> bool {
        history_wf(self@)
    }

    /// Every history value keeps its invariant: whatever sequence of calls
    /// built it from `default`, it holds at most `MAX_ENTRIES` capturable
    /// entries with distinct texts and ids decreasing from the newest.
    #[verifier::type_invariant]
    spec fn keeps_invariant(self) -> bool {
        history_wf(self@)
    }

    /// Whether offering `text` would add an entry (see `would_add`): callers
    /// test it, with `has_free_id`, before they capture.
    pub fn would_add(&self, text: &str) -> (res: bool)
        ensures
            res == would_add(self@, text@),
    {
        match &self.last_observed {
            Some(observed) => {
                if str_equals(observed.as_str(), text) {
                    return false;
                }
            },
            None => {},
        }
        let chars = chars_of(text);
        let trimmed = trim_chars(chars.as_slice());
        if trimmed.len() == 0 || text.len() > MAX_ENTRY_BYTES {
            return false;
        }
        if self.entries.len() > 0 && str_equals(self.entries[0].text.as_str(), text) {
            proof {
                assert(entry_views(self.entries@)[0] == self.entries@[0]@);
            }
            return false;
        }
        proof {
            if self.entries@.len() > 0 {
                assert(entry_views(self.entries@)[0] == self.entries@[0]@);
            }
        }
        true
    }

    /// Offers a text read from the clipboard; returns whether it was added
    /// as a new entry (see `capture_result`).
    pub fn capture(&mut self, text: String) -> (res: bool)
        requires
            would_add(old(self)@, text@) ==> old(self)@.next_id < u64::MAX,
        ensures
            final(self).wf(),
            (final(self)@, res) == capture_result(old(self)@, text@),
    {
        proof {
            use_type_invariant(&*self);
            lemma_capture_keeps_wf(self@, text@);
        }
        let ghost old_view = self@;
        let ghost tv = text@;
        match &self.last_observed {
            Some(observed) => {
                if *observed == text {
                    return false;
                }
            },
            None => {},
        }
        self.last_observed = Some(text.clone());
        let chars = chars_of(text.as_str());
        let trimmed = trim_chars(chars.as_slice());
        if trimmed.len() == 0 || text.as_str().len() > MAX_ENTRY_BYTES {
            return false;
        }
        if self.entries.len() > 0 && self.entries[0].text == text {
            proof {
                assert(entry_views(self.entries@)[0] == self.entries@[0]@);
            }
            return false;
        }
        let ghost pred = |e: EntryView| e.text != tv;
        let mut kept: Vec<ClipboardEntry> = Vec::new();
        let mut i: usize = 0;
        while i < self.entries.len()
            invariant
                i <= self.entries@.len(),
                entry_views(self.entries@) == old_view.entries,
                pred == |e: EntryView| e.text != tv,
                text@ == tv,
                entry_views(kept@) == old_view.entries.take(i as int).filter(pred),
            decreases self.entries@.len() - i,
        {
            let ghost before = old_view.entries.take(i as int);
            proof {
                assert(old_view.entries.take(i + 1) =~= before.push(old_view.entries[i as int]));
                assert(old_view.entries[i as int] == self.entries@[i as int]@);
                before.lemma_filter_push(old_view.entries[i as int], pred);
            }
            if !(self.entries[i].text == text) {
                let ghost prev = kept@;
                kept.push(self.entries[i].duplicate());
                proof {
                    assert(kept@.drop_last() =~= prev);
                    assert(entry_views(kept@) =~= entry_views(prev).push(kept@.last()@));
                }
            }
            i = i + 1;
        }
        proof {
            assert(old_view.entries.take(i as int) =~= old_view.entries);
        }
        self.next_id = self.next_id + 1;
        let mut entries: Vec<ClipboardEntry> = Vec::new();
        entries.push(ClipboardEntry::new(self.next_id, text));
        let ghost all = seq![new_entry(self.next_id, tv)] + without_text(old_view.entries, tv);
        let mut k: usize = 0;
        while k < kept.len() && entries.len() < MAX_ENTRIES
            invariant
                k <= kept@.len(),
                entries@.len() == k + 1,
                k + 1 <= MAX_ENTRIES,
                self.next_id == old_view.next_id + 1,
                self.last_observed is Some,
                self.last_observed->0@ == tv,
                entry_views(kept@) == without_text(old_view.entries, tv),
                all == seq![new_entry(self.next_id, tv)] + without_text(old_view.entries, tv),
                entry_views(entries@) == all.take(k + 1),
            decreases kept@.len() - k,
        {
            entries.push(kept[k].duplicate());
            k = k + 1;
            proof {
                assert(entry_views(entries@) =~= all.take(k + 1));
            }
        }
        proof {
            if all.len() <= MAX_ENTRIES {
                assert(all.take(k + 1) =~= all);
            }
            assert(entry_views(entries@) == capture_result(old_view, tv).0.entries);
        }
        self.entries = entries;
        true
    }

    /// The entries, newest first, whose lowercased text contains the
    /// trimmed, lowercased query; every entry for a blank query.
    pub fn search(&self, query: &str) -> (res: Vec<ClipboardEntry>)
        ensures
            self.wf(),
            entry_views(res@) == search_result(self@, query@),
            trim(query@).len() == 0 ==> entry_views(res@) == self@.entries,
    {
        proof {
            use_type_invariant(self);
        }
        let query_chars = chars_of(query);
        let trimmed = trim_chars(query_chars.as_slice());
        let trimmed_string = string_from_chars(trimmed.as_slice());
        let q = lowercase_chars(trimmed_string.as_str());
        let ghost pred = |e: EntryView| contains_run(lowercase(e.text), q@);
        let mut res: Vec<ClipboardEntry> = Vec::new();
        let mut i: usize = 0;
        while i < self.entries.len()
            invariant
                i <= self.entries@.len(),
                pred == |e: EntryView| contains_run(lowercase(e.text), q@),
                q@.len() == 0 ==> entry_views(res@) == self@.entries.take(i as int),
                q@.len() > 0 ==> entry_views(res@) == self@.entries.take(i as int).filter(pred),
            decreases self.entries@.len() - i,
        {
            let ghost before = self@.entries.take(i as int);
            proof {
                assert(self@.entries.take(i + 1) =~= before.push(self@.entries[i as int]));
                assert(self@.entries[i as int] == self.entries@[i as int]@);
                before.lemma_filter_push(self@.entries[i as int], pred);
            }
            let keep = if q.len() == 0 {
                true
            } else {
                let text_lower = lowercase_chars(self.entries[i].text.as_str());
                contains_chars(text_lower.as_slice(), q.as_slice())
            };
            if keep {
                let ghost prev = res@;
                res.push(self.entries[i].duplicate());
                proof {
                    assert(res@.drop_last() =~= prev);
                    assert(entry_views(res@) =~= entry_views(prev).push(res@.last()@));
                }
            }
            i = i + 1;
        }
        proof {
            assert(self@.entries.take(i as int) =~= self@.entries);
        }
        res
    }

    /// Removes the entry with the given id; returns whether one was removed.
    pub fn delete(&mut self, id: u64) -> (res: bool)
        ensures
            final(self).wf(),
            final(self)@ == (HistoryView { entries: without_id(old(self)@.entries, id), ..old(self)@ }),
            res == exists|i: int| 0 <= i < old(self)@.entries.len() && old(self)@.entries[i].id == id,
    {
        proof {
            use_type_invariant(&*self);
        }
        let ghost old_view = self@;
        let ghost pred = |e: EntryView| e.id != id;
        proof {
            lemma_filter_keeps_wf(old_view, pred);
        }
        let mut kept: Vec<ClipboardEntry> = Vec::new();
        let mut found: bool = false;
        let mut i: usize = 0;
        while i < self.entries.len()
            invariant
                i <= self.entries@.len(),
                entry_views(self.entries@) == old_view.entries,
                pred == |e: EntryView| e.id != id,
                entry_views(kept@) == old_view.entries.take(i as int).filter(pred),
                found == exists|j: int| 0 <= j < i && old_view.entries[j].id == id,
            decreases self.entries@.len() - i,
        {
            let ghost before = old_view.entries.take(i as int);
            proof {
                assert(old_view.entries.take(i + 1) =~= before.push(old_view.entries[i as int]));
                assert(old_view.entries[i as int] == self.entries@[i as int]@);
                before.lemma_filter_push(old_view.entries[i as int], pred);
            }
            if self.entries[i].id != id {
                let ghost prev = kept@;
                kept.push(self.entries[i].duplicate());
                proof {
                    assert(kept@.drop_last() =~= prev);
                    assert(entry_views(kept@) =~= entry_views(prev).push(kept@.last()@));
                }
            } else {
                found = true;
            }
            i = i + 1;
        }
        proof {
            assert(old_view.entries.take(i as int) =~= old_view.entries);
        }
        self.entries = kept;
        found
    }

    /// Removes every entry; returns whether there was any.
    pub fn clear(&mut self) -> (res: bool)
        ensures
            final(self).wf(),
            final(self)@ == (HistoryView { entries: Seq::empty(), ..old(self)@ }),
            res == (old(self)@.entries.len() > 0),
    {
        if self.entries.len() == 0 {
            return false;
        }
        let empty: Vec<ClipboardEntry> = Vec::new();
        proof {
            assert(entry_views(empty@) =~= Seq::<EntryView>::empty());
        }
        self.entries = empty;
        true
    }

    /// Whether another entry can still get a fresh id (ids are never reused).
    pub fn has_free_id(&self) -> (res: bool)
        ensures
            self.wf(),
            res == (self@.next_id < u64::MAX),
    {
        proof {
            use_type_invariant(self);
        }
        self.next_id < u64::MAX
    }

    /// Whether the history holds no entry.
    pub fn is_empty(&self) -> (res: bool)
        ensures
            self.wf(),
            res == (self@.entries.len() == 0),
    {
        proof {
            use_type_invariant(self);
        }
        self.entries.len() == 0
    }

    /// How many entries the history holds.
    pub fn len(&self) -> (res: usize)
        ensures
            self.wf(),
            res == self@.entries.len(),
    {
        proof {
            use_type_invariant(self);
        }
        self.entries.len()
    }
}

/// Offering the same text twice in a row: the second offer changes nothing
/// and adds nothing.
pub proof fn lemma_repeat_capture_is_ignored(h: HistoryView, text: Seq<char>)
    ensures
        capture_result(capture_result(h, text).0, text) == (capture_result(h, text).0, false),
{
}

/// A text that was added becomes the newest entry, under a fresh id above
/// every earlier one, and occurs nowhere else in the history.
pub proof fn lemma_added_text_is_newest(h: HistoryView, text: Seq<char>)
    requires
        history_wf(h),
        h.next_id < u64::MAX,
        capture_result(h, text).1,
    ensures
        ({
            let after = capture_result(h, text).0;
            &&& after.entries.len() > 0
            &&& after.entries[0] == new_entry((h.next_id + 1) as u64, text)
            &&& forall|i: int| 0 <= i < h.entries.len() ==> #[trigger] h.entries[i].id < after.entries[0].id
            &&& forall|i: int| 0 < i < after.entries.len() ==> #[trigger] after.entries[i].text != text
        }),
{
    lemma_capture_keeps_wf(h, text);
}

/// Capturing keeps every other entry, in order, except that the oldest drop
/// out beyond `MAX_ENTRIES`.
pub proof fn lemma_capture_keeps_other_entries(h: HistoryView, text: Seq<char>)
    requires
        history_wf(h),
        h.next_id < u64::MAX,
        capture_result(h, text).1,
    ensures
        ({
            let after = capture_result(h, text).0;
            let others = without_text(h.entries, text);
            &&& after.entries.len() == if others.len() + 1 <= MAX_ENTRIES { others.len() + 1 } else { MAX_ENTRIES as nat }
            &&& forall|i: int| 0 < i < after.entries.len() ==> #[trigger] after.entries[i] == others[i - 1]
        }),
{
}

/// Deleting an entry does not forget the last text observed, so the text
/// still on the clipboard is not captured again right away.
pub proof fn lemma_deleted_text_not_recaptured(h: HistoryView, id: u64, text: Seq<char>)
    requires
        h.last_observed == Some(text),
    ensures
        !capture_result(HistoryView { entries: without_id(h.entries, id), ..h }, text).1,
{
}

/// Clearing the history does not forget the last text observed either.
pub proof fn lemma_cleared_text_not_recaptured(h: HistoryView, text: Seq<char>)
    requires
        h.last_observed == Some(text),
    ensures
        !capture_result(HistoryView { entries: Seq::empty(), ..h }, text).1,
{
}

/// Every entry a search finds is an entry of the history, and the found
/// entries keep the history's order.
pub proof fn lemma_search_finds_entries_in_order(h: HistoryView, query: Seq<char>) -> (idx: Seq<int>)
    ensures
        idx.len() == search_result(h, query).len(),
        forall|i: int| 0 <= i < idx.len() ==> 0 <= #[trigger] idx[i] < h.entries.len()
            && search_result(h, query)[i] == h.entries[idx[i]],
        forall|i: int, j: int| 0 <= i < j < idx.len() ==> #[trigger] idx[i] < #[trigger] idx[j],
{
    let q = lowercase(trim(query));
    if q.len() == 0 {
        Seq::new(h.entries.len(), |i: int| i)
    } else {
        lemma_filter_positions(h.entries, |e: EntryView| contains_run(lowercase(e.text), q))
    }
}

/// Every entry that a search of a history returns shows the preview and the
/// metadata of its own text.
pub proof fn lemma_found_entries_show_their_text(h: ClipboardHistory, query: Seq<char>, found: Seq<ClipboardEntry>)
    requires
        h.wf(),
        entry_views(found) == search_result(h@, query),
    ensures
        forall|i: int|
            0 <= i < found.len() ==> {
                &&& (#[trigger] found[i])@.preview == preview_text(found[i]@.text)
                &&& found[i]@.metadata == metadata_text(found[i]@.text)
            },
{
    let q = lowercase(trim(query));
    let pred = |e: EntryView| contains_run(lowercase(e.text), q);
    let idx = lemma_filter_positions(h@.entries, pred);
    assert forall|i: int| 0 <= i < found.len() implies {
        &&& (#[trigger] found[i])@.preview == preview_text(found[i]@.text)
        &&& found[i]@.metadata == metadata_text(found[i]@.text)
    } by {
        assert(entry_views(found)[i] == found[i]@);
        if q.len() == 0 {
            assert(entry_wf(h@.entries[i]));
        } else {
            assert(h@.entries.filter(pred)[i] == h@.entries[idx[i]]);
            assert(entry_wf(h@.entries[idx[i]]));
        }
    }
}

} // verus!
