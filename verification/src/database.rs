//! The clipboard history store.
//!
//! Entries are deduplicated by their content hash, listed newest first,
//! pinned or unpinned by id, deleted by id, cleared (pinned entries stay) and
//! cleaned up after every addition so that only the most recent
//! `HISTORY_LIMIT` entries and the pinned ones remain.

use vstd::prelude::*;
use crate::clock::{current_timestamp, is_rfc3339_instant};
use crate::hashing::{content_hash, entry_hash};
use crate::like::{like_chars, search_pattern, search_too_long, sql_chars, sql_text, LIKE_PATTERN_LIMIT};
use crate::laws::{law_edits_carry_hashes, law_record_carries_hashes};
use crate::model::{
    carries_hashes,
    bytes_lt, cleanup, clear, fresh_entry, has_hash, hash_pos, history, ids_exhausted, lemma_cleanup_wf,
    lemma_filter_wf, lemma_max_id, lemma_place_pos, lemma_place_pos_split, lemma_place_wf, lex_lt_from, matching, max_id,
    newer, next_id, ordered_pair, other_id_pred, pinned_pred, flip_pin, place, place_pos, record, record_fails,
    remove_id, search_pred, table_wf, toggle, toggle_one, upsert, EntryView, HISTORY_LIMIT,
};

verus! {

/// One captured clipboard item.
#[derive(Debug, Clone)]
pub struct ClipboardEntry {
    pub id: i64,
    pub content: Vec<u8>,
    pub thumbnail: Option<Vec<u8>>,
    pub entry_type: String,
    pub content_hash: String,
    pub timestamp: String,
    pub pinned: bool,
}

/// The bytes of an optional byte vector.
pub open spec fn vec_bytes_opt(o: Option<Vec<u8>>) -> Option<Seq<u8>> {
    match o {
        Some(v) => Some(v@),
        None => None,
    }
}

/// The bytes of an optional byte slice.
pub open spec fn slice_bytes_opt(o: Option<&[u8]>) -> Option<Seq<u8>> {
    match o {
        Some(v) => Some(v@),
        None => None,
    }
}

/// The characters of an optional text.
pub open spec fn str_opt(o: Option<&str>) -> Option<Seq<char>> {
    match o {
        Some(v) => Some(v@),
        None => None,
    }
}

impl View for ClipboardEntry {
    type V = EntryView;

    open spec fn view(&self) -> EntryView {
        EntryView {
            id: self.id,
            content: self.content@,
            thumbnail: vec_bytes_opt(self.thumbnail),
            entry_type: self.entry_type@,
            content_hash: self.content_hash@,
            timestamp: self.timestamp@,
            pinned: self.pinned,
        }
    }
}

/// The rows of a sequence of entries.
pub open spec fn view_all(v: Seq<ClipboardEntry>) -> Seq<EntryView> {
    v.map_values(|e: ClipboardEntry| e@)
}

proof fn lemma_view_all_edits(v: Seq<ClipboardEntry>)
    ensures
        forall|i: int|
            0 <= i < v.len() ==> #[trigger] view_all(v.remove(i)) == view_all(v).remove(i),
        forall|i: int, x: ClipboardEntry|
            0 <= i < v.len() ==> #[trigger] view_all(v.update(i, x)) == view_all(v).update(i, x@),
        forall|i: int, x: ClipboardEntry|
            0 <= i <= v.len() ==> #[trigger] view_all(v.insert(i, x)) == view_all(v).insert(i, x@),
        forall|x: ClipboardEntry| #[trigger] view_all(v.push(x)) == view_all(v).push(x@),
{
    assert forall|i: int| 0 <= i < v.len() implies #[trigger] view_all(v.remove(i)) == view_all(
        v,
    ).remove(i) by {
        assert(view_all(v.remove(i)) =~= view_all(v).remove(i));
    }
    assert forall|i: int, x: ClipboardEntry| 0 <= i < v.len() implies #[trigger] view_all(
        v.update(i, x),
    ) == view_all(v).update(i, x@) by {
        assert(view_all(v.update(i, x)) =~= view_all(v).update(i, x@));
    }
    assert forall|i: int, x: ClipboardEntry| 0 <= i <= v.len() implies #[trigger] view_all(
        v.insert(i, x),
    ) == view_all(v).insert(i, x@) by {
        assert(view_all(v.insert(i, x)) =~= view_all(v).insert(i, x@));
    }
    assert forall|x: ClipboardEntry| #[trigger] view_all(v.push(x)) == view_all(v).push(x@) by {
        assert(view_all(v.push(x)) =~= view_all(v).push(x@));
    }
}

fn copy_bytes_opt(o: &Option<Vec<u8>>) -> (r: Option<Vec<u8>>)
    ensures
        vec_bytes_opt(r) == vec_bytes_opt(*o),
{
    match o {
        Some(v) => Some(vstd::slice::slice_to_vec(v.as_slice())),
        None => None,
    }
}

impl ClipboardEntry {
    /// A copy of the entry.
    pub fn duplicate(&self) -> (copy: ClipboardEntry)
        ensures
            copy@ == self@,
    {
        ClipboardEntry {
            id: self.id,
            content: vstd::slice::slice_to_vec(self.content.as_slice()),
            thumbnail: copy_bytes_opt(&self.thumbnail),
            entry_type: self.entry_type.clone(),
            content_hash: self.content_hash.clone(),
            timestamp: self.timestamp.clone(),
            pinned: self.pinned,
        }
    }
}

/// Why the store refused an operation.
#[derive(Debug, Clone, Copy, PartialEq, Eq)]
pub enum DbError {
    /// A new entry needs an id above the largest one, and there is none.
    IdsExhausted,
    /// The search text makes a LIKE pattern longer than `LIKE_PATTERN_LIMIT`.
    PatternTooComplex,
    /// Two rows handed to `from_rows` share an id or a content hash.
    DuplicateRow,
    /// A row handed to `from_rows` carries a content hash that is not the
    /// hash of its content and type.
    HashMismatch,
    /// The clock gave no time to write.
    ClockUnavailable,
}

/// Two of the rows share an id or a content hash.
pub open spec fn rows_conflict(s: Seq<EntryView>) -> bool {
    exists|i: int, j: int|
        0 <= i < j < s.len() && (#[trigger] s[i].id == #[trigger] s[j].id || s[i].content_hash
            == s[j].content_hash)
}

proof fn lemma_conflict(s: Seq<EntryView>, a: int, b: int)
    requires
        0 <= a < b < s.len(),
        s[a].id == s[b].id || s[a].content_hash == s[b].content_hash,
    ensures
        rows_conflict(s),
{
    assert(s[a].id == s[b].id || s[a].content_hash == s[b].content_hash);
}

/// The table built from rows written one after the other, the last first.
pub open spec fn load(s: Seq<EntryView>) -> Seq<EntryView>
    decreases s.len(),
{
    if s.len() == 0 {
        Seq::empty()
    } else {
        place(load(s.drop_first()), s[0])
    }
}

/// A listing fails when the search is too long for a pattern and there is
/// at least one row to test against it.
pub open spec fn history_fails(s: Seq<EntryView>, search: Option<Seq<char>>) -> bool {
    search_too_long(search) && s.len() > 0
}

/// The history store.
pub struct Database {
    rows: Vec<ClipboardEntry>,
}

impl View for Database {
    type V = Seq<EntryView>;

    closed spec fn view(&self) -> Seq<EntryView> {
        view_all(self.rows@)
    }
}

fn bytes_less(a: &[u8], b: &[u8]) -> (r: bool)
    ensures
        r == bytes_lt(a@, b@),
{
    let mut i: usize = 0;
    while i < a.len() && i < b.len() && a[i] == b[i]
        invariant
            0 <= i <= a@.len(),
            i <= b@.len(),
            bytes_lt(a@, b@) == lex_lt_from(a@, b@, i as int),
        decreases a@.len() - i,
    {
        i = i + 1;
    }
    if i >= b.len() {
        false
    } else if i >= a.len() {
        true
    } else {
        a[i] < b[i]
    }
}

fn is_newer(a: &ClipboardEntry, b: &ClipboardEntry) -> (r: bool)
    ensures
        r == newer(a@, b@),
{
    bytes_less(b.timestamp.as_str().as_bytes(), a.timestamp.as_str().as_bytes())
}

/// A row taken out of a well-formed table differs in id and hash from every
/// row left, and those still form a well-formed table.
proof fn lemma_remove_wf(s: Seq<EntryView>, i: int)
    requires
        table_wf(s),
        0 <= i < s.len(),
    ensures
        table_wf(s.remove(i)),
        forall|j: int|
            0 <= j < s.remove(i).len() ==> (#[trigger] s.remove(i)[j]).id != s[i].id
                && s.remove(i)[j].content_hash != s[i].content_hash,
{
    let t = s.remove(i);
    assert forall|a: int, b: int| 0 <= a < b < t.len() implies ordered_pair(
        #[trigger] t[a],
        #[trigger] t[b],
    ) by {
        let a2 = if a < i {
            a
        } else {
            a + 1
        };
        let b2 = if b < i {
            b
        } else {
            b + 1
        };
        assert(t[a] == s[a2] && t[b] == s[b2]);
    }
    assert forall|j: int| 0 <= j < t.len() implies (#[trigger] t[j]).id != s[i].id
        && t[j].content_hash != s[i].content_hash by {
        let j2 = if j < i {
            j
        } else {
            j + 1
        };
        assert(t[j] == s[j2]);
        if j2 < i {
            assert(ordered_pair(s[j2], s[i]));
        } else {
            assert(ordered_pair(s[i], s[j2]));
        }
    }
}

/// Filtering the rows from `i` on: the row at `i` stays or goes, then the
/// rest is filtered.
proof fn lemma_filter_step(s: Seq<EntryView>, p: spec_fn(EntryView) -> bool, i: int)
    requires
        0 <= i < s.len(),
    ensures
        s.skip(i).filter(p) == if p(s[i]) {
            seq![s[i]] + s.skip(i + 1).filter(p)
        } else {
            s.skip(i + 1).filter(p)
        },
{
    assert(s.skip(i) =~= seq![s[i]] + s.skip(i + 1));
    s.skip(i + 1).lemma_filter_prepend(s[i], p);
}

impl Database {
    /// The store's invariant.
    pub open spec fn wf(&self) -> bool {
        table_wf(self@) && carries_hashes(self@)
    }

    /// An empty store.
    pub fn new() -> (db: Database)
        ensures
            db.wf(),
            db@ == Seq::<EntryView>::empty(),
    {
        let db = Database { rows: Vec::new() };
        assert(db@ =~= Seq::<EntryView>::empty());
        db
    }

    /// The entries, newest first.
    pub fn entries(&self) -> (rows: &[ClipboardEntry])
        ensures
            view_all(rows@) == self@,
    {
        self.rows.as_slice()
    }

    /// The number of entries.
    pub fn len(&self) -> (n: usize)
        ensures
            n == self@.len(),
    {
        self.rows.len()
    }

    /// Writes `e` at its place: after every strictly newer row.
    fn place_row(&mut self, e: ClipboardEntry)
        requires
            table_wf(old(self)@),
            forall|j: int|
                0 <= j < old(self)@.len() ==> (#[trigger] old(self)@[j]).id != e@.id
                    && old(self)@[j].content_hash != e@.content_hash,
        ensures
            final(self)@ == place(old(self)@, e@),
            table_wf(final(self)@),
    {
        let n = self.rows.len();
        let mut pos: usize = 0;
        while pos < n && is_newer(&self.rows[pos], &e)
            invariant
                0 <= pos <= n,
                n == self.rows@.len(),
                self@ == old(self)@,
                forall|j: int| 0 <= j < pos ==> newer(#[trigger] self@[j], e@),
            decreases n - pos,
        {
            pos = pos + 1;
        }
        proof {
            lemma_place_pos(self@, e@, pos as int);
            lemma_place_wf(self@, e@);
        }
        self.rows.insert(pos, e);
        assert(self@ =~= place(old(self)@, e@));
    }

    /// The id a new row would receive, if there is one.
    fn new_row_id(&self) -> (id: Option<i64>)
        ensures
            match id {
                Some(v) => !ids_exhausted(self@) && v == next_id(self@),
                None => ids_exhausted(self@),
            },
    {
        let n = self.rows.len();
        if n == 0 {
            return Some(1);
        }
        let mut m = self.rows[0].id;
        let mut i: usize = 1;
        assert(self@.take(1).len() == 1);
        while i < n
            invariant
                1 <= i <= n,
                n == self@.len(),
                m == max_id(self@.take(i as int)),
            decreases n - i,
        {
            assert(self@.take(i + 1).drop_last() =~= self@.take(i as int));
            if self.rows[i].id > m {
                m = self.rows[i].id;
            }
            i = i + 1;
        }
        assert(self@.take(n as int) =~= self@);
        if m == i64::MAX {
            None
        } else {
            Some(m + 1)
        }
    }

    /// Deletes the unpinned entries beyond the `HISTORY_LIMIT` most recent.
    pub fn cleanup(&mut self)
        requires
            old(self).wf(),
        ensures
            final(self).wf(),
            final(self)@ == cleanup(old(self)@),
    {
        self.cleanup_rows();
        proof {
            law_edits_carry_hashes(old(self)@, 0);
        }
    }

    fn cleanup_rows(&mut self)
        requires
            table_wf(old(self)@),
        ensures
            table_wf(final(self)@),
            final(self)@ == cleanup(old(self)@),
    {
        let ghost s = self@;
        let n = self.rows.len();
        if n <= HISTORY_LIMIT {
            return;
        }
        let mut i: usize = n;
        assert(s.skip(n as int).filter(pinned_pred()) =~= Seq::<EntryView>::empty()) by {
            reveal_with_fuel(Seq::filter, 1);
        }
        assert(self@ =~= s.take(n as int) + s.skip(n as int).filter(pinned_pred()));
        while i > HISTORY_LIMIT
            invariant
                HISTORY_LIMIT <= i <= n,
                n == s.len(),
                i <= self.rows@.len(),
                self@ == s.take(i as int) + s.skip(i as int).filter(pinned_pred()),
            decreases i,
        {
            i = i - 1;
            proof {
                lemma_filter_step(s, pinned_pred(), i as int);
            }
            assert(self@[i as int] == s[i as int]);
            proof {
                lemma_view_all_edits(self.rows@);
            }
            if !self.rows[i].pinned {
                self.rows.remove(i);
                assert(self@ =~= s.take(i as int) + s.skip(i as int).filter(pinned_pred()));
            } else {
                assert(self@ =~= s.take(i as int) + s.skip(i as int).filter(pinned_pred()));
            }
        }
        proof {
            lemma_cleanup_wf(s);
        }
    }

    /// Adds an entry written at `timestamp`: an entry with the same content
    /// hash gets the new timestamp, otherwise a new unpinned entry is added;
    /// then cleanup runs.
    pub fn add_entry_at(
        &mut self,
        content: &[u8],
        thumbnail: Option<&[u8]>,
        entry_type: &str,
        timestamp: String,
    ) -> (r: Result<(), DbError>)
        requires
            old(self).wf(),
        ensures
            final(self).wf(),
            match r {
                Ok(()) => !record_fails(old(self)@, content@, entry_type@) && final(self)@ == record(
                    old(self)@,
                    content@,
                    slice_bytes_opt(thumbnail),
                    entry_type@,
                    timestamp@,
                ),
                Err(e) => e == DbError::IdsExhausted && record_fails(
                    old(self)@,
                    content@,
                    entry_type@,
                ) && final(self)@ == old(self)@,
            },
    {
        let ghost s = self@;
        let ghost h = entry_hash(content@, entry_type@);
        let hash = content_hash(content, entry_type);
        let n = self.rows.len();
        let mut i: usize = 0;
        while i < n && !(self.rows[i].content_hash == hash)
            invariant
                0 <= i <= n,
                n == self@.len(),
                self@ == s,
                hash@ == h,
                forall|j: int| 0 <= j < i ==> (#[trigger] s[j]).content_hash != h,
            decreases n - i,
        {
            i = i + 1;
        }
        if i < n {
            proof {
                assert(s[i as int].content_hash == h);
                assert(has_hash(s, h));
                let k = hash_pos(s, h);
                if k != i {
                    if k < i {
                        assert(ordered_pair(s[k], s[i as int]));
                    } else {
                        assert(ordered_pair(s[i as int], s[k]));
                    }
                }
                lemma_remove_wf(s, i as int);
            }
            let mut e = self.rows.remove(i);
            e.timestamp = timestamp;
            assert(self@ =~= s.remove(i as int));
            assert(e@ == EntryView { timestamp: timestamp@, ..s[i as int] });
            self.place_row(e);
        } else {
            assert(!has_hash(s, h));
            let id = match self.new_row_id() {
                Some(v) => v,
                None => {
                    return Err(DbError::IdsExhausted);
                },
            };
            let thumb = match thumbnail {
                Some(t) => Some(vstd::slice::slice_to_vec(t)),
                None => None,
            };
            let e = ClipboardEntry {
                id,
                content: vstd::slice::slice_to_vec(content),
                thumbnail: thumb,
                entry_type: entry_type.to_owned(),
                content_hash: hash,
                timestamp,
                pinned: false,
            };
            proof {
                if s.len() > 0 {
                    lemma_max_id(s);
                }
            }
            assert(e@ == fresh_entry(s, content@, slice_bytes_opt(thumbnail), entry_type@, timestamp@));
            self.place_row(e);
        }
        assert(self@ == upsert(s, content@, slice_bytes_opt(thumbnail), entry_type@, timestamp@));
        self.cleanup_rows();
        proof {
            law_record_carries_hashes(
                s,
                content@,
                slice_bytes_opt(thumbnail),
                entry_type@,
                timestamp@,
            );
        }
        Ok(())
    }

    /// Adds an entry written now (see `add_entry_at`); refused, with the
    /// store unchanged, when the clock gives no time.
    pub fn add_entry(&mut self, content: &[u8], thumbnail: Option<&[u8]>, entry_type: &str) -> (r:
        Result<(), DbError>)
        requires
            old(self).wf(),
        ensures
            final(self).wf(),
            match r {
                Ok(()) => !record_fails(old(self)@, content@, entry_type@) && exists|ts: Seq<char>|
                    is_rfc3339_instant(ts) && final(self)@ == #[trigger] record(
                        old(self)@,
                        content@,
                        slice_bytes_opt(thumbnail),
                        entry_type@,
                        ts,
                    ),
                Err(DbError::IdsExhausted) => record_fails(old(self)@, content@, entry_type@)
                    && final(self)@ == old(self)@,
                Err(DbError::ClockUnavailable) => final(self)@ == old(self)@,
                Err(_) => false,
            },
    {
        match current_timestamp() {
            Some(timestamp) => self.add_entry_at(content, thumbnail, entry_type, timestamp),
            None => Err(DbError::ClockUnavailable),
        }
    }

    /// Deletes every unpinned entry.
    pub fn clear_history(&mut self)
        requires
            old(self).wf(),
        ensures
            final(self).wf(),
            final(self)@ == clear(old(self)@),
    {
        let ghost s = self@;
        let n = self.rows.len();
        let mut i: usize = n;
        assert(s.skip(n as int).filter(pinned_pred()) =~= Seq::<EntryView>::empty()) by {
            reveal_with_fuel(Seq::filter, 1);
        }
        assert(self@ =~= s.take(n as int) + s.skip(n as int).filter(pinned_pred()));
        while i > 0
            invariant
                0 <= i <= n,
                n == s.len(),
                i <= self.rows@.len(),
                self@ == s.take(i as int) + s.skip(i as int).filter(pinned_pred()),
            decreases i,
        {
            i = i - 1;
            proof {
                lemma_filter_step(s, pinned_pred(), i as int);
            }
            assert(self@[i as int] == s[i as int]);
            proof {
                lemma_view_all_edits(self.rows@);
            }
            if !self.rows[i].pinned {
                self.rows.remove(i);
            }
            assert(self@ =~= s.take(i as int) + s.skip(i as int).filter(pinned_pred()));
        }
        assert(s.skip(0) =~= s);
        assert(self@ =~= clear(s));
        proof {
            lemma_filter_wf(s, pinned_pred());
            law_edits_carry_hashes(s, 0);
        }
    }

    /// Deletes the entry with the given id, if there is one.
    pub fn delete_entry(&mut self, id: i64)
        requires
            old(self).wf(),
        ensures
            final(self).wf(),
            final(self)@ == remove_id(old(self)@, id),
    {
        let ghost s = self@;
        let n = self.rows.len();
        let mut i: usize = n;
        assert(s.skip(n as int).filter(other_id_pred(id)) =~= Seq::<EntryView>::empty()) by {
            reveal_with_fuel(Seq::filter, 1);
        }
        assert(self@ =~= s.take(n as int) + s.skip(n as int).filter(other_id_pred(id)));
        while i > 0
            invariant
                0 <= i <= n,
                n == s.len(),
                i <= self.rows@.len(),
                self@ == s.take(i as int) + s.skip(i as int).filter(other_id_pred(id)),
            decreases i,
        {
            i = i - 1;
            proof {
                lemma_filter_step(s, other_id_pred(id), i as int);
            }
            assert(self@[i as int] == s[i as int]);
            proof {
                lemma_view_all_edits(self.rows@);
            }
            if self.rows[i].id == id {
                self.rows.remove(i);
            }
            assert(self@ =~= s.take(i as int) + s.skip(i as int).filter(other_id_pred(id)));
        }
        assert(s.skip(0) =~= s);
        assert(self@ =~= remove_id(s, id));
        proof {
            lemma_filter_wf(s, other_id_pred(id));
            law_edits_carry_hashes(s, id);
        }
    }

    /// Flips the pin of the entry with the given id, if there is one.
    pub fn toggle_pin(&mut self, id: i64)
        requires
            old(self).wf(),
        ensures
            final(self).wf(),
            final(self)@ == toggle(old(self)@, id),
    {
        let ghost s = self@;
        let n = self.rows.len();
        let mut i: usize = 0;
        while i < n
            invariant
                0 <= i <= n,
                n == s.len(),
                self@.len() == n,
                forall|k: int| 0 <= k < i ==> #[trigger] self@[k] == toggle_one(s[k], id),
                forall|k: int| i <= k < n ==> #[trigger] self@[k] == s[k],
            decreases n - i,
        {
            let ghost before = self.rows@;
            proof {
                lemma_view_all_edits(before);
                assert(view_all(before)[i as int] == before[i as int]@);
            }
            if self.rows[i].id == id {
                let mut e = self.rows.remove(i);
                e.pinned = !e.pinned;
                let ghost flipped = e;
                self.rows.insert(i, e);
                assert(self.rows@ =~= before.update(i as int, flipped));
                assert(flipped@ == flip_pin(s[i as int]));
            } else {
                assert(self@[i as int] == s[i as int]);
            }
            assert(self@[i as int] == toggle_one(s[i as int], id));
            i = i + 1;
        }
        assert(self@ =~= toggle(s, id));
        proof {
            law_edits_carry_hashes(s, id);
        }
        assert forall|a: int, b: int| 0 <= a < b < n implies ordered_pair(
            #[trigger] self@[a],
            #[trigger] self@[b],
        ) by {
            assert(ordered_pair(s[a], s[b]));
        }
    }

    /// The entries listed for an optional search text: those whose content
    /// is LIKE `%search%`, newest first, at most `HISTORY_LIMIT` of them.
    pub fn get_history(&self, search: Option<&str>) -> (r: Result<Vec<ClipboardEntry>, DbError>)
        ensures
            match r {
                Ok(v) => !history_fails(self@, str_opt(search)) && view_all(v@) == history(
                    self@,
                    str_opt(search),
                ),
                Err(e) => e == DbError::PatternTooComplex && history_fails(
                    self@,
                    str_opt(search),
                ),
            },
    {
        let ghost s = self@;
        let ghost q = str_opt(search);
        let ghost p = search_pred(q);
        let n = self.rows.len();
        let pattern: Option<Vec<u32>> = match search {
            Some(text) => {
                let bytes = text.as_bytes();
                if bytes.len() > LIKE_PATTERN_LIMIT - 2 {
                    if n > 0 {
                        return Err(DbError::PatternTooComplex);
                    }
                    None
                } else {
                    let mut pat: Vec<u8> = Vec::new();
                    pat.push(37u8);
                    let mut mid = vstd::slice::slice_to_vec(bytes);
                    pat.append(&mut mid);
                    pat.push(37u8);
                    assert(pat@ =~= search_pattern(text@));
                    Some(sql_chars(pat.as_slice()))
                }
            },
            None => None,
        };
        let mut out: Vec<ClipboardEntry> = Vec::new();
        if n == 0 {
            assert(matching(s, q) =~= Seq::<EntryView>::empty()) by {
                reveal_with_fuel(Seq::filter, 1);
            }
            assert(view_all(out@) =~= history(s, q));
            return Ok(out);
        }
        let mut i: usize = 0;
        assert(s.take(0).filter(p) =~= Seq::<EntryView>::empty()) by {
            reveal_with_fuel(Seq::filter, 1);
        }
        while i < n && out.len() < HISTORY_LIMIT
            invariant
                0 <= i <= n,
                n == s.len(),
                self@ == s,
                p == search_pred(q),
                q == str_opt(search),
                out@.len() <= HISTORY_LIMIT,
                view_all(out@) == s.take(i as int).filter(p),
                match search {
                    Some(text) => pattern matches Some(pv) && pv@ == sql_text(search_pattern(text@)),
                    None => pattern is None,
                },
            decreases n - i,
        {
            let row = &self.rows[i];
            let keep = match &pattern {
                Some(pv) => {
                    let text = sql_chars(row.content.as_slice());
                    like_chars(&text, pv)
                },
                None => true,
            };
            assert(keep == p(s[i as int]));
            assert(s.take(i + 1).drop_last() =~= s.take(i as int));
            if keep {
                out.push(row.duplicate());
            }
            proof {
                reveal_with_fuel(Seq::filter, 1);
            }
            assert(view_all(out@) =~= s.take(i + 1).filter(p));
            i = i + 1;
        }
        proof {
            let a = s.take(i as int);
            let b = s.skip(i as int);
            assert(s =~= a + b);
            Seq::filter_distributes_over_add(a, b, p);
            if i < n {
                assert(out@.len() == HISTORY_LIMIT);
                assert(matching(s, q) == a.filter(p) + b.filter(p));
                assert(history(s, q) =~= view_all(out@));
            } else {
                assert(a =~= s);
            }
        }
        Ok(out)
    }

    /// A store holding the given rows, each written in turn from the last to
    /// the first; refused when a row's content hash is not the hash of its
    /// content and type, or else when two rows share an id or a content
    /// hash.
    pub fn from_rows(rows: Vec<ClipboardEntry>) -> (r: Result<Database, DbError>)
        ensures
            match r {
                Ok(db) => db.wf() && carries_hashes(view_all(rows@)) && !rows_conflict(
                    view_all(rows@),
                ) && db@ == load(view_all(rows@)) && db@.len() == rows@.len() && forall|
                    x: EntryView,
                | #[trigger] db@.contains(x) <==> view_all(rows@).contains(x),
                Err(DbError::HashMismatch) => !carries_hashes(view_all(rows@)),
                Err(DbError::DuplicateRow) => carries_hashes(view_all(rows@)) && rows_conflict(
                    view_all(rows@),
                ),
                Err(_) => false,
            },
    {
        let ghost all = view_all(rows@);
        let mut i: usize = 0;
        while i < rows.len()
            invariant
                0 <= i <= rows@.len(),
                all == view_all(rows@),
                forall|k: int| 0 <= k < i ==> (#[trigger] all[k]).content_hash == entry_hash(
                    all[k].content,
                    all[k].entry_type,
                ),
            decreases rows@.len() - i,
        {
            let h = content_hash(rows[i].content.as_slice(), rows[i].entry_type.as_str());
            assert(all[i as int] == rows@[i as int]@);
            if !(h == rows[i].content_hash) {
                return Err(DbError::HashMismatch);
            }
            i = i + 1;
        }
        let mut rest = rows;
        let mut db = Database::new();
        let total = rest.len();
        assert(all.skip(total as int) =~= Seq::<EntryView>::empty());
        while rest.len() > 0
            invariant
                rest@.len() <= total,
                total == all.len(),
                all == view_all(rows@),
                view_all(rest@) == all.take(rest@.len() as int),
                db.wf(),
                carries_hashes(all),
                db@ == load(all.skip(rest@.len() as int)),
                db@.len() == total - rest@.len(),
                forall|x: EntryView| #[trigger] db@.contains(x) <==> all.skip(
                    rest@.len() as int,
                ).contains(x),
                forall|a: int, b: int|
                    rest@.len() <= a < b < total ==> !(#[trigger] all[a].id == #[trigger] all[b].id
                        || all[a].content_hash == all[b].content_hash),
            decreases rest@.len(),
        {
            let k = rest.len();
            let ghost old_rest = rest@;
            let e = rest.pop().unwrap();
            assert(e == old_rest[k - 1]);
            assert(view_all(old_rest)[k - 1] == old_rest[k - 1]@);
            assert(e@ == all[k - 1]);
            let ghost done = all.skip(k as int);
            assert(all.skip(k - 1) =~= seq![all[k - 1]] + done);
            assert(view_all(rest@) =~= all.take(k - 1));
            let ghost before = db@;
            let m = db.rows.len();
            let mut j: usize = 0;
            #[verifier::loop_isolation(false)]
            while j < m
                invariant
                    0 <= j <= m,
                    m == db@.len(),
                    db@ == before,
                    forall|t: int| 0 <= t < j ==> (#[trigger] db@[t]).id != e@.id
                        && db@[t].content_hash != e@.content_hash,
                decreases m - j,
            {
                if db.rows[j].id == e.id || db.rows[j].content_hash == e.content_hash {
                    proof {
                        let x = db@[j as int];
                        assert(db@.contains(x));
                        assert(done.contains(x));
                        let c = choose|c: int| 0 <= c < done.len() && done[c] == x;
                        assert(all[c + k] == x);
                        assert(all[k - 1] == e@);
                        assert(all[k - 1].id == all[c + k].id || all[k - 1].content_hash
                            == all[c + k].content_hash);
                        assert(0 <= k - 1 < c + k < all.len());
                        lemma_conflict(all, k - 1, c + k);
                    }
                    return Err(DbError::DuplicateRow);
                }
                j = j + 1;
            }
            db.place_row(e);
            assert(all.skip(k - 1).drop_first() =~= done);
            proof {
                lemma_place_pos_split(before, e@);
                let p = place_pos(before, e@);
                assert(db@ == before.insert(p, e@));
                assert forall|q: int| 0 <= q < db@.len() implies (#[trigger] db@[q]).content_hash
                    == entry_hash(db@[q].content, db@[q].entry_type) by {
                    if q < p {
                        assert(db@[q] == before[q]);
                    } else if q > p {
                        assert(db@[q] == before[q - 1]);
                    }
                }
                assert forall|x: EntryView| #[trigger] db@.contains(x) <==> all.skip(
                    k - 1,
                ).contains(x) by {
                    if db@.contains(x) {
                        let c = choose|c: int| 0 <= c < db@.len() && db@[c] == x;
                        if c != p {
                            let c2 = if c < p {
                                c
                            } else {
                                c - 1
                            };
                            assert(before[c2] == x);
                            assert(before.contains(x));
                            let d = choose|d: int| 0 <= d < done.len() && done[d] == x;
                            assert(all.skip(k - 1)[d + 1] == x);
                        } else {
                            assert(all.skip(k - 1)[0] == x);
                        }
                    }
                    if all.skip(k - 1).contains(x) {
                        let w = all.skip(k - 1);
                        let d = choose|d: int| 0 <= d < w.len() && #[trigger] w[d] == x;
                        if d == 0 {
                            assert(db@[p] == x);
                        } else {
                            assert(done[d - 1] == x);
                            assert(done.contains(x));
                            assert(before.contains(x));
                            let c = choose|c: int| 0 <= c < before.len() && before[c] == x;
                            if c < p {
                                assert(db@[c] == x);
                            } else {
                                assert(db@[c + 1] == x);
                            }
                        }
                    }
                }
                assert forall|a: int, b: int| k - 1 <= a < b < total implies !(
                #[trigger] all[a].id == #[trigger] all[b].id || all[a].content_hash
                    == all[b].content_hash) by {
                    if a == k - 1 {
                        let x = all[b];
                        assert(done[b - k] == x);
                        assert(done.contains(x));
                        assert(before.contains(x));
                        let c = choose|c: int| 0 <= c < before.len() && before[c] == x;
                        assert(all[a] == e@);
                    }
                }
            }
        }
        assert(all.skip(0) =~= all);
        proof {
            if rows_conflict(all) {
                let (a, b) = choose|a: int, b: int|
                    0 <= a < b < all.len() && (#[trigger] all[a].id == #[trigger] all[b].id
                        || all[a].content_hash == all[b].content_hash);
                assert(false);
            }
        }
        Ok(db)
    }
}

} // verus!
