//! The mathematical model of the history table.
//!
//! The table is a sequence of entries kept newest first: an entry is newer
//! than another when its timestamp text is greater in byte order (the order in
//! which timestamp texts compare).  Among entries with the same timestamp the
//! one written last comes first.  Every operation of the store is a function
//! on such sequences.

use vstd::prelude::*;
use vstd::utf8::encode_utf8;
use crate::hashing::entry_hash;
use crate::like::entry_matches;

verus! {

/// The number of entries a history listing returns, and the number of most
/// recent entries that cleanup keeps whether pinned or not.
pub const HISTORY_LIMIT: usize = 500;

/// One row of the table, as plain values.
pub struct EntryView {
    pub id: i64,
    pub content: Seq<u8>,
    pub thumbnail: Option<Seq<u8>>,
    pub entry_type: Seq<char>,
    pub content_hash: Seq<char>,
    pub timestamp: Seq<char>,
    pub pinned: bool,
}

/// Byte-wise lexicographic "less than", looking from position `i` on, for
/// sequences that agree before `i`.
pub open spec fn lex_lt_from(a: Seq<u8>, b: Seq<u8>, i: int) -> bool
    decreases b.len() - i,
{
    if i < 0 || i >= b.len() {
        false
    } else if i >= a.len() {
        true
    } else if a[i] != b[i] {
        a[i] < b[i]
    } else {
        lex_lt_from(a, b, i + 1)
    }
}

/// Lexicographic order on byte strings: a proper prefix comes first.
pub open spec fn bytes_lt(a: Seq<u8>, b: Seq<u8>) -> bool {
    lex_lt_from(a, b, 0)
}

/// The bytes by which entries are ordered: those of the timestamp text.
pub open spec fn ts_key(e: EntryView) -> Seq<u8> {
    encode_utf8(e.timestamp)
}

/// `a` carries a strictly later timestamp than `b`.
pub open spec fn newer(a: EntryView, b: EntryView) -> bool {
    bytes_lt(ts_key(b), ts_key(a))
}

/// What must hold of two rows of which `a` stands before `b`: `b` is not
/// newer, and they differ in id and in content hash.
pub open spec fn ordered_pair(a: EntryView, b: EntryView) -> bool {
    &&& !newer(b, a)
    &&& a.id != b.id
    &&& a.content_hash != b.content_hash
}

/// The table's invariant: newest first, ids unique, content hashes unique.
pub open spec fn table_wf(s: Seq<EntryView>) -> bool {
    forall|i: int, j: int| 0 <= i < j < s.len() ==> ordered_pair(#[trigger] s[i], #[trigger] s[j])
}

/// Every row carries the hash of its content and type.
pub open spec fn carries_hashes(s: Seq<EntryView>) -> bool {
    forall|k: int|
        0 <= k < s.len() ==> (#[trigger] s[k]).content_hash == entry_hash(
            s[k].content,
            s[k].entry_type,
        )
}

/// Where a row is placed: after every row strictly newer than it.
pub open spec fn place_pos(s: Seq<EntryView>, e: EntryView) -> int
    decreases s.len(),
{
    if s.len() == 0 {
        0
    } else if newer(s[0], e) {
        1 + place_pos(s.drop_first(), e)
    } else {
        0
    }
}

/// The table with `e` written into it.
pub open spec fn place(s: Seq<EntryView>, e: EntryView) -> Seq<EntryView> {
    s.insert(place_pos(s, e), e)
}

/// The largest id of a non-empty table.
pub open spec fn max_id(s: Seq<EntryView>) -> i64
    decreases s.len(),
{
    if s.len() <= 1 {
        s[0].id
    } else {
        let m = max_id(s.drop_last());
        if s.last().id > m {
            s.last().id
        } else {
            m
        }
    }
}

/// The id that a new row receives: one more than the largest, or 1.
pub open spec fn next_id(s: Seq<EntryView>) -> int {
    if s.len() == 0 {
        1
    } else {
        max_id(s) + 1
    }
}

/// No id above the largest one is left for a new row.
pub open spec fn ids_exhausted(s: Seq<EntryView>) -> bool {
    s.len() > 0 && max_id(s) == i64::MAX
}

/// Some row carries the content hash `h`.
pub open spec fn has_hash(s: Seq<EntryView>, h: Seq<char>) -> bool {
    exists|i: int| 0 <= i < s.len() && #[trigger] s[i].content_hash == h
}

/// The position of the row that carries the content hash `h`.
pub open spec fn hash_pos(s: Seq<EntryView>, h: Seq<char>) -> int {
    choose|i: int| 0 <= i < s.len() && #[trigger] s[i].content_hash == h
}

/// The row written for content that the table does not hold yet.
pub open spec fn fresh_entry(
    s: Seq<EntryView>,
    content: Seq<u8>,
    thumbnail: Option<Seq<u8>>,
    entry_type: Seq<char>,
    timestamp: Seq<char>,
) -> EntryView {
    EntryView {
        id: next_id(s) as i64,
        content,
        thumbnail,
        entry_type,
        content_hash: entry_hash(content, entry_type),
        timestamp,
        pinned: false,
    }
}

/// Writing an entry: a row with the same content hash only gets the new
/// timestamp (and moves accordingly); otherwise a new unpinned row is added.
pub open spec fn upsert(
    s: Seq<EntryView>,
    content: Seq<u8>,
    thumbnail: Option<Seq<u8>>,
    entry_type: Seq<char>,
    timestamp: Seq<char>,
) -> Seq<EntryView> {
    let h = entry_hash(content, entry_type);
    if has_hash(s, h) {
        let i = hash_pos(s, h);
        place(s.remove(i), EntryView { timestamp, ..s[i] })
    } else {
        place(s, fresh_entry(s, content, thumbnail, entry_type, timestamp))
    }
}

/// Pinned rows.
pub open spec fn pinned_pred() -> spec_fn(EntryView) -> bool {
    |e: EntryView| e.pinned
}

/// Rows with an id other than `id`.
pub open spec fn other_id_pred(id: i64) -> spec_fn(EntryView) -> bool {
    |e: EntryView| e.id != id
}

/// Rows listed under a search.
pub open spec fn search_pred(search: Option<Seq<char>>) -> spec_fn(EntryView) -> bool {
    |e: EntryView| entry_matches(e.content, search)
}

/// Cleanup: the most recent `HISTORY_LIMIT` rows stay, and of the others only
/// the pinned ones.
pub open spec fn cleanup(s: Seq<EntryView>) -> Seq<EntryView> {
    if s.len() <= HISTORY_LIMIT {
        s
    } else {
        s.take(HISTORY_LIMIT as int) + s.skip(HISTORY_LIMIT as int).filter(pinned_pred())
    }
}

/// Adding an entry: the write, then cleanup.
pub open spec fn record(
    s: Seq<EntryView>,
    content: Seq<u8>,
    thumbnail: Option<Seq<u8>>,
    entry_type: Seq<char>,
    timestamp: Seq<char>,
) -> Seq<EntryView> {
    cleanup(upsert(s, content, thumbnail, entry_type, timestamp))
}

/// Adding fails exactly when a new row is needed and no id is left for it.
pub open spec fn record_fails(s: Seq<EntryView>, content: Seq<u8>, entry_type: Seq<char>) -> bool {
    !has_hash(s, entry_hash(content, entry_type)) && ids_exhausted(s)
}

/// Clearing the history: only pinned rows stay.
pub open spec fn clear(s: Seq<EntryView>) -> Seq<EntryView> {
    s.filter(pinned_pred())
}

/// Deleting by id.
pub open spec fn remove_id(s: Seq<EntryView>, id: i64) -> Seq<EntryView> {
    s.filter(other_id_pred(id))
}

/// The row with its pin flipped.
pub open spec fn flip_pin(e: EntryView) -> EntryView {
    EntryView { pinned: !e.pinned, ..e }
}

/// The row, with its pin flipped if it has the given id.
pub open spec fn toggle_one(e: EntryView, id: i64) -> EntryView {
    if e.id == id {
        flip_pin(e)
    } else {
        e
    }
}

/// Toggling the pin of the row with the given id.
pub open spec fn toggle(s: Seq<EntryView>, id: i64) -> Seq<EntryView> {
    s.map_values(|e: EntryView| toggle_one(e, id))
}

/// The rows that a listing with the given search text considers.
pub open spec fn matching(s: Seq<EntryView>, search: Option<Seq<char>>) -> Seq<EntryView> {
    s.filter(search_pred(search))
}

/// A history listing: the matching rows, newest first, at most
/// `HISTORY_LIMIT` of them.
pub open spec fn history(s: Seq<EntryView>, search: Option<Seq<char>>) -> Seq<EntryView> {
    let m = matching(s, search);
    if m.len() <= HISTORY_LIMIT {
        m
    } else {
        m.take(HISTORY_LIMIT as int)
    }
}

// ---------------------------------------------------------------------------
// The byte order
// ---------------------------------------------------------------------------

pub proof fn lemma_lex_irreflexive(a: Seq<u8>, i: int)
    ensures
        !lex_lt_from(a, a, i),
    decreases a.len() - i,
{
    if 0 <= i < a.len() {
        lemma_lex_irreflexive(a, i + 1);
    }
}

pub proof fn lemma_lex_asymmetric(a: Seq<u8>, b: Seq<u8>, i: int)
    requires
        lex_lt_from(a, b, i),
    ensures
        !lex_lt_from(b, a, i),
    decreases b.len() - i,
{
    if 0 <= i < a.len() && i < b.len() && a[i] == b[i] {
        lemma_lex_asymmetric(a, b, i + 1);
    }
}

pub proof fn lemma_lex_transitive(a: Seq<u8>, b: Seq<u8>, c: Seq<u8>, i: int)
    requires
        lex_lt_from(a, b, i),
        lex_lt_from(b, c, i),
    ensures
        lex_lt_from(a, c, i),
    decreases c.len() - i,
{
    if 0 <= i < a.len() && a[i] == b[i] && b[i] == c[i] {
        lemma_lex_transitive(a, b, c, i + 1);
    }
}

pub proof fn lemma_lex_total(a: Seq<u8>, b: Seq<u8>, i: int)
    requires
        0 <= i <= a.len(),
        i <= b.len(),
        forall|k: int| 0 <= k < i ==> a[k] == b[k],
    ensures
        a == b || lex_lt_from(a, b, i) || lex_lt_from(b, a, i),
    decreases a.len() - i,
{
    if i == a.len() && i == b.len() {
        assert(a =~= b);
    } else if i < a.len() && i < b.len() && a[i] == b[i] {
        lemma_lex_total(a, b, i + 1);
    }
}

/// `newer` is a strict order that leaves equal timestamps incomparable.
pub proof fn lemma_newer_facts()
    ensures
        forall|a: EntryView| !newer(a, a),
        forall|a: EntryView, b: EntryView| newer(a, b) ==> !newer(b, a),
        forall|a: EntryView, b: EntryView, c: EntryView|
            #[trigger] newer(a, b) && #[trigger] newer(b, c) ==> newer(a, c),
        forall|a: EntryView, b: EntryView|
            !newer(a, b) && !newer(b, a) ==> #[trigger] ts_key(a) == #[trigger] ts_key(b),
{
    assert forall|a: EntryView| !newer(a, a) by {
        lemma_lex_irreflexive(ts_key(a), 0);
    }
    assert forall|a: EntryView, b: EntryView| newer(a, b) implies !newer(b, a) by {
        lemma_lex_asymmetric(ts_key(b), ts_key(a), 0);
    }
    assert forall|a: EntryView, b: EntryView, c: EntryView|
        #[trigger] newer(a, b) && #[trigger] newer(b, c) implies newer(a, c) by {
        lemma_lex_transitive(ts_key(c), ts_key(b), ts_key(a), 0);
    }
    assert forall|a: EntryView, b: EntryView|
        !newer(a, b) && !newer(b, a) implies #[trigger] ts_key(a) == #[trigger] ts_key(b) by {
        lemma_lex_total(ts_key(a), ts_key(b), 0);
    }
}

/// If `b` is not newer than `a`, and `c` not newer than `b`, then `c` is not
/// newer than `a`.
pub proof fn lemma_not_newer_transitive(a: EntryView, b: EntryView, c: EntryView)
    requires
        !newer(b, a),
        !newer(c, b),
    ensures
        !newer(c, a),
{
    lemma_newer_facts();
    if newer(c, a) {
        if newer(a, b) {
            assert(newer(c, b));
        } else {
            assert(ts_key(a) == ts_key(b));
            assert(newer(c, b));
        }
    }
}

// ---------------------------------------------------------------------------
// Placement
// ---------------------------------------------------------------------------

/// `place_pos` is the length of the prefix of rows newer than `e`.
pub proof fn lemma_place_pos(s: Seq<EntryView>, e: EntryView, p: int)
    requires
        0 <= p <= s.len(),
        forall|j: int| 0 <= j < p ==> newer(#[trigger] s[j], e),
        p == s.len() || !newer(s[p], e),
    ensures
        place_pos(s, e) == p,
    decreases s.len(),
{
    if s.len() > 0 && p > 0 {
        assert(newer(s[0], e));
        let t = s.drop_first();
        assert forall|j: int| 0 <= j < p - 1 implies newer(#[trigger] t[j], e) by {
            assert(t[j] == s[j + 1]);
        }
        lemma_place_pos(t, e, p - 1);
    }
}

/// In a well-formed table, the rows newer than `e` are exactly those before
/// `place_pos`.
pub proof fn lemma_place_pos_split(s: Seq<EntryView>, e: EntryView)
    requires
        table_wf(s),
    ensures
        0 <= place_pos(s, e) <= s.len(),
        forall|j: int| 0 <= j < place_pos(s, e) ==> newer(#[trigger] s[j], e),
        forall|j: int| place_pos(s, e) <= j < s.len() ==> !newer(#[trigger] s[j], e),
    decreases s.len(),
{
    if s.len() > 0 {
        if newer(s[0], e) {
            let t = s.drop_first();
            assert(table_wf(t)) by {
                assert forall|i: int, j: int| 0 <= i < j < t.len() implies ordered_pair(
                    #[trigger] t[i],
                    #[trigger] t[j],
                ) by {
                    assert(t[i] == s[i + 1] && t[j] == s[j + 1]);
                }
            }
            lemma_place_pos_split(t, e);
            assert forall|j: int| 0 <= j < place_pos(s, e) implies newer(#[trigger] s[j], e) by {
                if j > 0 {
                    assert(s[j] == t[j - 1]);
                }
            }
            assert forall|j: int| place_pos(s, e) <= j < s.len() implies !newer(#[trigger] s[j], e) by {
                assert(s[j] == t[j - 1]);
            }
        } else {
            assert forall|j: int| 0 <= j < s.len() implies !newer(#[trigger] s[j], e) by {
                if j > 0 {
                    assert(ordered_pair(s[0], s[j]));
                    lemma_not_newer_transitive(e, s[0], s[j]);
                }
            }
        }
    }
}

/// Placing a row that differs in id and hash from every row keeps the table
/// well formed.
pub proof fn lemma_place_wf(s: Seq<EntryView>, e: EntryView)
    requires
        table_wf(s),
        forall|j: int| 0 <= j < s.len() ==> (#[trigger] s[j]).id != e.id && s[j].content_hash != e.content_hash,
    ensures
        table_wf(place(s, e)),
        place(s, e).len() == s.len() + 1,
        place(s, e)[place_pos(s, e)] == e,
{
    lemma_place_pos_split(s, e);
    lemma_newer_facts();
    let p = place_pos(s, e);
    let r = place(s, e);
    assert forall|i: int, j: int| 0 <= i < j < r.len() implies ordered_pair(
        #[trigger] r[i],
        #[trigger] r[j],
    ) by {
        if i < p && j < p {
            assert(r[i] == s[i] && r[j] == s[j]);
        } else if i < p && j == p {
            assert(r[i] == s[i]);
        } else if i < p {
            assert(r[i] == s[i] && r[j] == s[j - 1]);
        } else if i == p {
            assert(r[j] == s[j - 1]);
        } else {
            assert(r[i] == s[i - 1] && r[j] == s[j - 1]);
        }
    }
}

// ---------------------------------------------------------------------------
// Sub-sequences keep the invariant
// ---------------------------------------------------------------------------

/// A filtered table is well formed when the table is.
pub proof fn lemma_filter_wf(s: Seq<EntryView>, p: spec_fn(EntryView) -> bool)
    requires
        table_wf(s),
    ensures
        table_wf(s.filter(p)),
        forall|k: int| 0 <= k < s.filter(p).len() ==> s.contains(#[trigger] s.filter(p)[k]),
    decreases s.len(),
{
    reveal_with_fuel(Seq::filter, 1);
    if s.len() > 0 {
        let t = s.drop_last();
        assert(table_wf(t)) by {
            assert forall|i: int, j: int| 0 <= i < j < t.len() implies ordered_pair(
                #[trigger] t[i],
                #[trigger] t[j],
            ) by {
                assert(t[i] == s[i] && t[j] == s[j]);
            }
        }
        lemma_filter_wf(t, p);
        let f = t.filter(p);
        assert forall|k: int| 0 <= k < f.len() implies exists|m: int|
            0 <= m < t.len() && t[m] == #[trigger] f[k] by {
            assert(t.contains(f[k]));
        }
        if p(s.last()) {
            let g = f.push(s.last());
            assert(s.filter(p) == g);
            assert forall|i: int, j: int| 0 <= i < j < g.len() implies ordered_pair(
                #[trigger] g[i],
                #[trigger] g[j],
            ) by {
                if j == g.len() - 1 {
                    let m = choose|m: int| 0 <= m < t.len() && t[m] == f[i];
                    assert(s[m] == t[m]);
                    assert(ordered_pair(s[m], s[s.len() - 1]));
                } else {
                    assert(g[i] == f[i] && g[j] == f[j]);
                }
            }
            assert forall|k: int| 0 <= k < g.len() implies s.contains(#[trigger] g[k]) by {
                if k == g.len() - 1 {
                    assert(s[s.len() - 1] == g[k]);
                } else {
                    let m = choose|m: int| 0 <= m < t.len() && t[m] == f[k];
                    assert(s[m] == g[k]);
                }
            }
        } else {
            assert forall|k: int| 0 <= k < f.len() implies s.contains(#[trigger] f[k]) by {
                let m = choose|m: int| 0 <= m < t.len() && t[m] == f[k];
                assert(s[m] == f[k]);
            }
        }
    }
}

/// Cleanup keeps the table well formed.
pub proof fn lemma_cleanup_wf(s: Seq<EntryView>)
    requires
        table_wf(s),
    ensures
        table_wf(cleanup(s)),
{
    if s.len() > HISTORY_LIMIT {
        let n = HISTORY_LIMIT as int;
        let a = s.take(n);
        let b = s.skip(n);
        let p = pinned_pred();
        assert(table_wf(b)) by {
            assert forall|i: int, j: int| 0 <= i < j < b.len() implies ordered_pair(
                #[trigger] b[i],
                #[trigger] b[j],
            ) by {
                assert(b[i] == s[i + n] && b[j] == s[j + n]);
            }
        }
        lemma_filter_wf(b, p);
        let f = b.filter(p);
        let r = a + f;
        assert forall|i: int, j: int| 0 <= i < j < r.len() implies ordered_pair(
            #[trigger] r[i],
            #[trigger] r[j],
        ) by {
            if j < n {
                assert(r[i] == s[i] && r[j] == s[j]);
            } else if i < n {
                assert(b.contains(f[j - n]));
                let m = choose|m: int| 0 <= m < b.len() && b[m] == f[j - n];
                assert(r[i] == s[i] && r[j] == s[m + n]);
            } else {
                assert(r[i] == f[i - n] && r[j] == f[j - n]);
            }
        }
    }
}

/// Every id is at most the largest one.
pub proof fn lemma_max_id(s: Seq<EntryView>)
    requires
        s.len() > 0,
    ensures
        forall|j: int| 0 <= j < s.len() ==> (#[trigger] s[j]).id <= max_id(s),
        exists|j: int| 0 <= j < s.len() && (#[trigger] s[j]).id == max_id(s),
    decreases s.len(),
{
    if s.len() > 1 {
        let t = s.drop_last();
        lemma_max_id(t);
        assert forall|j: int| 0 <= j < s.len() implies (#[trigger] s[j]).id <= max_id(s) by {
            if j < s.len() - 1 {
                assert(s[j] == t[j]);
            }
        }
        if s.last().id > max_id(t) {
            assert(s[s.len() - 1].id == max_id(s));
        } else {
            let k = choose|k: int| 0 <= k < t.len() && (#[trigger] t[k]).id == max_id(t);
            assert(s[k] == t[k]);
        }
    } else {
        assert(s[0].id == max_id(s));
    }
}

} // verus!
