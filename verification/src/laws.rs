//! What holds of the history store across its operations.

use vstd::prelude::*;
use vstd::utf8::{decode_utf8, encode_utf8, valid_utf8};
use crate::daemon::{admits, first_with_hash, mark_after, text_type};
use crate::database::load;
use crate::hashing::entry_hash;
use crate::like::{
    entry_matches, lemma_like_ignores_ascii_case, lemma_search_pattern_twins, like_from, search_pattern,
    search_too_long, sql_text, texts_twins,
};
use crate::model::{
    bytes_lt, carries_hashes, cleanup, clear, flip_pin, fresh_entry, has_hash, hash_pos, history, ids_exhausted,
    lemma_cleanup_wf, lemma_filter_wf, lemma_max_id, lemma_place_pos_split, lemma_place_wf, matching, newer,
    ordered_pair, other_id_pred, pinned_pred, place_pos, record, record_fails, remove_id,
    search_pred, table_wf, toggle, toggle_one, ts_key, upsert, EntryView, HISTORY_LIMIT,
};

verus! {

broadcast use {
    Seq::lemma_filter_len,
    Seq::lemma_filter_pred,
    Seq::lemma_filter_contains,
    Seq::lemma_filter_contains_rev,
};

/// Every row of the cleaned-up table comes from the table, and cleanup only
/// removes rows.
proof fn lemma_cleanup_rows(s: Seq<EntryView>)
    ensures
        cleanup(s).len() <= s.len(),
        forall|k: int| 0 <= k < cleanup(s).len() ==> s.contains(#[trigger] cleanup(s)[k]),
        forall|k: int|
            0 <= k < s.len() && k < HISTORY_LIMIT ==> #[trigger] cleanup(s)[k] == s[k],
        forall|e: EntryView| s.contains(e) && e.pinned ==> #[trigger] cleanup(s).contains(e),
{
    if s.len() > HISTORY_LIMIT {
        let n = HISTORY_LIMIT as int;
        let a = s.take(n);
        let b = s.skip(n);
        let f = b.filter(pinned_pred());
        assert forall|k: int| 0 <= k < cleanup(s).len() implies s.contains(#[trigger] cleanup(s)[k]) by {
            if k < n {
                assert(s[k] == cleanup(s)[k]);
            } else {
                assert(f[k - n] == cleanup(s)[k]);
                assert(f.contains(f[k - n]));
                let m = choose|m: int| 0 <= m < b.len() && b[m] == f[k - n];
                assert(s[m + n] == cleanup(s)[k]);
            }
        }
        assert forall|e: EntryView| s.contains(e) && e.pinned implies #[trigger] cleanup(s).contains(e) by {
            let m = choose|m: int| 0 <= m < s.len() && s[m] == e;
            if m < n {
                assert(cleanup(s)[m] == e);
            } else {
                assert(b[m - n] == e);
                assert(f.contains(e));
                let q = choose|q: int| 0 <= q < f.len() && f[q] == e;
                assert(cleanup(s)[q + n] == e);
            }
        }
    }
}

/// The rows of the written table are those of the table, except the one
/// with the written hash, which is the written row.
proof fn lemma_upsert_rows(
    s: Seq<EntryView>,
    content: Seq<u8>,
    thumbnail: Option<Seq<u8>>,
    entry_type: Seq<char>,
    timestamp: Seq<char>,
)
    requires
        table_wf(s),
        !record_fails(s, content, entry_type),
    ensures
        ({
            let h = entry_hash(content, entry_type);
            let u = upsert(s, content, thumbnail, entry_type, timestamp);
            let w = if has_hash(s, h) {
                EntryView { timestamp, ..s[hash_pos(s, h)] }
            } else {
                fresh_entry(s, content, thumbnail, entry_type, timestamp)
            };
            &&& u.contains(w)
            &&& forall|e: EntryView| s.contains(e) && e.content_hash != h ==> #[trigger] u.contains(e)
            &&& forall|e: EntryView| #[trigger] u.contains(e) ==> e == w || (s.contains(e) && e.content_hash != h)
            &&& u.len() == if has_hash(s, h) { s.len() } else { s.len() + 1 }
            &&& u[place_pos(if has_hash(s, h) { s.remove(hash_pos(s, h)) } else { s }, w)] == w
            &&& w.content_hash == h
            &&& w.timestamp == timestamp
        }),
{
    let h = entry_hash(content, entry_type);
    let u = upsert(s, content, thumbnail, entry_type, timestamp);
    let (t, w) = if has_hash(s, h) {
        (s.remove(hash_pos(s, h)), EntryView { timestamp, ..s[hash_pos(s, h)] })
    } else {
        (s, fresh_entry(s, content, thumbnail, entry_type, timestamp))
    };
    assert(table_wf(t)) by {
        if has_hash(s, h) {
            let i = hash_pos(s, h);
            assert forall|a: int, b: int| 0 <= a < b < t.len() implies ordered_pair(
                #[trigger] t[a],
                #[trigger] t[b],
            ) by {
                let a2 = if a < i {
                    a
                } else {
                    a + 1
                };
                let b2 = if b < i {
                    b
                } else {
                    b + 1
                };
                assert(t[a] == s[a2] && t[b] == s[b2]);
            }
        }
    }
    lemma_place_pos_split(t, w);
    let p = place_pos(t, w);
    assert(u == t.insert(p, w));
    assert(u[p] == w);
    assert forall|e: EntryView| s.contains(e) && e.content_hash != h implies #[trigger] u.contains(e) by {
        let m = choose|m: int| 0 <= m < s.len() && s[m] == e;
        let m2 = if has_hash(s, h) {
            let i = hash_pos(s, h);
            if m < i {
                m
            } else {
                assert(m != i);
                m - 1
            }
        } else {
            m
        };
        assert(t[m2] == e);
        if m2 < p {
            assert(u[m2] == e);
        } else {
            assert(u[m2 + 1] == e);
        }
    }
    assert forall|e: EntryView| #[trigger] u.contains(e) implies e == w || (s.contains(e)
        && e.content_hash != h) by {
        let m = choose|m: int| 0 <= m < u.len() && u[m] == e;
        if m != p {
            let m2 = if m < p {
                m
            } else {
                m - 1
            };
            assert(t[m2] == e);
            if has_hash(s, h) {
                let i = hash_pos(s, h);
                let m3 = if m2 < i {
                    m2
                } else {
                    m2 + 1
                };
                assert(s[m3] == e);
                if m3 < i {
                    assert(ordered_pair(s[m3], s[i]));
                } else {
                    assert(ordered_pair(s[i], s[m3]));
                }
            } else {
                assert(s[m2] == e);
            }
        }
    }
}

/// Writing an entry keeps the table well formed (when it does not fail).
proof fn lemma_upsert_wf(
    s: Seq<EntryView>,
    content: Seq<u8>,
    thumbnail: Option<Seq<u8>>,
    entry_type: Seq<char>,
    timestamp: Seq<char>,
)
    requires
        table_wf(s),
        !record_fails(s, content, entry_type),
    ensures
        table_wf(upsert(s, content, thumbnail, entry_type, timestamp)),
{
    let h = entry_hash(content, entry_type);
    if has_hash(s, h) {
        let i = hash_pos(s, h);
        let t = s.remove(i);
        let e = EntryView { timestamp, ..s[i] };
        assert(table_wf(t)) by {
            assert forall|a: int, b: int| 0 <= a < b < t.len() implies ordered_pair(
                #[trigger] t[a],
                #[trigger] t[b],
            ) by {
                let a2 = if a < i { a } else { a + 1 };
                let b2 = if b < i { b } else { b + 1 };
                assert(t[a] == s[a2] && t[b] == s[b2]);
            }
        }
        assert forall|j: int| 0 <= j < t.len() implies (#[trigger] t[j]).id != e.id
            && t[j].content_hash != e.content_hash by {
            let j2 = if j < i { j } else { j + 1 };
            assert(t[j] == s[j2]);
            if j2 < i {
                assert(ordered_pair(s[j2], s[i]));
            } else {
                assert(ordered_pair(s[i], s[j2]));
            }
        }
        lemma_place_wf(t, e);
    } else {
        let e = fresh_entry(s, content, thumbnail, entry_type, timestamp);
        if s.len() > 0 {
            lemma_max_id(s);
        }
        assert forall|j: int| 0 <= j < s.len() implies (#[trigger] s[j]).id != e.id
            && s[j].content_hash != e.content_hash by {}
        lemma_place_wf(s, e);
    }
}

/// Recording keeps the table well formed: newest first, ids and content
/// hashes unique.
pub proof fn law_record_keeps_table_wf(
    s: Seq<EntryView>,
    content: Seq<u8>,
    thumbnail: Option<Seq<u8>>,
    entry_type: Seq<char>,
    timestamp: Seq<char>,
)
    requires
        table_wf(s),
        !record_fails(s, content, entry_type),
    ensures
        table_wf(record(s, content, thumbnail, entry_type, timestamp)),
{
    lemma_upsert_wf(s, content, thumbnail, entry_type, timestamp);
    lemma_cleanup_wf(upsert(s, content, thumbnail, entry_type, timestamp));
}

/// Recording content that the history already holds adds no row: the row
/// that holds it keeps its id, content, thumbnail, type and pin and only
/// takes the new timestamp.
pub proof fn law_record_existing_adds_no_row(
    s: Seq<EntryView>,
    content: Seq<u8>,
    thumbnail: Option<Seq<u8>>,
    entry_type: Seq<char>,
    timestamp: Seq<char>,
)
    requires
        table_wf(s),
        has_hash(s, entry_hash(content, entry_type)),
    ensures
        !record_fails(s, content, entry_type),
        record(s, content, thumbnail, entry_type, timestamp).len() <= s.len(),
        forall|k: int|
            0 <= k < record(s, content, thumbnail, entry_type, timestamp).len() && (#[trigger] record(
                s,
                content,
                thumbnail,
                entry_type,
                timestamp,
            )[k]).content_hash == entry_hash(content, entry_type) ==> record(
                s,
                content,
                thumbnail,
                entry_type,
                timestamp,
            )[k] == (EntryView {
                timestamp,
                ..s[hash_pos(s, entry_hash(content, entry_type))]
            }),
{
    let u = upsert(s, content, thumbnail, entry_type, timestamp);
    lemma_upsert_rows(s, content, thumbnail, entry_type, timestamp);
    lemma_cleanup_rows(u);
    let r = record(s, content, thumbnail, entry_type, timestamp);
    assert forall|k: int|
        0 <= k < r.len() && (#[trigger] r[k]).content_hash == entry_hash(content, entry_type)
        implies r[k] == (EntryView { timestamp, ..s[hash_pos(s, entry_hash(content, entry_type))] }) by {
        assert(u.contains(r[k]));
    }
}

/// Recording new content adds one unpinned row that carries the content's
/// hash and an id above every id in the history.
pub proof fn law_record_new_content(
    s: Seq<EntryView>,
    content: Seq<u8>,
    thumbnail: Option<Seq<u8>>,
    entry_type: Seq<char>,
    timestamp: Seq<char>,
)
    requires
        table_wf(s),
        !has_hash(s, entry_hash(content, entry_type)),
        !ids_exhausted(s),
    ensures
        upsert(s, content, thumbnail, entry_type, timestamp).len() == s.len() + 1,
        upsert(s, content, thumbnail, entry_type, timestamp).contains(
            fresh_entry(s, content, thumbnail, entry_type, timestamp),
        ),
        fresh_entry(s, content, thumbnail, entry_type, timestamp).content_hash == entry_hash(
            content,
            entry_type,
        ),
        !fresh_entry(s, content, thumbnail, entry_type, timestamp).pinned,
        forall|j: int|
            0 <= j < s.len() ==> (#[trigger] s[j]).id < fresh_entry(
                s,
                content,
                thumbnail,
                entry_type,
                timestamp,
            ).id,
{
    lemma_upsert_rows(s, content, thumbnail, entry_type, timestamp);
    if s.len() > 0 {
        lemma_max_id(s);
    }
}

/// An entry recorded with a timestamp that no stored timestamp exceeds is
/// the first row of the table and the first entry of the history listing.
pub proof fn law_record_newest_on_top(
    s: Seq<EntryView>,
    content: Seq<u8>,
    thumbnail: Option<Seq<u8>>,
    entry_type: Seq<char>,
    timestamp: Seq<char>,
)
    requires
        table_wf(s),
        !record_fails(s, content, entry_type),
        forall|j: int| 0 <= j < s.len() ==> !bytes_lt(encode_utf8(timestamp), ts_key(#[trigger] s[j])),
    ensures
        record(s, content, thumbnail, entry_type, timestamp).len() > 0,
        record(s, content, thumbnail, entry_type, timestamp)[0].content_hash == entry_hash(
            content,
            entry_type,
        ),
        record(s, content, thumbnail, entry_type, timestamp)[0].timestamp == timestamp,
        record(s, content, thumbnail, entry_type, timestamp)[0] == if has_hash(
            s,
            entry_hash(content, entry_type),
        ) {
            EntryView { timestamp, ..s[hash_pos(s, entry_hash(content, entry_type))] }
        } else {
            fresh_entry(s, content, thumbnail, entry_type, timestamp)
        },
        history(record(s, content, thumbnail, entry_type, timestamp), None)[0] == record(
            s,
            content,
            thumbnail,
            entry_type,
            timestamp,
        )[0],
{
    let h = entry_hash(content, entry_type);
    let u = upsert(s, content, thumbnail, entry_type, timestamp);
    lemma_upsert_rows(s, content, thumbnail, entry_type, timestamp);
    let t = if has_hash(s, h) {
        s.remove(hash_pos(s, h))
    } else {
        s
    };
    let w = if has_hash(s, h) {
        EntryView { timestamp, ..s[hash_pos(s, h)] }
    } else {
        fresh_entry(s, content, thumbnail, entry_type, timestamp)
    };
    assert(place_pos(t, w) == 0) by {
        if t.len() > 0 {
            if has_hash(s, h) {
                let i = hash_pos(s, h);
                if i == 0 {
                    assert(t[0] == s[1]);
                } else {
                    assert(t[0] == s[0]);
                }
            } else {
                assert(t[0] == s[0]);
            }
            assert(!newer(t[0], w));
        }
    }
    assert(u[0] == w);
    lemma_cleanup_rows(u);
    let r = record(s, content, thumbnail, entry_type, timestamp);
    assert(r[0] == w);
    law_listing_without_search(r);
}

/// Without a search text, the listing is the table's first
/// `HISTORY_LIMIT` rows.
pub proof fn law_listing_without_search(s: Seq<EntryView>)
    ensures
        matching(s, None) == s,
        history(s, None) == if s.len() <= HISTORY_LIMIT {
            s
        } else {
            s.take(HISTORY_LIMIT as int)
        },
    decreases s.len(),
{
    reveal_with_fuel(Seq::filter, 1);
    if s.len() > 0 {
        law_listing_without_search(s.drop_last());
        assert(s.drop_last().push(s.last()) =~= s);
    }
}

/// Recording, cleanup and clearing never remove a pinned row (recording
/// rewrites only the row that holds the recorded content).
pub proof fn law_pinned_rows_survive(
    s: Seq<EntryView>,
    content: Seq<u8>,
    thumbnail: Option<Seq<u8>>,
    entry_type: Seq<char>,
    timestamp: Seq<char>,
)
    requires
        table_wf(s),
        !record_fails(s, content, entry_type),
    ensures
        forall|e: EntryView|
            s.contains(e) && e.pinned && e.content_hash != entry_hash(content, entry_type)
                ==> #[trigger] record(s, content, thumbnail, entry_type, timestamp).contains(e),
        forall|e: EntryView| s.contains(e) && e.pinned ==> #[trigger] cleanup(s).contains(e),
        forall|e: EntryView| s.contains(e) && e.pinned ==> #[trigger] clear(s).contains(e),
{
    let u = upsert(s, content, thumbnail, entry_type, timestamp);
    lemma_upsert_rows(s, content, thumbnail, entry_type, timestamp);
    lemma_cleanup_rows(u);
    lemma_cleanup_rows(s);
    assert forall|e: EntryView| s.contains(e) && e.pinned implies #[trigger] clear(s).contains(e) by {
        let m = choose|m: int| 0 <= m < s.len() && s[m] == e;
        assert(pinned_pred()(s[m]));
    }
}

/// After a cleanup, and so after every recording, every row beyond the
/// first `HISTORY_LIMIT` is pinned: at most `HISTORY_LIMIT` unpinned rows
/// remain.
pub proof fn law_cleanup_bounds_unpinned(s: Seq<EntryView>)
    ensures
        forall|k: int|
            HISTORY_LIMIT <= k < cleanup(s).len() ==> (#[trigger] cleanup(s)[k]).pinned,
{
    if s.len() > HISTORY_LIMIT {
        let n = HISTORY_LIMIT as int;
        let f = s.skip(n).filter(pinned_pred());
        assert forall|k: int| HISTORY_LIMIT <= k < cleanup(s).len() implies (#[trigger] cleanup(
            s,
        )[k]).pinned by {
            assert(cleanup(s)[k] == f[k - n]);
            assert(pinned_pred()(f[k - n]));
        }
    }
}

/// A listing holds at most `HISTORY_LIMIT` entries, newest first, each of
/// them a row of the table that matches the search.
pub proof fn law_history_bounded_and_ordered(s: Seq<EntryView>, search: Option<Seq<char>>)
    requires
        table_wf(s),
    ensures
        history(s, search).len() <= HISTORY_LIMIT,
        table_wf(history(s, search)),
        forall|k: int|
            0 <= k < history(s, search).len() ==> s.contains(#[trigger] history(s, search)[k])
                && entry_matches(history(s, search)[k].content, search),
{
    let m = matching(s, search);
    lemma_filter_wf(s, search_pred(search));
    assert forall|k: int| 0 <= k < history(s, search).len() implies s.contains(
        #[trigger] history(s, search)[k],
    ) && entry_matches(history(s, search)[k].content, search) by {
        assert(history(s, search)[k] == m[k]);
        assert(search_pred(search)(m[k]));
    }
}

/// Toggling the same pin twice restores the table.
pub proof fn law_toggle_twice_restores(s: Seq<EntryView>, id: i64)
    ensures
        toggle(toggle(s, id), id) == s,
{
    assert forall|k: int| 0 <= k < s.len() implies #[trigger] toggle(toggle(s, id), id)[k] == s[k] by {
        assert(toggle(s, id)[k] == toggle_one(s[k], id));
        assert(flip_pin(flip_pin(s[k])) == s[k]);
    }
    assert(toggle(toggle(s, id), id) =~= s);
}

/// Toggling flips the pin of the row with the id and changes nothing else.
pub proof fn law_toggle_flips_only_that_row(s: Seq<EntryView>, id: i64)
    ensures
        toggle(s, id).len() == s.len(),
        forall|k: int|
            0 <= k < s.len() ==> (#[trigger] toggle(s, id)[k]) == if s[k].id == id {
                EntryView { pinned: !s[k].pinned, ..s[k] }
            } else {
                s[k]
            },
{
}

/// After deleting an id no row carries it, and every row with another id
/// is still there.
pub proof fn law_delete_removes_only_that_id(s: Seq<EntryView>, id: i64)
    ensures
        forall|k: int| 0 <= k < remove_id(s, id).len() ==> (#[trigger] remove_id(s, id)[k]).id != id,
        forall|e: EntryView| s.contains(e) && e.id != id ==> #[trigger] remove_id(s, id).contains(e),
{
    assert forall|k: int| 0 <= k < remove_id(s, id).len() implies (#[trigger] remove_id(
        s,
        id,
    )[k]).id != id by {
        assert(other_id_pred(id)(remove_id(s, id)[k]));
    }
    assert forall|e: EntryView| s.contains(e) && e.id != id implies #[trigger] remove_id(
        s,
        id,
    ).contains(e) by {
        let m = choose|m: int| 0 <= m < s.len() && s[m] == e;
        assert(other_id_pred(id)(s[m]));
    }
}

/// Clearing leaves exactly the pinned rows, in their order.
pub proof fn law_clear_leaves_pinned(s: Seq<EntryView>)
    ensures
        forall|k: int| 0 <= k < clear(s).len() ==> (#[trigger] clear(s)[k]).pinned,
        forall|e: EntryView| s.contains(e) && e.pinned ==> #[trigger] clear(s).contains(e),
        forall|e: EntryView| #[trigger] clear(s).contains(e) ==> s.contains(e),
{
    assert forall|k: int| 0 <= k < clear(s).len() implies (#[trigger] clear(s)[k]).pinned by {
        assert(pinned_pred()(clear(s)[k]));
    }
    assert forall|e: EntryView| s.contains(e) && e.pinned implies #[trigger] clear(s).contains(e) by {
        let m = choose|m: int| 0 <= m < s.len() && s[m] == e;
        assert(pinned_pred()(s[m]));
    }
}

/// The pattern `%%` matches every text.
proof fn lemma_double_percent_matches(t: Seq<u32>, i: int)
    requires
        0 <= i <= t.len(),
    ensures
        like_from(t, seq![37u32, 37u32], i, 1),
        like_from(t, seq![37u32, 37u32], i, 0),
    decreases t.len() - i,
{
    let p = seq![37u32, 37u32];
    assert(p.len() == 2 && p[0] == 37 && p[1] == 37);
    if i < t.len() {
        lemma_double_percent_matches(t, i + 1);
        assert(like_from(t, p, i + 1, 1));
    } else {
        assert(like_from(t, p, i, 2));
    }
    assert(like_from(t, p, i, 1));
    assert(like_from(t, p, i, 0));
}

/// Searching for the empty text lists the same entries as no search.
pub proof fn law_empty_search_lists_all(s: Seq<EntryView>)
    ensures
        history(s, Some(Seq::<char>::empty())) == history(s, None),
{
    let pat = search_pattern(Seq::<char>::empty());
    assert(encode_utf8(Seq::<char>::empty()) =~= Seq::<u8>::empty()) by {
        reveal_with_fuel(encode_utf8, 1);
    }
    assert(pat =~= seq![37u8, 37u8]);
    assert(sql_text(pat) =~= seq![37u32, 37u32]) by {
        reveal_with_fuel(crate::like::nul_pos, 3);
        reveal_with_fuel(crate::like::decode_from, 3);
        assert(crate::like::text_part(pat) =~= pat);
    }
    assert(search_pred(Some(Seq::<char>::empty())) =~= search_pred(None)) by {
        assert forall|e: EntryView| #[trigger] search_pred(Some(Seq::<char>::empty()))(e) == search_pred(
            None,
        )(e) by {
            lemma_double_percent_matches(sql_text(e.content), 0);
        }
    }
}

/// Recording keeps every row carrying the hash of its content and type, so
/// that a row is found again by hashing its content and type.
pub proof fn law_record_carries_hashes(
    s: Seq<EntryView>,
    content: Seq<u8>,
    thumbnail: Option<Seq<u8>>,
    entry_type: Seq<char>,
    timestamp: Seq<char>,
)
    requires
        table_wf(s),
        carries_hashes(s),
        !record_fails(s, content, entry_type),
    ensures
        carries_hashes(upsert(s, content, thumbnail, entry_type, timestamp)),
        carries_hashes(record(s, content, thumbnail, entry_type, timestamp)),
{
    let u = upsert(s, content, thumbnail, entry_type, timestamp);
    lemma_upsert_rows(s, content, thumbnail, entry_type, timestamp);
    let h = entry_hash(content, entry_type);
    assert forall|k: int| 0 <= k < u.len() implies (#[trigger] u[k]).content_hash == entry_hash(
        u[k].content,
        u[k].entry_type,
    ) by {
        assert(u.contains(u[k]));
        if has_hash(s, h) {
            let i = hash_pos(s, h);
            assert(s[i].content_hash == h);
        }
    }
    law_edits_carry_hashes(u, 0);
}

/// Cleanup, clearing, deleting and pinning keep every row carrying the hash
/// of its content and type.
pub proof fn law_edits_carry_hashes(s: Seq<EntryView>, id: i64)
    requires
        carries_hashes(s),
    ensures
        carries_hashes(cleanup(s)),
        carries_hashes(clear(s)),
        carries_hashes(remove_id(s, id)),
        carries_hashes(toggle(s, id)),
{
    lemma_cleanup_rows(s);
    assert forall|k: int| 0 <= k < cleanup(s).len() implies (#[trigger] cleanup(s)[k]).content_hash
        == entry_hash(cleanup(s)[k].content, cleanup(s)[k].entry_type) by {
        assert(s.contains(cleanup(s)[k]));
    }
    assert forall|k: int| 0 <= k < clear(s).len() implies (#[trigger] clear(s)[k]).content_hash
        == entry_hash(clear(s)[k].content, clear(s)[k].entry_type) by {
        assert(clear(s).contains(clear(s)[k]));
    }
    assert forall|k: int| 0 <= k < remove_id(s, id).len() implies (#[trigger] remove_id(
        s,
        id,
    )[k]).content_hash == entry_hash(remove_id(s, id)[k].content, remove_id(s, id)[k].entry_type) by {
        assert(remove_id(s, id).contains(remove_id(s, id)[k]));
    }
}

/// Text that the watcher records with the newest timestamp, and that the
/// history did not hold, is the first listed entry with its hash, a text
/// entry whose content is the text's UTF-8 bytes: putting it back on the
/// clipboard gives the same text.
pub proof fn law_recorded_text_comes_back(s: Seq<EntryView>, text: Seq<char>, timestamp: Seq<char>)
    requires
        table_wf(s),
        !has_hash(s, entry_hash(encode_utf8(text), text_type())),
        !ids_exhausted(s),
        forall|j: int| 0 <= j < s.len() ==> !bytes_lt(encode_utf8(timestamp), ts_key(#[trigger] s[j])),
    ensures
        ({
            let hs = history(record(s, encode_utf8(text), None, text_type(), timestamp), None);
            &&& first_with_hash(hs, entry_hash(encode_utf8(text), text_type()), 0)
            &&& hs[0].entry_type == text_type()
            &&& valid_utf8(hs[0].content)
            &&& decode_utf8(hs[0].content) == text
        }),
{
    let r = record(s, encode_utf8(text), None, text_type(), timestamp);
    law_record_newest_on_top(s, encode_utf8(text), None, text_type(), timestamp);
    law_listing_without_search(r);
    let hs = history(r, None);
    assert(hs.len() > 0);
    assert(hs[0] == fresh_entry(s, encode_utf8(text), None, text_type(), timestamp));
    vstd::utf8::encode_utf8_valid_utf8(text);
    vstd::utf8::encode_utf8_decode_utf8(text);
}

/// Searches that differ only in the case of ASCII letters list the same
/// entries, and fail alike.
pub proof fn law_search_ignores_ascii_case(s: Seq<EntryView>, a: Seq<char>, b: Seq<char>)
    requires
        texts_twins(a, b),
    ensures
        history(s, Some(a)) == history(s, Some(b)),
        search_too_long(Some(a)) == search_too_long(Some(b)),
{
    lemma_search_pattern_twins(a, b);
    assert(search_pred(Some(a)) =~= search_pred(Some(b))) by {
        assert forall|e: EntryView| #[trigger] search_pred(Some(a))(e) == search_pred(Some(b))(e) by {
            lemma_like_ignores_ascii_case(e.content, search_pattern(a), search_pattern(b));
        }
    }
}

/// When the daemon puts a listed text entry whose content is valid UTF-8 on
/// the clipboard (marking its hash), the clipboard change that this causes
/// has that same hash: the watcher skips it, records nothing, and clears the
/// mark.
pub proof fn law_injected_text_is_skipped(s: Seq<EntryView>, h: Seq<char>, k: int)
    requires
        carries_hashes(s),
        first_with_hash(history(s, None), h, k),
        history(s, None)[k].entry_type == text_type(),
        valid_utf8(history(s, None)[k].content),
    ensures
        entry_hash(encode_utf8(decode_utf8(history(s, None)[k].content)), text_type()) == h,
        !admits(Some(h), entry_hash(encode_utf8(decode_utf8(history(s, None)[k].content)), text_type())),
        mark_after(
            Some(h),
            entry_hash(encode_utf8(decode_utf8(history(s, None)[k].content)), text_type()),
        ) is None,
{
    law_listing_without_search(s);
    let hs = history(s, None);
    assert(hs[k] == s[k]);
    vstd::utf8::decode_utf8_encode_utf8(hs[k].content);
}

proof fn lemma_place_pos_bound(s: Seq<EntryView>, e: EntryView)
    ensures
        0 <= place_pos(s, e) <= s.len(),
    decreases s.len(),
{
    if s.len() > 0 {
        lemma_place_pos_bound(s.drop_first(), e);
    }
}

/// Loading rows keeps each row as given, thumbnail and all: the loaded table
/// holds exactly the given rows, as many as were given.
pub proof fn law_load_keeps_every_row(s: Seq<EntryView>)
    ensures
        load(s).len() == s.len(),
        forall|x: EntryView| #[trigger] load(s).contains(x) <==> s.contains(x),
    decreases s.len(),
{
    if s.len() > 0 {
        let t = s.drop_first();
        law_load_keeps_every_row(t);
        let l = load(t);
        lemma_place_pos_bound(l, s[0]);
        let p = place_pos(l, s[0]);
        assert(load(s) == l.insert(p, s[0]));
        assert forall|x: EntryView| #[trigger] load(s).contains(x) <==> s.contains(x) by {
            if load(s).contains(x) {
                let c = choose|c: int| 0 <= c < load(s).len() && load(s)[c] == x;
                if c == p {
                    assert(s[0] == x);
                } else {
                    let c2 = if c < p { c } else { c - 1 };
                    assert(l[c2] == x);
                    assert(l.contains(x));
                    let d = choose|d: int| 0 <= d < t.len() && t[d] == x;
                    assert(s[d + 1] == x);
                }
            }
            if s.contains(x) {
                let d = choose|d: int| 0 <= d < s.len() && s[d] == x;
                if d == 0 {
                    assert(load(s)[p] == x);
                } else {
                    assert(t[d - 1] == x);
                    assert(t.contains(x));
                    assert(l.contains(x));
                    let c = choose|c: int| 0 <= c < l.len() && l[c] == x;
                    assert(l[c] == x);
                    let ins = l.insert(p, s[0]);
                    if c < p {
                        assert(ins[c] == x);
                        assert(load(s)[c] == x);
                    } else {
                        assert(ins[c + 1] == x);
                        assert(load(s)[c + 1] == x);
                    }
                }
            }
        }
    }
}

} // verus!
