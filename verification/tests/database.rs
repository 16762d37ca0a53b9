use paste_it::database::{ClipboardEntry, Database, DbError};
use paste_it::hashing::content_hash;

fn raw_entry(id: i64, content: &str, hash: &str, timestamp: &str, pinned: bool) -> ClipboardEntry {
    ClipboardEntry {
        id,
        content: content.as_bytes().to_vec(),
        thumbnail: None,
        entry_type: "text".to_string(),
        content_hash: hash.to_string(),
        timestamp: timestamp.to_string(),
        pinned,
    }
}

fn entry(id: i64, content: &str, timestamp: &str, pinned: bool) -> ClipboardEntry {
    raw_entry(id, content, &content_hash(content.as_bytes(), "text"), timestamp, pinned)
}

fn ts(i: usize) -> String {
    format!("2024-01-01T00:{:02}:{:02}+00:00", i / 60, i % 60)
}

fn contents(db: &Database) -> Vec<String> {
    db.entries()
        .iter()
        .map(|e| String::from_utf8(e.content.clone()).unwrap())
        .collect()
}

#[test]
fn new_store_is_empty() {
    let db = Database::new();
    assert_eq!(db.len(), 0);
    assert!(db.get_history(None).unwrap().is_empty());
}

#[test]
fn add_entry_records_hash_id_and_unpinned() {
    let mut db = Database::new();
    db.add_entry_at(b"hello", None, "text", "2024-01-01T00:00:00+00:00".to_string()).unwrap();
    let rows = db.get_history(None).unwrap();
    assert_eq!(rows.len(), 1);
    assert_eq!(rows[0].id, 1);
    assert_eq!(rows[0].content, b"hello".to_vec());
    assert_eq!(rows[0].entry_type, "text");
    assert_eq!(
        rows[0].content_hash,
        "a2766c647ad59bd6691cdcdbb559583e786a1b5c78b17cb696ab67bfd9167948"
    );
    assert_eq!(rows[0].timestamp, "2024-01-01T00:00:00+00:00");
    assert!(!rows[0].pinned);
    assert_eq!(rows[0].thumbnail, None);
}

#[test]
fn ids_count_up_from_the_largest() {
    let mut db = Database::new();
    db.add_entry_at(b"a", None, "text", ts(1)).unwrap();
    db.add_entry_at(b"b", None, "text", ts(2)).unwrap();
    db.add_entry_at(b"c", None, "text", ts(3)).unwrap();
    let ids: Vec<i64> = db.entries().iter().map(|e| e.id).collect();
    assert_eq!(ids, vec![3, 2, 1]);
    // Deleting the largest id lets the next entry reuse it.
    db.delete_entry(3);
    db.add_entry_at(b"d", None, "text", ts(4)).unwrap();
    assert_eq!(db.entries()[0].id, 3);
}

#[test]
fn same_content_and_type_is_deduplicated() {
    let mut db = Database::new();
    db.add_entry_at(b"hello", None, "text", ts(1)).unwrap();
    db.add_entry_at(b"world", None, "text", ts(2)).unwrap();
    db.toggle_pin(1);
    db.add_entry_at(b"hello", Some(b"thumb".as_slice()), "text", ts(3)).unwrap();
    let rows = db.get_history(None).unwrap();
    assert_eq!(rows.len(), 2);
    // The existing row moves to the top with the new timestamp, keeping its
    // id, pin and (absent) thumbnail.
    assert_eq!(rows[0].content, b"hello".to_vec());
    assert_eq!(rows[0].id, 1);
    assert!(rows[0].pinned);
    assert_eq!(rows[0].timestamp, ts(3));
    assert_eq!(rows[0].thumbnail, None);
    assert_eq!(rows[1].content, b"world".to_vec());
}

#[test]
fn same_content_with_other_type_is_another_entry() {
    let mut db = Database::new();
    db.add_entry_at(b"hello", None, "text", ts(1)).unwrap();
    db.add_entry_at(b"hello", None, "image", ts(2)).unwrap();
    let rows = db.get_history(None).unwrap();
    assert_eq!(rows.len(), 2);
    assert_eq!(rows[0].entry_type, "image");
    assert_eq!(
        rows[0].content_hash,
        "d9fc3fdcdd3220bb76c5f2bdb7d326e175402d7ac051b02af4ec469b4a0652c4"
    );
}

#[test]
fn history_is_newest_first_by_timestamp_text() {
    let mut db = Database::new();
    db.add_entry_at(b"middle", None, "text", ts(5)).unwrap();
    db.add_entry_at(b"newest", None, "text", ts(9)).unwrap();
    db.add_entry_at(b"oldest", None, "text", ts(1)).unwrap();
    assert_eq!(contents(&db), vec!["newest", "middle", "oldest"]);
}

#[test]
fn equal_timestamps_put_the_latest_write_first() {
    let mut db = Database::new();
    db.add_entry_at(b"first", None, "text", ts(7)).unwrap();
    db.add_entry_at(b"second", None, "text", ts(7)).unwrap();
    assert_eq!(contents(&db), vec!["second", "first"]);
}

#[test]
fn add_entry_uses_the_clock() {
    let mut db = Database::new();
    db.add_entry(b"now", None, "text").unwrap();
    let rows = db.get_history(None).unwrap();
    assert_eq!(rows.len(), 1);
    assert!(rows[0].timestamp.starts_with("20"));
    assert!(rows[0].timestamp.contains('T'));
}

#[test]
fn thumbnail_is_stored_for_new_entries() {
    let mut db = Database::new();
    db.add_entry_at(b"png", Some(b"small".as_slice()), "image", ts(1)).unwrap();
    assert_eq!(db.entries()[0].thumbnail, Some(b"small".to_vec()));
}

#[test]
fn toggle_pin_flips_and_twice_restores() {
    let mut db = Database::new();
    db.add_entry_at(b"a", None, "text", ts(1)).unwrap();
    db.add_entry_at(b"b", None, "text", ts(2)).unwrap();
    db.toggle_pin(1);
    let rows = db.get_history(None).unwrap();
    assert!(!rows[0].pinned);
    assert!(rows[1].pinned);
    db.toggle_pin(1);
    assert!(db.entries().iter().all(|e| !e.pinned));
    // An unknown id changes nothing.
    db.toggle_pin(42);
    assert_eq!(db.len(), 2);
}

#[test]
fn delete_entry_removes_only_that_id() {
    let mut db = Database::new();
    db.add_entry_at(b"a", None, "text", ts(1)).unwrap();
    db.add_entry_at(b"b", None, "text", ts(2)).unwrap();
    db.add_entry_at(b"c", None, "text", ts(3)).unwrap();
    db.delete_entry(2);
    assert_eq!(contents(&db), vec!["c", "a"]);
    db.delete_entry(99);
    assert_eq!(db.len(), 2);
}

#[test]
fn clear_history_keeps_pinned_entries() {
    let mut db = Database::new();
    db.add_entry_at(b"a", None, "text", ts(1)).unwrap();
    db.add_entry_at(b"b", None, "text", ts(2)).unwrap();
    db.add_entry_at(b"c", None, "text", ts(3)).unwrap();
    db.toggle_pin(1);
    db.toggle_pin(3);
    db.clear_history();
    assert_eq!(contents(&db), vec!["c", "a"]);
    assert!(db.entries().iter().all(|e| e.pinned));
}

#[test]
fn cleanup_keeps_recent_and_pinned() {
    let mut db = Database::new();
    for i in 0..500 {
        db.add_entry_at(format!("item {}", i).as_bytes(), None, "text", ts(i)).unwrap();
    }
    // Pin the two oldest entries.
    db.toggle_pin(1);
    db.toggle_pin(2);
    assert_eq!(db.len(), 500);
    db.add_entry_at(b"item 500", None, "text", ts(500)).unwrap();
    db.add_entry_at(b"item 501", None, "text", ts(501)).unwrap();
    // The two oldest are pinned and stay, beyond the 500 most recent.
    assert_eq!(db.len(), 502);
    db.add_entry_at(b"item 502", None, "text", ts(502)).unwrap();
    // Now the oldest unpinned entry (item 2) falls out.
    assert_eq!(db.len(), 502);
    let rows = db.entries();
    assert_eq!(rows[0].content, b"item 502".to_vec());
    assert!(rows[500].pinned && rows[501].pinned);
    assert!(!rows.iter().any(|e| e.content == b"item 2".to_vec()));
    // The listing holds at most 500 entries.
    assert_eq!(db.get_history(None).unwrap().len(), 500);
}

#[test]
fn cleanup_drops_unpinned_beyond_limit() {
    let mut rows = Vec::new();
    for i in 0..505usize {
        rows.push(entry(i as i64 + 1, &format!("x{}", i), &ts(i), i == 3));
    }
    let mut db = Database::from_rows(rows).unwrap();
    assert_eq!(db.len(), 505);
    db.cleanup();
    // 500 most recent (x504 .. x5) stay, and the pinned x3.
    assert_eq!(db.len(), 501);
    assert_eq!(db.entries()[500].content, b"x3".to_vec());
}

#[test]
fn from_rows_orders_by_timestamp() {
    let rows = vec![
        entry(1, "old", "2024-01-01", false),
        entry(2, "new", "2024-03-01", true),
        entry(3, "mid", "2024-02-01", false),
    ];
    let db = Database::from_rows(rows).unwrap();
    assert_eq!(contents(&db), vec!["new", "mid", "old"]);
    assert!(db.entries()[0].pinned);
}

#[test]
fn from_rows_refuses_duplicates() {
    let dup_id = vec![entry(1, "a", "t1", false), entry(1, "b", "t2", false)];
    assert_eq!(Database::from_rows(dup_id).err(), Some(DbError::DuplicateRow));
    let dup_hash = vec![entry(1, "a", "t1", false), entry(2, "a", "t2", false)];
    assert_eq!(Database::from_rows(dup_hash).err(), Some(DbError::DuplicateRow));
}

#[test]
fn from_rows_refuses_foreign_hashes() {
    let rows = vec![entry(1, "a", "t1", false), raw_entry(2, "b", "h2", "t2", false)];
    assert_eq!(Database::from_rows(rows).err(), Some(DbError::HashMismatch));
    // A foreign hash is reported before a duplicate id.
    let rows = vec![entry(1, "a", "t1", false), raw_entry(1, "b", "h2", "t2", false)];
    assert_eq!(Database::from_rows(rows).err(), Some(DbError::HashMismatch));
}

#[test]
fn new_entry_fails_when_ids_are_exhausted() {
    let rows = vec![entry(i64::MAX, "a", "t1", false)];
    let mut db = Database::from_rows(rows).unwrap();
    assert_eq!(db.add_entry_at(b"b", None, "text", ts(1)), Err(DbError::IdsExhausted));
    assert_eq!(db.len(), 1);
}

#[test]
fn existing_entry_is_updated_when_ids_are_exhausted() {
    let rows = vec![entry(i64::MAX, "hello", "t1", false)];
    let mut db = Database::from_rows(rows).unwrap();
    assert_eq!(db.add_entry_at(b"hello", None, "text", "t2".to_string()), Ok(()));
    assert_eq!(db.entries()[0].timestamp, "t2");
}

#[test]
fn duplicate_copies_every_field() {
    let e = ClipboardEntry {
        id: 7,
        content: vec![1, 2, 3],
        thumbnail: Some(vec![9]),
        entry_type: "image".to_string(),
        content_hash: "abc".to_string(),
        timestamp: "t".to_string(),
        pinned: true,
    };
    let c = e.duplicate();
    assert_eq!(c.id, 7);
    assert_eq!(c.content, vec![1, 2, 3]);
    assert_eq!(c.thumbnail, Some(vec![9]));
    assert_eq!(c.entry_type, "image");
    assert_eq!(c.content_hash, "abc");
    assert_eq!(c.timestamp, "t");
    assert!(c.pinned);
}

#[test]
fn hash_covers_content_and_type_together() {
    let mut db = Database::new();
    db.add_entry_at(b"x", None, "text", ts(1)).unwrap();
    db.add_entry_at(b"x", None, "image", ts(2)).unwrap();
    assert_eq!(db.len(), 2);
    let mut db = Database::new();
    db.add_entry_at(b"ab", None, "c", ts(1)).unwrap();
    db.add_entry_at(b"a", None, "bc", ts(2)).unwrap();
    assert_eq!(db.len(), 1);
    assert_eq!(db.entries()[0].content, b"ab".to_vec());
    assert_eq!(db.entries()[0].timestamp, ts(2));
}

#[test]
fn add_entry_writes_rfc3339_time() {
    let mut db = Database::new();
    db.add_entry(b"now", None, "text").unwrap();
    let t = db.entries()[0].timestamp.clone();
    assert!(t.ends_with("+00:00"));
    assert_eq!(&t[4..5], "-");
    assert_eq!(&t[10..11], "T");
}
