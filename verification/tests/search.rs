use paste_it::database::{Database, DbError};
use paste_it::like::{like_chars, sql_chars};

fn db_with(items: &[&[u8]]) -> Database {
    let mut db = Database::new();
    for (i, item) in items.iter().enumerate() {
        db.add_entry_at(item, None, "text", format!("2024-01-01T00:00:{:02}", i)).unwrap();
    }
    db
}

fn found(db: &Database, search: &str) -> Vec<Vec<u8>> {
    db.get_history(Some(search)).unwrap().into_iter().map(|e| e.content).collect()
}

fn like(text: &[u8], pattern: &[u8]) -> bool {
    like_chars(&sql_chars(text), &sql_chars(pattern))
}

#[test]
fn search_finds_substrings() {
    let db = db_with(&[b"apple pie", b"banana", b"pineapple"]);
    assert_eq!(found(&db, "apple"), vec![b"pineapple".to_vec(), b"apple pie".to_vec()]);
    assert_eq!(found(&db, "nan"), vec![b"banana".to_vec()]);
    assert!(found(&db, "cherry").is_empty());
}

#[test]
fn search_ignores_ascii_case() {
    let db = db_with(&[b"Hello World"]);
    assert_eq!(found(&db, "hello"), vec![b"Hello World".to_vec()]);
    assert_eq!(found(&db, "WORLD"), vec![b"Hello World".to_vec()]);
}

#[test]
fn search_keeps_case_of_other_letters() {
    let db = db_with(&["ÄPFEL".as_bytes()]);
    assert!(found(&db, "äpfel").is_empty());
    assert_eq!(found(&db, "Äpfel").len(), 1);
    assert_eq!(found(&db, "ÄPF").len(), 1);
}

#[test]
fn empty_search_lists_everything() {
    let db = db_with(&[b"a", b"", b"c"]);
    assert_eq!(found(&db, "").len(), 3);
}

#[test]
fn wildcards_in_the_search_text_stay_wildcards() {
    let db = db_with(&[b"cat", b"cut", b"ct"]);
    assert_eq!(found(&db, "c_t"), vec![b"cut".to_vec(), b"cat".to_vec()]);
    assert_eq!(found(&db, "c%t").len(), 3);
}

#[test]
fn content_is_read_up_to_its_first_nul() {
    let db = db_with(&[b"visible\0hidden"]);
    assert_eq!(found(&db, "visible").len(), 1);
    assert!(found(&db, "hidden").is_empty());
}

#[test]
fn too_long_search_is_refused_when_rows_exist() {
    let long = "x".repeat(49999);
    let db = db_with(&[b"abc"]);
    assert_eq!(db.get_history(Some(&long)).err(), Some(DbError::PatternTooComplex));
    let ok = "x".repeat(49998);
    assert!(db.get_history(Some(&ok)).unwrap().is_empty());
    let empty = Database::new();
    assert!(empty.get_history(Some(&long)).unwrap().is_empty());
}

#[test]
fn like_matches_whole_text() {
    assert!(like(b"abc", b"abc"));
    assert!(like(b"abc", b"a%"));
    assert!(like(b"abc", b"%c"));
    assert!(!like(b"abc", b"ab"));
    assert!(like(b"", b"%"));
    assert!(!like(b"", b"_"));
    assert!(like(b"ABC", b"a_c"));
}

#[test]
fn decoding_reads_characters_like_sqlite() {
    assert_eq!(sql_chars("é".as_bytes()), vec![0xe9]);
    assert_eq!(sql_chars(b"ab\0cd"), vec![97, 98]);
    // An overlong encoding of 'A' reads as U+FFFD.
    assert_eq!(sql_chars(&[0xc1, 0x81]), vec![0xfffd]);
    // A stray continuation byte reads as itself.
    assert_eq!(sql_chars(&[0x80, 0x41]), vec![0x80, 0x41]);
    // `_` matches one multi-byte character.
    assert!(like("é".as_bytes(), b"_"));
}
