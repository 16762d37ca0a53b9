use paste_it::daemon::{make_thumbnail, Daemon};
use paste_it::database::Database;

const PNG: [u8; 73] = [
    137, 80, 78, 71, 13, 10, 26, 10, 0, 0, 0, 13, 73, 72, 68, 82, 0, 0, 0, 2, 0, 0, 0, 2, 8, 2, 0,
    0, 0, 253, 212, 154, 115, 0, 0, 0, 16, 73, 68, 65, 84, 120, 156, 99, 248, 207, 192, 0, 68, 12,
    16, 10, 0, 31, 238, 3, 253, 139, 95, 20, 212, 0, 0, 0, 0, 73, 69, 78, 68, 174, 66, 96, 130,
];

#[test]
fn calculate_hash_is_hex_sha256_of_content_and_type() {
    assert_eq!(
        Daemon::calculate_hash(b"", ""),
        "e3b0c44298fc1c149afbf4c8996fb92427ae41e4649b934ca495991b7852b855"
    );
    assert_eq!(Daemon::calculate_hash(b"any", "image").len(), 64);
    assert_eq!(
        Daemon::calculate_hash(b"hello", "text"),
        "a2766c647ad59bd6691cdcdbb559583e786a1b5c78b17cb696ab67bfd9167948"
    );
    assert_eq!(
        Daemon::calculate_hash(b"", "text"),
        "982d9e3eb996f559e633f4d194def3761d909f5a3b647d1a851fead67c32c9d1"
    );
}

#[test]
fn handle_text_records_text() {
    let mut daemon = Daemon::new();
    let mut db = Database::new();
    assert_eq!(daemon.handle_text(&mut db, "copied"), Ok(true));
    let rows = db.get_history(None).unwrap();
    assert_eq!(rows.len(), 1);
    assert_eq!(rows[0].content, b"copied".to_vec());
    assert_eq!(rows[0].entry_type, "text");
}

#[test]
fn injected_text_is_skipped_once() {
    let mut daemon = Daemon::new();
    let mut db = Database::new();
    daemon.set_last_injected_hash(Daemon::calculate_hash(b"pasted", "text"));
    assert_eq!(daemon.handle_text(&mut db, "pasted"), Ok(false));
    assert_eq!(db.len(), 0);
    assert_eq!(daemon.handle_text(&mut db, "pasted"), Ok(true));
    assert_eq!(db.len(), 1);
}

#[test]
fn other_text_keeps_the_injection_mark() {
    let mut daemon = Daemon::new();
    let mut db = Database::new();
    daemon.set_last_injected_hash(Daemon::calculate_hash(b"pasted", "text"));
    assert_eq!(daemon.handle_text(&mut db, "other"), Ok(true));
    assert_eq!(daemon.handle_text(&mut db, "pasted"), Ok(false));
    assert_eq!(db.len(), 1);
}

#[test]
fn admit_change_clears_matching_mark() {
    let mut daemon = Daemon::new();
    let h = "abc".to_string();
    assert!(daemon.admit_change(&h));
    daemon.set_last_injected_hash(h.clone());
    assert!(!daemon.admit_change(&h));
    assert!(daemon.admit_change(&h));
}

#[test]
fn handle_image_records_image_with_thumbnail() {
    let mut daemon = Daemon::new();
    let mut db = Database::new();
    assert_eq!(daemon.handle_image(&mut db, &PNG), Ok(true));
    let rows = db.get_history(None).unwrap();
    assert_eq!(rows[0].entry_type, "image");
    assert_eq!(rows[0].content, PNG.to_vec());
    let thumb = rows[0].thumbnail.clone().unwrap();
    assert_eq!(&thumb[0..8], &PNG[0..8]);
}

#[test]
fn handle_image_without_decodable_image_has_no_thumbnail() {
    let mut daemon = Daemon::new();
    let mut db = Database::new();
    assert_eq!(daemon.handle_image(&mut db, b"not an image"), Ok(true));
    assert_eq!(db.entries()[0].thumbnail, None);
}

#[test]
fn make_thumbnail_scales_images() {
    assert!(make_thumbnail(b"garbage").is_none());
    let thumb = make_thumbnail(&PNG).unwrap();
    assert_ne!(thumb, PNG.to_vec());
    let img = image::load_from_memory(&thumb).unwrap();
    assert_eq!((img.width(), img.height()), (128, 128));
}

#[test]
fn set_clipboard_from_db_returns_text_and_marks_it() {
    let mut daemon = Daemon::new();
    let mut db = Database::new();
    db.add_entry_at(b"caf\xc3\xa9 \xff", None, "text", "t1".to_string()).unwrap();
    let hash = Daemon::calculate_hash(b"caf\xc3\xa9 \xff", "text");
    assert_eq!(daemon.set_clipboard_from_db(&db, hash.clone()), Some("café \u{fffd}".to_string()));
    // The change that putting it on the clipboard causes is skipped.
    assert_eq!(daemon.handle_text(&mut db, "café \u{fffd}"), Ok(true));
    assert!(!daemon.admit_change(&hash));
}

#[test]
fn set_clipboard_from_db_ignores_images_and_unknown_hashes() {
    let mut daemon = Daemon::new();
    let mut db = Database::new();
    db.add_entry_at(b"png", None, "image", "t1".to_string()).unwrap();
    let hash = Daemon::calculate_hash(b"png", "image");
    assert_eq!(daemon.set_clipboard_from_db(&db, hash.clone()), None);
    assert!(daemon.admit_change(&hash));
    assert_eq!(daemon.set_clipboard_from_db(&db, "unknown".to_string()), None);
}

#[test]
fn recorded_text_comes_back() {
    let mut daemon = Daemon::new();
    let mut db = Database::new();
    assert_eq!(daemon.handle_text(&mut db, "older"), Ok(true));
    assert_eq!(daemon.handle_text(&mut db, "héllo\nworld"), Ok(true));
    let hash = Daemon::calculate_hash("héllo\nworld".as_bytes(), "text");
    assert_eq!(db.get_history(None).unwrap()[0].content_hash, hash);
    assert_eq!(daemon.set_clipboard_from_db(&db, hash.clone()), Some("héllo\nworld".to_string()));
    // The clipboard change caused by putting it back is not recorded again.
    assert_eq!(daemon.handle_text(&mut db, "héllo\nworld"), Ok(false));
    assert_eq!(db.len(), 2);
}

#[test]
fn set_command_puts_text_and_pastes_into_window() {
    let mut daemon = Daemon::new();
    let mut db = Database::new();
    db.add_entry_at(b"hello", None, "text", "t1".to_string()).unwrap();
    db.add_entry_at(b"png", None, "image", "t2".to_string()).unwrap();
    let hash = Daemon::calculate_hash(b"hello", "text");
    let out = daemon.handle_set_command(&db, &format!("SET:{}:42", hash));
    assert_eq!(out.clipboard_text, Some("hello".to_string()));
    assert_eq!(out.paste_into, Some("42".to_string()));
    assert!(!daemon.admit_change(&hash));
    let out = daemon.handle_set_command(&db, &format!("SET:{}", hash));
    assert_eq!(out.clipboard_text, Some("hello".to_string()));
    assert_eq!(out.paste_into, None);
    // An image entry is not put on the clipboard, and nothing is pasted.
    let image_hash = Daemon::calculate_hash(b"png", "image");
    let out = daemon.handle_set_command(&db, &format!("SET:{}:42", image_hash));
    assert_eq!(out.clipboard_text, None);
    assert_eq!(out.paste_into, None);
    let out = daemon.handle_set_command(&db, "HELLO");
    assert_eq!(out.clipboard_text, None);
    assert_eq!(out.paste_into, None);
}

#[test]
fn make_thumbnail_keeps_aspect_ratio() {
    let wide = image::DynamicImage::new_rgb8(300, 100);
    let mut png: Vec<u8> = Vec::new();
    wide.write_to(&mut std::io::Cursor::new(&mut png), image::ImageOutputFormat::Png).unwrap();
    let thumb = make_thumbnail(&png).unwrap();
    let img = image::load_from_memory(&thumb).unwrap();
    assert_eq!((img.width(), img.height()), (128, 43));
    let tall = image::DynamicImage::new_rgb8(10, 40);
    let mut png: Vec<u8> = Vec::new();
    tall.write_to(&mut std::io::Cursor::new(&mut png), image::ImageOutputFormat::Png).unwrap();
    let img = image::load_from_memory(&make_thumbnail(&png).unwrap()).unwrap();
    assert_eq!((img.width(), img.height()), (32, 128));
}
