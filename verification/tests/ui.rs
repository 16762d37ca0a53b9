use paste_it::database::ClipboardEntry;
use paste_it::ui::{activate_row, card_for, pin_label, popup_position, preview_text, CardContent};

fn text_entry(content: &[u8], pinned: bool) -> ClipboardEntry {
    ClipboardEntry {
        id: 5,
        content: content.to_vec(),
        thumbnail: None,
        entry_type: "text".to_string(),
        content_hash: String::new(),
        timestamp: "t".to_string(),
        pinned,
    }
}

#[test]
fn preview_takes_two_lines() {
    assert_eq!(preview_text("one\ntwo\nthree"), "one\ntwo");
    assert_eq!(preview_text("one\r\ntwo\r\nthree"), "one\ntwo");
    assert_eq!(preview_text("single"), "single");
    assert_eq!(preview_text(""), "");
    assert_eq!(preview_text("one\n"), "one");
    assert_eq!(preview_text("\n\nthird"), "\n");
    assert_eq!(preview_text("a\rb\nc\r"), "a\rb\nc\r");
    assert_eq!(preview_text("é\nü\nx"), "é\nü");
}

#[test]
fn preview_matches_std_lines() {
    for s in ["x\n\ny", "\r\n", "a\r\n", "a\nb\r\n", "\n", "a\n\n", "ab\r"] {
        let expected = s.lines().take(2).collect::<Vec<_>>().join("\n");
        assert_eq!(preview_text(s), expected, "{:?}", s);
    }
}

#[test]
fn pin_labels() {
    assert_eq!(pin_label(true), "📍");
    assert_eq!(pin_label(false), "📌");
}

#[test]
fn text_card_shows_preview_of_lossy_text() {
    let card = card_for(&text_entry(b"first\nsecond\nthird\xff", true));
    assert_eq!(card.id, 5);
    assert!(card.pinned);
    assert_eq!(card.pin_label, "📍");
    match card.content {
        CardContent::Text { preview } => assert_eq!(preview, "first\nsecond"),
        _ => panic!("expected a text card"),
    }
    let card = card_for(&text_entry(b"\xff\xfe", false));
    match card.content {
        CardContent::Text { preview } => assert_eq!(preview, "\u{fffd}\u{fffd}"),
        _ => panic!("expected a text card"),
    }
}

#[test]
fn image_card_shows_thumbnail() {
    let mut e = text_entry(b"png bytes", false);
    e.entry_type = "image".to_string();
    e.thumbnail = Some(vec![1, 2, 3]);
    match card_for(&e).content {
        CardContent::Image { thumbnail } => assert_eq!(thumbnail, Some(vec![1, 2, 3])),
        _ => panic!("expected an image card"),
    }
    e.thumbnail = None;
    match card_for(&e).content {
        CardContent::Image { thumbnail } => assert_eq!(thumbnail, None),
        _ => panic!("expected an image card"),
    }
}

#[test]
fn activating_a_row_sends_its_hash() {
    let entries = vec![text_entry(b"hello", false)];
    let prev = Some("12345".to_string());
    let act = activate_row(&entries, 0, &prev).unwrap();
    assert_eq!(act.hash, "a2766c647ad59bd6691cdcdbb559583e786a1b5c78b17cb696ab67bfd9167948");
    assert_eq!(act.message, format!("SET:{}", act.hash));
    assert_eq!(act.paste_target, prev);
    assert!(activate_row(&entries, 1, &prev).is_none());
    assert!(activate_row(&entries, -1, &None).is_none());
    assert_eq!(activate_row(&entries, 0, &None).unwrap().paste_target, None);
}

#[test]
fn popup_goes_to_bottom_right() {
    assert_eq!(popup_position(1920, 1080), (1500, 420));
    assert_eq!(popup_position(0, 0), (-420, -660));
}
