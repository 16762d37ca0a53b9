use paste_it::paste_handler::{PasteHandler, WindowIdError};
use paste_it::protocol::{
    is_quit_message, parse_set_command, run_mode, set_message, ui_startup, RunMode, UiStartup,
};

#[test]
fn set_message_prefixes_hash() {
    assert_eq!(set_message("abc"), "SET:abc");
}

fn parsed(command: &str) -> Option<(String, Option<String>)> {
    parse_set_command(command).map(|c| (c.hash, c.window_id))
}

#[test]
fn parse_set_command_splits_hash_and_window() {
    assert_eq!(parsed("SET:abc"), Some(("abc".to_string(), None)));
    assert_eq!(parsed("SET:abc:42"), Some(("abc".to_string(), Some("42".to_string()))));
    assert_eq!(parsed("SET:abc:"), Some(("abc".to_string(), None)));
    assert_eq!(parsed("SET:"), Some((String::new(), None)));
    assert_eq!(parsed("SET:é:1:2"), Some(("é".to_string(), Some("1:2".to_string()))));
    assert_eq!(parsed("SE"), None);
    assert_eq!(parsed("set:abc"), None);
    assert_eq!(parsed("GET:abc"), None);
}

#[test]
fn set_command_round_trip() {
    let h = "a2766c647ad59bd6691cdcdbb559583e786a1b5c78b17cb696ab67bfd9167948";
    assert_eq!(parsed(&set_message(h)), Some((h.to_string(), None)));
}

#[test]
fn paste_handler_command_carries_window_id() {
    assert_eq!(PasteHandler::set_command_message("abc", Some("42")), "SET:abc:42");
    assert_eq!(PasteHandler::set_command_message("abc", None), "SET:abc:");
    assert_eq!(
        parsed(&PasteHandler::set_command_message("abc", Some("42"))),
        Some(("abc".to_string(), Some("42".to_string())))
    );
    assert_eq!(parsed(&PasteHandler::set_command_message("abc", None)), Some(("abc".to_string(), None)));
}

#[test]
fn window_id_is_trimmed_output() {
    assert_eq!(PasteHandler::window_id_from_output(true, b"  71303175\n"), Ok("71303175".to_string()));
    assert_eq!(
        PasteHandler::window_id_from_output(true, "\u{a0}7\u{3000}".as_bytes()),
        Ok("7".to_string())
    );
    assert_eq!(
        PasteHandler::window_id_from_output(false, b"71303175\n"),
        Err(WindowIdError::CommandFailed)
    );
    assert_eq!(PasteHandler::window_id_from_output(true, b"\xff"), Err(WindowIdError::NotUtf8));
}

#[test]
fn quit_message() {
    assert!(is_quit_message(b"QUIT"));
    assert!(!is_quit_message(b"QUI"));
    assert!(!is_quit_message(b"quit"));
}

#[test]
fn run_mode_from_arguments() {
    let args = |v: &[&str]| v.iter().map(|s| s.to_string()).collect::<Vec<String>>();
    assert_eq!(run_mode(&args(&["paste_it", "--daemon"])), RunMode::Daemon);
    assert_eq!(run_mode(&args(&["paste_it"])), RunMode::Ui);
    assert_eq!(run_mode(&args(&["paste_it", "--ui", "--daemon"])), RunMode::Ui);
}

#[test]
fn popup_startup_decision() {
    assert_eq!(ui_startup(false, false), UiStartup::Listen);
    assert_eq!(ui_startup(true, true), UiStartup::CloseRunningPopup);
    assert_eq!(ui_startup(true, false), UiStartup::RemoveStaleSocket);
}
