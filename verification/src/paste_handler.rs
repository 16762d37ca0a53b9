//! Pasting into the window that was active before the popup opened: what
//! is taken from `xdotool`'s answer, and the command sent to the daemon.

use vstd::prelude::*;
use vstd::utf8::{decode_utf8, valid_utf8};
use crate::protocol::set_command_text;
use crate::text::{strict_text, trim_text, trim_ws};

verus! {

/// Pasting into another window.
pub struct PasteHandler;

/// Why no window id was obtained.
#[derive(Debug, Clone, Copy, PartialEq, Eq)]
pub enum WindowIdError {
    /// `xdotool getactivewindow` did not succeed.
    CommandFailed,
    /// Its output is not UTF-8.
    NotUtf8,
}

impl PasteHandler {
    /// The window id in the output of `xdotool getactivewindow`: the output
    /// with surrounding white space removed, when the command succeeded and
    /// wrote UTF-8.
    pub fn window_id_from_output(success: bool, stdout: &[u8]) -> (id: Result<
        String,
        WindowIdError,
    >)
        ensures
            !success ==> id matches Err(WindowIdError::CommandFailed),
            success && !valid_utf8(stdout@) ==> id matches Err(WindowIdError::NotUtf8),
            success && valid_utf8(stdout@) ==> (id matches Ok(w) && w@ == trim_ws(
                decode_utf8(stdout@),
            )),
    {
        if !success {
            return Err(WindowIdError::CommandFailed);
        }
        match strict_text(stdout) {
            Some(text) => Ok(trim_text(text.as_str()).to_owned()),
            None => Err(WindowIdError::NotUtf8),
        }
    }

    /// The command for the daemon, with an empty window id when there is
    /// none.
    pub fn set_command_message(hash: &str, prev_window_id: Option<&str>) -> (message: String)
        ensures
            message@ == set_command_text(
                hash@,
                match prev_window_id {
                    Some(w) => Some(w@),
                    None => None,
                },
            ),
    {
        let mut message = "SET:".to_owned();
        message.append(hash);
        message.append(":");
        match prev_window_id {
            Some(w) => message.append(w),
            None => {},
        }
        proof {
            reveal_strlit("SET:");
            reveal_strlit(":");
        }
        assert(message@ =~= set_command_text(
            hash@,
            match prev_window_id {
                Some(w) => Some(w@),
                None => None,
            },
        ));
        message
    }
}

} // verus!
