//! The messages between the popup, the daemon and a second launch, and the
//! start-up decisions taken on them.

use vstd::prelude::*;

verus! {

/// The prefix of the daemon's "put this entry on the clipboard" command.
pub open spec fn set_prefix() -> Seq<char> {
    seq!['S', 'E', 'T', ':']
}

/// The command that asks the daemon to put the entry with this hash on the
/// clipboard.
pub open spec fn set_message_text(hash: Seq<char>) -> Seq<char> {
    set_prefix() + hash
}

/// The command that asks the daemon to put the entry with this hash on the
/// clipboard and paste it into a window: `SET:<hash>:<window id>`, the
/// window id left empty when there is none.
pub open spec fn set_command_text(hash: Seq<char>, window_id: Option<Seq<char>>) -> Seq<char> {
    set_prefix() + hash + seq![':'] + match window_id {
        Some(w) => w,
        None => Seq::empty(),
    }
}

/// The position of the first `:` at or after `i`, or the length.
pub open spec fn colon_pos(s: Seq<char>, i: int) -> int
    decreases s.len() - i,
{
    if i < 0 || i >= s.len() {
        s.len() as int
    } else if s[i] == ':' {
        i
    } else {
        colon_pos(s, i + 1)
    }
}

/// A daemon command starts with `SET:`.
pub open spec fn is_set_command(command: Seq<char>) -> bool {
    command.len() >= 4 && command.take(4) == set_prefix()
}

/// The hash of a daemon command: the text after `SET:` up to the next `:`.
pub open spec fn command_hash(command: Seq<char>) -> Seq<char> {
    let rest = command.skip(4);
    rest.take(colon_pos(rest, 0))
}

/// The window id of a daemon command: the non-empty text after the `:` that
/// ends the hash, if there is one.
pub open spec fn command_window(command: Seq<char>) -> Option<Seq<char>> {
    let rest = command.skip(4);
    let k = colon_pos(rest, 0);
    if k + 1 < rest.len() {
        Some(rest.skip(k + 1))
    } else {
        None
    }
}

/// How long the daemon waits, in milliseconds, between setting the
/// clipboard and pasting into the window of a command.
pub const PASTE_DELAY_MS: u64 = 80;

/// A daemon command: put the entry with `hash` on the clipboard, then paste
/// it into `window_id` if there is one.
pub struct SetCommand {
    pub hash: String,
    pub window_id: Option<String>,
}

/// The position of the first `:` in `s` is `k` when none comes before it.
proof fn lemma_colon_pos_at(s: Seq<char>, i: int, k: int)
    requires
        0 <= i <= k <= s.len(),
        forall|j: int| i <= j < k ==> #[trigger] s[j] != ':',
        k == s.len() || s[k] == ':',
    ensures
        colon_pos(s, i) == k,
    decreases k - i,
{
    if i < k {
        lemma_colon_pos_at(s, i + 1, k);
    }
}

/// The bytes a second popup launch sends to close the first: `QUIT`.
pub open spec fn quit_bytes() -> Seq<u8> {
    seq![81u8, 85u8, 73u8, 84u8]
}

/// The command that asks the daemon to put the entry with this hash on the
/// clipboard.
pub fn set_message(hash: &str) -> (message: String)
    ensures
        message@ == set_message_text(hash@),
{
    let mut message = "SET:".to_owned();
    message.append(hash);
    proof {
        reveal_strlit("SET:");
    }
    assert(message@ =~= set_message_text(hash@));
    message
}

/// The parts of a daemon command: its hash, and the window to paste into.
pub fn parse_set_command(command: &str) -> (parsed: Option<SetCommand>)
    ensures
        parsed is Some <==> is_set_command(command@),
        parsed matches Some(c) ==> c.hash@ == command_hash(command@) && match c.window_id {
            Some(w) => command_window(command@) == Some(w@),
            None => command_window(command@) is None,
        },
{
    let n = command.unicode_len();
    if n < 4 {
        return None;
    }
    if !(command.get_char(0) == 'S' && command.get_char(1) == 'E' && command.get_char(2) == 'T'
        && command.get_char(3) == ':') {
        assert(command@.take(4) != set_prefix()) by {
            if command@.take(4) == set_prefix() {
                assert(command@[0] == command@.take(4)[0]);
                assert(command@[1] == command@.take(4)[1]);
                assert(command@[2] == command@.take(4)[2]);
                assert(command@[3] == command@.take(4)[3]);
            }
        }
        return None;
    }
    assert(command@.take(4) =~= set_prefix());
    let ghost rest = command@.skip(4);
    let mut k: usize = 4;
    while k < n && command.get_char(k) != ':'
        invariant
            4 <= k <= n,
            n == command@.len(),
            rest == command@.skip(4),
            forall|j: int| 0 <= j < k - 4 ==> #[trigger] rest[j] != ':',
        decreases n - k,
    {
        assert(rest[k - 4] == command@[k as int]);
        k = k + 1;
    }
    proof {
        if k < n {
            assert(rest[k - 4] == command@[k as int]);
        }
        lemma_colon_pos_at(rest, 0, k - 4);
    }
    let hash = command.substring_char(4, k).to_owned();
    assert(hash@ =~= command_hash(command@));
    let window_id = if k < n && k + 1 < n {
        let w = command.substring_char(k + 1, n).to_owned();
        assert(w@ =~= rest.skip(k - 4 + 1));
        Some(w)
    } else {
        None
    };
    Some(SetCommand { hash, window_id })
}

/// Whether the bytes read from the popup's socket ask it to close.
pub fn is_quit_message(bytes: &[u8]) -> (quit: bool)
    ensures
        quit == (bytes@ == quit_bytes()),
{
    let q = bytes.len() == 4 && bytes[0] == 81 && bytes[1] == 85 && bytes[2] == 73 && bytes[3] == 84;
    if q {
        assert(bytes@ =~= quit_bytes());
    } else {
        assert(bytes@ != quit_bytes()) by {
            if bytes@ == quit_bytes() {
                assert(bytes@[0] == 81 && bytes@[1] == 85 && bytes@[2] == 73 && bytes@[3] == 84);
            }
        }
    }
    q
}

/// How the program runs.
#[derive(Debug, Clone, Copy, PartialEq, Eq)]
pub enum RunMode {
    /// Watch the clipboard and serve the popup's commands.
    Daemon,
    /// Show the popup.
    Ui,
}

/// The run mode chosen by the command line: the daemon when the first
/// argument is `--daemon`, the popup otherwise.
pub fn run_mode(args: &Vec<String>) -> (mode: RunMode)
    ensures
        mode == if args@.len() > 1 && args@[1]@ == "--daemon"@ {
            RunMode::Daemon
        } else {
            RunMode::Ui
        },
{
    if args.len() > 1 {
        let flag = "--daemon".to_owned();
        if args[1] == flag {
            return RunMode::Daemon;
        }
    }
    RunMode::Ui
}

/// What a popup launch does about the popup's socket.
#[derive(Debug, Clone, Copy, PartialEq, Eq)]
pub enum UiStartup {
    /// Another popup runs: send it `QUIT` and stop.
    CloseRunningPopup,
    /// A socket is left from a popup that no longer runs: remove it, then
    /// listen.
    RemoveStaleSocket,
    /// Listen on the socket.
    Listen,
}

/// The start-up decision of a popup launch, from whether the socket exists
/// and whether connecting to it succeeded.
pub fn ui_startup(socket_exists: bool, connected: bool) -> (step: UiStartup)
    ensures
        step == if !socket_exists {
            UiStartup::Listen
        } else if connected {
            UiStartup::CloseRunningPopup
        } else {
            UiStartup::RemoveStaleSocket
        },
{
    if !socket_exists {
        UiStartup::Listen
    } else if connected {
        UiStartup::CloseRunningPopup
    } else {
        UiStartup::RemoveStaleSocket
    }
}

/// A text without `:`.
pub open spec fn no_colon(s: Seq<char>) -> bool {
    forall|k: int| 0 <= k < s.len() ==> s[k] != ':'
}

/// The daemon takes back exactly the hash that a popup's command carries,
/// with no window to paste into.
pub proof fn law_set_command_round_trip(hash: Seq<char>)
    requires
        no_colon(hash),
    ensures
        is_set_command(set_message_text(hash)),
        command_hash(set_message_text(hash)) == hash,
        command_window(set_message_text(hash)) is None,
{
    let m = set_message_text(hash);
    assert(m.take(4) =~= set_prefix());
    assert(m.skip(4) =~= hash);
    lemma_colon_pos_at(hash, 0, hash.len() as int);
    assert(hash.take(hash.len() as int) =~= hash);
}

/// The daemon takes back exactly the hash and the window id that a paste
/// command carries (an empty window id reads as none).
pub proof fn law_paste_command_round_trip(hash: Seq<char>, window_id: Option<Seq<char>>)
    requires
        no_colon(hash),
        window_id matches Some(w) ==> w.len() > 0,
    ensures
        is_set_command(set_command_text(hash, window_id)),
        command_hash(set_command_text(hash, window_id)) == hash,
        command_window(set_command_text(hash, window_id)) == window_id,
{
    let m = set_command_text(hash, window_id);
    let w = match window_id {
        Some(w) => w,
        None => Seq::<char>::empty(),
    };
    assert(m.take(4) =~= set_prefix());
    let rest = m.skip(4);
    assert(rest =~= hash + seq![':'] + w);
    assert forall|j: int| 0 <= j < hash.len() implies #[trigger] rest[j] != ':' by {
        assert(rest[j] == hash[j]);
    }
    assert(rest[hash.len() as int] == ':');
    lemma_colon_pos_at(rest, 0, hash.len() as int);
    assert(rest.take(hash.len() as int) =~= hash);
    assert(rest.skip(hash.len() as int + 1) =~= w);
}

} // verus!
