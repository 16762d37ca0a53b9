//! What the history popup shows and does, apart from drawing it: the card
//! of each entry, the text preview, the pin labels, what activating a row
//! sends, and where the popup is placed.

use vstd::prelude::*;
use vstd::utf8::{decode_utf8, encode_utf8, valid_utf8};
use crate::database::{vec_bytes_opt, ClipboardEntry};
use crate::hashing::{content_hash, entry_hash};
use crate::protocol::{set_message, set_message_text};
use crate::text::{lemma_ascii_byte_valid, lemma_split_at_ascii, lossy_text, strict_text, utf8_lossy};

verus! {

/// The popup's width, in pixels.
pub const POPUP_WIDTH: i32 = 400;

/// The popup's height, in pixels.
pub const POPUP_HEIGHT: i32 = 600;

/// The gap between the popup and the right edge of the monitor.
pub const POPUP_RIGHT_MARGIN: i32 = 20;

/// The gap between the popup and the bottom edge of the monitor.
pub const POPUP_BOTTOM_MARGIN: i32 = 60;

/// The number of lines of text a card shows.
pub const PREVIEW_LINES: usize = 2;

/// The position of the first `\n` byte at or after `i`, or the length.
pub open spec fn line_end(b: Seq<u8>, i: int) -> int
    decreases b.len() - i,
{
    if i < 0 || i >= b.len() {
        b.len() as int
    } else if b[i] == 10 {
        i
    } else {
        line_end(b, i + 1)
    }
}

pub proof fn lemma_line_end(b: Seq<u8>, i: int)
    requires
        0 <= i <= b.len(),
    ensures
        i <= line_end(b, i) <= b.len(),
        line_end(b, i) < b.len() ==> b[line_end(b, i)] == 10,
        forall|k: int| i <= k < line_end(b, i) ==> #[trigger] b[k] != 10,
    decreases b.len() - i,
{
    if i < b.len() && b[i] != 10 {
        lemma_line_end(b, i + 1);
    }
}

/// A line without the `\r` that ended it.
pub open spec fn strip_cr(l: Seq<u8>) -> Seq<u8> {
    if l.len() > 0 && l.last() == 13 {
        l.drop_last()
    } else {
        l
    }
}

/// The lines of the bytes from `i` on, as `str::lines` splits a text: at
/// each `\n`, dropping a `\r` right before it; a final line ending adds no
/// empty line.  (`\n` and `\r` are single bytes in UTF-8 and occur in no
/// other character's encoding.)
pub open spec fn lines_from(b: Seq<u8>, i: int) -> Seq<Seq<u8>>
    decreases b.len() - i,
{
    if i < 0 || i >= b.len() {
        Seq::empty()
    } else {
        proof {
            lemma_line_end(b, i);
        }
        let k = line_end(b, i);
        if k < b.len() {
            seq![strip_cr(b.subrange(i, k))] + lines_from(b, k + 1)
        } else {
            seq![b.subrange(i, b.len() as int)]
        }
    }
}

/// Lines joined with `\n` between them.
pub open spec fn join_lines(ls: Seq<Seq<u8>>) -> Seq<u8>
    decreases ls.len(),
{
    if ls.len() == 0 {
        Seq::empty()
    } else if ls.len() == 1 {
        ls[0]
    } else {
        join_lines(ls.drop_last()) + seq![10u8] + ls.last()
    }
}

/// The bytes of a card's preview: the first `PREVIEW_LINES` lines of the
/// text, joined with `\n`.
pub open spec fn preview_bytes(b: Seq<u8>) -> Seq<u8> {
    let ls = lines_from(b, 0);
    join_lines(
        if ls.len() <= PREVIEW_LINES {
            ls
        } else {
            ls.take(PREVIEW_LINES as int)
        },
    )
}

/// The preview text of a text.
pub open spec fn preview_of(text: Seq<char>) -> Seq<char> {
    decode_utf8(preview_bytes(encode_utf8(text)))
}

fn find_newline(b: &[u8], from: usize) -> (k: usize)
    requires
        from <= b@.len(),
    ensures
        k == line_end(b@, from as int),
{
    let mut k = from;
    while k < b.len() && b[k] != 10
        invariant
            from <= k <= b@.len(),
            line_end(b@, from as int) == line_end(b@, k as int),
        decreases b@.len() - k,
    {
        k = k + 1;
    }
    k
}

fn push_range(out: &mut Vec<u8>, b: &[u8], from: usize, to: usize)
    requires
        from <= to <= b@.len(),
    ensures
        final(out)@ == old(out)@ + b@.subrange(from as int, to as int),
{
    let mut k = from;
    while k < to
        invariant
            from <= k <= to,
            to <= b@.len(),
            out@ == old(out)@ + b@.subrange(from as int, k as int),
        decreases to - k,
    {
        out.push(b[k]);
        k = k + 1;
        assert(out@ =~= old(out)@ + b@.subrange(from as int, k as int));
    }
}

/// The end of the line `[from, k)` once a `\r` ending it is dropped, when
/// the line is ended by the `\n` at `k`.
fn line_stop(b: &[u8], from: usize, k: usize) -> (e: usize)
    requires
        from <= k <= b@.len(),
    ensures
        from <= e <= k,
        b@.subrange(from as int, e as int) == if k < b@.len() {
            strip_cr(b@.subrange(from as int, k as int))
        } else {
            b@.subrange(from as int, k as int)
        },
{
    if k < b.len() && k > from && b[k - 1] == 13 {
        assert(b@.subrange(from as int, k as int).drop_last() =~= b@.subrange(
            from as int,
            (k - 1) as int,
        ));
        k - 1
    } else {
        k
    }
}

/// The line `[from, e)` of valid UTF-8 bytes is valid UTF-8, when it starts
/// at the beginning or after a `\n`, and ends at the end, at a `\n`, or at
/// a `\r` before a `\n`.
proof fn lemma_line_valid(b: Seq<u8>, from: int, k: int, e: int)
    requires
        valid_utf8(b.skip(from)),
        0 <= from <= e <= k <= b.len(),
        k < b.len() ==> b[k] == 10,
        k == b.len() ==> e == k,
        e == k || (e == k - 1 && b[e] == 13),
    ensures
        valid_utf8(b.subrange(from, e)),
{
    let r = b.skip(from);
    if k < b.len() {
        lemma_split_at_ascii(r, k - from);
        assert(r.take(k - from) =~= b.subrange(from, k));
        if e < k {
            lemma_split_at_ascii(b.subrange(from, k), e - from);
            assert(b.subrange(from, k).take(e - from) =~= b.subrange(from, e));
        }
    } else {
        assert(r =~= b.subrange(from, e));
    }
}

/// The preview of text bytes with one line, or with a line ending that
/// closes the text.
proof fn lemma_preview_one_line(bs: Seq<u8>, k1: int, e1: int)
    requires
        bs.len() > 0,
        k1 == line_end(bs, 0),
        !(k1 < bs.len() && k1 + 1 < bs.len()),
        0 <= e1 <= k1,
        bs.subrange(0, e1) == if k1 < bs.len() {
            strip_cr(bs.subrange(0, k1))
        } else {
            bs.subrange(0, k1)
        },
    ensures
        preview_bytes(bs) == bs.subrange(0, e1),
{
    lemma_line_end(bs, 0);
    let ls = lines_from(bs, 0);
    if k1 < bs.len() {
        assert(lines_from(bs, k1 + 1) =~= Seq::<Seq<u8>>::empty());
    }
    assert(ls =~= seq![bs.subrange(0, e1)]);
}

/// The preview of text bytes with at least two lines.
proof fn lemma_preview_two_lines(bs: Seq<u8>, k1: int, e1: int, k2: int, e2: int)
    requires
        k1 == line_end(bs, 0),
        k1 + 1 < bs.len(),
        0 <= e1 <= k1,
        bs.subrange(0, e1) == strip_cr(bs.subrange(0, k1)),
        k2 == line_end(bs, k1 + 1),
        k1 + 1 <= e2 <= k2,
        bs.subrange(k1 + 1, e2) == if k2 < bs.len() {
            strip_cr(bs.subrange(k1 + 1, k2))
        } else {
            bs.subrange(k1 + 1, k2)
        },
    ensures
        preview_bytes(bs) == bs.subrange(0, e1) + seq![10u8] + bs.subrange(k1 + 1, e2),
{
    lemma_line_end(bs, 0);
    lemma_line_end(bs, k1 + 1);
    let first = bs.subrange(0, e1);
    let second = bs.subrange(k1 + 1, e2);
    let ls = lines_from(bs, 0);
    let rest = lines_from(bs, k1 + 1);
    assert(rest.len() >= 1);
    assert(rest[0] == second);
    assert(ls =~= seq![first] + rest);
    let two = ls.take(2);
    assert(two =~= seq![first, second]);
    assert(two.drop_last() =~= seq![first]);
    assert(join_lines(seq![first]) == first);
    assert(join_lines(two) == first + seq![10u8] + second);
    if ls.len() <= 2 {
        assert(ls =~= two);
    }
}

/// The preview bytes of valid UTF-8 are valid UTF-8.
proof fn lemma_preview_valid(bs: Seq<u8>, k1: int, e1: int, k2: int, e2: int)
    requires
        valid_utf8(bs),
        k1 == line_end(bs, 0),
        k1 + 1 < bs.len(),
        0 <= e1 <= k1,
        e1 == k1 || (e1 == k1 - 1 && bs[e1] == 13),
        k2 == line_end(bs, k1 + 1),
        k1 + 1 <= e2 <= k2,
        k2 == bs.len() ==> e2 == k2,
        e2 == k2 || (e2 == k2 - 1 && bs[e2] == 13),
    ensures
        valid_utf8(bs.subrange(0, e1) + seq![10u8] + bs.subrange(k1 + 1, e2)),
{
    lemma_line_end(bs, 0);
    lemma_line_end(bs, k1 + 1);
    assert(bs.skip(0) =~= bs);
    lemma_line_valid(bs, 0, k1, e1);
    lemma_split_at_ascii(bs, k1);
    lemma_line_valid(bs, k1 + 1, k2, e2);
    lemma_ascii_byte_valid(10u8);
    vstd::utf8::valid_utf8_concat(bs.subrange(0, e1), seq![10u8]);
    vstd::utf8::valid_utf8_concat(bs.subrange(0, e1) + seq![10u8], bs.subrange(k1 + 1, e2));
}

/// The preview of a text: its first `PREVIEW_LINES` lines, joined with
/// `\n`.
pub fn preview_text(text: &str) -> (preview: String)
    ensures
        preview@ == preview_of(text@),
        encode_utf8(preview@) == preview_bytes(encode_utf8(text@)),
{
    let b = text.as_bytes();
    let ghost bs = b@;
    proof {
        vstd::utf8::encode_utf8_valid_utf8(text@);
    }
    let n = b.len();
    let mut out: Vec<u8> = Vec::new();
    if n > 0 {
        let k1 = find_newline(b, 0);
        proof {
            lemma_line_end(bs, 0);
        }
        let e1 = line_stop(b, 0, k1);
        push_range(&mut out, b, 0, e1);
        assert(out@ =~= bs.subrange(0, e1 as int));
        if k1 < n && k1 + 1 < n {
            let k2 = find_newline(b, k1 + 1);
            proof {
                lemma_line_end(bs, k1 + 1);
            }
            let e2 = line_stop(b, k1 + 1, k2);
            out.push(10u8);
            push_range(&mut out, b, k1 + 1, e2);
            assert(out@ =~= bs.subrange(0, e1 as int) + seq![10u8] + bs.subrange(
                k1 + 1,
                e2 as int,
            ));
            proof {
                lemma_preview_two_lines(bs, k1 as int, e1 as int, k2 as int, e2 as int);
                lemma_preview_valid(bs, k1 as int, e1 as int, k2 as int, e2 as int);
            }
        } else {
            proof {
                lemma_preview_one_line(bs, k1 as int, e1 as int);
                assert(bs.skip(0) =~= bs);
                lemma_line_valid(bs, 0, k1 as int, e1 as int);
            }
        }
    } else {
        proof {
            reveal_with_fuel(valid_utf8, 1);
            assert(out@ =~= Seq::<u8>::empty());
            assert(lines_from(bs, 0) =~= Seq::<Seq<u8>>::empty());
        }
    }
    assert(out@ == preview_bytes(bs));
    assert(valid_utf8(out@));
    match strict_text(out.as_slice()) {
        Some(t) => {
            proof {
                vstd::utf8::decode_utf8_encode_utf8(out@);
            }
            t
        },
        None => {
            assert(false);
            String::new()
        },
    }
}

/// The label of a card's pin button.
pub open spec fn pin_label_of(pinned: bool) -> Seq<char> {
    if pinned {
        "📍"@
    } else {
        "📌"@
    }
}

/// The label of a card's pin button: a round pin when pinned, a pushpin
/// otherwise.
pub fn pin_label(pinned: bool) -> (label: String)
    ensures
        label@ == pin_label_of(pinned),
{
    if pinned {
        "📍".to_owned()
    } else {
        "📌".to_owned()
    }
}

/// What a card shows of its entry.
pub enum CardContent {
    /// An image entry: its thumbnail, if it has one.
    Image { thumbnail: Option<Vec<u8>> },
    /// Any other entry: the preview of its content read as text.
    Text { preview: String },
}

/// One row of the popup.
pub struct Card {
    pub id: i64,
    pub content: CardContent,
    pub pinned: bool,
    pub pin_label: String,
}

/// The card of an entry.
pub fn card_for(entry: &ClipboardEntry) -> (card: Card)
    ensures
        card.id == entry.id,
        card.pinned == entry.pinned,
        card.pin_label@ == pin_label_of(entry.pinned),
        entry.entry_type@ == "image"@ ==> (card.content matches CardContent::Image { thumbnail }
            && vec_bytes_opt(thumbnail) == vec_bytes_opt(entry.thumbnail)),
        entry.entry_type@ != "image"@ ==> (card.content matches CardContent::Text { preview }
            && preview@ == preview_of(utf8_lossy(entry.content@))),
{
    let image_type = "image".to_owned();
    let content = if entry.entry_type == image_type {
        let thumbnail = match &entry.thumbnail {
            Some(t) => Some(vstd::slice::slice_to_vec(t.as_slice())),
            None => None,
        };
        CardContent::Image { thumbnail }
    } else {
        let text = lossy_text(entry.content.as_slice());
        CardContent::Text { preview: preview_text(text.as_str()) }
    };
    Card { id: entry.id, content, pinned: entry.pinned, pin_label: pin_label(entry.pinned) }
}

/// What activating a row does: tell the daemon to put the entry on the
/// clipboard, and paste it into the window that was active before the
/// popup, if there was one.
pub struct Activation {
    /// The hash of the entry, recorded as injected before the clipboard
    /// changes.
    pub hash: String,
    /// The message sent to the daemon.
    pub message: String,
    /// The window to paste into.
    pub paste_target: Option<String>,
}

/// The characters of an optional string.
pub open spec fn string_opt(o: Option<String>) -> Option<Seq<char>> {
    match o {
        Some(v) => Some(v@),
        None => None,
    }
}

/// The activation of the row at `index` of the listed entries, if there is
/// such a row.
pub fn activate_row(entries: &[ClipboardEntry], index: i32, prev_window_id: &Option<String>) -> (a:
    Option<Activation>)
    ensures
        a is Some <==> 0 <= index < entries@.len(),
        a matches Some(act) ==> {
            &&& act.hash@ == entry_hash(
                entries@[index as int].content@,
                entries@[index as int].entry_type@,
            )
            &&& act.message@ == set_message_text(act.hash@)
            &&& string_opt(act.paste_target) == string_opt(*prev_window_id)
        },
{
    if index < 0 || index as usize >= entries.len() {
        return None;
    }
    let entry = &entries[index as usize];
    let hash = content_hash(entry.content.as_slice(), entry.entry_type.as_str());
    let message = set_message(hash.as_str());
    let paste_target = match prev_window_id {
        Some(w) => Some(w.clone()),
        None => None,
    };
    Some(Activation { hash, message, paste_target })
}

/// Where the popup goes on a monitor of the given size: its bottom right
/// corner `POPUP_RIGHT_MARGIN` and `POPUP_BOTTOM_MARGIN` pixels from the
/// monitor's.
pub fn popup_position(width: i32, height: i32) -> (pos: (i32, i32))
    requires
        width >= i32::MIN + POPUP_WIDTH + POPUP_RIGHT_MARGIN,
        height >= i32::MIN + POPUP_HEIGHT + POPUP_BOTTOM_MARGIN,
    ensures
        pos.0 == width - POPUP_WIDTH - POPUP_RIGHT_MARGIN,
        pos.1 == height - POPUP_HEIGHT - POPUP_BOTTOM_MARGIN,
{
    (width - POPUP_WIDTH - POPUP_RIGHT_MARGIN, height - POPUP_HEIGHT - POPUP_BOTTOM_MARGIN)
}

} // verus!
