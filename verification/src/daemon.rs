//! The clipboard watcher: what it records when the clipboard changes, how it
//! avoids recording what it put on the clipboard itself, and what it puts on
//! the clipboard when the popup asks for an entry.

use vstd::prelude::*;
use vstd::utf8::{decode_utf8, encode_utf8, valid_utf8};
use crate::clock::is_rfc3339_instant;
use crate::database::{slice_bytes_opt, vec_bytes_opt, Database, DbError};
use crate::hashing::{content_hash, entry_hash};
use crate::imaging::{
    decode_image, encode_image, encoded_image, fits_scaled, image_decodes, image_size, resize_image,
    ImageEncoding, ImageOrigin, ResizeFilter,
};
use crate::like::search_too_long;
use crate::model::{history, record, record_fails, EntryView};
use crate::protocol::{command_hash, command_window, is_set_command, parse_set_command};
use crate::text::{lossy_text, utf8_lossy};
use crate::ui::string_opt;

verus! {

/// The width and height that a thumbnail fits in.
pub const THUMBNAIL_SIZE: u32 = 128;

/// The thumbnail of image bytes: the image scaled with the Lanczos3 filter
/// to fit `THUMBNAIL_SIZE` pixels square, encoded as PNG; none when the
/// bytes do not decode as an image or the thumbnail does not encode.
pub open spec fn thumbnail_of(content: Seq<u8>) -> Option<Seq<u8>> {
    if image_decodes(content) {
        encoded_image(thumbnail_origin(content), ImageEncoding::Png)
    } else {
        None
    }
}

/// The thumbnail image of image bytes, before it is encoded: the decoded
/// image scaled with the Lanczos3 filter to fit `THUMBNAIL_SIZE` square.
pub open spec fn thumbnail_origin(content: Seq<u8>) -> ImageOrigin {
    ImageOrigin::Resized(
        Box::new(ImageOrigin::Decoded(content)),
        THUMBNAIL_SIZE,
        THUMBNAIL_SIZE,
        ResizeFilter::Lanczos3,
    )
}

/// Where the bytes decode to an image with no zero side, its thumbnail
/// image fits `THUMBNAIL_SIZE` square, is `THUMBNAIL_SIZE` on its longer
/// side and keeps the aspect ratio up to rounding.
pub open spec fn thumbnail_fits(content: Seq<u8>) -> bool {
    let size = image_size(ImageOrigin::Decoded(content));
    image_decodes(content) && size.0 >= 1 && size.1 >= 1 ==> fits_scaled(
        size,
        image_size(thumbnail_origin(content)),
        THUMBNAIL_SIZE,
        THUMBNAIL_SIZE,
    )
}

/// The thumbnail of an image (see `thumbnail_of`).
pub fn make_thumbnail(content: &[u8]) -> (thumb: Option<Vec<u8>>)
    ensures
        vec_bytes_opt(thumb) == thumbnail_of(content@),
        image_decodes(content@) ==> vec_bytes_opt(thumb) == encoded_image(
            ImageOrigin::Resized(Box::new(ImageOrigin::Decoded(content@)), 128, 128, ResizeFilter::Lanczos3),
            ImageEncoding::Png,
        ),
        !image_decodes(content@) ==> thumb is None,
        thumbnail_fits(content@),
{
    match decode_image(content) {
        Some(img) => {
            let small = resize_image(&img, THUMBNAIL_SIZE, THUMBNAIL_SIZE, ResizeFilter::Lanczos3);
            encode_image(&small, ImageEncoding::Png)
        },
        None => None,
    }
}

/// A clipboard change with hash `h` is recorded unless `h` is the hash of
/// what was last put on the clipboard by the program.
pub open spec fn admits(injected: Option<Seq<char>>, h: Seq<char>) -> bool {
    injected != Some(h)
}

/// The mark of what was last injected, after a change with hash `h`: a
/// change that matched it clears it.
pub open spec fn mark_after(injected: Option<Seq<char>>, h: Seq<char>) -> Option<Seq<char>> {
    if injected == Some(h) {
        None
    } else {
        injected
    }
}

/// The entry type of text clipboard content.
pub open spec fn text_type() -> Seq<char> {
    "text"@
}

/// The entry type of image clipboard content.
pub open spec fn image_type() -> Seq<char> {
    "image"@
}

/// `k` is the first position of `s` that holds the hash `h`.
pub open spec fn first_with_hash(s: Seq<EntryView>, h: Seq<char>, k: int) -> bool {
    &&& 0 <= k < s.len()
    &&& s[k].content_hash == h
    &&& forall|j: int| 0 <= j < k ==> (#[trigger] s[j]).content_hash != h
}

/// Putting the listed entry with hash `h` on the clipboard, with the
/// injection mark going from `before` to `after` and `text` set on the
/// clipboard: the first listed entry with that hash, if it is text, gives its
/// content read as UTF-8 (malformed sequences replaced) and marks `h`;
/// otherwise nothing happens.
pub open spec fn injects(
    s: Seq<EntryView>,
    h: Seq<char>,
    before: Option<Seq<char>>,
    after: Option<Seq<char>>,
    text: Option<Seq<char>>,
) -> bool {
    let hs = history(s, None);
    match text {
        Some(t) => exists|k: int|
            #[trigger] first_with_hash(hs, h, k) && hs[k].entry_type == text_type() && t
                == utf8_lossy(hs[k].content) && (valid_utf8(hs[k].content) ==> t == decode_utf8(
                hs[k].content,
            )) && after == Some(h),
        None => after == before && forall|k: int|
            #[trigger] first_with_hash(hs, h, k) ==> hs[k].entry_type != text_type(),
    }
}

/// What the daemon does on a command: the text it puts on the clipboard,
/// and the window it then pastes into.
pub struct SetOutcome {
    pub clipboard_text: Option<String>,
    pub paste_into: Option<String>,
}

/// The clipboard watcher's state.
pub struct Daemon {
    last_injected_hash: Option<String>,
}

impl View for Daemon {
    type V = Option<Seq<char>>;

    closed spec fn view(&self) -> Option<Seq<char>> {
        match self.last_injected_hash {
            Some(h) => Some(h@),
            None => None,
        }
    }
}

impl Daemon {
    /// A watcher that has injected nothing.
    pub fn new() -> (d: Daemon)
        ensures
            d@ is None,
    {
        Daemon { last_injected_hash: None }
    }

    /// The hash under which content of the given type is stored.
    pub fn calculate_hash(content: &[u8], entry_type: &str) -> (hash: String)
        ensures
            hash@ == entry_hash(content@, entry_type@),
            hash@.len() == 64,
    {
        content_hash(content, entry_type)
    }

    /// Marks `hash` as the hash of what the program puts on the clipboard,
    /// so that the change it causes is not recorded.
    pub fn set_last_injected_hash(&mut self, hash: String)
        ensures
            final(self)@ == Some(hash@),
    {
        self.last_injected_hash = Some(hash);
    }

    /// Whether a clipboard change with this hash is to be recorded; a change
    /// that matches the mark clears it instead.
    pub fn admit_change(&mut self, hash: &String) -> (record: bool)
        ensures
            record == admits(old(self)@, hash@),
            final(self)@ == mark_after(old(self)@, hash@),
            final(self)@ is None || final(self)@ == old(self)@,
            old(self)@ is None ==> record && final(self)@ is None,
    {
        let matches = match &self.last_injected_hash {
            Some(h) => *h == *hash,
            None => false,
        };
        if matches {
            self.last_injected_hash = None;
            false
        } else {
            true
        }
    }

    /// Handles new text on the clipboard: records it as a `text` entry
    /// unless it is what the program injected.  Answers whether it was
    /// recorded.
    pub fn handle_text(&mut self, db: &mut Database, text: &str) -> (r: Result<bool, DbError>)
        requires
            old(db).wf(),
        ensures
            final(db).wf(),
            final(self)@ == mark_after(old(self)@, entry_hash(encode_utf8(text@), text_type())),
            !admits(old(self)@, entry_hash(encode_utf8(text@), text_type())) ==> r == Ok::<
                bool,
                DbError,
            >(false) && final(db)@ == old(db)@,
            admits(old(self)@, entry_hash(encode_utf8(text@), text_type())) ==> match r {
                Ok(recorded) => recorded && !record_fails(
                    old(db)@,
                    encode_utf8(text@),
                    text_type(),
                ) && exists|ts: Seq<char>|
                    is_rfc3339_instant(ts) && final(db)@ == #[trigger] record(
                        old(db)@,
                        encode_utf8(text@),
                        None,
                        text_type(),
                        ts,
                    ),
                Err(DbError::IdsExhausted) => record_fails(
                    old(db)@,
                    encode_utf8(text@),
                    text_type(),
                ) && final(db)@ == old(db)@,
                Err(DbError::ClockUnavailable) => final(db)@ == old(db)@,
                Err(_) => false,
            },
    {
        let content = text.as_bytes();
        let entry_type = "text";
        proof {
            reveal_strlit("text");
        }
        let hash = content_hash(content, entry_type);
        if !self.admit_change(&hash) {
            return Ok(false);
        }
        match db.add_entry(content, None, entry_type) {
            Ok(()) => Ok(true),
            Err(e) => Err(e),
        }
    }

    /// Handles a new image on the clipboard, given as PNG bytes: records it
    /// as an `image` entry with its thumbnail unless it is what the program
    /// injected.  Answers whether it was recorded.
    pub fn handle_image(&mut self, db: &mut Database, png: &[u8]) -> (r: Result<bool, DbError>)
        requires
            old(db).wf(),
        ensures
            final(db).wf(),
            final(self)@ == mark_after(old(self)@, entry_hash(png@, image_type())),
            !admits(old(self)@, entry_hash(png@, image_type())) ==> r == Ok::<bool, DbError>(false)
                && final(db)@ == old(db)@,
            admits(old(self)@, entry_hash(png@, image_type())) ==> match r {
                Ok(recorded) => recorded && !record_fails(old(db)@, png@, image_type())
                    && thumbnail_fits(png@) && exists|
                    ts: Seq<char>,
                |
                    is_rfc3339_instant(ts) && final(db)@ == #[trigger] record(
                        old(db)@,
                        png@,
                        thumbnail_of(png@),
                        image_type(),
                        ts,
                    ),
                Err(DbError::IdsExhausted) => record_fails(old(db)@, png@, image_type())
                    && final(db)@ == old(db)@,
                Err(DbError::ClockUnavailable) => final(db)@ == old(db)@,
                Err(_) => false,
            },
    {
        let entry_type = "image";
        proof {
            reveal_strlit("image");
        }
        let hash = content_hash(png, entry_type);
        if !self.admit_change(&hash) {
            return Ok(false);
        }
        let thumbnail = make_thumbnail(png);
        let thumb_slice: Option<&[u8]> = match &thumbnail {
            Some(t) => Some(t.as_slice()),
            None => None,
        };
        assert(slice_bytes_opt(thumb_slice) == vec_bytes_opt(thumbnail));
        match db.add_entry(png, thumb_slice, entry_type) {
            Ok(()) => Ok(true),
            Err(e) => Err(e),
        }
    }

    /// Puts the listed entry with the given hash on the clipboard, if it is
    /// text: marks the hash as injected and answers the text to set (the
    /// content read as UTF-8, malformed sequences replaced).  Other entries,
    /// and hashes that are not listed, change nothing.
    pub fn set_clipboard_from_db(&mut self, db: &Database, hash: String) -> (text: Option<String>)
        ensures
            injects(db@, hash@, old(self)@, final(self)@, string_opt(text)),
    {
        let listed = match db.get_history(None) {
            Ok(v) => v,
            Err(_) => {
                assert(!search_too_long(None));
                return None;
            },
        };
        let ghost hs = history(db@, None);
        assert(crate::database::view_all(listed@) == hs);
        let n = listed.len();
        let mut i: usize = 0;
        while i < n && !(listed[i].content_hash == hash)
            invariant
                0 <= i <= n,
                n == listed@.len(),
                crate::database::view_all(listed@) == hs,
                forall|j: int| 0 <= j < i ==> (#[trigger] hs[j]).content_hash != hash@,
            decreases n - i,
        {
            assert(hs[i as int] == listed@[i as int]@);
            i = i + 1;
        }
        if i == n {
            return None;
        }
        assert(hs[i as int] == listed@[i as int]@);
        assert(first_with_hash(hs, hash@, i as int));
        assert forall|k: int| #[trigger] first_with_hash(hs, hash@, k) implies k == i by {
            if k < i {
                assert(hs[k].content_hash != hash@);
            } else if k > i {
                assert(hs[i as int].content_hash != hash@);
            }
        }
        let text_name = "text".to_owned();
        proof {
            reveal_strlit("text");
        }
        if listed[i].entry_type == text_name {
            let text = lossy_text(listed[i].content.as_slice());
            self.set_last_injected_hash(hash);
            Some(text)
        } else {
            None
        }
    }

    /// Handles a command read from the daemon's socket: puts the entry with
    /// the command's hash on the clipboard (see `set_clipboard_from_db`),
    /// and, when that put text there, answers the command's window to paste
    /// into after `PASTE_DELAY_MS`.  Anything else is ignored.
    pub fn handle_set_command(&mut self, db: &Database, command: &str) -> (outcome: SetOutcome)
        ensures
            !is_set_command(command@) ==> outcome.clipboard_text is None
                && outcome.paste_into is None && final(self)@ == old(self)@,
            is_set_command(command@) ==> injects(
                db@,
                command_hash(command@),
                old(self)@,
                final(self)@,
                string_opt(outcome.clipboard_text),
            ) && string_opt(outcome.paste_into) == if outcome.clipboard_text is Some {
                command_window(command@)
            } else {
                None
            },
    {
        match parse_set_command(command) {
            None => SetOutcome { clipboard_text: None, paste_into: None },
            Some(cmd) => {
                let text = self.set_clipboard_from_db(db, cmd.hash);
                let paste_into = match text {
                    Some(_) => cmd.window_id,
                    None => None,
                };
                SetOutcome { clipboard_text: text, paste_into }
            },
        }
    }
}

/// After the program marks what it injects, the change that this causes is
/// not recorded, and the next change with the same content is.
pub proof fn law_injected_change_skipped_once(h: Seq<char>)
    ensures
        !admits(Some(h), h),
        mark_after(Some(h), h) is None,
        admits(mark_after(Some(h), h), h),
{
}

/// A change with other content is recorded and leaves the mark in place.
pub proof fn law_other_change_keeps_mark(h: Seq<char>, other: Seq<char>)
    requires
        other != h,
    ensures
        admits(Some(h), other),
        mark_after(Some(h), other) == Some(h),
{
}

/// Without a mark, a clipboard change is recorded and leaves no mark: only
/// the program's own injection sets one, so with no injection every change
/// is recorded, a repeat of an earlier one too.
pub proof fn law_unmarked_changes_are_recorded(h1: Seq<char>, h2: Seq<char>)
    ensures
        admits(None, h1),
        mark_after(None, h1) is None,
        admits(mark_after(None, h1), h2),
        admits(mark_after(mark_after(None, h1), h2), h1),
{
}

/// A clipboard change never sets a mark: afterwards the mark is cleared or
/// is the one before.
pub proof fn law_changes_never_set_a_mark(m: Option<Seq<char>>, h: Seq<char>)
    ensures
        mark_after(m, h) is None || mark_after(m, h) == m,
{
}

/// Every image that decodes gets a thumbnail: the decoded image scaled with
/// the Lanczos3 filter to fit 128 pixels square and encoded as PNG, whatever
/// the size of the image bytes; bytes that do not decode get none.
pub proof fn law_every_decodable_image_gets_its_thumbnail(content: Seq<u8>)
    ensures
        image_decodes(content) ==> thumbnail_of(content) == encoded_image(
            ImageOrigin::Resized(Box::new(ImageOrigin::Decoded(content)), 128, 128, ResizeFilter::Lanczos3),
            ImageEncoding::Png,
        ),
        !image_decodes(content) ==> thumbnail_of(content) is None,
{
}

} // verus!
