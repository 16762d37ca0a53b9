//! Text from bytes: strict and lossy UTF-8 decoding, whitespace trimming,
//! and facts about ASCII bytes inside UTF-8.

use vstd::prelude::*;
use vstd::utf8::{decode_utf8, valid_utf8};

verus! {

/// `String::from_utf8_lossy` of the bytes.
pub uninterp spec fn utf8_lossy(bytes: Seq<u8>) -> Seq<char>;

/// Calls `String::from_utf8_lossy`.  Valid UTF-8 decodes as itself; how
/// malformed sequences are replaced by U+FFFD is named by `utf8_lossy` and
/// not stated.
#[verifier::external_body]
pub fn lossy_text(bytes: &[u8]) -> (text: String)
    ensures
        text@ == utf8_lossy(bytes@),
        valid_utf8(bytes@) ==> text@ == decode_utf8(bytes@),
{
    String::from_utf8_lossy(bytes).into_owned()
}

/// Calls `String::from_utf8`, which accepts exactly the valid UTF-8 byte
/// sequences and decodes them.
#[verifier::external_body]
pub fn strict_text(bytes: &[u8]) -> (text: Option<String>)
    ensures
        text is Some <==> valid_utf8(bytes@),
        text matches Some(t) ==> t@ == decode_utf8(bytes@),
{
    String::from_utf8(bytes.to_vec()).ok()
}

/// The characters with the Unicode `White_Space` property.
pub open spec fn is_white_space(c: char) -> bool {
    let v = c as u32;
    ||| 0x09 <= v <= 0x0d
    ||| v == 0x20
    ||| v == 0x85
    ||| v == 0xa0
    ||| v == 0x1680
    ||| 0x2000 <= v <= 0x200a
    ||| v == 0x2028
    ||| v == 0x2029
    ||| v == 0x202f
    ||| v == 0x205f
    ||| v == 0x3000
}

/// The number of leading white-space characters.
pub open spec fn leading_ws(s: Seq<char>) -> int
    decreases s.len(),
{
    if s.len() == 0 {
        0
    } else if is_white_space(s[0]) {
        1 + leading_ws(s.drop_first())
    } else {
        0
    }
}

/// The number of trailing white-space characters.
pub open spec fn trailing_ws(s: Seq<char>) -> int
    decreases s.len(),
{
    if s.len() == 0 {
        0
    } else if is_white_space(s.last()) {
        1 + trailing_ws(s.drop_last())
    } else {
        0
    }
}

/// The text without its leading and trailing white space.
pub open spec fn trim_ws(s: Seq<char>) -> Seq<char> {
    let t = s.skip(leading_ws(s));
    t.take(t.len() - trailing_ws(t))
}

/// Calls `str::trim`, which removes the leading and trailing characters with
/// the Unicode `White_Space` property.
#[verifier::external_body]
pub fn trim_text(s: &str) -> (t: &str)
    ensures
        t@ == trim_ws(s@),
{
    s.trim()
}

/// An ASCII byte in valid UTF-8 stands alone: what comes before it and what
/// comes after it are valid UTF-8 too.
pub proof fn lemma_split_at_ascii(b: Seq<u8>, k: int)
    requires
        valid_utf8(b),
        0 <= k < b.len(),
        b[k] < 0x80,
    ensures
        valid_utf8(b.take(k)),
        valid_utf8(b.skip(k + 1)),
{
    vstd::utf8::is_char_boundary_iff_not_is_continuation_byte(b, k);
    vstd::utf8::valid_utf8_split(b, k);
    assert(b.take(k) =~= b.subrange(0, k));
    let rest = b.subrange(k, b.len() as int);
    reveal_with_fuel(valid_utf8, 2);
    assert(vstd::utf8::pop_first_scalar(rest) =~= b.skip(k + 1));
}

/// A single ASCII byte is valid UTF-8.
pub proof fn lemma_ascii_byte_valid(x: u8)
    requires
        x < 0x80,
    ensures
        valid_utf8(seq![x]),
{
    reveal_with_fuel(valid_utf8, 2);
    assert(vstd::utf8::pop_first_scalar(seq![x]) =~= Seq::<u8>::empty());
}

} // verus!
