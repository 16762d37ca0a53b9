//! The search filter of history listings: `content LIKE '%<search>%'` with
//! the semantics of SQLite's LIKE operator.
//!
//! Both the content and the pattern are read as text up to their first NUL
//! byte, and decoded into characters the way SQLite reads UTF-8: a byte at or
//! above 0xC0 starts a character that takes in every following continuation
//! byte, and reads as U+FFFD when its value is below 0x80, a surrogate,
//! U+FFFE or U+FFFF; any other byte is a character of its own value.
//! `%` matches any run of characters, `_` any one character, and other
//! characters match themselves, ASCII letters regardless of case.  A pattern
//! longer than `LIKE_PATTERN_LIMIT` bytes is refused.

use vstd::prelude::*;
use vstd::utf8::{
    decode_first_scalar, decode_utf8, encode_utf8, length_of_first_scalar, pop_first_scalar, valid_first_scalar,
    valid_utf8,
};

verus! {

/// The longest LIKE pattern, in bytes, that is accepted.
pub const LIKE_PATTERN_LIMIT: usize = 50000;

/// The position of the first NUL byte at or after `i`, or the length.
pub open spec fn nul_pos(b: Seq<u8>, i: int) -> int
    decreases b.len() - i,
{
    if i < 0 || i >= b.len() {
        b.len() as int
    } else if b[i] == 0 {
        i
    } else {
        nul_pos(b, i + 1)
    }
}

/// The bytes that are read as text: those before the first NUL byte.
pub open spec fn text_part(b: Seq<u8>) -> Seq<u8> {
    b.take(nul_pos(b, 0))
}

/// A continuation byte: 0b10xx_xxxx.
pub open spec fn is_cont(x: u8) -> bool {
    x & 0xc0 == 0x80
}

/// The end of the run of continuation bytes that starts at `i`.
pub open spec fn cont_end(b: Seq<u8>, i: int) -> int
    decreases b.len() - i,
{
    if i < 0 || i >= b.len() || !is_cont(b[i]) {
        i
    } else {
        cont_end(b, i + 1)
    }
}

/// The payload bits of a lead byte at or above 0xC0.
pub open spec fn lead_bits(x: u8) -> u32 {
    if x < 0xe0 {
        (x & 0x1f) as u32
    } else if x < 0xf0 {
        (x & 0x0f) as u32
    } else if x < 0xf8 {
        (x & 0x07) as u32
    } else if x < 0xfc {
        (x & 0x03) as u32
    } else if x < 0xfe {
        (x & 0x01) as u32
    } else {
        0
    }
}

/// One decoding step: six more bits, in 32-bit arithmetic (the bits shifted
/// out at the top are lost).
pub open spec fn shift_in(c: u32, x: u8) -> u32 {
    ((c & 0x03ff_ffff) << 6u32) | ((x & 0x3f) as u32)
}

/// The value accumulated from the continuation bytes in `[i, j)`, starting
/// from `c`.
pub open spec fn accumulate(b: Seq<u8>, i: int, j: int, c: u32) -> u32
    decreases j - i,
{
    if j <= i {
        c
    } else {
        shift_in(accumulate(b, i, j - 1, c), b[j - 1])
    }
}

/// A decoded multi-byte value, with the values that are not characters
/// replaced by U+FFFD.
pub open spec fn settle(c: u32) -> u32 {
    if c < 0x80 || c & 0xffff_f800 == 0xd800 || c & 0xffff_fffe == 0xfffe {
        0xfffd
    } else {
        c
    }
}

pub proof fn lemma_cont_end(b: Seq<u8>, i: int)
    requires
        0 <= i <= b.len(),
    ensures
        i <= cont_end(b, i) <= b.len(),
        forall|k: int| i <= k < cont_end(b, i) ==> is_cont(#[trigger] b[k]),
        cont_end(b, i) < b.len() ==> !is_cont(b[cont_end(b, i)]),
    decreases b.len() - i,
{
    if i < b.len() && is_cont(b[i]) {
        lemma_cont_end(b, i + 1);
    }
}

/// The characters of the bytes from `i` on.
pub open spec fn decode_from(b: Seq<u8>, i: int) -> Seq<u32>
    decreases b.len() - i,
{
    if i < 0 || i >= b.len() {
        Seq::empty()
    } else if b[i] < 0xc0 {
        seq![b[i] as u32] + decode_from(b, i + 1)
    } else {
        proof {
            lemma_cont_end(b, i + 1);
        }
        let j = cont_end(b, i + 1);
        seq![settle(accumulate(b, i + 1, j, lead_bits(b[i])))] + decode_from(b, j)
    }
}

/// The characters of a value read as text.
pub open spec fn sql_text(b: Seq<u8>) -> Seq<u32> {
    decode_from(text_part(b), 0)
}

/// ASCII lower-casing of a character.
pub open spec fn ascii_lower(c: u32) -> u32 {
    if 65 <= c <= 90 {
        (c + 32) as u32
    } else {
        c
    }
}

/// A literal pattern character matches a text character: equal, or ASCII
/// letters that differ only in case.
pub open spec fn char_matches(pc: u32, sc: u32) -> bool {
    pc == sc || (pc < 0x80 && sc < 0x80 && ascii_lower(pc) == ascii_lower(sc))
}

/// The text from character `i` on matches the pattern from character `j` on.
pub open spec fn like_from(s: Seq<u32>, p: Seq<u32>, i: int, j: int) -> bool
    decreases p.len() - j, s.len() - i,
{
    if j >= p.len() {
        i >= s.len()
    } else if p[j] == 37 {
        like_from(s, p, i, j + 1) || (0 <= i < s.len() && like_from(s, p, i + 1, j))
    } else if i < 0 || i >= s.len() {
        false
    } else if p[j] == 95 || char_matches(p[j], s[i]) {
        like_from(s, p, i + 1, j + 1)
    } else {
        false
    }
}

/// `content LIKE pattern`.
pub open spec fn like_match(content: Seq<u8>, pattern: Seq<u8>) -> bool {
    like_from(sql_text(content), sql_text(pattern), 0, 0)
}

/// The pattern of a search: the search text between two `%`.
pub open spec fn search_pattern(search: Seq<char>) -> Seq<u8> {
    seq![37u8] + encode_utf8(search) + seq![37u8]
}

/// A search text too long for a LIKE pattern.
pub open spec fn search_too_long(search: Option<Seq<char>>) -> bool {
    match search {
        Some(s) => search_pattern(s).len() > LIKE_PATTERN_LIMIT,
        None => false,
    }
}

/// An entry's content is listed under the given search: always without a
/// search, else when it is LIKE the search pattern.
pub open spec fn entry_matches(content: Seq<u8>, search: Option<Seq<char>>) -> bool {
    match search {
        Some(s) => like_match(content, search_pattern(s)),
        None => true,
    }
}

// ---------------------------------------------------------------------------
// Executable matching
// ---------------------------------------------------------------------------

/// The number of bytes read as text.
fn text_len(b: &[u8]) -> (n: usize)
    ensures
        n == nul_pos(b@, 0),
        n <= b@.len(),
{
    let mut i: usize = 0;
    while i < b.len() && b[i] != 0
        invariant
            0 <= i <= b@.len(),
            nul_pos(b@, 0) == nul_pos(b@, i as int),
        decreases b@.len() - i,
    {
        i = i + 1;
    }
    i
}

fn lead_bits_of(x: u8) -> (c: u32)
    ensures
        c == lead_bits(x),
{
    if x < 0xe0 {
        (x & 0x1f) as u32
    } else if x < 0xf0 {
        (x & 0x0f) as u32
    } else if x < 0xf8 {
        (x & 0x07) as u32
    } else if x < 0xfc {
        (x & 0x03) as u32
    } else if x < 0xfe {
        (x & 0x01) as u32
    } else {
        0
    }
}

proof fn lemma_cont_end_at(b: Seq<u8>, i: int, j: int)
    requires
        0 <= i <= j <= b.len(),
        forall|k: int| i <= k < j ==> is_cont(#[trigger] b[k]),
        j == b.len() || !is_cont(b[j]),
    ensures
        cont_end(b, i) == j,
    decreases j - i,
{
    if i < j {
        lemma_cont_end_at(b, i + 1, j);
    }
}

/// The characters of `b` read as text.
pub fn sql_chars(b: &[u8]) -> (chars: Vec<u32>)
    ensures
        chars@ == sql_text(b@),
{
    let n = text_len(b);
    let ghost t = b@.take(n as int);
    let mut out: Vec<u32> = Vec::new();
    let mut i: usize = 0;
    assert(out@ + decode_from(t, 0) =~= decode_from(t, 0));
    while i < n
        invariant
            0 <= i <= n,
            n <= b@.len(),
            t == b@.take(n as int),
            decode_from(t, 0) == out@ + decode_from(t, i as int),
        decreases n - i,
    {
        let x = b[i];
        if x < 0xc0 {
            out.push(x as u32);
            i = i + 1;
            assert(decode_from(t, 0) =~= out@ + decode_from(t, i as int));
        } else {
            let mut c: u32 = lead_bits_of(x);
            let mut j: usize = i + 1;
            while j < n && b[j] & 0xc0 == 0x80
                invariant
                    i + 1 <= j <= n,
                    n <= b@.len(),
                    t == b@.take(n as int),
                    x == t[i as int],
                    c == accumulate(t, i + 1, j as int, lead_bits(x)),
                    forall|k: int| i + 1 <= k < j ==> is_cont(#[trigger] t[k]),
                decreases n - j,
            {
                c = ((c & 0x03ff_ffff) << 6u32) | ((b[j] & 0x3f) as u32);
                j = j + 1;
            }
            proof {
                lemma_cont_end_at(t, i + 1, j as int);
            }
            let v: u32 = if c < 0x80 || c & 0xffff_f800 == 0xd800 || c & 0xffff_fffe == 0xfffe {
                0xfffd
            } else {
                c
            };
            out.push(v);
            i = j;
            assert(decode_from(t, 0) =~= out@ + decode_from(t, i as int));
        }
    }
    out
}

fn ascii_lower_of(c: u32) -> (r: u32)
    ensures
        r == ascii_lower(c),
{
    if 65 <= c && c <= 90 {
        c + 32
    } else {
        c
    }
}

fn chars_match(pc: u32, sc: u32) -> (r: bool)
    ensures
        r == char_matches(pc, sc),
{
    pc == sc || (pc < 0x80 && sc < 0x80 && ascii_lower_of(pc) == ascii_lower_of(sc))
}

/// Whether the text `s` matches the pattern `p`, both as characters.
pub fn like_chars(s: &Vec<u32>, p: &Vec<u32>) -> (r: bool)
    ensures
        r == like_from(s@, p@, 0, 0),
{
    let n = s.len();
    let m = p.len();
    // `next[i]` and `next_end` describe the pattern from character `j` on,
    // for the text from character `i` on and for the empty rest of the text.
    let mut next: Vec<bool> = Vec::new();
    let mut k: usize = 0;
    while k < n
        invariant
            0 <= k <= n,
            n == s@.len(),
            next@.len() == k,
            forall|i: int| 0 <= i < k ==> next@[i] == false,
        decreases n - k,
    {
        next.push(false);
        k = k + 1;
    }
    let mut next_end = true;
    let mut j: usize = m;
    assert forall|i: int| 0 <= i < n implies next@[i] == like_from(s@, p@, i, m as int) by {}
    while j > 0
        invariant
            0 <= j <= m,
            n == s@.len(),
            m == p@.len(),
            next@.len() == n,
            forall|i: int| 0 <= i < n ==> #[trigger] next@[i] == like_from(s@, p@, i, j as int),
            next_end == like_from(s@, p@, n as int, j as int),
        decreases j,
    {
        j = j - 1;
        let pc = p[j];
        let cur_end = if pc == 37 {
            next_end
        } else {
            false
        };
        let mut cur: Vec<bool> = Vec::new();
        let mut k: usize = 0;
        while k < n
            invariant
                0 <= k <= n,
                cur@.len() == k,
            decreases n - k,
        {
            cur.push(false);
            k = k + 1;
        }
        let mut i: usize = n;
        while i > 0
            invariant
                0 <= i <= n,
                j < m,
                pc == p@[j as int],
                n == s@.len(),
                m == p@.len(),
                next@.len() == n,
                cur@.len() == n,
                forall|a: int| 0 <= a < n ==> #[trigger] next@[a] == like_from(s@, p@, a, j + 1),
                next_end == like_from(s@, p@, n as int, j + 1),
                cur_end == like_from(s@, p@, n as int, j as int),
                forall|a: int| i <= a < n ==> #[trigger] cur@[a] == like_from(s@, p@, a, j as int),
            decreases i,
        {
            i = i - 1;
            let v = if pc == 37 {
                let rest = if i + 1 == n {
                    cur_end
                } else {
                    cur[i + 1]
                };
                next[i] || rest
            } else {
                let rest = if i + 1 == n {
                    next_end
                } else {
                    next[i + 1]
                };
                (pc == 95 || chars_match(pc, s[i])) && rest
            };
            cur.set(i, v);
            assert(cur@[i as int] == like_from(s@, p@, i as int, j as int));
        }
        next = cur;
        next_end = cur_end;
    }
    if n == 0 {
        next_end
    } else {
        next[0]
    }
}

// ---------------------------------------------------------------------------
// ASCII case
// ---------------------------------------------------------------------------

/// An ASCII letter.
pub open spec fn is_ascii_letter(c: u32) -> bool {
    65 <= c <= 90 || 97 <= c <= 122
}

/// Equal, or ASCII letters that differ only in case.
pub open spec fn case_twins(x: u32, y: u32) -> bool {
    x == y || (is_ascii_letter(x) && is_ascii_letter(y) && ascii_lower(x) == ascii_lower(y))
}

/// Byte strings that differ only in the case of ASCII letters.
pub open spec fn bytes_twins(a: Seq<u8>, b: Seq<u8>) -> bool {
    a.len() == b.len() && forall|k: int| 0 <= k < a.len() ==> case_twins(#[trigger] a[k] as u32, b[k] as u32)
}

/// Character strings that differ only in the case of ASCII letters.
pub open spec fn codes_twins(a: Seq<u32>, b: Seq<u32>) -> bool {
    a.len() == b.len() && forall|k: int| 0 <= k < a.len() ==> case_twins(#[trigger] a[k], b[k])
}

/// Texts that differ only in the case of ASCII letters.
pub open spec fn texts_twins(a: Seq<char>, b: Seq<char>) -> bool {
    a.len() == b.len() && forall|k: int| 0 <= k < a.len() ==> case_twins(#[trigger] a[k] as u32, b[k] as u32)
}

proof fn lemma_letter_not_cont(x: u8)
    requires
        65 <= x <= 122,
    ensures
        !is_cont(x),
{
    assert(65 <= x <= 122 ==> x & 0xc0 != 0x80) by (bit_vector);
}

proof fn lemma_encode_twins(a: Seq<char>, b: Seq<char>)
    requires
        texts_twins(a, b),
    ensures
        bytes_twins(encode_utf8(a), encode_utf8(b)),
    decreases a.len(),
{
    if a.len() > 0 {
        let ta = a.drop_first();
        let tb = b.drop_first();
        assert(texts_twins(ta, tb)) by {
            assert forall|k: int| 0 <= k < ta.len() implies case_twins(#[trigger] ta[k] as u32, tb[k] as u32) by {
                assert(case_twins(a[k + 1] as u32, b[k + 1] as u32));
            }
        }
        lemma_encode_twins(ta, tb);
        let ha = vstd::utf8::encode_scalar(a[0] as u32);
        let hb = vstd::utf8::encode_scalar(b[0] as u32);
        assert(case_twins(a[0] as u32, b[0] as u32));
        if a[0] as u32 != b[0] as u32 {
            let x = a[0] as u32;
            let y = b[0] as u32;
            assert(ha =~= seq![(x & 0x7f) as u8]);
            assert(hb =~= seq![(y & 0x7f) as u8]);
            assert((x & 0x7f) == x) by (bit_vector)
                requires
                    x <= 0x7f,
            ;
            assert((y & 0x7f) == y) by (bit_vector)
                requires
                    y <= 0x7f,
            ;
        }
        let ea = encode_utf8(a);
        let eb = encode_utf8(b);
        assert(ea =~= ha + encode_utf8(ta));
        assert(eb =~= hb + encode_utf8(tb));
        assert(ha.len() == hb.len());
        assert forall|k: int| 0 <= k < ea.len() implies case_twins(#[trigger] ea[k] as u32, eb[k] as u32) by {
            if k >= ha.len() {
                assert(ea[k] == encode_utf8(ta)[k - ha.len()]);
                assert(eb[k] == encode_utf8(tb)[k - hb.len()]);
            }
        }
    }
}

proof fn lemma_nul_pos_twins(a: Seq<u8>, b: Seq<u8>, i: int)
    requires
        bytes_twins(a, b),
        0 <= i,
    ensures
        nul_pos(a, i) == nul_pos(b, i),
    decreases a.len() - i,
{
    if i < a.len() {
        assert(case_twins(a[i] as u32, b[i] as u32));
        lemma_nul_pos_twins(a, b, i + 1);
    }
}

proof fn lemma_cont_end_twins(a: Seq<u8>, b: Seq<u8>, i: int)
    requires
        bytes_twins(a, b),
        0 <= i <= a.len(),
    ensures
        cont_end(a, i) == cont_end(b, i),
        forall|k: int| i <= k < cont_end(a, i) ==> a[k] == b[k],
    decreases a.len() - i,
{
    if i < a.len() {
        assert(case_twins(a[i] as u32, b[i] as u32));
        if a[i] != b[i] {
            lemma_letter_not_cont(a[i]);
            lemma_letter_not_cont(b[i]);
        }
        if is_cont(a[i]) {
            lemma_cont_end_twins(a, b, i + 1);
        }
    }
}

proof fn lemma_accumulate_same(a: Seq<u8>, b: Seq<u8>, i: int, j: int, c: u32)
    requires
        0 <= i <= j <= a.len(),
        j <= b.len(),
        forall|k: int| i <= k < j ==> a[k] == b[k],
    ensures
        accumulate(a, i, j, c) == accumulate(b, i, j, c),
    decreases j - i,
{
    if i < j {
        lemma_accumulate_same(a, b, i, j - 1, c);
    }
}

proof fn lemma_decode_twins(a: Seq<u8>, b: Seq<u8>, i: int)
    requires
        bytes_twins(a, b),
        0 <= i <= a.len(),
    ensures
        codes_twins(decode_from(a, i), decode_from(b, i)),
    decreases a.len() - i,
{
    if i < a.len() {
        assert(case_twins(a[i] as u32, b[i] as u32));
        if a[i] < 0xc0 {
            lemma_decode_twins(a, b, i + 1);
            let da = decode_from(a, i);
            let db = decode_from(b, i);
            assert(b[i] < 0xc0);
            assert(da =~= seq![a[i] as u32] + decode_from(a, i + 1));
            assert(db =~= seq![b[i] as u32] + decode_from(b, i + 1));
            assert forall|k: int| 0 <= k < da.len() implies case_twins(#[trigger] da[k], db[k]) by {
                if k > 0 {
                    assert(da[k] == decode_from(a, i + 1)[k - 1]);
                    assert(db[k] == decode_from(b, i + 1)[k - 1]);
                }
            }
        } else {
            assert(a[i] == b[i]);
            lemma_cont_end(a, i + 1);
            lemma_cont_end_twins(a, b, i + 1);
            let j = cont_end(a, i + 1);
            lemma_accumulate_same(a, b, i + 1, j, lead_bits(a[i]));
            lemma_decode_twins(a, b, j);
            let da = decode_from(a, i);
            let db = decode_from(b, i);
            assert forall|k: int| 0 <= k < da.len() implies case_twins(#[trigger] da[k], db[k]) by {
                if k > 0 {
                    assert(da[k] == decode_from(a, j)[k - 1]);
                    assert(db[k] == decode_from(b, j)[k - 1]);
                }
            }
        }
    }
}

proof fn lemma_like_twins(s: Seq<u32>, p: Seq<u32>, q: Seq<u32>, i: int, j: int)
    requires
        codes_twins(p, q),
        0 <= j,
    ensures
        like_from(s, p, i, j) == like_from(s, q, i, j),
    decreases p.len() - j, s.len() - i,
{
    if j < p.len() {
        assert(case_twins(p[j], q[j]));
        if p[j] == 37 {
            lemma_like_twins(s, p, q, i, j + 1);
            if 0 <= i < s.len() {
                lemma_like_twins(s, p, q, i + 1, j);
            }
        } else if 0 <= i < s.len() {
            lemma_like_twins(s, p, q, i + 1, j + 1);
        }
    }
}

/// Whether content is LIKE a pattern does not depend on the case of the
/// pattern's ASCII letters.
pub proof fn lemma_like_ignores_ascii_case(content: Seq<u8>, p: Seq<u8>, q: Seq<u8>)
    requires
        bytes_twins(p, q),
    ensures
        like_match(content, p) == like_match(content, q),
{
    lemma_nul_pos_twins(p, q, 0);
    let n = nul_pos(p, 0);
    assert(0 <= n <= p.len()) by {
        lemma_nul_pos_bound(p, 0);
    }
    let tp = text_part(p);
    let tq = text_part(q);
    assert(bytes_twins(tp, tq)) by {
        assert forall|k: int| 0 <= k < tp.len() implies case_twins(#[trigger] tp[k] as u32, tq[k] as u32) by {
            assert(tp[k] == p[k] && tq[k] == q[k]);
        }
    }
    lemma_decode_twins(tp, tq, 0);
    lemma_like_twins(sql_text(content), sql_text(p), sql_text(q), 0, 0);
}

proof fn lemma_nul_pos_bound(b: Seq<u8>, i: int)
    requires
        0 <= i,
    ensures
        i <= nul_pos(b, i) <= b.len() || (i > b.len() && nul_pos(b, i) == b.len()),
    decreases b.len() - i,
{
    if i < b.len() && b[i] != 0 {
        lemma_nul_pos_bound(b, i + 1);
    }
}

/// The patterns of two searches that differ only in the case of ASCII
/// letters differ in the same way.
pub proof fn lemma_search_pattern_twins(a: Seq<char>, b: Seq<char>)
    requires
        texts_twins(a, b),
    ensures
        bytes_twins(search_pattern(a), search_pattern(b)),
{
    lemma_encode_twins(a, b);
    let pa = search_pattern(a);
    let pb = search_pattern(b);
    let ea = encode_utf8(a);
    let eb = encode_utf8(b);
    assert forall|k: int| 0 <= k < pa.len() implies case_twins(#[trigger] pa[k] as u32, pb[k] as u32) by {
        if 1 <= k <= ea.len() {
            assert(pa[k] == ea[k - 1] && pb[k] == eb[k - 1]);
        }
    }
}

// ---------------------------------------------------------------------------
// Plain search texts
// ---------------------------------------------------------------------------

/// A plain search text: ASCII characters other than NUL, `%` and `_`.
pub open spec fn plain_search(t: Seq<char>) -> bool {
    forall|k: int|
        0 <= k < t.len() ==> 0 < (#[trigger] t[k] as u32) < 0x80 && t[k] as u32 != 37 && t[k]
            as u32 != 95
}

/// The characters of a text as numbers.
pub open spec fn codes_of(t: Seq<char>) -> Seq<u32> {
    t.map_values(|c: char| c as u32)
}

/// `q` occurs in `s` at position `k`, ASCII letters matching regardless of
/// case.
pub open spec fn occurs_at(s: Seq<u32>, q: Seq<u32>, k: int) -> bool {
    &&& 0 <= k
    &&& k + q.len() <= s.len()
    &&& forall|j: int| 0 <= j < q.len() ==> char_matches(#[trigger] q[j], s[k + j])
}

proof fn lemma_trailing_percent(s: Seq<u32>, p: Seq<u32>, k: int)
    requires
        p.len() >= 1,
        p[p.len() - 1] == 37,
        0 <= k <= s.len(),
    ensures
        like_from(s, p, k, p.len() - 1),
    decreases s.len() - k,
{
    if k < s.len() {
        lemma_trailing_percent(s, p, k + 1);
    } else {
        assert(like_from(s, p, k, p.len() as int));
    }
}

proof fn lemma_literal_run(s: Seq<u32>, p: Seq<u32>, k: int, j: int)
    requires
        p.len() >= 2,
        p[p.len() - 1] == 37,
        1 <= j <= p.len() - 1,
        forall|t: int| 1 <= t < p.len() - 1 ==> #[trigger] p[t] != 37 && p[t] != 95,
        0 <= k <= s.len(),
    ensures
        like_from(s, p, k, j) <==> (k + (p.len() - 1 - j) <= s.len() && forall|t: int|
            0 <= t < p.len() - 1 - j ==> char_matches(#[trigger] p[j + t], s[k + t])),
    decreases p.len() - j,
{
    let m1 = p.len() - 1;
    if j == m1 {
        lemma_trailing_percent(s, p, k);
    } else {
        assert(p[j] != 37 && p[j] != 95);
        if k < s.len() {
            lemma_literal_run(s, p, k + 1, j + 1);
            if like_from(s, p, k, j) {
                assert forall|t: int| 0 <= t < m1 - j implies char_matches(
                    #[trigger] p[j + t],
                    s[k + t],
                ) by {
                    if t > 0 {
                        assert(p[(j + 1) + (t - 1)] == p[j + t]);
                        assert(s[(k + 1) + (t - 1)] == s[k + t]);
                    }
                }
            }
            if k + (m1 - j) <= s.len() && forall|t: int|
                0 <= t < m1 - j ==> char_matches(#[trigger] p[j + t], s[k + t]) {
                assert(char_matches(p[j + 0], s[k + 0]));
                assert forall|t: int| 0 <= t < m1 - (j + 1) implies char_matches(
                    #[trigger] p[(j + 1) + t],
                    s[(k + 1) + t],
                ) by {
                    assert(char_matches(p[j + (t + 1)], s[k + (t + 1)]));
                }
            }
        }
    }
}

proof fn lemma_leading_percent(s: Seq<u32>, p: Seq<u32>, i: int)
    requires
        p.len() >= 2,
        p[0] == 37,
        p[p.len() - 1] == 37,
        forall|t: int| 1 <= t < p.len() - 1 ==> #[trigger] p[t] != 37 && p[t] != 95,
        0 <= i <= s.len(),
    ensures
        like_from(s, p, i, 0) <==> exists|k: int| i <= k <= s.len() && #[trigger] like_from(s, p, k, 1),
    decreases s.len() - i,
{
    assert(like_from(s, p, i, 0) == (like_from(s, p, i, 1) || (0 <= i < s.len() && like_from(
        s,
        p,
        i + 1,
        0,
    ))));
    if i < s.len() {
        lemma_leading_percent(s, p, i + 1);
    }
    if like_from(s, p, i, 0) {
        if like_from(s, p, i, 1) {
            assert(i <= i <= s.len() && like_from(s, p, i, 1));
        } else {
            let k = choose|k: int| i + 1 <= k <= s.len() && #[trigger] like_from(s, p, k, 1);
            assert(i <= k <= s.len() && like_from(s, p, k, 1));
        }
    }
    if exists|k: int| i <= k <= s.len() && #[trigger] like_from(s, p, k, 1) {
        let k = choose|k: int| i <= k <= s.len() && #[trigger] like_from(s, p, k, 1);
        if k > i {
            assert(i + 1 <= k <= s.len() && like_from(s, p, k, 1));
            assert(like_from(s, p, i + 1, 0));
        }
    }
}

proof fn lemma_encode_ascii(t: Seq<char>)
    requires
        forall|k: int| 0 <= k < t.len() ==> (#[trigger] t[k] as u32) < 0x80,
    ensures
        encode_utf8(t) == t.map_values(|c: char| (c as u32) as u8),
    decreases t.len(),
{
    if t.len() > 0 {
        let r = t.drop_first();
        assert forall|k: int| 0 <= k < r.len() implies (#[trigger] r[k] as u32) < 0x80 by {
            assert(r[k] == t[k + 1]);
        }
        lemma_encode_ascii(r);
        let x = t[0] as u32;
        assert((x & 0x7f) == x) by (bit_vector)
            requires
                x < 0x80,
        ;
        assert(vstd::utf8::encode_scalar(x) =~= seq![(x & 0x7f) as u8]);
        assert(encode_utf8(t) =~= t.map_values(|c: char| (c as u32) as u8));
    }
}

proof fn lemma_decode_ascii(b: Seq<u8>, i: int)
    requires
        forall|k: int| 0 <= k < b.len() ==> (#[trigger] b[k]) < 0x80,
        0 <= i <= b.len(),
    ensures
        decode_from(b, i) == b.skip(i).map_values(|x: u8| x as u32),
    decreases b.len() - i,
{
    if i < b.len() {
        lemma_decode_ascii(b, i + 1);
        assert(decode_from(b, i) =~= b.skip(i).map_values(|x: u8| x as u32));
    } else {
        assert(decode_from(b, i) =~= b.skip(i).map_values(|x: u8| x as u32));
    }
}

proof fn lemma_no_nul(b: Seq<u8>, i: int)
    requires
        forall|k: int| 0 <= k < b.len() ==> #[trigger] b[k] != 0,
        0 <= i <= b.len(),
    ensures
        nul_pos(b, i) == b.len(),
    decreases b.len() - i,
{
    if i < b.len() {
        lemma_no_nul(b, i + 1);
    }
}

/// The characters of a plain search's pattern: `%`, the search text, `%`.
proof fn lemma_plain_pattern(t: Seq<char>)
    requires
        plain_search(t),
    ensures
        sql_text(search_pattern(t)) == seq![37u32] + codes_of(t) + seq![37u32],
{
    assert forall|k: int| 0 <= k < t.len() implies (#[trigger] t[k] as u32) < 0x80 by {}
    lemma_encode_ascii(t);
    let b = search_pattern(t);
    assert forall|k: int| 0 <= k < b.len() implies #[trigger] b[k] != 0 && b[k] < 0x80 by {
        if 1 <= k <= t.len() {
            assert(b[k] == (t[k - 1] as u32) as u8);
        }
    }
    lemma_no_nul(b, 0);
    assert(text_part(b) =~= b);
    lemma_decode_ascii(b, 0);
    assert(b.skip(0) =~= b);
    assert(b.map_values(|x: u8| x as u32) =~= seq![37u32] + codes_of(t) + seq![37u32]) by {
        assert forall|k: int| 1 <= k <= t.len() implies b[k] as u32 == (t[k - 1] as u32) by {
            assert(b[k] == (t[k - 1] as u32) as u8);
        }
    }
}

/// A plain search text lists the content in which it occurs, ASCII letters
/// matching regardless of case.
pub proof fn law_plain_search_is_substring(content: Seq<u8>, t: Seq<char>)
    requires
        plain_search(t),
    ensures
        entry_matches(content, Some(t)) <==> exists|k: int| #[trigger] occurs_at(
            sql_text(content),
            codes_of(t),
            k,
        ),
{
    lemma_plain_pattern(t);
    let s = sql_text(content);
    let q = codes_of(t);
    let p = seq![37u32] + q + seq![37u32];
    assert(p[0] == 37 && p[p.len() - 1] == 37);
    assert forall|j: int| 1 <= j < p.len() - 1 implies #[trigger] p[j] != 37 && p[j] != 95 by {
        assert(p[j] == q[j - 1]);
        assert(q[j - 1] == t[j - 1] as u32);
    }
    lemma_leading_percent(s, p, 0);
    if entry_matches(content, Some(t)) {
        let k = choose|k: int| 0 <= k <= s.len() && #[trigger] like_from(s, p, k, 1);
        lemma_literal_run(s, p, k, 1);
        assert forall|j: int| 0 <= j < q.len() implies char_matches(#[trigger] q[j], s[k + j]) by {
            assert(p[1 + j] == q[j]);
        }
        assert(occurs_at(s, q, k));
    }
    if exists|k: int| #[trigger] occurs_at(s, q, k) {
        let k = choose|k: int| #[trigger] occurs_at(s, q, k);
        lemma_literal_run(s, p, k, 1);
        assert forall|j: int| 0 <= j < p.len() - 2 implies char_matches(#[trigger] p[1 + j], s[k + j]) by {
            assert(p[1 + j] == q[j]);
        }
        assert(like_from(s, p, k, 1));
    }
}

// ---------------------------------------------------------------------------
// Well-formed UTF-8
// ---------------------------------------------------------------------------

/// The code points of a character sequence.
pub open spec fn code_points(t: Seq<char>) -> Seq<u32> {
    t.map_values(|c: char| c as u32)
}

proof fn lemma_cont_byte(x: u8)
    ensures
        is_cont(x) <==> 0x80 <= x <= 0xbf,
{
    assert(x & 0xc0 == 0x80 <==> 0x80 <= x <= 0xbf) by (bit_vector);
}

/// The first byte of well-formed UTF-8 is not a continuation byte.
proof fn lemma_valid_starts_with_lead(r: Seq<u8>)
    requires
        valid_utf8(r),
        r.len() > 0,
    ensures
        !is_cont(r[0]),
{
    lemma_cont_byte(r[0]);
}

/// The bytes from `i` on, where they are well-formed UTF-8 holding neither
/// U+FFFE nor U+FFFF, decode to the code points of their characters.
proof fn lemma_decode_valid_from(b: Seq<u8>, i: int)
    requires
        0 <= i <= b.len(),
        valid_utf8(b.subrange(i, b.len() as int)),
        forall|k: int|
            0 <= k < decode_utf8(b.subrange(i, b.len() as int)).len() ==> (#[trigger] decode_utf8(
                b.subrange(i, b.len() as int),
            )[k] as u32) < 0xfffe || decode_utf8(b.subrange(i, b.len() as int))[k] as u32 > 0xffff,
    ensures
        decode_from(b, i) == code_points(decode_utf8(b.subrange(i, b.len() as int))),
    decreases b.len() - i,
{
    let n = b.len() as int;
    let r = b.subrange(i, n);
    if i == n {
        assert(decode_utf8(r) =~= Seq::<char>::empty());
        assert(decode_from(b, i) =~= code_points(decode_utf8(r)));
        return;
    }
    assert(valid_first_scalar(r));
    let len1 = length_of_first_scalar(r);
    let c = decode_first_scalar(r);
    let rest = pop_first_scalar(r);
    assert(rest =~= b.subrange(i + len1, n));
    assert(decode_utf8(r) == seq![c as char] + decode_utf8(rest));
    assert(decode_utf8(r)[0] == c as char);
    vstd::utf8::char_is_scalar(c as char);
    assert(forall|k: int|
        0 <= k < decode_utf8(rest).len() ==> #[trigger] decode_utf8(rest)[k] == decode_utf8(r)[k + 1]);
    lemma_decode_valid_from(b, i + len1);
    if i + len1 < n {
        assert(rest[0] == b[i + len1]);
        lemma_valid_starts_with_lead(rest);
    }
    let x = b[i];
    assert(r[0] == x);
    let v: u32;
    if x < 0x80 {
        assert(len1 == 1);
        assert(c == (x & 0x7f) as u32);
        assert((x & 0x7f) as u32 == x as u32) by (bit_vector)
            requires
                x < 0x80,
        ;
        v = x as u32;
        assert(decode_from(b, i) == seq![v] + decode_from(b, i + 1));
    } else if x < 0xe0 {
        let y = b[i + 1];
        assert(r[1] == y);
        lemma_cont_byte(y);
        assert(len1 == 2);
        assert(cont_end(b, i + 2) == i + 2);
        assert(cont_end(b, i + 1) == i + 2);
        assert(accumulate(b, i + 1, i + 1, lead_bits(x)) == lead_bits(x));
        assert(accumulate(b, i + 1, i + 2, lead_bits(x)) == shift_in(lead_bits(x), y));
        assert(shift_in((x & 0x1f) as u32, y) == (((x & 0x1f) as u32) << 6u32) | ((y & 0x3f) as u32))
            by (bit_vector);
        assert(((((x & 0x1f) as u32) << 6u32) | ((y & 0x3f) as u32)) <= 0x7ff) by (bit_vector);
        v = c;
        assert(v & 0xffff_f800 != 0xd800 && v & 0xffff_fffe != 0xfffe) by (bit_vector)
            requires
                v <= 0x7ff,
        ;
        assert(settle(v) == v);
        assert(decode_from(b, i) == seq![v] + decode_from(b, i + 2));
    } else if x < 0xf0 {
        let y = b[i + 1];
        let z = b[i + 2];
        assert(r[1] == y && r[2] == z);
        lemma_cont_byte(y);
        lemma_cont_byte(z);
        assert(len1 == 3);
        assert(cont_end(b, i + 3) == i + 3);
        assert(cont_end(b, i + 2) == i + 3);
        assert(cont_end(b, i + 1) == i + 3);
        let l = lead_bits(x);
        assert(l == (x & 0x0f) as u32);
        assert(accumulate(b, i + 1, i + 1, l) == l);
        assert(accumulate(b, i + 1, i + 2, l) == shift_in(l, y));
        assert(accumulate(b, i + 1, i + 3, l) == shift_in(shift_in(l, y), z));
        assert(shift_in(shift_in((x & 0x0f) as u32, y), z) == (((x & 0x0f) as u32) << 12u32) | (((y
            & 0x3f) as u32) << 6u32) | ((z & 0x3f) as u32)) by (bit_vector);
        v = c;
        assert(v <= 0xffff) by (bit_vector)
            requires
                v == (((x & 0x0f) as u32) << 12u32) | (((y & 0x3f) as u32) << 6u32) | ((z & 0x3f) as u32),
        ;
        assert(v < 0xfffe || v > 0xffff) by {
            assert(decode_utf8(r)[0] as u32 == v);
        }
        assert(v & 0xffff_f800 != 0xd800 && v & 0xffff_fffe != 0xfffe) by (bit_vector)
            requires
                0x800 <= v < 0xfffe,
                !(0xd800 <= v <= 0xdfff),
        ;
        assert(settle(v) == v);
        assert(decode_from(b, i) == seq![v] + decode_from(b, i + 3));
    } else {
        let y = b[i + 1];
        let z = b[i + 2];
        let w = b[i + 3];
        assert(r[1] == y && r[2] == z && r[3] == w);
        lemma_cont_byte(y);
        lemma_cont_byte(z);
        lemma_cont_byte(w);
        assert(len1 == 4);
        assert(cont_end(b, i + 4) == i + 4);
        assert(cont_end(b, i + 3) == i + 4);
        assert(cont_end(b, i + 2) == i + 4);
        assert(cont_end(b, i + 1) == i + 4);
        let l = lead_bits(x);
        assert(l == (x & 0x07) as u32);
        assert(accumulate(b, i + 1, i + 1, l) == l);
        assert(accumulate(b, i + 1, i + 2, l) == shift_in(l, y));
        assert(accumulate(b, i + 1, i + 3, l) == shift_in(shift_in(l, y), z));
        assert(accumulate(b, i + 1, i + 4, l) == shift_in(shift_in(shift_in(l, y), z), w));
        assert(shift_in(shift_in(shift_in((x & 0x07) as u32, y), z), w) == (((x & 0x07) as u32)
            << 18u32) | (((y & 0x3f) as u32) << 12u32) | (((z & 0x3f) as u32) << 6u32) | ((w & 0x3f)
            as u32)) by (bit_vector);
        v = c;
        assert(v & 0xffff_f800 != 0xd800 && v & 0xffff_fffe != 0xfffe) by (bit_vector)
            requires
                0x10000 <= v,
        ;
        assert(settle(v) == v);
        assert(decode_from(b, i) == seq![v] + decode_from(b, i + 4));
    }
    assert((c as char) as u32 == c);
    assert(decode_from(b, i) =~= code_points(decode_utf8(r)));
}

/// Well-formed UTF-8 without NUL bytes, holding neither U+FFFE nor U+FFFF
/// (which the text reading replaces by U+FFFD), is read as exactly the
/// code points of its characters.
pub proof fn law_valid_utf8_reads_as_its_characters(b: Seq<u8>)
    requires
        valid_utf8(b),
        forall|k: int| 0 <= k < b.len() ==> #[trigger] b[k] != 0,
        forall|k: int|
            0 <= k < decode_utf8(b).len() ==> (#[trigger] decode_utf8(b)[k] as u32) < 0xfffe
                || decode_utf8(b)[k] as u32 > 0xffff,
    ensures
        sql_text(b) == code_points(decode_utf8(b)),
{
    lemma_no_nul(b, 0);
    assert(text_part(b) =~= b);
    assert(b.subrange(0, b.len() as int) =~= b);
    lemma_decode_valid_from(b, 0);
}

} // verus!
