//! Percent encoding: a byte written as `%` and two hexadecimal digits.

use crate::text::{push_char, Text};
use vstd::prelude::*;
use vstd::string::*;
use vstd::utf8::*;

verus! {

// ── Bytes and text ──────────────────────────────────────────────────────────

/// The text of bytes, each broken sequence replaced, by `String::from_utf8_lossy`.
pub uninterp spec fn lossy_text(bytes: Seq<u8>) -> Text;

/// Calls `String::from_utf8_lossy`. Bytes that are valid UTF-8 give their
/// text; what stands for bytes that are not has a name only.
#[verifier::external_body]
pub(crate) fn text_of_bytes(bytes: &[u8]) -> (r: String)
    ensures
        r@ == lossy_text(bytes@),
        valid_utf8(bytes@) ==> r@ == decode_utf8(bytes@),
{
    String::from_utf8_lossy(bytes).into_owned()
}

/// Calls `String::from_utf8`, which gives the text of bytes that are valid
/// UTF-8 and refuses others.
#[verifier::external_body]
pub(crate) fn text_of_utf8(bytes: Vec<u8>) -> (r: Option<String>)
    ensures
        match r {
            Some(s) => valid_utf8(bytes@) && s@ == decode_utf8(bytes@),
            None => !valid_utf8(bytes@),
        },
{
    String::from_utf8(bytes).ok()
}

// ── Digits ──────────────────────────────────────────────────────────────────

/// The value of a hexadecimal digit of either case.
pub open spec fn hex_value(b: u8) -> Option<u8> {
    if 48 <= b <= 57 {
        Some((b - 48) as u8)
    } else if 65 <= b <= 70 {
        Some((b - 55) as u8)
    } else if 97 <= b <= 102 {
        Some((b - 87) as u8)
    } else {
        None
    }
}

fn hex_of(b: u8) -> (r: Option<u8>)
    ensures
        r == hex_value(b),
        r matches Some(v) ==> v < 16,
{
    if 48 <= b && b <= 57 {
        Some(b - 48)
    } else if 65 <= b && b <= 70 {
        Some(b - 55)
    } else if 97 <= b && b <= 102 {
        Some(b - 87)
    } else {
        None
    }
}

/// The byte that two hexadecimal digits write.
pub open spec fn hex_byte(hi: u8, lo: u8) -> Option<u8> {
    match (hex_value(hi), hex_value(lo)) {
        (Some(h), Some(l)) => Some((h * 16 + l) as u8),
        _ => None,
    }
}

fn byte_of(hi: u8, lo: u8) -> (r: Option<u8>)
    ensures
        r == hex_byte(hi, lo),
{
    match (hex_of(hi), hex_of(lo)) {
        (Some(h), Some(l)) => Some(h * 16 + l),
        _ => None,
    }
}

// ── Lenient decoding ────────────────────────────────────────────────────────

/// The escape at the front of bytes, where there is a whole one.
pub open spec fn front_escape(b: Seq<u8>) -> Option<u8> {
    if b.len() > 2 && b[0] == 37 {
        hex_byte(b[1], b[2])
    } else {
        None
    }
}

/// Bytes with every escape replaced by what it writes. A broken escape stays
/// as it is.
pub open spec fn decoded(b: Seq<u8>) -> Seq<u8>
    decreases b.len(),
{
    if b.len() == 0 {
        Seq::empty()
    } else {
        match front_escape(b) {
            Some(v) => seq![v] + decoded(b.skip(3)),
            None => seq![b[0]] + decoded(b.skip(1)),
        }
    }
}

/// Decodes bytes; a broken escape stays as it is.
pub fn decode_bytes(b: &[u8]) -> (out: Vec<u8>)
    ensures
        out@ == decoded(b@),
{
    let n: usize = b.len();
    let mut out: Vec<u8> = Vec::new();
    let mut i: usize = 0;
    assert(b@.skip(0) =~= b@);
    assert(out@ + decoded(b@) =~= decoded(b@));
    while i < n
        invariant
            i <= n,
            n == b@.len(),
            out@ + decoded(b@.skip(i as int)) == decoded(b@),
        decreases n - i,
    {
        let ghost rest = b@.skip(i as int);
        let ghost done = out@;
        let escape = if n - i > 2 && b[i] == 37 {
            byte_of(b[i + 1], b[i + 2])
        } else {
            None
        };
        assert(escape == front_escape(rest));
        match escape {
            Some(v) => {
                out.push(v);
                i = i + 3;
                assert(rest.skip(3) =~= b@.skip(i as int));
                assert(done + (seq![v] + decoded(rest.skip(3))) =~= out@ + decoded(
                    b@.skip(i as int),
                ));
            },
            None => {
                out.push(b[i]);
                i = i + 1;
                assert(rest.skip(1) =~= b@.skip(i as int));
                assert(done + (seq![rest[0]] + decoded(rest.skip(1))) =~= out@ + decoded(
                    b@.skip(i as int),
                ));
            },
        }
    }
    assert(b@.skip(n as int) =~= Seq::empty());
    assert(out@ + decoded(b@.skip(n as int)) =~= out@);
    out
}

/// The text with its escapes replaced.
pub open spec fn decoded_text(s: Text) -> Text {
    lossy_text(decoded(encode_utf8(s)))
}

/// Decodes a text; a broken escape stays as it is.
pub fn percent_decode(s: &str) -> (r: String)
    ensures
        r@ == decoded_text(s@),
{
    let out = decode_bytes(s.as_bytes());
    text_of_bytes(&out)
}

// ── Segments ────────────────────────────────────────────────────────────────

/// Is the byte written as it is: a letter, a digit, `-`, `.`, `_` or `~`?
pub open spec fn unreserved(b: u8) -> bool {
    (48 <= b <= 57) || (65 <= b <= 90) || (97 <= b <= 122) || b == 45 || b == 46 || b == 95 || b
        == 126
}

/// A hexadecimal digit, in upper case.
pub open spec fn upper_hex(d: u8) -> u8 {
    if d < 10 {
        (d + 48) as u8
    } else {
        (d + 55) as u8
    }
}

/// A byte as it is written in a segment.
pub open spec fn encoded_byte(b: u8) -> Seq<u8> {
    if unreserved(b) {
        seq![b]
    } else {
        seq![37u8, upper_hex(b / 16), upper_hex(b % 16)]
    }
}

/// Bytes as they are written in a segment.
pub open spec fn encoded(b: Seq<u8>) -> Seq<u8>
    decreases b.len(),
{
    if b.len() == 0 {
        Seq::empty()
    } else {
        encoded_byte(b[0]) + encoded(b.skip(1))
    }
}

/// The characters of bytes below 128.
pub open spec fn ascii_text(b: Seq<u8>) -> Text {
    Seq::new(b.len(), |i: int| b[i] as char)
}

/// A text as one segment.
pub open spec fn segment_of(s: Text) -> Text {
    ascii_text(encoded(encode_utf8(s)))
}

/// The bytes a segment writes; `None` where an escape is broken.
pub open spec fn unsegmented(b: Seq<u8>) -> Option<Seq<u8>>
    decreases b.len(),
{
    if b.len() == 0 {
        Some(Seq::empty())
    } else if b[0] == 37 {
        match front_escape(b) {
            Some(v) => match unsegmented(b.skip(3)) {
                Some(rest) => Some(seq![v] + rest),
                None => None,
            },
            None => None,
        }
    } else {
        match unsegmented(b.skip(1)) {
            Some(rest) => Some(seq![b[0]] + rest),
            None => None,
        }
    }
}

/// The text a segment writes; `None` where an escape is broken, or where the
/// bytes are no text.
pub open spec fn segment_text(s: Text) -> Option<Text> {
    match unsegmented(encode_utf8(s)) {
        Some(b) => if valid_utf8(b) {
            Some(decode_utf8(b))
        } else {
            None
        },
        None => None,
    }
}

fn push_ascii(out: &mut String, b: u8)
    requires
        b < 128,
    ensures
        final(out)@ == old(out)@.push(b as char),
{
    push_char(out, b as char);
}

proof fn ascii_text_of_both(a: Seq<u8>, b: Seq<u8>)
    ensures
        ascii_text(a + b) == ascii_text(a) + ascii_text(b),
{
    assert(ascii_text(a + b) =~= ascii_text(a) + ascii_text(b));
}

fn hex_digit_of(d: u8) -> (r: u8)
    requires
        d < 16,
    ensures
        r == upper_hex(d),
        r < 128,
{
    if d < 10 {
        d + 48
    } else {
        d + 55
    }
}

fn is_unreserved(b: u8) -> (r: bool)
    ensures
        r == unreserved(b),
{
    (48 <= b && b <= 57) || (65 <= b && b <= 90) || (97 <= b && b <= 122) || b == 45 || b == 46
        || b == 95 || b == 126
}

/// Writes a text as one segment: every byte but a letter, a digit, `-`, `.`,
/// `_` and `~` is escaped.
pub fn percent_encode_segment(s: &str) -> (out: String)
    ensures
        out@ == segment_of(s@),
{
    let b = s.as_bytes();
    let n: usize = b.len();
    let mut out = String::new();
    let mut i: usize = 0;
    assert(b@.skip(0) =~= b@);
    assert(out@ + ascii_text(encoded(b@)) =~= segment_of(s@));
    while i < n
        invariant
            i <= n,
            n == b@.len(),
            out@ + ascii_text(encoded(b@.skip(i as int))) == segment_of(s@),
        decreases n - i,
    {
        let ghost rest = b@.skip(i as int);
        let ghost done = out@;
        let c: u8 = b[i];
        proof {
            assert(rest[0] == c);
            assert(rest.skip(1) =~= b@.skip(i + 1));
            ascii_text_of_both(encoded_byte(c), encoded(rest.skip(1)));
        }
        if is_unreserved(c) {
            push_ascii(&mut out, c);
        } else {
            push_ascii(&mut out, 37);
            push_ascii(&mut out, hex_digit_of(c / 16));
            push_ascii(&mut out, hex_digit_of(c % 16));
        }
        assert(out@ =~= done + ascii_text(encoded_byte(c)));
        i = i + 1;
        assert(done + (ascii_text(encoded_byte(c)) + ascii_text(encoded(b@.skip(i as int))))
            =~= out@ + ascii_text(encoded(b@.skip(i as int))));
    }
    assert(b@.skip(n as int) =~= Seq::empty());
    assert(out@ + ascii_text(encoded(b@.skip(n as int))) =~= out@);
    out
}

/// Reads a segment back.
pub fn percent_decode_segment(s: &str) -> (r: Option<String>)
    ensures
        match r {
            Some(t) => segment_text(s@) == Some(t@),
            None => segment_text(s@) is None,
        },
{
    let b = s.as_bytes();
    let n: usize = b.len();
    let mut out: Vec<u8> = Vec::new();
    let mut i: usize = 0;
    assert(b@.skip(0) =~= b@);
    proof {
        if let Some(x) = unsegmented(b@) {
            assert(out@ + x =~= x);
        }
    }
    while i < n
        invariant
            i <= n,
            n == b@.len(),
            b@ == encode_utf8(s@),
            match unsegmented(b@.skip(i as int)) {
                Some(rest) => unsegmented(b@) == Some(out@ + rest),
                None => unsegmented(b@) is None,
            },
        decreases n - i,
    {
        let ghost rest = b@.skip(i as int);
        let ghost done = out@;
        if b[i] == 37 {
            let escape = if n - i > 2 {
                byte_of(b[i + 1], b[i + 2])
            } else {
                None
            };
            assert(escape == front_escape(rest));
            match escape {
                Some(v) => {
                    out.push(v);
                    i = i + 3;
                    assert(rest.skip(3) =~= b@.skip(i as int));
                    proof {
                        if let Some(x) = unsegmented(b@.skip(i as int)) {
                            assert(done + (seq![v] + x) =~= out@ + x);
                        }
                    }
                },
                None => {
                    return None;
                },
            }
        } else {
            let c: u8 = b[i];
            out.push(c);
            i = i + 1;
            assert(rest.skip(1) =~= b@.skip(i as int));
            proof {
                assert(rest[0] == c);
                if let Some(x) = unsegmented(b@.skip(i as int)) {
                    assert(done + (seq![c] + x) =~= out@ + x);
                }
            }
        }
    }
    assert(b@.skip(n as int) =~= Seq::empty());
    assert(out@ + Seq::<u8>::empty() =~= out@);
    text_of_utf8(out)
}

proof fn digits_read_back(b: u8)
    ensures
        hex_byte(upper_hex(b / 16), upper_hex(b % 16)) == Some(b),
        upper_hex(b / 16) < 128,
        upper_hex(b % 16) < 128,
{
}

proof fn encoded_bytes_read_back(b: Seq<u8>)
    ensures
        unsegmented(encoded(b)) == Some(b),
        forall|i: int| 0 <= i < encoded(b).len() ==> #[trigger] encoded(b)[i] < 128,
    decreases b.len(),
{
    if b.len() > 0 {
        let front = encoded_byte(b[0]);
        let rest = encoded(b.skip(1));
        let all = encoded(b);
        encoded_bytes_read_back(b.skip(1));
        digits_read_back(b[0]);
        assert forall|i: int| 0 <= i < all.len() implies #[trigger] all[i] < 128 by {
            if i >= front.len() {
                assert(all[i] == rest[i - front.len()]);
            }
        }
        assert(seq![b[0]] + b.skip(1) =~= b);
        if unreserved(b[0]) {
            assert(all.skip(1) =~= rest);
            assert(all[0] == b[0]);
        } else {
            assert(all.skip(3) =~= rest);
            assert(all[0] == 37);
            assert(all[1] == upper_hex(b[0] / 16));
            assert(all[2] == upper_hex(b[0] % 16));
            assert(front_escape(all) == Some(b[0]));
        }
    } else {
        assert(b =~= Seq::empty());
    }
}

/// Every text reads back from the segment it is written as. So no two texts
/// are written as the same segment.
pub proof fn segments_read_back(s: Text)
    ensures
        segment_text(segment_of(s)) == Some(s),
{
    let b = encode_utf8(s);
    let e = encoded(b);
    let t = segment_of(s);
    encoded_bytes_read_back(b);
    assert(is_ascii_chars(t)) by {
        assert forall|i: int| 0 <= i < t.len() implies '\0' <= #[trigger] t[i] <= '\u{7f}' by {
            assert(e[i] < 128);
        }
    }
    is_ascii_chars_encode_utf8(t);
    assert(encode_utf8(t) =~= e) by {
        assert forall|i: int| 0 <= i < e.len() implies #[trigger] encode_utf8(t)[i] == e[i] by {
            assert(e[i] < 128);
        }
    }
    encode_utf8_valid_utf8(s);
    encode_utf8_decode_utf8(s);
}

/// Is a byte one that a segment is written with: a letter, a digit, one of the
/// four marks, or a percent sign?
pub open spec fn is_segment_byte(b: u8) -> bool {
    unreserved(b) || b == 37
}

/// A segment is written with letters, digits, marks and percent signs alone. An
/// escape is a percent sign before two digits, which are in upper case.
pub proof fn segments_are_plain(b: Seq<u8>, i: int)
    requires
        0 <= i < encoded(b).len(),
    ensures
        is_segment_byte(encoded(b)[i]),
        encoded(b)[i] == 37 ==> i + 2 < encoded(b).len() && is_upper_hex(encoded(b)[i + 1])
            && is_upper_hex(encoded(b)[i + 2]),
    decreases b.len(),
{
    if b.len() > 0 {
        let (x, rest) = (encoded_byte(b[0]), encoded(b.skip(1)));
        let v = b[0];
        assert(v / 16 < 16 && v % 16 < 16) by (bit_vector);
        if i < x.len() {
            assert(encoded(b)[i] == x[i]);
            if x.len() == 3 {
                assert(encoded(b)[1] == x[1] && encoded(b)[2] == x[2]);
            }
        } else {
            segments_are_plain(b.skip(1), i - x.len());
            assert(encoded(b)[i] == rest[i - x.len()]);
            if rest[i - x.len()] == 37 {
                assert(encoded(b)[i + 1] == rest[i - x.len() + 1]);
                assert(encoded(b)[i + 2] == rest[i - x.len() + 2]);
            }
        }
    }
}

/// Is a byte a hexadecimal digit in upper case?
pub open spec fn is_upper_hex(b: u8) -> bool {
    48 <= b <= 57 || 65 <= b <= 70
}

}
