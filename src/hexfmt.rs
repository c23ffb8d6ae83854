//! Lowercase hexadecimal text, through the `hex` crate.
use vstd::prelude::*;
use vstd::string::StrSliceExecFns;
use vstd::utf8::*;

verus! {

/// The lowercase hexadecimal digit for `n < 16`.
pub open spec fn hex_digit(n: u8) -> char {
    if n < 10 {
        (48 + n) as char
    } else {
        (87 + n) as char
    }
}

/// Two lowercase digits per byte, high nibble first.
pub open spec fn hex_chars(b: Seq<u8>) -> Seq<char> {
    Seq::new(
        2 * b.len(),
        |i: int|
            if i % 2 == 0 {
                hex_digit(b[i / 2] / 16)
            } else {
                hex_digit(b[i / 2] % 16)
            },
    )
}

/// Whether `c` is an ASCII hexadecimal digit of either case.
pub open spec fn is_hex_byte(c: u8) -> bool {
    (48 <= c <= 57) || (65 <= c <= 70) || (97 <= c <= 102)
}

/// The value of the hexadecimal digit `c`.
pub open spec fn hex_value(c: u8) -> u8 {
    if c <= 57 {
        (c - 48) as u8
    } else if c <= 70 {
        (c - 55) as u8
    } else {
        (c - 87) as u8
    }
}

/// Whether `s` is hexadecimal text: an even number of hex digits.
pub open spec fn is_hex_text(s: Seq<u8>) -> bool {
    s.len() % 2 == 0 && forall|i: int| 0 <= i < s.len() ==> #[trigger] is_hex_byte(s[i])
}

/// The bytes that the hexadecimal text `s` spells, two digits each.
pub open spec fn hex_decoded(s: Seq<u8>) -> Seq<u8> {
    Seq::new(
        s.len() / 2,
        |i: int| (hex_value(s[2 * i]) * 16 + hex_value(s[2 * i + 1])) as u8,
    )
}

/// Whether `c` is a lowercase hexadecimal digit.
pub open spec fn is_lower_hex_char(c: char) -> bool {
    ('0' <= c <= '9') || ('a' <= c <= 'f')
}

/// Whether every character of `s` is a lowercase hexadecimal digit.
pub open spec fn is_lower_hex(s: Seq<char>) -> bool {
    forall|i: int| 0 <= i < s.len() ==> #[trigger] is_lower_hex_char(s[i])
}

/// `hex::FromHexError`, carried through unread.
#[verifier::external_type_specification]
#[verifier::external_body]
pub struct ExFromHexError(hex::FromHexError);

/// Relies on `hex::encode`: each byte becomes two lowercase digits, high nibble
/// first, from the table "0123456789abcdef".
#[verifier::external_body]
pub(crate) fn hex_encode(b: &[u8]) -> (r: String)
    ensures
        r@ == hex_chars(b@),
{
    hex::encode(b)
}

/// Relies on `hex::decode`: odd length or a byte outside `0-9a-fA-F` is an
/// error; otherwise each pair of digits gives one byte, high nibble first.
#[verifier::external_body]
pub(crate) fn hex_decode(s: &[u8]) -> (r: Result<Vec<u8>, hex::FromHexError>)
    ensures
        r is Ok <==> is_hex_text(s@),
        r matches Ok(v) ==> v@ == hex_decoded(s@),
{
    hex::decode(s)
}

/// Whether `s` is a digest as text: 40 lowercase hexadecimal digits.
pub fn is_digest_text(s: &str) -> (r: bool)
    ensures
        r == (s@.len() == 40 && is_lower_hex(s@)),
{
    if s.unicode_len() != 40 {
        return false;
    }
    let mut i: usize = 0;
    while i < 40
        invariant
            s@.len() == 40,
            i <= 40,
            forall|k: int| 0 <= k < i ==> #[trigger] is_lower_hex_char(s@[k]),
        decreases 40 - i,
    {
        let c = s.get_char(i);
        if !(('0' <= c && c <= '9') || ('a' <= c && c <= 'f')) {
            assert(!is_lower_hex_char(s@[i as int]));
            return false;
        }
        i = i + 1;
    }
    true
}

/// The UTF-8 bytes of lowercase hexadecimal text are its characters, one each.
pub proof fn lemma_lower_hex_bytes(s: Seq<char>)
    requires
        is_lower_hex(s),
    ensures
        encode_utf8(s) == Seq::new(s.len(), |i: int| s[i] as u8),
        forall|i: int| 0 <= i < s.len() ==> #[trigger] is_hex_byte(encode_utf8(s)[i]),
{
    assert(is_ascii_chars(s)) by {
        assert forall|i: int| 0 <= i < s.len() implies '\0' <= #[trigger] s[i] <= '\u{7f}' by {
            assert(is_lower_hex_char(s[i]));
        }
    }
    is_ascii_chars_encode_utf8(s);
    assert(encode_utf8(s) =~= Seq::new(s.len(), |i: int| s[i] as u8));
    assert forall|i: int| 0 <= i < s.len() implies #[trigger] is_hex_byte(encode_utf8(s)[i]) by {
        assert(is_lower_hex_char(s[i]));
    }
}

/// Decoding lowercase hexadecimal text and encoding the bytes again gives the
/// text back.
pub proof fn lemma_hex_round_trip(s: Seq<char>)
    requires
        is_lower_hex(s),
        s.len() % 2 == 0,
    ensures
        is_hex_text(encode_utf8(s)),
        hex_chars(hex_decoded(encode_utf8(s))) == s,
{
    lemma_lower_hex_bytes(s);
    let b = encode_utf8(s);
    let d = hex_decoded(b);
    assert(d.len() * 2 == s.len());
    assert forall|i: int| 0 <= i < s.len() implies #[trigger] hex_chars(d)[i] == s[i] by {
        let k = i / 2;
        assert(is_lower_hex_char(s[2 * k]));
        assert(is_lower_hex_char(s[2 * k + 1]));
        let hi = hex_value(b[2 * k]);
        let lo = hex_value(b[2 * k + 1]);
        assert(hi < 16 && lo < 16);
        assert(d[k] == hi * 16 + lo);
        assert((hi * 16 + lo) / 16 == hi && (hi * 16 + lo) % 16 == lo) by (nonlinear_arith)
            requires
                hi < 16,
                lo < 16,
        ;
    }
    assert(hex_chars(d) =~= s);
}

} // verus!
