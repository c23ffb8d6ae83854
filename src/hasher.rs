//! Content identifiers of objects.
use vstd::prelude::*;

use vstd::utf8::encode_utf8;

use crate::bigendian::push_all;
use crate::hexfmt::{hex_chars, hex_encode, is_lower_hex};

verus! {

/// The SHA-1 digest of `data`.
pub uninterp spec fn sha1_of(data: Seq<u8>) -> Seq<u8>;

/// Relies on `sha1::Sha1::digest`: the SHA-1 digest of `data`, whose output
/// size is 20 bytes.
#[verifier::external_body]
pub(crate) fn sha1_digest(data: &[u8]) -> (r: Vec<u8>)
    ensures
        r@ == sha1_of(data@),
        r@.len() == 20,
{
    <sha1::Sha1 as sha1::Digest>::digest(data).to_vec()
}

/// The ASCII decimal digits of `n`, without leading zeros.
pub open spec fn decimal(n: nat) -> Seq<u8>
    decreases n,
{
    if n < 10 {
        seq![(48 + n) as u8]
    } else {
        decimal(n / 10) + seq![(48 + n % 10) as u8]
    }
}

/// The header of an object: `"<kind> <length>\0"`.
pub open spec fn object_header(kind: Seq<u8>, len: nat) -> Seq<u8> {
    kind + seq![32u8] + decimal(len) + seq![0u8]
}

/// The serialized form of an object: its header followed by its payload.
pub open spec fn object_record(kind: Seq<u8>, payload: Seq<u8>) -> Seq<u8> {
    object_header(kind, payload.len()) + payload
}

/// The identifier of an object: the SHA-1 digest of its record, as 40
/// lowercase hexadecimal characters.
pub open spec fn object_id(kind: Seq<u8>, payload: Seq<u8>) -> Seq<char> {
    hex_chars(sha1_of(object_record(kind, payload)))
}

/// Appends the decimal digits of `n`.
pub fn push_decimal(buf: &mut Vec<u8>, n: usize)
    ensures
        final(buf)@ == old(buf)@ + decimal(n as nat),
    decreases n,
{
    if n >= 10 {
        push_decimal(buf, n / 10);
    }
    buf.push((48 + n % 10) as u8);
    assert(final(buf)@ =~= old(buf)@ + decimal(n as nat));
}

/// The bytes that are hashed, compressed and stored for an object.
pub fn serialize_object(kind: &str, payload: &[u8]) -> (r: Vec<u8>)
    ensures
        r@ == object_record(encode_utf8(kind@), payload@),
{
    let mut r: Vec<u8> = Vec::new();
    push_all(&mut r, kind.as_bytes());
    r.push(32u8);
    push_decimal(&mut r, payload.len());
    r.push(0u8);
    push_all(&mut r, payload);
    assert(r@ =~= object_record(encode_utf8(kind@), payload@));
    r
}

/// Every byte renders as two lowercase hexadecimal digits.
pub proof fn lemma_hex_chars_lower(b: Seq<u8>)
    ensures
        is_lower_hex(hex_chars(b)),
        hex_chars(b).len() == 2 * b.len(),
{
    assert forall|i: int| 0 <= i < hex_chars(b).len() implies #[trigger] crate::hexfmt::is_lower_hex_char(
        hex_chars(b)[i],
    ) by {
        let v = b[i / 2];
        assert(v / 16 < 16 && v % 16 < 16);
    }
}

/// Computes the identifier of an object of the given kind and payload.
pub fn hash_object(kind: &str, payload: &[u8]) -> (r: String)
    ensures
        r@ == object_id(encode_utf8(kind@), payload@),
        r@.len() == 40,
        is_lower_hex(r@),
{
    let record = serialize_object(kind, payload);
    let digest = sha1_digest(record.as_slice());
    let r = hex_encode(digest.as_slice());
    proof {
        lemma_hex_chars_lower(digest@);
    }
    r
}

/// The identifier is a function of the kind and the payload alone: hashing
/// the same object twice gives the same identifier.
pub proof fn lemma_hash_deterministic(k1: Seq<u8>, p1: Seq<u8>, k2: Seq<u8>, p2: Seq<u8>)
    requires
        k1 == k2,
        p1 == p2,
    ensures
        object_id(k1, p1) == object_id(k2, p2),
{
}

} // verus!
