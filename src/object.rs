//! The object store: where an object is kept and which bytes it is kept as.
use vstd::prelude::*;
use vstd::string::StrSliceExecFns;
use vstd::utf8::encode_utf8;

use crate::hasher::{hash_object, object_id, object_record, serialize_object};
use crate::hexfmt::{is_lower_hex, is_lower_hex_char};

verus! {

/// The zlib stream, at the default compression level, of `data`.
pub uninterp spec fn zlib_of(data: Seq<u8>) -> Seq<u8>;

/// Relies on `flate2::write::ZlibEncoder` with `Compression::default()`,
/// writing into memory: the finished stream is the zlib compression of
/// `data`. Writing into a `Vec` never fails, and the in-memory deflate
/// backend fails only on misuse, so the result is always present.
#[verifier::external_body]
pub(crate) fn zlib_compress(data: &[u8]) -> (r: Option<Vec<u8>>)
    ensures
        r is Some,
        r matches Some(c) ==> c@ == zlib_of(data@),
{
    let mut enc = flate2::write::ZlibEncoder::new(Vec::new(), flate2::Compression::default());
    match std::io::Write::write_all(&mut enc, data) {
        Ok(()) => enc.finish().ok(),
        Err(_) => None,
    }
}

/// An object ready to be written: the directory and file names under the
/// objects directory, and the compressed bytes of its record.
pub struct StoredObject {
    /// The object's identifier, 40 lowercase hexadecimal characters.
    pub id: String,
    /// The first two characters of the identifier.
    pub dir: String,
    /// The other 38 characters of the identifier.
    pub file: String,
    /// The compressed record.
    pub data: Vec<u8>,
}

/// The directory of an object: the first two characters of its identifier.
pub open spec fn object_dir(kind: Seq<u8>, payload: Seq<u8>) -> Seq<char> {
    object_id(kind, payload).subrange(0, 2)
}

/// The file of an object within its directory: the other 38 characters.
pub open spec fn object_file(kind: Seq<u8>, payload: Seq<u8>) -> Seq<char> {
    object_id(kind, payload).subrange(2, 40)
}

/// The bytes an object is stored as: its compressed record.
pub open spec fn object_bytes(kind: Seq<u8>, payload: Seq<u8>) -> Seq<u8> {
    zlib_of(object_record(kind, payload))
}

/// Computes where an object of the given kind and payload is stored and the
/// bytes stored there.
pub fn compress_and_store(kind: &str, payload: &[u8]) -> (o: StoredObject)
    ensures
        o.id@ == object_id(encode_utf8(kind@), payload@),
        o.id@.len() == 40,
        is_lower_hex(o.id@),
        o.dir@ == object_dir(encode_utf8(kind@), payload@),
        o.file@ == object_file(encode_utf8(kind@), payload@),
        o.data@ == object_bytes(encode_utf8(kind@), payload@),
{
    let id = hash_object(kind, payload);
    let record = serialize_object(kind, payload);
    let data = zlib_compress(record.as_slice()).unwrap();
    let ids = id.as_str();
    assert(ids.is_ascii()) by {
        assert forall|i: int| 0 <= i < ids@.len() implies '\0' <= #[trigger] ids@[i] <= '\u{7f}' by {
            assert(is_lower_hex_char(ids@[i]));
        }
    }
    let dir = ids.substring_ascii(0, 2).to_owned();
    let file = ids.substring_ascii(2, 40).to_owned();
    StoredObject { id, dir, file, data }
}

/// Storing the same object twice writes the same bytes to the same place.
pub proof fn lemma_store_idempotent(k1: Seq<u8>, p1: Seq<u8>, k2: Seq<u8>, p2: Seq<u8>)
    requires
        k1 == k2,
        p1 == p2,
    ensures
        object_dir(k1, p1) == object_dir(k2, p2),
        object_file(k1, p1) == object_file(k2, p2),
        object_bytes(k1, p1) == object_bytes(k2, p2),
{
}

} // verus!
