//! The fixed binary layout of one index record.
use vstd::prelude::*;
use vstd::utf8::*;

use crate::bigendian::{
    be_u16_at, be_u32_at, lemma_u16_be_round_trip, lemma_u32_be_round_trip, push_all, push_u16_be,
    push_u32_be, read_u16_be, read_u32_be, u16_be, u32_be,
};
use crate::error::IndexError;
use crate::hexfmt::{
    hex_chars, hex_decode, hex_decoded, hex_encode, is_digest_text, is_lower_hex, lemma_hex_round_trip,
};

verus! {

/// Bytes of a record before its name: ten 32-bit fields, the 20-byte hash and
/// the 16-bit flags.
pub const PREFIX_SIZE: usize = 62;

/// Offset of the hash within a record.
pub const HASH_OFFSET: usize = 40;

/// The largest name length that the flags can hold.
pub const MAX_NAME_LEN: usize = 0xFFF;

/// One staged file.
#[derive(Debug)]
pub struct IndexEntry {
    pub ctime_sec: u32,
    pub ctime_nsec: u32,
    pub mtime_sec: u32,
    pub mtime_nsec: u32,
    pub dev: u32,
    pub ino: u32,
    pub mode: u32,
    pub uid: u32,
    pub gid: u32,
    pub size: u32,
    /// The content hash, as hexadecimal text.
    pub hash: String,
    pub name: String,
    pub stage: u16,
}

/// The value of an entry, with its text fields as characters.
pub struct EntryView {
    pub ctime_sec: u32,
    pub ctime_nsec: u32,
    pub mtime_sec: u32,
    pub mtime_nsec: u32,
    pub dev: u32,
    pub ino: u32,
    pub mode: u32,
    pub uid: u32,
    pub gid: u32,
    pub size: u32,
    pub hash: Seq<char>,
    pub name: Seq<char>,
    pub stage: u16,
}

impl View for IndexEntry {
    type V = EntryView;

    open spec fn view(&self) -> EntryView {
        EntryView {
            ctime_sec: self.ctime_sec,
            ctime_nsec: self.ctime_nsec,
            mtime_sec: self.mtime_sec,
            mtime_nsec: self.mtime_nsec,
            dev: self.dev,
            ino: self.ino,
            mode: self.mode,
            uid: self.uid,
            gid: self.gid,
            size: self.size,
            hash: self.hash@,
            name: self.name@,
            stage: self.stage,
        }
    }
}

/// What the file system reports of a file, as plain values.
#[derive(Debug, Clone, Copy, PartialEq, Eq, Structural)]
pub struct FileStat {
    pub ctime: i64,
    pub ctime_nsec: i64,
    pub mtime: i64,
    pub mtime_nsec: i64,
    pub dev: u64,
    pub ino: u64,
    pub uid: u32,
    pub gid: u32,
    pub size: u64,
}

/// The mode recorded for every staged file: a regular file, rw-r--r--.
pub const REGULAR_FILE_MODE: u32 = 0o100644;

/// The entry for the file `name` with metadata `stat` and content hash
/// `hash`: each number cut to its low 32 bits, a regular-file mode, stage 0.
pub fn create_index_entry(name: String, stat: &FileStat, hash: String) -> (e: IndexEntry)
    ensures
        e@ == (EntryView {
            ctime_sec: stat.ctime as u32,
            ctime_nsec: stat.ctime_nsec as u32,
            mtime_sec: stat.mtime as u32,
            mtime_nsec: stat.mtime_nsec as u32,
            dev: stat.dev as u32,
            ino: stat.ino as u32,
            mode: 0o100644,
            uid: stat.uid,
            gid: stat.gid,
            size: stat.size as u32,
            hash: hash@,
            name: name@,
            stage: 0,
        }),
{
    IndexEntry {
        ctime_sec: stat.ctime as u32,
        ctime_nsec: stat.ctime_nsec as u32,
        mtime_sec: stat.mtime as u32,
        mtime_nsec: stat.mtime_nsec as u32,
        dev: stat.dev as u32,
        ino: stat.ino as u32,
        mode: REGULAR_FILE_MODE,
        uid: stat.uid,
        gid: stat.gid,
        size: stat.size as u32,
        hash,
        name,
        stage: 0,
    }
}

/// Zero bytes that bring a record with a name of `n` bytes to a multiple of 8.
pub open spec fn padding_len(n: nat) -> nat {
    ((8 - (62 + n) % 8) % 8) as nat
}

/// The length of a record whose name field is `n` bytes long.
pub open spec fn record_len(n: nat) -> nat {
    62 + n + padding_len(n)
}

pub open spec fn zeros(n: nat) -> Seq<u8> {
    Seq::new(n, |i: int| 0u8)
}

/// Whether no byte of `s` is zero.
pub open spec fn nul_free(s: Seq<u8>) -> bool {
    forall|i: int| 0 <= i < s.len() ==> #[trigger] s[i] != 0
}

/// The flags word: the stage above the 12-bit name length.
pub open spec fn flags_of(stage: u16, name_len: nat) -> u16 {
    ((stage << 12u16) | (name_len as u16)) as u16
}

/// The reason an entry cannot be encoded, if any; the hash is checked first,
/// then the name's length, the name's bytes and the stage.
pub open spec fn encode_failure(e: EntryView) -> Option<IndexError> {
    let h = encode_utf8(e.hash);
    let n = encode_utf8(e.name);
    if !(e.hash.len() == 40 && is_lower_hex(e.hash)) {
        Some(IndexError::BadHash)
    } else if n.len() > 0xFFF {
        Some(IndexError::NameTooLong)
    } else if !nul_free(n) {
        Some(IndexError::NameHasNul)
    } else if e.stage > 3 {
        Some(IndexError::BadStage)
    } else {
        None
    }
}

/// Whether the entry can be encoded.
pub open spec fn entry_valid(e: EntryView) -> bool {
    encode_failure(e) is None
}

/// The ten metadata fields in their order in a record.
pub open spec fn meta_bytes(e: EntryView) -> Seq<u8> {
    u32_be(e.ctime_sec) + u32_be(e.ctime_nsec) + u32_be(e.mtime_sec) + u32_be(e.mtime_nsec)
        + u32_be(e.dev) + u32_be(e.ino) + u32_be(e.mode) + u32_be(e.uid) + u32_be(e.gid)
        + u32_be(e.size)
}

/// The record of an entry: metadata, hash bytes, flags, name bytes, padding.
#[verifier::opaque]
pub open spec fn encoded_entry(e: EntryView) -> Seq<u8> {
    let n = encode_utf8(e.name);
    meta_bytes(e) + hex_decoded(encode_utf8(e.hash)) + u16_be(flags_of(e.stage, n.len()))
        + n + zeros(padding_len(n.len()))
}

/// Appends `n` zero bytes.
pub fn push_zeros(buf: &mut Vec<u8>, n: usize)
    ensures
        final(buf)@ == old(buf)@ + zeros(n as nat),
{
    let mut i: usize = 0;
    while i < n
        invariant
            i <= n,
            buf@ == old(buf)@ + zeros(i as nat),
        decreases n - i,
    {
        buf.push(0u8);
        i = i + 1;
        assert(buf@ =~= old(buf)@ + zeros(i as nat));
    }
}

/// Whether the bytes hold no zero byte.
pub fn has_no_nul(s: &[u8]) -> (r: bool)
    ensures
        r == nul_free(s@),
{
    let mut i: usize = 0;
    while i < s.len()
        invariant
            i <= s@.len(),
            forall|k: int| 0 <= k < i ==> #[trigger] s@[k] != 0,
        decreases s@.len() - i,
    {
        if s[i] == 0 {
            return false;
        }
        i = i + 1;
    }
    true
}

/// Encodes an entry as one record.
pub fn encode_index_entry(e: &IndexEntry) -> (r: Result<Vec<u8>, IndexError>)
    ensures
        r is Ok <==> entry_valid(e@),
        r matches Ok(b) ==> b@ == encoded_entry(e@),
        r matches Ok(b) ==> b@.len() % 8 == 0,
        r matches Err(x) ==> encode_failure(e@) == Some(x),
{
    let hash_text = e.hash.as_str();
    if !is_digest_text(hash_text) {
        return Err(IndexError::BadHash);
    }
    proof {
        lemma_hex_round_trip(e.hash@);
        crate::hexfmt::lemma_lower_hex_bytes(e.hash@);
    }
    let hash_bytes = hex_decode(hash_text.as_bytes()).unwrap();
    let name = e.name.as_str().as_bytes();
    if name.len() > MAX_NAME_LEN {
        return Err(IndexError::NameTooLong);
    }
    if !has_no_nul(name) {
        return Err(IndexError::NameHasNul);
    }
    if e.stage > 3 {
        return Err(IndexError::BadStage);
    }
    let mut buf: Vec<u8> = Vec::new();
    push_u32_be(&mut buf, e.ctime_sec);
    push_u32_be(&mut buf, e.ctime_nsec);
    push_u32_be(&mut buf, e.mtime_sec);
    push_u32_be(&mut buf, e.mtime_nsec);
    push_u32_be(&mut buf, e.dev);
    push_u32_be(&mut buf, e.ino);
    push_u32_be(&mut buf, e.mode);
    push_u32_be(&mut buf, e.uid);
    push_u32_be(&mut buf, e.gid);
    push_u32_be(&mut buf, e.size);
    push_all(&mut buf, hash_bytes.as_slice());
    let flags: u16 = (e.stage << 12u16) | (name.len() as u16);
    push_u16_be(&mut buf, flags);
    push_all(&mut buf, name);
    let pad: usize = (8 - (PREFIX_SIZE + name.len()) % 8) % 8;
    push_zeros(&mut buf, pad);
    proof {
        lemma_record_len_aligned(name@.len());
        reveal(encoded_entry);
    }
    Ok(buf)
}

/// Every record length is a multiple of 8.
pub proof fn lemma_record_len_aligned(n: nat)
    ensures
        record_len(n) % 8 == 0,
{
}

/// `std::string::FromUtf8Error`, carried through unread.
#[verifier::external_type_specification]
#[verifier::external_body]
pub struct ExFromUtf8Error(std::string::FromUtf8Error);

/// Relies on `String::from_utf8`: an error exactly when the bytes are not
/// UTF-8; otherwise a string whose bytes are the input.
#[verifier::external_body]
pub(crate) fn string_from_utf8(v: Vec<u8>) -> (r: Result<String, std::string::FromUtf8Error>)
    ensures
        r is Ok <==> valid_utf8(v@),
        r matches Ok(s) ==> encode_utf8(s@) == v@,
{
    String::from_utf8(v)
}

/// The index of the first zero byte of `s` at or after `i`, or `s.len()`.
pub open spec fn first_nul(s: Seq<u8>, i: int) -> int
    decreases s.len() - i,
{
    if i >= s.len() || i < 0 || s[i] == 0 {
        i
    } else {
        first_nul(s, i + 1)
    }
}

/// The name length that the flags of the record at `pos` declare.
pub open spec fn path_len_at(data: Seq<u8>, pos: int) -> nat {
    (be_u16_at(data, pos + 60) & 0xFFFu16) as nat
}

/// The name of the record at `pos`: its declared name bytes up to the first
/// zero byte among them.
pub open spec fn name_bytes_at(data: Seq<u8>, pos: int) -> Seq<u8> {
    let s = data.subrange(pos + 62, pos + 62 + path_len_at(data, pos));
    s.subrange(0, first_nul(s, 0))
}

/// The reason the record at `pos` cannot be decoded, if any.
pub open spec fn decode_failure(data: Seq<u8>, pos: int) -> Option<IndexError> {
    if data.len() - pos < 62 {
        Some(IndexError::Truncated)
    } else if data.len() - pos < record_len(path_len_at(data, pos)) {
        Some(IndexError::Truncated)
    } else if !valid_utf8(name_bytes_at(data, pos)) {
        Some(IndexError::BadName)
    } else {
        None
    }
}

/// The entry that the record at `pos` holds.
pub open spec fn entry_at(data: Seq<u8>, pos: int) -> EntryView {
    EntryView {
        ctime_sec: be_u32_at(data, pos),
        ctime_nsec: be_u32_at(data, pos + 4),
        mtime_sec: be_u32_at(data, pos + 8),
        mtime_nsec: be_u32_at(data, pos + 12),
        dev: be_u32_at(data, pos + 16),
        ino: be_u32_at(data, pos + 20),
        mode: be_u32_at(data, pos + 24),
        uid: be_u32_at(data, pos + 28),
        gid: be_u32_at(data, pos + 32),
        size: be_u32_at(data, pos + 36),
        hash: hex_chars(data.subrange(pos + 40, pos + 60)),
        name: decode_utf8(name_bytes_at(data, pos)),
        stage: be_u16_at(data, pos + 60) >> 12u16,
    }
}

/// Decodes the record that starts at `pos`, and returns it with the offset
/// just past its padding.
pub fn decode_index_entry(data: &[u8], pos: usize) -> (r: Result<(IndexEntry, usize), IndexError>)
    requires
        pos <= data@.len(),
    ensures
        match r {
            Ok((e, next)) => {
                &&& decode_failure(data@, pos as int) is None
                &&& e@ == entry_at(data@, pos as int)
                &&& next == pos + record_len(path_len_at(data@, pos as int))
            },
            Err(x) => decode_failure(data@, pos as int) == Some(x),
        },
{
    if data.len() - pos < PREFIX_SIZE {
        return Err(IndexError::Truncated);
    }
    let flags = read_u16_be(data, pos + 60);
    let path_len: usize = (flags & 0xFFFu16) as usize;
    let total: usize = PREFIX_SIZE + path_len + (8 - (PREFIX_SIZE + path_len) % 8) % 8;
    if data.len() - pos < total {
        return Err(IndexError::Truncated);
    }
    let start: usize = pos + PREFIX_SIZE;
    let ghost s = data@.subrange(start as int, start + path_len);
    let mut k: usize = 0;
    while k < path_len
        invariant
            k <= path_len,
            start + path_len <= data.len(),
            s == data@.subrange(start as int, start + path_len),
            first_nul(s, 0) == first_nul(s, k as int),
        ensures
            k <= path_len,
            k == first_nul(s, 0),
        decreases path_len - k,
    {
        if data[start + k] == 0 {
            break;
        }
        k = k + 1;
    }
    let mut name_bytes: Vec<u8> = Vec::new();
    push_all(&mut name_bytes, &data[start..start + k]);
    assert(name_bytes@ =~= name_bytes_at(data@, pos as int));
    let name = match string_from_utf8(name_bytes) {
        Ok(n) => n,
        Err(_) => {
            return Err(IndexError::BadName);
        },
    };
    proof {
        encode_utf8_decode_utf8(name@);
    }
    let hash = hex_encode(&data[pos + HASH_OFFSET..pos + 60]);
    let e = IndexEntry {
        ctime_sec: read_u32_be(data, pos),
        ctime_nsec: read_u32_be(data, pos + 4),
        mtime_sec: read_u32_be(data, pos + 8),
        mtime_nsec: read_u32_be(data, pos + 12),
        dev: read_u32_be(data, pos + 16),
        ino: read_u32_be(data, pos + 20),
        mode: read_u32_be(data, pos + 24),
        uid: read_u32_be(data, pos + 28),
        gid: read_u32_be(data, pos + 32),
        size: read_u32_be(data, pos + 36),
        hash,
        name,
        stage: flags >> 12u16,
    };
    Ok((e, pos + total))
}

proof fn lemma_u32_at(data: Seq<u8>, p: int, v: u32)
    requires
        0 <= p,
        p + 4 <= data.len(),
        data.subrange(p, p + 4) == u32_be(v),
    ensures
        be_u32_at(data, p) == v,
{
    assert(data[p] == data.subrange(p, p + 4)[0]);
    assert(data[p + 1] == data.subrange(p, p + 4)[1]);
    assert(data[p + 2] == data.subrange(p, p + 4)[2]);
    assert(data[p + 3] == data.subrange(p, p + 4)[3]);
    lemma_u32_be_round_trip(v);
}

/// The `k`-th of the ten metadata fields, in record order.
pub open spec fn meta_field(e: EntryView, k: int) -> u32 {
    if k == 0 {
        e.ctime_sec
    } else if k == 1 {
        e.ctime_nsec
    } else if k == 2 {
        e.mtime_sec
    } else if k == 3 {
        e.mtime_nsec
    } else if k == 4 {
        e.dev
    } else if k == 5 {
        e.ino
    } else if k == 6 {
        e.mode
    } else if k == 7 {
        e.uid
    } else if k == 8 {
        e.gid
    } else {
        e.size
    }
}

/// Where the metadata bytes of `e` stand at `pos`, the `k`-th field reads
/// back from its four bytes.
proof fn lemma_meta_field(e: EntryView, data: Seq<u8>, pos: int, k: int)
    requires
        0 <= pos,
        pos + 40 <= data.len(),
        data.subrange(pos, pos + 40) == meta_bytes(e),
        0 <= k < 10,
    ensures
        be_u32_at(data, pos + 4 * k) == meta_field(e, k),
{
    let meta = meta_bytes(e);
    assert(meta.subrange(4 * k, 4 * k + 4) =~= u32_be(meta_field(e, k)));
    assert(data.subrange(pos + 4 * k, pos + 4 * k + 4) =~= meta.subrange(4 * k, 4 * k + 4));
    lemma_u32_at(data, pos + 4 * k, meta_field(e, k));
}

proof fn lemma_first_nul_free(s: Seq<u8>, i: int)
    requires
        nul_free(s),
        0 <= i <= s.len(),
    ensures
        first_nul(s, i) == s.len(),
    decreases s.len() - i,
{
    if i < s.len() {
        lemma_first_nul_free(s, i + 1);
    }
}

proof fn lemma_flags_fields(stage: u16, n: u16)
    requires
        stage <= 3,
        n <= 0xFFF,
    ensures
        ((stage << 12u16) | n) & 0xFFFu16 == n,
        ((stage << 12u16) | n) >> 12u16 == stage,
{
    assert(((stage << 12u16) | n) & 0xFFFu16 == n && ((stage << 12u16) | n) >> 12u16 == stage)
        by (bit_vector)
        requires
            stage <= 3,
            n <= 0xFFF,
    ;
}

/// Decoding reproduces every field of an entry that can be encoded, wherever
/// its record stands in a buffer, and steps exactly over the record.
#[verifier::rlimit(50)]
pub proof fn lemma_codec_round_trip(e: EntryView, data: Seq<u8>, pos: int)
    requires
        entry_valid(e),
        0 <= pos,
        pos + encoded_entry(e).len() <= data.len(),
        data.subrange(pos, pos + encoded_entry(e).len()) == encoded_entry(e),
    ensures
        decode_failure(data, pos) is None,
        entry_at(data, pos) == e,
        record_len(path_len_at(data, pos)) == encoded_entry(e).len(),
{
    reveal(encoded_entry);
    let enc = encoded_entry(e);
    let n = encode_utf8(e.name);
    let hb = hex_decoded(encode_utf8(e.hash));
    let meta = meta_bytes(e);
    let fl = flags_of(e.stage, n.len());
    crate::hexfmt::lemma_lower_hex_bytes(e.hash);
    assert(e.hash.len() == 40);
    lemma_hex_round_trip(e.hash);
    assert(hb.len() == 20);
    assert(enc.len() == 62 + n.len() + padding_len(n.len()));
    assert forall|a: int, b: int| 0 <= a <= b <= enc.len() implies #[trigger] data.subrange(
        pos + a,
        pos + b,
    ) == enc.subrange(a, b) by {
        assert(data.subrange(pos + a, pos + b) =~= data.subrange(pos, pos + enc.len()).subrange(
            a,
            b,
        ));
    }
    assert(enc.subrange(0, 40) =~= meta);
    assert(data.subrange(pos, pos + 40) == enc.subrange(0, 40));
    lemma_meta_field(e, data, pos, 0);
    lemma_meta_field(e, data, pos, 1);
    lemma_meta_field(e, data, pos, 2);
    lemma_meta_field(e, data, pos, 3);
    lemma_meta_field(e, data, pos, 4);
    lemma_meta_field(e, data, pos, 5);
    lemma_meta_field(e, data, pos, 6);
    lemma_meta_field(e, data, pos, 7);
    lemma_meta_field(e, data, pos, 8);
    lemma_meta_field(e, data, pos, 9);
    // hash
    assert(enc.subrange(40, 60) =~= hb);
    assert(data.subrange(pos + 40, pos + 60) == hb);
    // flags
    assert(enc[60] == u16_be(fl)[0]);
    assert(enc[61] == u16_be(fl)[1]);
    assert(data[pos + 60] == enc[60]);
    assert(data[pos + 61] == enc[61]);
    lemma_u16_be_round_trip(fl);
    assert(be_u16_at(data, pos + 60) == fl);
    lemma_flags_fields(e.stage, n.len() as u16);
    assert(path_len_at(data, pos) == n.len());
    // name
    assert(enc.subrange(62, 62 + n.len() as int) =~= n);
    let s = data.subrange(pos + 62, pos + 62 + n.len() as int);
    assert(s == n);
    lemma_first_nul_free(n, 0);
    assert(name_bytes_at(data, pos) =~= n);
    encode_utf8_valid_utf8(e.name);
    encode_utf8_decode_utf8(e.name);
}

} // verus!
