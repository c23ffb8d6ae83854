//! The index file: a header, the records in order of insertion, and a
//! trailing digest of everything before it.
use vstd::prelude::*;

use crate::bigendian::{
    be_u32_at, lemma_u32_be_round_trip, push_all, push_u32_be, read_u32_be, u32_be,
};
use crate::codec::{
    decode_failure, decode_index_entry, encode_failure, encode_index_entry, encoded_entry, entry_at,
    entry_valid,
    lemma_codec_round_trip, path_len_at, record_len, EntryView, IndexEntry,
};
use crate::error::IndexError;
use crate::hasher::{sha1_digest, sha1_of};

verus! {

/// The version written into a new index.
pub const INDEX_VERSION: u32 = 2;

/// Bytes of the header: signature, version and entry count.
pub const HEADER_SIZE: usize = 12;

/// Bytes of the trailing digest.
pub const DIGEST_SIZE: usize = 20;

/// The signature `DIRC`.
pub open spec fn signature() -> Seq<u8> {
    seq![68u8, 73u8, 82u8, 67u8]
}

pub open spec fn index_header(version: u32, count: u32) -> Seq<u8> {
    signature() + u32_be(version) + u32_be(count)
}

/// The records of the entries, one after the other.
pub open spec fn records_of(es: Seq<EntryView>) -> Seq<u8>
    decreases es.len(),
{
    if es.len() == 0 {
        Seq::empty()
    } else {
        encoded_entry(es[0]) + records_of(es.drop_first())
    }
}

/// Everything before the trailing digest.
pub open spec fn index_body(f: Seq<u8>) -> Seq<u8> {
    f.subrange(0, f.len() - 20)
}

/// The entry count that the header holds.
pub open spec fn entry_count(f: Seq<u8>) -> u32 {
    be_u32_at(f, 8)
}

/// The body of a new index that holds the one record `rec`.
pub open spec fn new_index_body(rec: Seq<u8>) -> Seq<u8> {
    index_header(2, 1) + rec
}

/// The body after appending `rec` to the index `f`: the signature and
/// version kept, the count one higher, the old records, the new record.
pub open spec fn appended_body(f: Seq<u8>, rec: Seq<u8>) -> Seq<u8> {
    f.subrange(0, 8) + u32_be((entry_count(f) + 1) as u32) + f.subrange(12, f.len() - 20) + rec
}

/// The reason `f` cannot take another record, if any.
pub open spec fn append_failure(f: Seq<u8>) -> Option<IndexError> {
    if f.len() < 32 {
        Some(IndexError::Truncated)
    } else if f.subrange(0, 4) != signature() {
        Some(IndexError::BadSignature)
    } else if entry_count(f) == u32::MAX {
        Some(IndexError::TooManyEntries)
    } else {
        None
    }
}

/// Decodes `n` records one after the other from `pos`.
pub open spec fn decode_records(data: Seq<u8>, pos: int, n: nat) -> Result<
    Seq<EntryView>,
    IndexError,
>
    decreases n,
{
    if n == 0 {
        Ok(Seq::empty())
    } else {
        match decode_failure(data, pos) {
            Some(x) => Err(x),
            None => match decode_records(
                data,
                pos + record_len(path_len_at(data, pos)),
                (n - 1) as nat,
            ) {
                Ok(rest) => Ok(seq![entry_at(data, pos)] + rest),
                Err(x) => Err(x),
            },
        }
    }
}

/// Where `n` records read one after the other from `pos` end.
pub open spec fn records_end(data: Seq<u8>, pos: int, n: nat) -> int
    decreases n,
{
    if n == 0 {
        pos
    } else {
        records_end(data, pos + record_len(path_len_at(data, pos)), (n - 1) as nat)
    }
}

/// What reading the index `f` gives: the entries that its header counts,
/// decoded from between the header and the trailing digest, which they must
/// fill exactly.
pub open spec fn index_contents(f: Seq<u8>) -> Result<Seq<EntryView>, IndexError> {
    if f.len() < 32 {
        Err(IndexError::Truncated)
    } else if f.subrange(0, 4) != signature() {
        Err(IndexError::BadSignature)
    } else {
        match decode_records(index_body(f), 12, entry_count(f) as nat) {
            Ok(es) => if records_end(index_body(f), 12, entry_count(f) as nat) == f.len() - 20 {
                Ok(es)
            } else {
                Err(IndexError::ExtraBytes)
            },
            Err(x) => Err(x),
        }
    }
}

/// Whether `f` is a well-formed index of exactly the entries `es`, in order,
/// whatever its version and trailing digest.
pub open spec fn index_holds(f: Seq<u8>, es: Seq<EntryView>) -> bool {
    &&& f.len() == 12 + records_of(es).len() + 20
    &&& f.subrange(0, 4) == signature()
    &&& entry_count(f) == es.len()
    &&& f.subrange(12, f.len() - 20) == records_of(es)
}

/// Whether every entry can be encoded.
pub open spec fn all_storable(es: Seq<EntryView>) -> bool {
    forall|i: int| 0 <= i < es.len() ==> entry_valid(#[trigger] es[i])
}

pub open spec fn views(v: Seq<IndexEntry>) -> Seq<EntryView> {
    v.map_values(|e: IndexEntry| e@)
}

/// Builds a new index that holds the one record `rec`.
pub fn new_index(rec: &[u8]) -> (r: Vec<u8>)
    ensures
        r@ == new_index_body(rec@) + sha1_of(new_index_body(rec@)),
        r@.len() == new_index_body(rec@).len() + 20,
{
    let mut body: Vec<u8> = Vec::new();
    push_all(&mut body, &[68u8, 73u8, 82u8, 67u8]);
    push_u32_be(&mut body, INDEX_VERSION);
    push_u32_be(&mut body, 1);
    push_all(&mut body, rec);
    assert(body@ =~= new_index_body(rec@));
    let digest = sha1_digest(body.as_slice());
    push_all(&mut body, digest.as_slice());
    body
}

/// Appends the record `rec` to the index `f`, with a fresh trailing digest.
pub fn append_record(f: &[u8], rec: &[u8]) -> (r: Result<Vec<u8>, IndexError>)
    ensures
        match r {
            Ok(g) => append_failure(f@) is None && g@ == appended_body(f@, rec@) + sha1_of(
                appended_body(f@, rec@),
            ) && g@.len() == appended_body(f@, rec@).len() + 20,
            Err(x) => append_failure(f@) == Some(x),
        },
{
    if f.len() < HEADER_SIZE + DIGEST_SIZE {
        return Err(IndexError::Truncated);
    }
    if f[0] != 68u8 || f[1] != 73u8 || f[2] != 82u8 || f[3] != 67u8 {
        assert(f@.subrange(0, 4) != signature()) by {
            if f@.subrange(0, 4) == signature() {
                assert(f@[0] == f@.subrange(0, 4)[0]);
                assert(f@[1] == f@.subrange(0, 4)[1]);
                assert(f@[2] == f@.subrange(0, 4)[2]);
                assert(f@[3] == f@.subrange(0, 4)[3]);
            }
        }
        return Err(IndexError::BadSignature);
    }
    assert(f@.subrange(0, 4) =~= signature());
    let count = read_u32_be(f, 8);
    if count == u32::MAX {
        return Err(IndexError::TooManyEntries);
    }
    let mut body: Vec<u8> = Vec::new();
    push_all(&mut body, &f[0..8]);
    push_u32_be(&mut body, count + 1);
    push_all(&mut body, &f[HEADER_SIZE..f.len() - DIGEST_SIZE]);
    push_all(&mut body, rec);
    assert(body@ =~= appended_body(f@, rec@));
    let digest = sha1_digest(body.as_slice());
    push_all(&mut body, digest.as_slice());
    Ok(body)
}

/// The entries `done` followed by what `r` decoded, or the failure of `r`.
pub open spec fn prepend(done: Seq<EntryView>, r: Result<Seq<EntryView>, IndexError>) -> Result<
    Seq<EntryView>,
    IndexError,
> {
    match r {
        Ok(rest) => Ok(done + rest),
        Err(x) => Err(x),
    }
}

/// Reads every entry that the header of the index `f` counts.
pub fn read_index(f: &[u8]) -> (r: Result<Vec<IndexEntry>, IndexError>)
    ensures
        match r {
            Ok(v) => index_contents(f@) == Ok::<Seq<EntryView>, IndexError>(views(v@)),
            Err(x) => index_contents(f@) == Err::<Seq<EntryView>, IndexError>(x),
        },
{
    if f.len() < HEADER_SIZE + DIGEST_SIZE {
        return Err(IndexError::Truncated);
    }
    if f[0] != 68u8 || f[1] != 73u8 || f[2] != 82u8 || f[3] != 67u8 {
        assert(f@.subrange(0, 4) != signature()) by {
            if f@.subrange(0, 4) == signature() {
                assert(f@[0] == f@.subrange(0, 4)[0]);
                assert(f@[1] == f@.subrange(0, 4)[1]);
                assert(f@[2] == f@.subrange(0, 4)[2]);
                assert(f@[3] == f@.subrange(0, 4)[3]);
            }
        }
        return Err(IndexError::BadSignature);
    }
    assert(f@.subrange(0, 4) =~= signature());
    let count = read_u32_be(f, 8);
    let body = &f[0..f.len() - DIGEST_SIZE];
    let mut entries: Vec<IndexEntry> = Vec::new();
    let mut pos: usize = HEADER_SIZE;
    let mut i: u32 = 0;
    proof {
        let full = decode_records(body@, 12, count as nat);
        match full {
            Ok(rest) => {
                assert(views(entries@) + rest =~= rest);
            },
            Err(x) => {},
        }
    }
    while i < count
        invariant
            body@ == index_body(f@),
            f@.len() >= 32,
            f@.subrange(0, 4) == signature(),
            count == entry_count(f@),
            12 <= pos <= body@.len(),
            i <= count,
            records_end(body@, 12, count as nat) == records_end(
                body@,
                pos as int,
                (count - i) as nat,
            ),
            decode_records(body@, 12, count as nat) == prepend(
                views(entries@),
                decode_records(body@, pos as int, (count - i) as nat),
            ),
        decreases count - i,
    {
        let ghost done = views(entries@);
        let ghost rem = (count - i) as nat;
        match decode_index_entry(body, pos) {
            Ok((e, next)) => {
                let ghost ev = e@;
                entries.push(e);
                proof {
                    assert(views(entries@) =~= done.push(ev));
                    match decode_records(body@, next as int, (rem - 1) as nat) {
                        Ok(rest) => {
                            assert(done + (seq![ev] + rest) =~= done.push(ev) + rest);
                        },
                        Err(x) => {},
                    }
                }
                pos = next;
            },
            Err(x) => {
                assert(decode_records(body@, pos as int, rem) == Err::<Seq<EntryView>, IndexError>(
                    x,
                ));
                return Err(x);
            },
        }
        i = i + 1;
    }
    proof {
        assert(views(entries@) + Seq::<EntryView>::empty() =~= views(entries@));
    }
    if pos != body.len() {
        return Err(IndexError::ExtraBytes);
    }
    Ok(entries)
}

/// Whether `f` ends in the 20 bytes `digest`.
pub fn ends_with_digest(f: &[u8], digest: &[u8]) -> (r: bool)
    ensures
        r == (f@.len() >= 20 && digest@.len() == 20 && f@.subrange(f@.len() - 20, f@.len() as int)
            == digest@),
{
    if f.len() < DIGEST_SIZE || digest.len() != DIGEST_SIZE {
        return false;
    }
    let split: usize = f.len() - DIGEST_SIZE;
    let ghost tail = f@.subrange(split as int, f@.len() as int);
    let mut k: usize = 0;
    while k < DIGEST_SIZE
        invariant
            split + 20 == f.len(),
            digest@.len() == 20,
            tail == f@.subrange(split as int, f@.len() as int),
            k <= 20,
            forall|j: int| 0 <= j < k ==> tail[j] == digest@[j],
        decreases 20 - k,
    {
        if f[split + k] != digest[k] {
            assert(tail[k as int] != digest@[k as int]);
            return false;
        }
        k = k + 1;
    }
    assert(tail =~= digest@);
    true
}

/// Whether the trailing digest of `f` is the SHA-1 digest of the rest.
pub fn index_checksum_ok(f: &[u8]) -> (r: bool)
    ensures
        r == (f@.len() >= 20 && f@.subrange(f@.len() - 20, f@.len() as int) == sha1_of(
            index_body(f@),
        )),
{
    if f.len() < DIGEST_SIZE {
        return false;
    }
    let digest = sha1_digest(&f[0..f.len() - DIGEST_SIZE]);
    ends_with_digest(f, digest.as_slice())
}

/// What recording `e` in the index `existing` (or in no index) gives.
pub open spec fn updated_index(existing: Option<Seq<u8>>, e: EntryView) -> Result<
    Seq<u8>,
    IndexError,
> {
    match encode_failure(e) {
        Some(x) => Err(x),
        None => match existing {
            None => Ok(
                new_index_body(encoded_entry(e)) + sha1_of(new_index_body(encoded_entry(e))),
            ),
            Some(f) => match append_failure(f) {
                Some(x) => Err(x),
                None => Ok(
                    appended_body(f, encoded_entry(e)) + sha1_of(
                        appended_body(f, encoded_entry(e)),
                    ),
                ),
            },
        },
    }
}

pub open spec fn bytes_view(o: Option<&[u8]>) -> Option<Seq<u8>> {
    match o {
        Some(f) => Some(f@),
        None => None,
    }
}

/// Records `entry` in the index: a new index when there is none, else the
/// existing one with the entry appended and the count raised by one.
pub fn update_index(existing: Option<&[u8]>, entry: &IndexEntry) -> (r: Result<Vec<u8>, IndexError>)
    ensures
        match r {
            Ok(g) => {
                &&& entry_valid(entry@)
                &&& match existing {
                    None => g@ == new_index_body(encoded_entry(entry@)) + sha1_of(
                        new_index_body(encoded_entry(entry@)),
                    ),
                    Some(f) => append_failure(f@) is None && g@ == appended_body(
                        f@,
                        encoded_entry(entry@),
                    ) + sha1_of(appended_body(f@, encoded_entry(entry@))),
                }
            },
            Err(x) => if !entry_valid(entry@) {
                encode_failure(entry@) == Some(x)
            } else {
                existing matches Some(f) && append_failure(f@) == Some(x)
            },
        },
        match r {
            Ok(g) => updated_index(bytes_view(existing), entry@) == Ok::<Seq<u8>, IndexError>(g@),
            Err(x) => updated_index(bytes_view(existing), entry@) == Err::<Seq<u8>, IndexError>(x),
        },
        existing is None && r is Ok ==> index_holds(r->Ok_0@, seq![entry@]),
        forall|es: Seq<EntryView>|
            existing is Some && r is Ok && #[trigger] index_holds(existing->Some_0@, es)
                ==> index_holds(r->Ok_0@, es.push(entry@)),
{
    let rec = match encode_index_entry(entry) {
        Ok(b) => b,
        Err(x) => {
            return Err(x);
        },
    };
    match existing {
        None => {
            let g = new_index(rec.as_slice());
            proof {
                lemma_new_index_holds(entry@, g@.subrange(g@.len() - 20, g@.len() as int));
                assert(g@ =~= new_index_body(rec@) + g@.subrange(g@.len() - 20, g@.len() as int));
            }
            Ok(g)
        },
        Some(f) => {
            let g = append_record(f, rec.as_slice());
            proof {
                if g is Ok {
                    let gv = g->Ok_0@;
                    let d = gv.subrange(gv.len() - 20, gv.len() as int);
                    assert(gv =~= appended_body(f@, rec@) + d);
                    assert forall|es: Seq<EntryView>| #[trigger]
                        index_holds(f@, es) implies index_holds(gv, es.push(entry@)) by {
                        lemma_append_holds(f@, es, entry@, d);
                    }
                }
            }
            g
        },
    }
}

proof fn lemma_records_push(es: Seq<EntryView>, e: EntryView)
    ensures
        records_of(es.push(e)) == records_of(es) + encoded_entry(e),
    decreases es.len(),
{
    if es.len() == 0 {
        assert(es.push(e).drop_first() =~= Seq::<EntryView>::empty());
        assert(es.push(e)[0] == e);
        assert(records_of(Seq::<EntryView>::empty()) == Seq::<u8>::empty());
        assert(records_of(es) == Seq::<u8>::empty());
        assert(records_of(es.push(e)) =~= records_of(es) + encoded_entry(e));
    } else {
        lemma_records_push(es.drop_first(), e);
        assert(es.push(e).drop_first() =~= es.drop_first().push(e));
        assert(records_of(es.push(e)) =~= records_of(es) + encoded_entry(e));
    }
}

/// A new index holds exactly its one entry.
pub proof fn lemma_new_index_holds(e: EntryView, d: Seq<u8>)
    requires
        d.len() == 20,
    ensures
        index_holds(new_index_body(encoded_entry(e)) + d, seq![e]),
{
    let f = new_index_body(encoded_entry(e)) + d;
    lemma_records_push(Seq::empty(), e);
    assert(Seq::<EntryView>::empty().push(e) =~= seq![e]);
    assert(f.subrange(0, 4) =~= signature());
    assert(f.subrange(12, f.len() - 20) =~= records_of(seq![e]));
    lemma_u32_be_round_trip(1);
    assert(f[8] == u32_be(1)[0] && f[9] == u32_be(1)[1] && f[10] == u32_be(1)[2] && f[11]
        == u32_be(1)[3]);
}

/// Appending a record to an index of `es` gives an index of `es` followed by
/// the new entry, whatever the new trailing digest.
pub proof fn lemma_append_holds(f: Seq<u8>, es: Seq<EntryView>, e: EntryView, d: Seq<u8>)
    requires
        index_holds(f, es),
        es.len() < u32::MAX,
        d.len() == 20,
    ensures
        index_holds(appended_body(f, encoded_entry(e)) + d, es.push(e)),
{
    let g = appended_body(f, encoded_entry(e)) + d;
    let c = (es.len() + 1) as u32;
    lemma_records_push(es, e);
    assert(g.subrange(0, 4) =~= f.subrange(0, 4));
    assert(g.subrange(12, g.len() - 20) =~= records_of(es.push(e)));
    lemma_u32_be_round_trip(c);
    assert(g[8] == u32_be(c)[0] && g[9] == u32_be(c)[1] && g[10] == u32_be(c)[2] && g[11]
        == u32_be(c)[3]);
}

proof fn lemma_decode_records(data: Seq<u8>, pos: int, es: Seq<EntryView>)
    requires
        all_storable(es),
        0 <= pos,
        pos + records_of(es).len() <= data.len(),
        data.subrange(pos, pos + records_of(es).len()) == records_of(es),
    ensures
        decode_records(data, pos, es.len()) == Ok::<Seq<EntryView>, IndexError>(es),
        records_end(data, pos, es.len()) == pos + records_of(es).len(),
    decreases es.len(),
{
    if es.len() == 0 {
        assert(es =~= Seq::<EntryView>::empty());
    } else {
        let e = es[0];
        let enc = encoded_entry(e);
        let rest = es.drop_first();
        let r = records_of(es);
        assert(r == enc + records_of(rest));
        assert(data.subrange(pos, pos + enc.len()) =~= r.subrange(0, enc.len() as int));
        assert(r.subrange(0, enc.len() as int) =~= enc);
        lemma_codec_round_trip(e, data, pos);
        let next = pos + enc.len();
        assert(data.subrange(next, next + records_of(rest).len()) =~= r.subrange(
            enc.len() as int,
            r.len() as int,
        ));
        assert(r.subrange(enc.len() as int, r.len() as int) =~= records_of(rest));
        assert(all_storable(rest)) by {
            assert forall|i: int| 0 <= i < rest.len() implies entry_valid(#[trigger] rest[i]) by {
                assert(rest[i] == es[i + 1]);
            }
        }
        lemma_decode_records(data, next, rest);
        assert(seq![e] + rest =~= es);
        assert(decode_failure(data, pos) is None);
        assert(pos + record_len(path_len_at(data, pos)) == next);
        assert(decode_records(data, next, (es.len() - 1) as nat) == Ok::<
            Seq<EntryView>,
            IndexError,
        >(rest));
        assert(entry_at(data, pos) == e);
        assert(decode_records(data, pos, es.len()) == Ok::<Seq<EntryView>, IndexError>(
            seq![e] + rest,
        ));
    }
}

/// Reading an index of storable entries gives back exactly those entries.
pub proof fn lemma_read_holds(f: Seq<u8>, es: Seq<EntryView>)
    requires
        index_holds(f, es),
        all_storable(es),
    ensures
        index_contents(f) == Ok::<Seq<EntryView>, IndexError>(es),
{
    let body = index_body(f);
    assert(body.subrange(12, 12 + records_of(es).len() as int) =~= f.subrange(12, f.len() - 20));
    lemma_decode_records(body, 12, es);
}

/// The index after storing `es` in turn, the first in a new index and each
/// next one appended, where `ds` are the trailing digests written each time.
pub open spec fn index_after(es: Seq<EntryView>, ds: Seq<Seq<u8>>) -> Seq<u8>
    decreases es.len(),
{
    if es.len() <= 1 {
        new_index_body(encoded_entry(es[0])) + ds[0]
    } else {
        appended_body(index_after(es.drop_last(), ds.drop_last()), encoded_entry(es.last()))
            + ds.last()
    }
}

/// After storing N entries one by one, the header counts N and reading the
/// index gives exactly those N entries, in order.
pub proof fn lemma_append_monotonicity(es: Seq<EntryView>, ds: Seq<Seq<u8>>)
    requires
        1 <= es.len() <= u32::MAX,
        ds.len() == es.len(),
        forall|i: int| 0 <= i < ds.len() ==> (#[trigger] ds[i]).len() == 20,
        all_storable(es),
    ensures
        entry_count(index_after(es, ds)) == es.len(),
        index_contents(index_after(es, ds)) == Ok::<Seq<EntryView>, IndexError>(es),
{
    lemma_index_after_holds(es, ds);
    lemma_read_holds(index_after(es, ds), es);
}

proof fn lemma_index_after_holds(es: Seq<EntryView>, ds: Seq<Seq<u8>>)
    requires
        1 <= es.len() <= u32::MAX,
        ds.len() == es.len(),
        forall|i: int| 0 <= i < ds.len() ==> (#[trigger] ds[i]).len() == 20,
    ensures
        index_holds(index_after(es, ds), es),
    decreases es.len(),
{
    if es.len() == 1 {
        assert(ds[0].len() == 20);
        lemma_new_index_holds(es[0], ds[0]);
        assert(seq![es[0]] =~= es);
    } else {
        let ds0 = ds.drop_last();
        assert forall|i: int| 0 <= i < ds0.len() implies (#[trigger] ds0[i]).len() == 20 by {
            assert(ds0[i] == ds[i]);
        }
        lemma_index_after_holds(es.drop_last(), ds0);
        assert(ds[ds.len() - 1].len() == 20);
        lemma_append_holds(index_after(es.drop_last(), ds0), es.drop_last(), es.last(), ds.last());
        assert(es.drop_last().push(es.last()) =~= es);
    }
}

} // verus!
