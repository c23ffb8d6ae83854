//! Comparing the working tree with the index.
use vstd::prelude::*;
use vstd::utf8::{encode_utf8, encode_utf8_decode_utf8};

use crate::bigendian::push_all;
use crate::codec::{EntryView, IndexEntry};
use crate::index::views;
use crate::order::{byte_views, contains_sorted, insert_sorted, sorted};

verus! {

/// The files found in the working tree, split by whether the index names
/// them.
pub struct StatusReport {
    /// Files whose name the index holds, in the order they were found.
    pub staged: Vec<String>,
    /// Files whose name the index does not hold, in the order they were found.
    pub untracked: Vec<String>,
}

/// Whether some entry of the index is named `f`.
pub open spec fn is_indexed(es: Seq<EntryView>, f: Seq<char>) -> bool {
    exists|j: int| 0 <= j < es.len() && (#[trigger] es[j]).name == f
}

/// The files that the index names, in their order.
pub open spec fn staged_of(es: Seq<EntryView>, files: Seq<Seq<char>>) -> Seq<Seq<char>>
    decreases files.len(),
{
    if files.len() == 0 {
        Seq::empty()
    } else if is_indexed(es, files.last()) {
        staged_of(es, files.drop_last()).push(files.last())
    } else {
        staged_of(es, files.drop_last())
    }
}

/// The files that the index does not name, in their order.
pub open spec fn untracked_of(es: Seq<EntryView>, files: Seq<Seq<char>>) -> Seq<Seq<char>>
    decreases files.len(),
{
    if files.len() == 0 {
        Seq::empty()
    } else if is_indexed(es, files.last()) {
        untracked_of(es, files.drop_last())
    } else {
        untracked_of(es, files.drop_last()).push(files.last())
    }
}

pub open spec fn string_views(v: Seq<String>) -> Seq<Seq<char>> {
    v.map_values(|s: String| s@)
}

/// The UTF-8 bytes of the entries' names, sorted.
pub fn sorted_index_names(entries: &Vec<IndexEntry>) -> (r: Vec<Vec<u8>>)
    ensures
        r@.len() == entries@.len(),
        sorted(byte_views(r@)),
        forall|y: Seq<u8>| #[trigger]
            byte_views(r@).contains(y) <==> exists|j: int|
                0 <= j < entries@.len() && y == encode_utf8(#[trigger] entries@[j].name@),
{
    let mut r: Vec<Vec<u8>> = Vec::new();
    let mut i: usize = 0;
    while i < entries.len()
        invariant
            i <= entries@.len(),
            r@.len() == i,
            sorted(byte_views(r@)),
            forall|y: Seq<u8>| #[trigger]
                byte_views(r@).contains(y) <==> exists|j: int|
                    0 <= j < i && y == encode_utf8(#[trigger] entries@[j].name@),
        decreases entries@.len() - i,
    {
        let mut b: Vec<u8> = Vec::new();
        push_all(&mut b, entries[i].name.as_str().as_bytes());
        let ghost old_r = byte_views(r@);
        insert_sorted(&mut r, b);
        proof {
            assert forall|y: Seq<u8>| #[trigger] byte_views(r@).contains(y) <==> exists|j: int|
                0 <= j < i + 1 && y == encode_utf8(#[trigger] entries@[j].name@) by {
                if y == encode_utf8(entries@[i as int].name@) {
                }
                if exists|j: int| 0 <= j < i + 1 && y == encode_utf8(#[trigger] entries@[j].name@) {
                    let j = choose|j: int| 0 <= j < i + 1 && y == encode_utf8(#[trigger] entries@[j].name@);
                    if j < i {
                        assert(old_r.contains(y));
                    }
                }
            }
        }
        i = i + 1;
    }
    r
}

/// Splits the files found in the working tree into those the index names
/// and the others, each in the order found.
pub fn classify_files(entries: &Vec<IndexEntry>, files: &Vec<String>) -> (r: StatusReport)
    ensures
        string_views(r.staged@) == staged_of(views(entries@), string_views(files@)),
        string_views(r.untracked@) == untracked_of(views(entries@), string_views(files@)),
{
    let names = sorted_index_names(entries);
    let ghost es = views(entries@);
    let ghost fv = string_views(files@);
    let mut staged: Vec<String> = Vec::new();
    let mut untracked: Vec<String> = Vec::new();
    let mut i: usize = 0;
    assert(fv.subrange(0, 0) =~= Seq::<Seq<char>>::empty());
    assert(string_views(staged@) =~= Seq::<Seq<char>>::empty());
    assert(string_views(untracked@) =~= Seq::<Seq<char>>::empty());
    while i < files.len()
        invariant
            i <= files@.len(),
            es == views(entries@),
            fv == string_views(files@),
            sorted(byte_views(names@)),
            forall|y: Seq<u8>| #[trigger]
                byte_views(names@).contains(y) <==> exists|j: int|
                    0 <= j < entries@.len() && y == encode_utf8(#[trigger] entries@[j].name@),
            string_views(staged@) == staged_of(es, fv.subrange(0, i as int)),
            string_views(untracked@) == untracked_of(es, fv.subrange(0, i as int)),
        decreases files@.len() - i,
    {
        let f = &files[i];
        let found = contains_sorted(&names, f.as_str().as_bytes());
        proof {
            let sub = fv.subrange(0, i + 1);
            assert(sub.drop_last() =~= fv.subrange(0, i as int));
            assert(sub.last() == f@);
            if found {
                let j = choose|j: int|
                    0 <= j < entries@.len() && encode_utf8(f@) == encode_utf8(
                        #[trigger] entries@[j].name@,
                    );
                encode_utf8_decode_utf8(f@);
                encode_utf8_decode_utf8(entries@[j].name@);
                assert(es[j].name == f@);
            } else {
                if is_indexed(es, f@) {
                    let j = choose|j: int| 0 <= j < es.len() && (#[trigger] es[j]).name == f@;
                    assert(encode_utf8(f@) == encode_utf8(entries@[j].name@));
                    assert(byte_views(names@).contains(encode_utf8(f@)));
                }
            }
        }
        let ghost s0 = staged@;
        let ghost u0 = untracked@;
        if found {
            let c = f.clone();
            staged.push(c);
            assert(string_views(staged@) =~= string_views(s0).push(f@));
        } else {
            let c = f.clone();
            untracked.push(c);
            assert(string_views(untracked@) =~= string_views(u0).push(f@));
        }
        i = i + 1;
    }
    assert(fv.subrange(0, i as int) =~= fv);
    StatusReport { staged, untracked }
}

/// Every file found lands in exactly one of the two lists: among the staged
/// files exactly when the index names it, among the untracked ones otherwise.
pub proof fn lemma_status_partition(es: Seq<EntryView>, files: Seq<Seq<char>>)
    ensures
        staged_of(es, files).len() + untracked_of(es, files).len() == files.len(),
        forall|x: Seq<char>| #[trigger] staged_of(es, files).contains(x) <==> (files.contains(x)
            && is_indexed(es, x)),
        forall|x: Seq<char>| #[trigger] untracked_of(es, files).contains(x) <==> (files.contains(x)
            && !is_indexed(es, x)),
    decreases files.len(),
{
    if files.len() > 0 {
        let init = files.drop_last();
        let last = files.last();
        lemma_status_partition(es, init);
        assert(files =~= init.push(last));
        assert forall|x: Seq<char>| files.contains(x) <==> (init.contains(x) || x == last) by {
            if files.contains(x) {
                let j = choose|j: int| 0 <= j < files.len() && files[j] == x;
                if j < init.len() {
                    assert(init[j] == x);
                }
            }
            if init.contains(x) {
                let j = choose|j: int| 0 <= j < init.len() && init[j] == x;
                assert(files[j] == x);
            }
            if x == last {
                assert(files[files.len() - 1] == x);
            }
        }
        let s0 = staged_of(es, init);
        let u0 = untracked_of(es, init);
        assert forall|x: Seq<char>| #[trigger] s0.push(last).contains(x) <==> (s0.contains(x)
            || x == last) by {
            if s0.push(last).contains(x) {
                let j = choose|j: int| 0 <= j < s0.push(last).len() && s0.push(last)[j] == x;
                if j < s0.len() {
                    assert(s0[j] == x);
                }
            }
            if s0.contains(x) {
                let j = choose|j: int| 0 <= j < s0.len() && s0[j] == x;
                assert(s0.push(last)[j] == x);
            }
            if x == last {
                assert(s0.push(last)[s0.len() as int] == x);
            }
        }
        assert forall|x: Seq<char>| #[trigger] u0.push(last).contains(x) <==> (u0.contains(x)
            || x == last) by {
            if u0.push(last).contains(x) {
                let j = choose|j: int| 0 <= j < u0.push(last).len() && u0.push(last)[j] == x;
                if j < u0.len() {
                    assert(u0[j] == x);
                }
            }
            if u0.contains(x) {
                let j = choose|j: int| 0 <= j < u0.len() && u0[j] == x;
                assert(u0.push(last)[j] == x);
            }
            if x == last {
                assert(u0.push(last)[u0.len() as int] == x);
            }
        }
    }
}

} // verus!
