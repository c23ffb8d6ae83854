//! Lexicographic order on byte strings, and sorted collections under it.
use vstd::prelude::*;

verus! {

/// Whether `a` comes strictly before `b`, byte by byte, a proper prefix first.
pub open spec fn lex_lt(a: Seq<u8>, b: Seq<u8>) -> bool
    decreases a.len(),
{
    if a.len() == 0 {
        b.len() > 0
    } else if b.len() == 0 {
        false
    } else if a[0] != b[0] {
        a[0] < b[0]
    } else {
        lex_lt(a.drop_first(), b.drop_first())
    }
}

pub open spec fn lex_le(a: Seq<u8>, b: Seq<u8>) -> bool {
    a == b || lex_lt(a, b)
}

/// Whether the byte strings are in ascending order.
pub open spec fn sorted(v: Seq<Seq<u8>>) -> bool {
    forall|i: int, j: int| 0 <= i < j < v.len() ==> lex_le(#[trigger] v[i], #[trigger] v[j])
}

/// The byte strings that a vector holds.
pub open spec fn byte_views(v: Seq<Vec<u8>>) -> Seq<Seq<u8>> {
    v.map_values(|b: Vec<u8>| b@)
}

pub proof fn lemma_lex_irreflexive(a: Seq<u8>)
    ensures
        !lex_lt(a, a),
    decreases a.len(),
{
    if a.len() > 0 {
        lemma_lex_irreflexive(a.drop_first());
    }
}

pub proof fn lemma_lex_transitive(a: Seq<u8>, b: Seq<u8>, c: Seq<u8>)
    requires
        lex_lt(a, b),
        lex_lt(b, c),
    ensures
        lex_lt(a, c),
    decreases a.len(),
{
    if a.len() > 0 && b.len() > 0 && c.len() > 0 && a[0] == b[0] && b[0] == c[0] {
        lemma_lex_transitive(a.drop_first(), b.drop_first(), c.drop_first());
    }
}

pub proof fn lemma_lex_total(a: Seq<u8>, b: Seq<u8>)
    ensures
        a == b || lex_lt(a, b) || lex_lt(b, a),
    decreases a.len(),
{
    if a.len() > 0 && b.len() > 0 && a[0] == b[0] {
        lemma_lex_total(a.drop_first(), b.drop_first());
        if a.drop_first() == b.drop_first() {
            assert(a =~= seq![a[0]] + a.drop_first());
            assert(b =~= seq![b[0]] + b.drop_first());
        }
    } else if a.len() == 0 && b.len() == 0 {
        assert(a =~= b);
    }
}

proof fn lemma_le_lt(a: Seq<u8>, b: Seq<u8>, c: Seq<u8>)
    requires
        lex_le(a, b),
        lex_lt(b, c),
    ensures
        lex_lt(a, c),
{
    if a != b {
        lemma_lex_transitive(a, b, c);
    }
}

proof fn lemma_lt_le(a: Seq<u8>, b: Seq<u8>, c: Seq<u8>)
    requires
        lex_lt(a, b),
        lex_le(b, c),
    ensures
        lex_lt(a, c),
{
    if b != c {
        lemma_lex_transitive(a, b, c);
    }
}

/// Whether `a` comes strictly before `b`.
pub fn lex_less(a: &[u8], b: &[u8]) -> (r: bool)
    ensures
        r == lex_lt(a@, b@),
{
    let mut i: usize = 0;
    assert(a@.skip(0) =~= a@);
    assert(b@.skip(0) =~= b@);
    while i < a.len() && i < b.len()
        invariant
            i <= a@.len(),
            i <= b@.len(),
            lex_lt(a@, b@) == lex_lt(a@.skip(i as int), b@.skip(i as int)),
        decreases a@.len() - i,
    {
        assert(a@.skip(i as int)[0] == a@[i as int]);
        assert(b@.skip(i as int)[0] == b@[i as int]);
        if a[i] != b[i] {
            return a[i] < b[i];
        }
        assert(a@.skip(i as int).drop_first() =~= a@.skip(i + 1));
        assert(b@.skip(i as int).drop_first() =~= b@.skip(i + 1));
        i = i + 1;
    }
    i == a.len() && i < b.len()
}

/// Inserts `x` into the sorted vector `v`, keeping it sorted, and returns
/// the position it took.
pub fn insert_sorted(v: &mut Vec<Vec<u8>>, x: Vec<u8>) -> (k: usize)
    requires
        sorted(byte_views(old(v)@)),
    ensures
        k <= old(v)@.len(),
        byte_views(final(v)@) == byte_views(old(v)@).insert(k as int, x@),
        sorted(byte_views(final(v)@)),
        forall|y: Seq<u8>| #[trigger]
            byte_views(final(v)@).contains(y) <==> (byte_views(old(v)@).contains(y) || y == x@),
{
    let ghost ov = byte_views(v@);
    let mut k: usize = 0;
    while k < v.len() && lex_less(v[k].as_slice(), x.as_slice())
        invariant
            k <= v@.len(),
            v@ == old(v)@,
            ov == byte_views(v@),
            forall|j: int| 0 <= j < k ==> lex_lt(#[trigger] ov[j], x@),
        decreases v@.len() - k,
    {
        k = k + 1;
    }
    let ghost xv = x@;
    proof {
        if k < ov.len() {
            lemma_lex_total(ov[k as int], xv);
            assert(lex_le(xv, ov[k as int]));
        }
        assert forall|j: int| k <= j < ov.len() implies lex_le(xv, #[trigger] ov[j]) by {
            if j > k {
                assert(lex_le(ov[k as int], ov[j]));
                if xv != ov[k as int] {
                    lemma_lt_le(xv, ov[k as int], ov[j]);
                }
            }
        }
    }
    v.insert(k, x);
    proof {
        let nv = byte_views(v@);
        assert(nv =~= ov.insert(k as int, xv));
        assert forall|i: int, j: int| 0 <= i < j < nv.len() implies lex_le(
            #[trigger] nv[i],
            #[trigger] nv[j],
        ) by {
            if i < k && j < k {
                assert(lex_le(ov[i], ov[j]));
            } else if i < k && j == k {
            } else if i < k {
                assert(lex_le(ov[i], ov[j - 1]));
            } else if i == k {
            } else {
                assert(lex_le(ov[i - 1], ov[j - 1]));
            }
        }
        assert forall|y: Seq<u8>| #[trigger] nv.contains(y) <==> (ov.contains(y) || y == xv) by {
            if nv.contains(y) {
                let j = choose|j: int| 0 <= j < nv.len() && nv[j] == y;
                if j < k {
                    assert(ov[j] == y);
                } else if j > k {
                    assert(ov[j - 1] == y);
                }
            }
            if ov.contains(y) {
                let j = choose|j: int| 0 <= j < ov.len() && ov[j] == y;
                if j < k {
                    assert(nv[j] == y);
                } else {
                    assert(nv[j + 1] == y);
                }
            }
            if y == xv {
                assert(nv[k as int] == y);
            }
        }
    }
    k
}

/// Whether the sorted vector `v` holds `x`, by binary search.
pub fn contains_sorted(v: &Vec<Vec<u8>>, x: &[u8]) -> (r: bool)
    requires
        sorted(byte_views(v@)),
    ensures
        r == byte_views(v@).contains(x@),
{
    let ghost bv = byte_views(v@);
    let mut lo: usize = 0;
    let mut hi: usize = v.len();
    while lo < hi
        invariant
            lo <= hi <= v@.len(),
            bv == byte_views(v@),
            sorted(bv),
            forall|k: int| 0 <= k < lo ==> lex_lt(#[trigger] bv[k], x@),
            forall|k: int| hi <= k < bv.len() ==> lex_lt(x@, #[trigger] bv[k]),
        decreases hi - lo,
    {
        let mid = lo + (hi - lo) / 2;
        let m = v[mid].as_slice();
        assert(m@ == bv[mid as int]);
        if lex_less(m, x) {
            assert forall|k: int| 0 <= k < mid + 1 implies lex_lt(#[trigger] bv[k], x@) by {
                if k < mid {
                    lemma_le_lt(bv[k], bv[mid as int], x@);
                }
            }
            lo = mid + 1;
        } else if lex_less(x, m) {
            assert forall|k: int| mid <= k < bv.len() implies lex_lt(x@, #[trigger] bv[k]) by {
                if k > mid {
                    lemma_lt_le(x@, bv[mid as int], bv[k]);
                }
            }
            hi = mid;
        } else {
            proof {
                lemma_lex_total(m@, x@);
            }
            assert(bv[mid as int] == x@);
            return true;
        }
    }
    proof {
        if bv.contains(x@) {
            let j = choose|j: int| 0 <= j < bv.len() && bv[j] == x@;
            lemma_lex_irreflexive(x@);
            if j < lo {
                assert(lex_lt(bv[j], x@));
            } else {
                assert(lex_lt(x@, bv[j]));
            }
        }
    }
    false
}

} // verus!
