//! Byte-level substring search: the primitive that both the per-line match
//! scan and the ignore-pattern filter are built on.

use vstd::prelude::*;

verus! {

broadcast use vstd::slice::group_slice_axioms;

/// `tgt` occurs in `hay` starting at byte index `i`.
pub open spec fn occurs_at(hay: Seq<u8>, tgt: Seq<u8>, i: int) -> bool {
    0 <= i && i + tgt.len() <= hay.len() && hay.subrange(i, i + tgt.len()) == tgt
}

/// `tgt` occurs somewhere in `hay`. The empty sequence occurs in everything.
pub open spec fn occurs(hay: Seq<u8>, tgt: Seq<u8>) -> bool {
    exists|i: int| occurs_at(hay, tgt, i)
}

/// Byte index of the first occurrence of `tgt` in `hay`, or -1 if there is none.
pub open spec fn first_occurrence(hay: Seq<u8>, tgt: Seq<u8>) -> int
    decreases hay.len(),
{
    if occurs_at(hay, tgt, 0) {
        0
    } else if hay.len() == 0 {
        -1
    } else {
        let r = first_occurrence(hay.drop_first(), tgt);
        if r < 0 {
            -1
        } else {
            r + 1
        }
    }
}

proof fn lemma_occurs_at_shift(hay: Seq<u8>, tgt: Seq<u8>, i: int)
    requires
        hay.len() > 0,
        0 <= i,
    ensures
        occurs_at(hay.drop_first(), tgt, i) <==> occurs_at(hay, tgt, i + 1),
{
    if i + tgt.len() <= hay.drop_first().len() {
        assert(hay.drop_first().subrange(i, i + tgt.len()) =~= hay.subrange(
            i + 1,
            i + 1 + tgt.len(),
        ));
    }
}

/// `first_occurrence` is the least index at which `tgt` occurs, and is -1
/// exactly when `tgt` does not occur at all.
pub proof fn lemma_first_occurrence(hay: Seq<u8>, tgt: Seq<u8>)
    ensures
        occurs(hay, tgt) ==> {
            let f = first_occurrence(hay, tgt);
            &&& 0 <= f
            &&& occurs_at(hay, tgt, f)
            &&& forall|j: int| 0 <= j < f ==> !occurs_at(hay, tgt, j)
        },
        !occurs(hay, tgt) ==> first_occurrence(hay, tgt) == -1,
    decreases hay.len(),
{
    if occurs_at(hay, tgt, 0) {
        assert(occurs(hay, tgt));
    } else if hay.len() == 0 {
        if occurs(hay, tgt) {
            let i = choose|i: int| occurs_at(hay, tgt, i);
            assert(i == 0 && tgt.len() == 0);
            assert(hay.subrange(0, 0) =~= tgt);
            assert(false);
        }
    } else {
        lemma_first_occurrence(hay.drop_first(), tgt);
        if occurs(hay, tgt) {
            let i = choose|i: int| occurs_at(hay, tgt, i);
            assert(i >= 1);
            lemma_occurs_at_shift(hay, tgt, i - 1);
            assert(occurs_at(hay.drop_first(), tgt, i - 1));
            assert(occurs(hay.drop_first(), tgt));
            let fr = first_occurrence(hay.drop_first(), tgt);
            lemma_occurs_at_shift(hay, tgt, fr);
            let f = first_occurrence(hay, tgt);
            assert(f == fr + 1);
            assert(occurs_at(hay, tgt, f));
            assert forall|j: int| 0 <= j < f implies !occurs_at(hay, tgt, j) by {
                if j >= 1 {
                    lemma_occurs_at_shift(hay, tgt, j - 1);
                }
            }
        } else {
            if occurs(hay.drop_first(), tgt) {
                let i = choose|i: int| occurs_at(hay.drop_first(), tgt, i);
                lemma_occurs_at_shift(hay, tgt, i);
                assert(occurs(hay, tgt));
            }
        }
    }
}

/// Whether `tgt` occurs in `hay` at exactly position `i`.
fn matches_at(hay: &[u8], tgt: &[u8], i: usize) -> (r: bool)
    requires
        i + tgt@.len() <= hay@.len(),
    ensures
        r == occurs_at(hay@, tgt@, i as int),
{
    let tlen = tgt.len();
    let hlen = hay.len();
    let mut k: usize = 0;
    while k < tlen
        invariant
            i + tgt@.len() <= hay@.len(),
            tlen == tgt@.len(),
            hlen == hay@.len(),
            0 <= k <= tlen,
            forall|m: int| 0 <= m < k ==> hay@[i + m] == tgt@[m],
        decreases tlen - k,
    {
        if *vstd::slice::slice_index_get(hay, i + k) != *vstd::slice::slice_index_get(tgt, k) {
            assert(!occurs_at(hay@, tgt@, i as int)) by {
                if occurs_at(hay@, tgt@, i as int) {
                    assert(hay@.subrange(i as int, i + tgt@.len())[k as int] == tgt@[k as int]);
                }
            }
            return false;
        }
        k += 1;
    }
    assert(hay@.subrange(i as int, i + tgt@.len()) =~= tgt@);
    true
}

/// Byte index of the first occurrence of `tgt` in `hay`, if any.
pub fn find_first(hay: &[u8], tgt: &[u8]) -> (r: Option<usize>)
    ensures
        match r {
            Some(i) => occurs(hay@, tgt@) && i as int == first_occurrence(hay@, tgt@),
            None => !occurs(hay@, tgt@),
        },
{
    proof {
        lemma_first_occurrence(hay@, tgt@);
    }
    if tgt.len() == 0 {
        assert(hay@.subrange(0, 0) =~= tgt@);
        assert(occurs_at(hay@, tgt@, 0));
        return Some(0);
    }
    if tgt.len() > hay.len() {
        assert(!occurs(hay@, tgt@)) by {
            if occurs(hay@, tgt@) {
                let i = choose|i: int| occurs_at(hay@, tgt@, i);
            }
        }
        return None;
    }
    let hlen = hay.len();
    let end = hlen - tgt.len();
    let mut i: usize = 0;
    while i <= end
        invariant
            1 <= tgt@.len() <= hay@.len(),
            hlen == hay@.len(),
            end == hay@.len() - tgt@.len(),
            0 <= i <= end + 1,
            forall|j: int| 0 <= j < i ==> !occurs_at(hay@, tgt@, j),
        decreases end + 1 - i,
    {
        if matches_at(hay, tgt, i) {
            proof {
                lemma_first_occurrence(hay@, tgt@);
            }
            return Some(i);
        }
        i += 1;
    }
    assert(!occurs(hay@, tgt@)) by {
        if occurs(hay@, tgt@) {
            let j = choose|j: int| occurs_at(hay@, tgt@, j);
            assert(j > end);
        }
    }
    None
}

/// Whether `tgt` occurs anywhere in `hay`.
pub fn contains_bytes(hay: &[u8], tgt: &[u8]) -> (r: bool)
    ensures
        r == occurs(hay@, tgt@),
{
    find_first(hay, tgt).is_some()
}

} // verus!
