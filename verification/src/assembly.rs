//! Assembly of the full script and offset arithmetic over it.
//!
//! Fragments concatenated in ascending version order form one continuous
//! script. `concat_range` is the concatenation of a contiguous run of
//! fragments; the lemmas here justify reading any such run back out of the
//! full concatenation as a plain byte range.

use vstd::prelude::*;

use crate::store::{Entry, UpdateBuilder};

verus! {

/// The concatenation of the fragments of entries `lo`, `lo + 1`, …, `hi - 1`.
pub open spec fn concat_range(s: Seq<Entry>, lo: int, hi: int) -> Seq<u8>
    decreases hi - lo,
{
    if lo >= hi {
        Seq::empty()
    } else {
        s[lo].script + concat_range(s, lo + 1, hi)
    }
}

/// A run of fragments splits at any interior point.
pub proof fn lemma_concat_range_split(s: Seq<Entry>, lo: int, mid: int, hi: int)
    requires
        lo <= mid <= hi,
    ensures
        concat_range(s, lo, hi) == concat_range(s, lo, mid) + concat_range(s, mid, hi),
    decreases mid - lo,
{
    if lo == mid {
        assert(Seq::<u8>::empty() + concat_range(s, mid, hi) =~= concat_range(s, mid, hi));
    } else {
        lemma_concat_range_split(s, lo + 1, mid, hi);
        assert(s[lo].script + (concat_range(s, lo + 1, mid) + concat_range(s, mid, hi)) =~= (
        s[lo].script + concat_range(s, lo + 1, mid)) + concat_range(s, mid, hi));
    }
}

/// A single entry's run is exactly its own fragment.
pub proof fn lemma_concat_range_one(s: Seq<Entry>, i: int)
    ensures
        concat_range(s, i, i + 1) == s[i].script,
{
    assert(concat_range(s, i + 1, i + 1) == Seq::<u8>::empty());
    assert(s[i].script + Seq::<u8>::empty() =~= s[i].script);
}

/// Any interior run is a byte range of a wider run: the bytes from the
/// length of the skipped prefix up to the length of the prefix plus the run.
pub proof fn lemma_concat_range_subrange(s: Seq<Entry>, lo: int, a: int, b: int, hi: int)
    requires
        lo <= a <= b <= hi,
    ensures
        concat_range(s, a, b) == concat_range(s, lo, hi).subrange(
            concat_range(s, lo, a).len() as int,
            concat_range(s, lo, a).len() + concat_range(s, a, b).len() as int,
        ),
{
    lemma_concat_range_split(s, lo, a, hi);
    lemma_concat_range_split(s, a, b, hi);
    let p = concat_range(s, lo, a);
    let m = concat_range(s, a, b);
    let q = concat_range(s, b, hi);
    assert(concat_range(s, lo, hi) == p + (m + q));
    assert((p + (m + q)).subrange(p.len() as int, p.len() + m.len() as int) =~= m);
}

/// Appends all bytes of `src` to `dst`.
pub fn append_bytes(dst: &mut Vec<u8>, src: &Vec<u8>)
    ensures
        final(dst)@ == old(dst)@ + src@,
{
    let mut k: usize = 0;
    #[verifier::loop_isolation(false)]
    while k < src.len()
        invariant
            k <= src.len(),
            dst@ == old(dst)@ + src@.take(k as int),
        decreases src.len() - k,
    {
        let b = src[k];
        dst.push(b);
        proof {
            assert(old(dst)@ + src@.take(k as int) + seq![b] =~= old(dst)@ + src@.take(
                k as int + 1,
            ));
        }
        k = k + 1;
    }
    proof {
        assert(old(dst)@ + src@.take(src@.len() as int) =~= old(dst)@ + src@);
    }
}

/// Copies the byte range `lo..hi` of `v` into a fresh vector.
pub fn subvec(v: &Vec<u8>, lo: usize, hi: usize) -> (r: Vec<u8>)
    requires
        lo <= hi <= v@.len(),
    ensures
        r@ == v@.subrange(lo as int, hi as int),
{
    let mut r: Vec<u8> = Vec::new();
    let mut k: usize = lo;
    #[verifier::loop_isolation(false)]
    while k < hi
        invariant
            lo <= k <= hi,
            r@ == v@.subrange(lo as int, k as int),
        decreases hi - k,
    {
        let b = v[k];
        r.push(b);
        proof {
            assert(v@.subrange(lo as int, k as int) + seq![b] =~= v@.subrange(
                lo as int,
                k as int + 1,
            ));
        }
        k = k + 1;
    }
    proof {
        assert(r@ =~= v@.subrange(lo as int, hi as int));
    }
    r
}

/// Copies a whole byte vector.
pub fn copy_bytes(v: &Vec<u8>) -> (r: Vec<u8>)
    ensures
        r@ == v@,
{
    let r = subvec(v, 0, v.len());
    proof {
        assert(v@.subrange(0, v@.len() as int) =~= v@);
    }
    r
}

impl UpdateBuilder {
    /// Assembles the single concatenation of all fragments in ascending
    /// version order. Every upgrade script between two recorded versions is
    /// a contiguous byte range of this vector.
    pub fn full_script(&self) -> (full: Vec<u8>)
        ensures
            full@ == concat_range(self@, 0, self@.len() as int),
    {
        let ghost s = self@;
        let n = self.entries.len();
        let mut full: Vec<u8> = Vec::new();
        let mut i: usize = 0;
        proof {
            assert(full@ =~= concat_range(s, 0, 0));
        }
        #[verifier::loop_isolation(false)]
        while i < n
            invariant
                i <= n,
                full@ == concat_range(s, 0, i as int),
            decreases n - i,
        {
            append_bytes(&mut full, &self.entries[i].script);
            proof {
                lemma_concat_range_split(s, 0, i as int, i as int + 1);
                lemma_concat_range_one(s, i as int);
                assert(s[i as int].script == self.entries@[i as int].script@);
            }
            i = i + 1;
        }
        full
    }
}

} // verus!
