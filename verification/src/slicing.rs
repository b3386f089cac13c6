//! The slicing enumeration policy.
//!
//! Both sweeps materialize the full concatenation once and then derive every
//! upgrade script by trimming known fragment lengths off its ends: the sweep
//! to the latest version consumes a growing prefix, and the sweep between
//! non-latest versions first drops trailing fragments, one horizon at a
//! time, and repeats the same prefix trimming below each horizon.

use vstd::prelude::*;

use crate::assembly::{
    concat_range, lemma_concat_range_one, lemma_concat_range_split, lemma_concat_range_subrange,
    subvec,
};
use crate::store::{sorted_strict, Entry, UpdateBuilder};
use crate::upgrade::{upgrade_spans, Upgrade};

verus! {

/// Spans swept at one horizon: an upgrade from each of the `t` earlier
/// versions to the version at index `t`, lowest starting version first.
pub open spec fn horizon_spans(t: int) -> Seq<(int, int)> {
    Seq::new(if t >= 0 { t as nat } else { 0 }, |i: int| (i, t))
}

/// All spans of the non-latest sweep: horizons from target index `t` down
/// to target index 0, each contributing its own sweep.
pub open spec fn non_latest_spans(t: int) -> Seq<(int, int)>
    decreases t + 1,
{
    if t < 0 {
        Seq::empty()
    } else {
        horizon_spans(t) + non_latest_spans(t - 1)
    }
}

/// `ups` is the sweep to the latest version: one upgrade per non-latest
/// version, in ascending order of starting version, each ending at the
/// last entry and carrying the fragments that remain after its start.
pub open spec fn is_latest_sweep(s: Seq<Entry>, ups: Seq<Upgrade>) -> bool {
    &&& ups.len() == (if s.len() >= 2 {
        s.len() - 1
    } else {
        0
    })
    &&& forall|k: int| 0 <= k < ups.len() ==> upgrade_spans(s, k, s.len() - 1, #[trigger] ups[k])
}

/// `ups` is the non-latest sweep: exactly the spans of `non_latest_spans`,
/// horizons from the highest non-latest version down, in order.
pub open spec fn is_non_latest_sweep(s: Seq<Entry>, ups: Seq<Upgrade>) -> bool {
    &&& ups.len() == (if s.len() >= 2 {
        non_latest_spans(s.len() as int - 2).len()
    } else {
        0
    })
    &&& forall|k: int|
        0 <= k < ups.len() ==> upgrade_spans(
            s,
            non_latest_spans(s.len() as int - 2)[k].0,
            non_latest_spans(s.len() as int - 2)[k].1,
            #[trigger] ups[k],
        )
}

/// `ups` is the whole slicing emission: the sweep to the latest version
/// followed by the sweep between non-latest pairs.
pub open spec fn is_sliced_emission(s: Seq<Entry>, ups: Seq<Upgrade>) -> bool {
    let cut = if s.len() >= 2 {
        s.len() - 1
    } else {
        0
    };
    &&& ups.len() >= cut
    &&& is_latest_sweep(s, ups.take(cut as int))
    &&& is_non_latest_sweep(s, ups.skip(cut as int))
}

impl UpdateBuilder {
    /// Emits, for every version except the latest, the upgrade that reaches
    /// the latest version, in ascending order of starting version. Each
    /// script is the suffix of the full concatenation that remains after the
    /// fragments already installed at the starting version are consumed.
    pub fn generate_latest_scripts(&self) -> (ups: Vec<Upgrade>)
        requires
            sorted_strict(self@),
        ensures
            is_latest_sweep(self@, ups@),
    {
        let ghost s = self@;
        let n = self.entries.len();
        let mut ups: Vec<Upgrade> = Vec::new();
        proof {
            assert(s.len() == self.entries@.len());
        }
        if n <= 1 {
            return ups;
        }
        let full = self.full_script();
        let to_version = self.entries[n - 1].version;
        let mut offset: usize = 0;
        let mut i: usize = 0;
        #[verifier::loop_isolation(false)]
        while i < n - 1
            invariant
                i <= n - 1,
                offset == concat_range(s, 0, i as int).len(),
                ups@.len() == i,
                forall|k: int|
                    0 <= k < i ==> upgrade_spans(s, k, n as int - 1, #[trigger] ups@[k]),
            decreases n - 1 - i,
        {
            let li = self.entries[i].script.len();
            proof {
                assert(s[i as int].script == self.entries@[i as int].script@);
                lemma_concat_range_split(s, 0, i as int, i as int + 1);
                lemma_concat_range_one(s, i as int);
                lemma_concat_range_split(s, 0, i as int + 1, n as int);
                assert(offset + li == concat_range(s, 0, i as int + 1).len());
                assert(concat_range(s, 0, n as int).len() == full@.len());
                assert(full@.len() == full.len());
            }
            offset = offset + li;
            let script = subvec(&full, offset, full.len());
            proof {
                lemma_concat_range_subrange(s, 0, i as int + 1, n as int, n as int);
            }
            let from = self.entries[i].version;
            ups.push(Upgrade { from, to: to_version, script });
            i = i + 1;
        }
        ups
    }

    /// Emits the upgrade between every pair of versions whose target is not
    /// the latest version: horizons from the highest non-latest version down
    /// to the lowest, and within a horizon in ascending order of starting
    /// version. Each script is a byte range of the full concatenation,
    /// obtained by dropping the trailing fragments at and above the horizon
    /// and then trimming the consumed prefix.
    pub fn generate_non_latest_scripts(&self) -> (ups: Vec<Upgrade>)
        requires
            sorted_strict(self@),
        ensures
            is_non_latest_sweep(self@, ups@),
    {
        let ghost s = self@;
        let n = self.entries.len();
        let mut ups: Vec<Upgrade> = Vec::new();
        proof {
            assert(s.len() == self.entries@.len());
        }
        if n <= 1 {
            return ups;
        }
        let full = self.full_script();
        let ghost plan = non_latest_spans(n as int - 2);
        let ghost mut done: Seq<(int, int)> = Seq::empty();
        proof {
            assert(done + non_latest_spans(n as int - 2) =~= plan);
        }
        let mut full_len = full.len();
        let mut j = n - 1;
        #[verifier::loop_isolation(false)]
        while j >= 1
            invariant
                j <= n - 1,
                full_len == concat_range(s, 0, j as int + 1).len(),
                plan == done + non_latest_spans(j as int - 1),
                ups@.len() == done.len(),
                forall|k: int|
                    0 <= k < done.len() ==> upgrade_spans(
                        s,
                        done[k].0,
                        done[k].1,
                        #[trigger] ups@[k],
                    ),
            decreases j,
        {
            let lj = self.entries[j].script.len();
            proof {
                assert(s[j as int].script == self.entries@[j as int].script@);
                lemma_concat_range_split(s, 0, j as int, j as int + 1);
                lemma_concat_range_one(s, j as int);
            }
            full_len = full_len - lj;
            let ghost start = done;
            let ghost t = j as int - 1;
            let to_version = self.entries[j - 1].version;
            let mut offset: usize = 0;
            let mut i: usize = 0;
            proof {
                assert(done == start + horizon_spans(t).take(0)) by {
                    assert(start + horizon_spans(t).take(0) =~= start);
                }
            }
            #[verifier::loop_isolation(false)]
            while i < j - 1
                invariant
                    i <= j - 1,
                    offset == concat_range(s, 0, i as int).len(),
                    done == start + horizon_spans(t).take(i as int),
                    ups@.len() == done.len(),
                    forall|k: int|
                        0 <= k < done.len() ==> upgrade_spans(
                            s,
                            done[k].0,
                            done[k].1,
                            #[trigger] ups@[k],
                        ),
                decreases j - 1 - i,
            {
                let li = self.entries[i].script.len();
                proof {
                    assert(s[i as int].script == self.entries@[i as int].script@);
                    lemma_concat_range_split(s, 0, i as int, i as int + 1);
                    lemma_concat_range_one(s, i as int);
                    lemma_concat_range_split(s, 0, i as int + 1, j as int);
                    lemma_concat_range_split(s, 0, j as int, n as int);
                    assert(offset + li == concat_range(s, 0, i as int + 1).len());
                    assert(concat_range(s, 0, n as int).len() == full@.len());
                    assert(full@.len() == full.len());
                    assert(offset + li <= full_len <= full@.len());
                }
                offset = offset + li;
                let script = subvec(&full, offset, full_len);
                proof {
                    lemma_concat_range_subrange(s, 0, i as int + 1, j as int, n as int);
                }
                let from = self.entries[i].version;
                ups.push(Upgrade { from, to: to_version, script });
                proof {
                    let x = (i as int, t);
                    assert(horizon_spans(t).take(i as int).push(x) =~= horizon_spans(t).take(
                        i as int + 1,
                    ));
                    assert((start + horizon_spans(t).take(i as int)).push(x) =~= start
                        + horizon_spans(t).take(i as int).push(x));
                    done = done.push(x);
                }
                i = i + 1;
            }
            proof {
                assert(horizon_spans(t).take(t) =~= horizon_spans(t));
                assert((start + horizon_spans(t)) + non_latest_spans(t - 1) =~= start + (
                horizon_spans(t) + non_latest_spans(t - 1)));
            }
            j = j - 1;
        }
        proof {
            assert(non_latest_spans(-1) == Seq::<(int, int)>::empty());
            assert(done + Seq::<(int, int)>::empty() =~= done);
        }
        ups
    }
}

} // verus!
