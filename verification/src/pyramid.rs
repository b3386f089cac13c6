//! The merge-pyramid enumeration policy.
//!
//! The base layer steps from each version to the very next one, carrying
//! exactly that version's own fragment. Each following round composes the
//! surviving upgrades pairwise, two at a time: the composition of two
//! abutting upgrades spans from the first's start to the second's end and
//! carries their scripts concatenated. An unpaired trailing upgrade does
//! not survive into the next round. Rounds continue until at most one
//! upgrade is produced, and every upgrade is emitted as it is synthesized.

use vstd::prelude::*;

use crate::assembly::{append_bytes, copy_bytes, lemma_concat_range_one, lemma_concat_range_split};
use crate::store::{sorted_strict, Entry, UpdateBuilder};
use crate::upgrade::{upgrade_spans, Upgrade};

verus! {

/// Spans of the base layer: one step from each version to the next.
pub open spec fn base_spans(n: int) -> Seq<(int, int)> {
    Seq::new(if n >= 1 { (n - 1) as nat } else { 0 }, |i: int| (i, i + 1))
}

/// One merge round: consecutive upgrades composed pairwise, two at a time.
pub open spec fn merge_round(spans: Seq<(int, int)>) -> Seq<(int, int)> {
    Seq::new(spans.len() / 2, |k: int| (spans[2 * k].0, spans[2 * k + 1].1))
}

/// Every span emitted after a layer: the layer's merge round, then the
/// rounds that follow it, stopping once a round keeps at most one upgrade.
pub open spec fn pyramid_rounds(spans: Seq<(int, int)>) -> Seq<(int, int)>
    decreases spans.len(),
{
    if spans.len() < 2 {
        Seq::empty()
    } else {
        merge_round(spans) + pyramid_rounds(merge_round(spans))
    }
}

/// Everything the pyramid policy emits over `n` versions, in emission
/// order: the base layer, then each merge round.
pub open spec fn pyramid_spans(n: int) -> Seq<(int, int)> {
    base_spans(n) + pyramid_rounds(base_spans(n))
}

/// `ups` is the whole pyramid emission: exactly the spans of
/// `pyramid_spans`, the base layer first and each merge round after it.
pub open spec fn is_pyramid_emission(s: Seq<Entry>, ups: Seq<Upgrade>) -> bool {
    &&& ups.len() == pyramid_spans(s.len() as int).len()
    &&& forall|k: int|
        0 <= k < ups.len() ==> upgrade_spans(
            s,
            pyramid_spans(s.len() as int)[k].0,
            pyramid_spans(s.len() as int)[k].1,
            #[trigger] ups[k],
        )
}

/// Each span runs ascending within the first `n` entries, and consecutive
/// spans abut: one ends at the index where the next begins.
pub open spec fn spans_chained(spans: Seq<(int, int)>, n: int) -> bool {
    &&& forall|k: int| 0 <= k < spans.len() ==> 0 <= (#[trigger] spans[k]).0 < spans[k].1 < n
    &&& forall|k: int| 0 <= k < spans.len() - 1 ==> (#[trigger] spans[k]).1 == spans[k + 1].0
}

/// A merge round of an abutting layer abuts again and stays in range.
pub proof fn lemma_merge_round_chained(spans: Seq<(int, int)>, n: int)
    requires
        spans_chained(spans, n),
    ensures
        spans_chained(merge_round(spans), n),
{
    let ms = merge_round(spans);
    assert forall|k: int| 0 <= k < ms.len() implies 0 <= (#[trigger] ms[k]).0 < ms[k].1 < n by {
        assert(spans[2 * k].1 == spans[2 * k + 1].0);
    }
    assert forall|k: int| 0 <= k < ms.len() - 1 implies (#[trigger] ms[k]).1 == ms[k + 1].0 by {
        assert(spans[2 * k + 1].1 == spans[2 * k + 2].0);
    }
}

impl UpdateBuilder {
    /// Emits the base layer, then every merge round of the pyramid, each
    /// upgrade in left-to-right order of synthesis. The spans emitted are
    /// exactly `pyramid_spans` of the number of recorded versions, and
    /// every script is the concatenation of the fragments its span covers.
    pub fn generate_pyramid_scripts(&self) -> (ups: Vec<Upgrade>)
        requires
            sorted_strict(self@),
        ensures
            is_pyramid_emission(self@, ups@),
            self@.len() <= 1 ==> ups@.len() == 0,
    {
        let ghost s = self@;
        let n = self.entries.len();
        let ghost plan = pyramid_spans(n as int);
        let mut ups: Vec<Upgrade> = Vec::new();
        proof {
            assert(s.len() == self.entries@.len());
        }
        if n <= 1 {
            proof {
                assert(base_spans(n as int).len() == 0);
                assert(pyramid_rounds(base_spans(n as int)) == Seq::<(int, int)>::empty());
                assert(plan =~= Seq::<(int, int)>::empty());
            }
            return ups;
        }
        let mut cur: Vec<Upgrade> = Vec::new();
        let mut i: usize = 0;
        #[verifier::loop_isolation(false)]
        while i < n - 1
            invariant
                i <= n - 1,
                cur@.len() == i,
                ups@.len() == i,
                forall|k: int| 0 <= k < i ==> upgrade_spans(s, k, k + 1, #[trigger] cur@[k]),
                forall|k: int| 0 <= k < i ==> upgrade_spans(s, k, k + 1, #[trigger] ups@[k]),
            decreases n - 1 - i,
        {
            proof {
                assert(s[i as int + 1].script == self.entries@[i as int + 1].script@);
                lemma_concat_range_one(s, i as int + 1);
            }
            let script = copy_bytes(&self.entries[i + 1].script);
            let script_again = copy_bytes(&self.entries[i + 1].script);
            let from = self.entries[i].version;
            let to = self.entries[i + 1].version;
            cur.push(Upgrade { from, to, script });
            ups.push(Upgrade { from, to, script: script_again });
            i = i + 1;
        }
        let ghost mut cur_spans: Seq<(int, int)> = base_spans(n as int);
        let ghost mut done: Seq<(int, int)> = base_spans(n as int);
        #[verifier::loop_isolation(false)]
        while cur.len() >= 2
            invariant
                cur@.len() == cur_spans.len(),
                spans_chained(cur_spans, n as int),
                forall|k: int|
                    0 <= k < cur_spans.len() ==> upgrade_spans(
                        s,
                        cur_spans[k].0,
                        cur_spans[k].1,
                        #[trigger] cur@[k],
                    ),
                plan == done + pyramid_rounds(cur_spans),
                ups@.len() == done.len(),
                forall|k: int|
                    0 <= k < done.len() ==> upgrade_spans(
                        s,
                        done[k].0,
                        done[k].1,
                        #[trigger] ups@[k],
                    ),
            decreases cur@.len(),
        {
            let m = cur.len();
            let half = m / 2;
            proof {
                assert(2 * half <= m);
            }
            let mut next: Vec<Upgrade> = Vec::new();
            let ghost ms = merge_round(cur_spans);
            let ghost start = done;
            proof {
                lemma_merge_round_chained(cur_spans, n as int);
                assert(done == start + ms.take(0)) by {
                    assert(start + ms.take(0) =~= start);
                }
            }
            let mut k: usize = 0;
            #[verifier::loop_isolation(false)]
            while k < half
                invariant
                    k <= half,
                    next@.len() == k,
                    done == start + ms.take(k as int),
                    ups@.len() == done.len(),
                    forall|q: int|
                        0 <= q < k ==> upgrade_spans(s, ms[q].0, ms[q].1, #[trigger] next@[q]),
                    forall|q: int|
                        0 <= q < done.len() ==> upgrade_spans(
                            s,
                            done[q].0,
                            done[q].1,
                            #[trigger] ups@[q],
                        ),
                decreases half - k,
            {
                let ghost a = cur_spans[2 * k as int];
                let ghost b = cur_spans[2 * k as int + 1];
                proof {
                    assert(a.1 == b.0);
                    lemma_concat_range_split(s, a.0 + 1, a.1 + 1, b.1 + 1);
                }
                let mut script = copy_bytes(&cur[2 * k].script);
                append_bytes(&mut script, &cur[2 * k + 1].script);
                let mut script_again = copy_bytes(&cur[2 * k].script);
                append_bytes(&mut script_again, &cur[2 * k + 1].script);
                let from = cur[2 * k].from;
                let to = cur[2 * k + 1].to;
                next.push(Upgrade { from, to, script });
                ups.push(Upgrade { from, to, script: script_again });
                proof {
                    let x = ms[k as int];
                    assert(ms.take(k as int).push(x) =~= ms.take(k as int + 1));
                    assert((start + ms.take(k as int)).push(x) =~= start + ms.take(k as int).push(
                        x,
                    ));
                    done = done.push(x);
                }
                k = k + 1;
            }
            proof {
                assert(ms.take(ms.len() as int) =~= ms);
                assert((start + ms) + pyramid_rounds(ms) =~= start + (ms + pyramid_rounds(ms)));
                cur_spans = ms;
            }
            cur = next;
        }
        proof {
            assert(pyramid_rounds(cur_spans) == Seq::<(int, int)>::empty());
            assert(done + Seq::<(int, int)>::empty() =~= done);
        }
        ups
    }
}

} // verus!
