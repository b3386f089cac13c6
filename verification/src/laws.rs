//! The correctness laws that relate the enumeration policies.
//!
//! Every policy's contract pins each emitted upgrade to a span of the
//! sorted entries and to the concatenation of the fragments that span
//! covers. The laws here state the relations between policies that follow:
//! base-layer composition, the reach of the pyramid's spans, how many
//! upgrades the pyramid emits, and where the sweep to the latest version
//! ends.

use vstd::prelude::*;

use crate::assembly::{concat_range, lemma_concat_range_split};
use crate::pyramid::{
    base_spans, lemma_merge_round_chained, merge_round, pyramid_rounds, pyramid_spans,
    spans_chained,
};
use crate::slicing::{horizon_spans, non_latest_spans};
use crate::store::{sorted_strict, Entry};
use crate::upgrade::{upgrade_spans, Upgrade};
use crate::version::version_lt;

verus! {

/// The concatenation of the scripts of a run of upgrades, in order.
pub open spec fn scripts_concat(ups: Seq<Upgrade>) -> Seq<u8>
    decreases ups.len(),
{
    if ups.len() == 0 {
        Seq::empty()
    } else {
        ups[0].script@ + scripts_concat(ups.skip(1))
    }
}

/// The scripts of the base-layer upgrades from index `k` on, concatenated,
/// are the fragments after entry `k` up to the last entry.
proof fn lemma_base_run(s: Seq<Entry>, base: Seq<Upgrade>, k: int)
    requires
        0 <= k <= base.len(),
        base.len() == s.len() - 1,
        forall|q: int| 0 <= q < base.len() ==> upgrade_spans(s, q, q + 1, #[trigger] base[q]),
    ensures
        scripts_concat(base.skip(k)) == concat_range(s, k + 1, s.len() as int),
    decreases base.len() - k,
{
    if k == base.len() {
        assert(base.skip(k).len() == 0);
    } else {
        lemma_base_run(s, base, k + 1);
        assert(base.skip(k)[0] == base[k]);
        assert(base.skip(k).skip(1) =~= base.skip(k + 1));
        lemma_concat_range_split(s, k + 1, k + 2, s.len() as int);
    }
}

/// Composition law: concatenating the base-layer upgrade scripts in
/// ascending order yields exactly the slicing policy's upgrade script from
/// the first recorded version to the last. `base` is the base layer that
/// the pyramid policy emits first; `latest` is the sweep to the latest
/// version, whose first element starts at the first recorded version.
pub proof fn lemma_composition_law(s: Seq<Entry>, base: Seq<Upgrade>, latest: Seq<Upgrade>)
    requires
        s.len() >= 2,
        base.len() == s.len() - 1,
        forall|k: int| 0 <= k < base.len() ==> upgrade_spans(s, k, k + 1, #[trigger] base[k]),
        latest.len() == s.len() - 1,
        forall|k: int|
            0 <= k < latest.len() ==> upgrade_spans(s, k, s.len() - 1, #[trigger] latest[k]),
    ensures
        scripts_concat(base) == latest[0].script@,
{
    lemma_base_run(s, base, 0);
    assert(base.skip(0) =~= base);
}

/// The rounds that follow an abutting layer emit only spans that run
/// ascending within the first `n` entries.
proof fn lemma_pyramid_rounds_chained(spans: Seq<(int, int)>, n: int)
    requires
        spans_chained(spans, n),
    ensures
        forall|k: int|
            0 <= k < pyramid_rounds(spans).len() ==> 0 <= (#[trigger] pyramid_rounds(spans)[k]).0
                < pyramid_rounds(spans)[k].1 < n,
    decreases spans.len(),
{
    if spans.len() >= 2 {
        lemma_merge_round_chained(spans, n);
        lemma_pyramid_rounds_chained(merge_round(spans), n);
        let ms = merge_round(spans);
        let r = pyramid_rounds(spans);
        assert(r == ms + pyramid_rounds(ms));
        assert forall|k: int| 0 <= k < r.len() implies 0 <= (#[trigger] r[k]).0 < r[k].1 < n by {
            if k < ms.len() {
                assert(r[k] == ms[k]);
            } else {
                assert(r[k] == pyramid_rounds(ms)[k - ms.len()]);
            }
        }
    }
}

/// Pyramid span law: every upgrade the pyramid policy emits spans two
/// recorded versions in ascending order, and its script is exactly the
/// concatenation of the fragments of the versions strictly after `from`
/// up to and including `to`.
pub proof fn lemma_pyramid_span_law(s: Seq<Entry>, ups: Seq<Upgrade>)
    requires
        sorted_strict(s),
        ups.len() == pyramid_spans(s.len() as int).len(),
        forall|k: int|
            0 <= k < ups.len() ==> upgrade_spans(
                s,
                pyramid_spans(s.len() as int)[k].0,
                pyramid_spans(s.len() as int)[k].1,
                #[trigger] ups[k],
            ),
    ensures
        forall|k: int|
            0 <= k < ups.len() ==> {
                let a = pyramid_spans(s.len() as int)[k].0;
                let b = pyramid_spans(s.len() as int)[k].1;
                &&& 0 <= a < b < s.len()
                &&& version_lt((#[trigger] ups[k]).from, ups[k].to)
                &&& ups[k].script@ == concat_range(s, a + 1, b + 1)
            },
{
    let n = s.len() as int;
    assert(spans_chained(base_spans(n), n));
    lemma_pyramid_rounds_chained(base_spans(n), n);
    assert forall|k: int| 0 <= k < ups.len() implies {
        let a = pyramid_spans(n)[k].0;
        let b = pyramid_spans(n)[k].1;
        &&& 0 <= a < b < s.len()
        &&& version_lt((#[trigger] ups[k]).from, ups[k].to)
        &&& ups[k].script@ == concat_range(s, a + 1, b + 1)
    } by {
        let bl = base_spans(n).len() as int;
        if k < bl {
            assert(pyramid_spans(n)[k] == base_spans(n)[k]);
        } else {
            assert(pyramid_spans(n)[k] == pyramid_rounds(base_spans(n))[k - bl]);
        }
    }
}

/// Every span of the layer covers `w` base steps, and the `k`-th span
/// starts exactly `k * w` base steps in.
pub open spec fn spans_uniform(spans: Seq<(int, int)>, w: int) -> bool {
    forall|k: int| 0 <= k < spans.len() ==> #[trigger] spans[k] == (k * w, (k + 1) * w)
}

/// Width-doubling law: the base layer covers one base step per span, and
/// each merge round doubles the width, so the spans of the `r`-th round
/// cover two-to-the-`r` consecutive base steps each.
pub proof fn lemma_merge_round_doubles_width(spans: Seq<(int, int)>, w: int)
    requires
        spans_uniform(spans, w),
    ensures
        spans_uniform(merge_round(spans), 2 * w),
{
    let ms = merge_round(spans);
    assert forall|k: int| 0 <= k < ms.len() implies #[trigger] ms[k] == (k * (2 * w), (k + 1) * (2
        * w)) by {
        assert(spans[2 * k] == ((2 * k) * w, (2 * k + 1) * w));
        assert(spans[2 * k + 1] == ((2 * k + 1) * w, (2 * k + 2) * w));
        assert((2 * k) * w == k * (2 * w)) by (nonlinear_arith);
        assert((2 * k + 2) * w == (k + 1) * (2 * w)) by (nonlinear_arith);
    }
}

/// The base layer is uniform: one base step per span.
pub proof fn lemma_base_spans_uniform(n: int)
    ensures
        spans_uniform(base_spans(n), 1),
{
}

/// The number of upgrades the rounds after a layer of `m` upgrades emit:
/// each round keeps one upgrade per surviving pair.
pub open spec fn pyramid_round_count(m: nat) -> nat
    decreases m,
{
    if m < 2 {
        0
    } else {
        m / 2 + pyramid_round_count(m / 2)
    }
}

proof fn lemma_pyramid_rounds_len(spans: Seq<(int, int)>)
    ensures
        pyramid_rounds(spans).len() == pyramid_round_count(spans.len()),
    decreases spans.len(),
{
    if spans.len() >= 2 {
        lemma_pyramid_rounds_len(merge_round(spans));
    }
}

/// Cardinality law: over `n` recorded versions the pyramid policy emits
/// exactly the `n - 1` base upgrades plus one upgrade per pair surviving
/// into each later round.
pub proof fn lemma_pyramid_cardinality(n: int)
    requires
        n >= 1,
    ensures
        pyramid_spans(n).len() == (n - 1) + pyramid_round_count((n - 1) as nat),
{
    lemma_pyramid_rounds_len(base_spans(n));
}

/// Latest-reachability completeness: the sweep to the latest version emits
/// exactly one upgrade per non-latest version, each ending at the version
/// that strictly exceeds every other recorded version.
pub proof fn lemma_latest_reachability(s: Seq<Entry>, ups: Seq<Upgrade>)
    requires
        sorted_strict(s),
        s.len() >= 2,
        ups.len() == s.len() - 1,
        forall|k: int|
            0 <= k < ups.len() ==> upgrade_spans(s, k, s.len() - 1, #[trigger] ups[k]),
    ensures
        forall|k: int|
            0 <= k < ups.len() ==> (#[trigger] ups[k]).to == s[s.len() - 1].version,
        forall|k: int| 0 <= k < ups.len() ==> version_lt((#[trigger] ups[k]).from, ups[k].to),
        forall|j: int| 0 <= j < s.len() - 1 ==> version_lt(
            (#[trigger] s[j]).version,
            s[s.len() - 1].version,
        ),
{
}

/// Non-latest completeness: the non-latest sweep over targets up to index
/// `t` reaches every ascending pair of indices whose target is at most
/// `t`; the returned position carries exactly that pair.
pub proof fn lemma_non_latest_complete(t: int, a: int, b: int) -> (k: int)
    requires
        0 <= a < b <= t,
    ensures
        0 <= k < non_latest_spans(t).len(),
        non_latest_spans(t)[k] == (a, b),
    decreases t + 1,
{
    if b == t {
        assert(non_latest_spans(t)[a] == horizon_spans(t)[a]);
        a
    } else {
        let k0 = lemma_non_latest_complete(t - 1, a, b);
        assert(non_latest_spans(t)[t + k0] == non_latest_spans(t - 1)[k0]);
        t + k0
    }
}

/// Non-latest soundness: every span the non-latest sweep emits is an
/// ascending pair whose target is at most index `t` — never the latest
/// version.
pub proof fn lemma_non_latest_sound(t: int, k: int)
    requires
        0 <= k < non_latest_spans(t).len(),
    ensures
        0 <= non_latest_spans(t)[k].0 < non_latest_spans(t)[k].1 <= t,
    decreases t + 1,
{
    if t >= 0 {
        if k < horizon_spans(t).len() {
            assert(non_latest_spans(t)[k] == horizon_spans(t)[k]);
        } else {
            assert(non_latest_spans(t)[k] == non_latest_spans(t - 1)[k - horizon_spans(t).len()]);
            lemma_non_latest_sound(t - 1, k - horizon_spans(t).len());
        }
    }
}

/// Degeneracy: with zero versions or one version, no policy has anything
/// to emit.
pub proof fn lemma_degeneracy(n: int)
    requires
        n <= 1,
    ensures
        pyramid_spans(n).len() == 0,
        non_latest_spans(n - 2).len() == 0,
{
    assert(base_spans(n).len() == 0);
    assert(pyramid_rounds(base_spans(n)) == Seq::<(int, int)>::empty());
}

} // verus!
