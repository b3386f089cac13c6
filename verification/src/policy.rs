//! Selection between the two enumeration policies.
//!
//! Callers pick a policy and receive the full stream of upgrades that the
//! policy emits, in its emission order, without touching the store or the
//! assembler themselves.

use vstd::prelude::*;

use crate::pyramid::is_pyramid_emission;
use crate::slicing::{is_latest_sweep, is_non_latest_sweep, is_sliced_emission};
use crate::store::{sorted_strict, UpdateBuilder};
use crate::upgrade::Upgrade;

verus! {

/// The available enumeration policies.
#[derive(Clone, Copy, PartialEq, Eq, Structural, Debug)]
pub enum UpgradePathPolicy {
    /// Base layer first, then every merge round of the pyramid.
    ExhaustivePyramid,
    /// The sweep to the latest version, then every non-latest pair.
    LatestAndRangeSlicer,
}

impl UpdateBuilder {
    /// Emits every upgrade of the selected policy, in that policy's
    /// emission order.
    pub fn generate_upgrade_paths(&self, policy: UpgradePathPolicy) -> (ups: Vec<Upgrade>)
        requires
            sorted_strict(self@),
        ensures
            policy == UpgradePathPolicy::ExhaustivePyramid ==> is_pyramid_emission(self@, ups@),
            policy == UpgradePathPolicy::LatestAndRangeSlicer ==> is_sliced_emission(self@, ups@),
    {
        match policy {
            UpgradePathPolicy::ExhaustivePyramid => self.generate_pyramid_scripts(),
            UpgradePathPolicy::LatestAndRangeSlicer => {
                let mut ups = self.generate_latest_scripts();
                let mut rest = self.generate_non_latest_scripts();
                let ghost first = ups@;
                let ghost second = rest@;
                ups.append(&mut rest);
                proof {
                    assert(ups@.take(first.len() as int) =~= first);
                    assert(ups@.skip(first.len() as int) =~= second);
                    assert(is_latest_sweep(self@, ups@.take(first.len() as int)));
                    assert(is_non_latest_sweep(self@, ups@.skip(first.len() as int)));
                }
                ups
            },
        }
    }
}

} // verus!
