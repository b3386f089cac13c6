//! The upgrade record that every enumeration policy emits.

use vstd::prelude::*;

use crate::assembly::concat_range;
use crate::store::Entry;
use crate::version::Version;

verus! {

/// Applying `script` to a deployment at version `from` brings it to `to`.
#[derive(Debug)]
pub struct Upgrade {
    pub from: Version,
    pub to: Version,
    pub script: Vec<u8>,
}

/// `u` upgrades from the version at index `a` to the version at index `b`
/// of the sorted entries, and its script is exactly the concatenation of
/// the fragments after `a` up to and including `b`.
pub open spec fn upgrade_spans(s: Seq<Entry>, a: int, b: int, u: Upgrade) -> bool {
    &&& u.from == s[a].version
    &&& u.to == s[b].version
    &&& u.script@ == concat_range(s, a + 1, b + 1)
}

} // verus!
