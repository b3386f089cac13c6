//! The version key that orders recorded script fragments.
//!
//! The enumeration policies never look inside a version; they only sort by
//! it, compare it, and hand it back in emitted upgrades. The key is the
//! `major.minor.patch` triple of a semantic version, and its precedence is
//! the lexicographic order on that triple.

use vstd::prelude::*;

verus! {

/// A version key: the `major.minor.patch` triple of a semantic version.
#[derive(Clone, Copy, PartialEq, Eq, Structural, Debug)]
pub struct Version {
    pub major: u64,
    pub minor: u64,
    pub patch: u64,
}

/// Strict precedence: lexicographic order on (major, minor, patch).
pub open spec fn version_lt(a: Version, b: Version) -> bool {
    a.major < b.major
    || (a.major == b.major && a.minor < b.minor)
    || (a.major == b.major && a.minor == b.minor && a.patch < b.patch)
}

impl Version {
    pub fn new(major: u64, minor: u64, patch: u64) -> (v: Version)
        ensures
            v == (Version { major, minor, patch }),
    {
        Version { major, minor, patch }
    }

    /// Decides the strict precedence order `version_lt`.
    pub fn precedes(&self, other: &Version) -> (r: bool)
        ensures
            r == version_lt(*self, *other),
    {
        self.major < other.major
        || (self.major == other.major && self.minor < other.minor)
        || (self.major == other.major && self.minor == other.minor && self.patch < other.patch)
    }
}

/// Any two version keys are ordered one way, the other way, or equal.
pub proof fn lemma_version_order_trichotomy(a: Version, b: Version)
    ensures
        version_lt(a, b) || version_lt(b, a) || a == b,
{
}

/// The precedence order is transitive.
pub proof fn lemma_version_order_transitive(a: Version, b: Version, c: Version)
    requires
        version_lt(a, b),
        version_lt(b, c),
    ensures
        version_lt(a, c),
{
}

} // verus!
