//! Derivation of upgrade scripts between recorded versions.
//!
//! Each recorded version carries a script fragment describing what changed at
//! that version. Fragments concatenated in ascending version order form one
//! continuous script, and every upgrade script between two recorded versions
//! is a contiguous range of that concatenation. The library stores fragments,
//! assembles the full concatenation, and enumerates upgrades under two
//! policies: a merge pyramid built by pairwise composition of adjacent
//! upgrades, and a slicing policy driven by offset arithmetic over the full
//! concatenation.

pub mod assembly;
pub mod laws;
pub mod policy;
pub mod pyramid;
pub mod slicing;
pub mod store;
pub mod upgrade;
pub mod version;
