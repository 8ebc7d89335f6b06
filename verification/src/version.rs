//! Cluster feature-level gating.
//!
//! Format and behaviour choices are gated on the feature level, so that clusters of
//! mixed versions stay compatible. `V1` adds stream object compaction through
//! composite objects, and WAL registration.
use std::cmp::Ordering;
use vstd::prelude::*;
use vstd::std_specs::cmp::{PartialOrdSpec, PartialOrdSpecImpl};

verus! {

#[derive(Debug, Clone, Copy, PartialEq, Eq, Ord, Structural)]
pub enum Version {
    V0,
    V1,
}

/// A later version is greater.
impl PartialOrd for Version {
    fn partial_cmp(&self, other: &Version) -> (r: Option<Ordering>) {
        match (self, other) {
            (Version::V0, Version::V1) => Some(Ordering::Less),
            (Version::V1, Version::V0) => Some(Ordering::Greater),
            _ => Some(Ordering::Equal),
        }
    }
}

impl PartialOrdSpecImpl for Version {
    open spec fn obeys_partial_cmp_spec() -> bool {
        true
    }

    open spec fn partial_cmp_spec(&self, other: &Version) -> Option<Ordering> {
        if self.level() < other.level() {
            Some(Ordering::Less)
        } else if self.level() > other.level() {
            Some(Ordering::Greater)
        } else {
            Some(Ordering::Equal)
        }
    }
}

impl Version {
    pub const LATEST: Version = Version::V1;

    /// The level a version is announced under.
    pub open spec fn level(self) -> int {
        match self {
            Version::V0 => 1,
            Version::V1 => 2,
        }
    }

    pub fn from_feature_level(level: i16) -> (r: Option<Version>)
        ensures
            r is Some <==> level == 1 || level == 2,
            r matches Some(v) ==> v.level() == level,
    {
        match level {
            1 => Some(Version::V0),
            2 => Some(Version::V1),
            _ => None,
        }
    }

    pub fn feature_level(self) -> (r: i16)
        ensures
            r == self.level(),
    {
        match self {
            Version::V0 => 1,
            Version::V1 => 2,
        }
    }

    /// Composite-object-based stream object compaction allowed.
    pub fn stream_object_compact_v1_supported(self) -> (r: bool)
        ensures
            r <==> self.level() >= Version::V1.level(),
    {
        self >= Version::V1
    }

    /// WAL registration with the metadata plane allowed.
    pub fn wal_registration_supported(self) -> (r: bool)
        ensures
            r <==> self.level() >= Version::V1.level(),
    {
        self >= Version::V1
    }
}

/// Versions are ordered as their feature levels.
pub proof fn law_versions_are_ordered_as_levels(a: Version, b: Version)
    ensures
        PartialOrdSpec::partial_cmp_spec(&a, &b) == Some(Ordering::Less) <==> a.level() < b.level(),
        PartialOrdSpec::partial_cmp_spec(&a, &b) == Some(Ordering::Equal) <==> a == b,
        PartialOrdSpec::partial_cmp_spec(&a, &b) == Some(Ordering::Greater) <==> a.level() > b.level(),
{
}

/// A version is the one that its own feature level names.
pub proof fn law_feature_level_names_one_version(a: Version, b: Version)
    requires
        a.level() == b.level(),
    ensures
        a == b,
{
}

} // verus!
