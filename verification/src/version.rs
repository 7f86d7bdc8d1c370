use vstd::prelude::*;

verus! {

/// A semantic version restricted to its numeric core: major, minor and patch.
#[derive(Clone, Copy, PartialEq, Eq, Structural, Debug, Hash)]
pub struct Version {
    pub major: u64,
    pub minor: u64,
    pub patch: u64,
}

/// Strict precedence order on versions: major first, then minor, then patch.
pub open spec fn version_lt(a: Version, b: Version) -> bool {
    ||| a.major < b.major
    ||| (a.major == b.major && a.minor < b.minor)
    ||| (a.major == b.major && a.minor == b.minor && a.patch < b.patch)
}

impl Version {
    pub closed spec fn spec_new(major: u64, minor: u64, patch: u64) -> Version {
        Version { major, minor, patch }
    }

    #[verifier::when_used_as_spec(spec_new)]
    pub fn new(major: u64, minor: u64, patch: u64) -> (v: Version)
        ensures
            v == (Version { major, minor, patch }),
    {
        Version { major, minor, patch }
    }

    /// Strict comparison used to order candidate versions.
    pub fn lt(self, other: Version) -> (r: bool)
        ensures
            r == version_lt(self, other),
    {
        if self.major != other.major {
            self.major < other.major
        } else if self.minor != other.minor {
            self.minor < other.minor
        } else {
            self.patch < other.patch
        }
    }
}

/// `version_lt` is a strict total order: irreflexive, transitive, and any two
/// distinct versions are ordered one way or the other.
pub proof fn lemma_version_lt_strict_total(a: Version, b: Version, c: Version)
    ensures
        !version_lt(a, a),
        version_lt(a, b) && version_lt(b, c) ==> version_lt(a, c),
        a != b ==> version_lt(a, b) || version_lt(b, a),
        !(version_lt(a, b) && version_lt(b, a)),
{
}

} // verus!
