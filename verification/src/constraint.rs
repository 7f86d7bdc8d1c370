use vstd::prelude::*;
use crate::version::Version;

verus! {

// `semver::VersionReq` carries a parsed version-range expression such as
// `^0.2.1`. The resolver never looks inside one: it only asks whether a given
// version satisfies it, and copies it around. The type is therefore declared
// opaque, and what a range matches is given a name below.
#[verifier::external_type_specification]
#[verifier::external_body]
pub struct ExVersionReq(semver::VersionReq);

/// The set of versions a range expression matches, as a predicate. Whether
/// `r` accepts the plain version `major.minor.patch` depends on these four
/// values alone, so the result of the matching call is named rather than
/// spelled out: the range grammar's semantics belong to the semver crate.
pub uninterp spec fn req_matches(r: semver::VersionReq, v: Version) -> bool;

/// Relies on semver::VersionReq::matches, evaluated on the plain version
/// `major.minor.patch` (no pre-release, no build metadata): the answer is a
/// function of the range and those three numbers alone.
#[verifier::external_body]
pub fn constraint_matches(r: &semver::VersionReq, v: Version) -> (b: bool)
    ensures
        b == req_matches(*r, v),
{
    r.matches(&semver::Version::new(v.major, v.minor, v.patch))
}

/// Relies on semver::VersionReq's derived Clone: the copy is the same range.
pub assume_specification[ <semver::VersionReq as Clone>::clone ](
    r: &semver::VersionReq,
) -> (res: semver::VersionReq)
    ensures
        res == *r,
;

} // verus!
