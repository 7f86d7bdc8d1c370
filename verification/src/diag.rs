use vstd::prelude::*;
use crate::version::Version;

verus! {

/// One reason a resolution step failed. Diagnostics are plain data; a caller
/// renders them however it likes.
#[derive(Debug)]
pub enum Diagnostic {
    /// A requirement of the node `name:version` matches no catalog version of
    /// `target` (including the case that `target` is absent altogether).
    UnsatisfiedRequirement { name: String, version: Version, target: String, constraint: semver::VersionReq },
    /// `repeated` was required again while it was already being expanded; the
    /// names on the search path at that point are listed in order.
    CycleDetected { path: Vec<String>, repeated: String },
    /// A candidate pair `name:version` was referenced but has no node in the
    /// graph.
    NodeNotFound { name: String, version: Version },
}

/// The mathematical shape of a diagnostic: names as character sequences.
pub enum Diag {
    UnsatisfiedRequirement { name: Seq<char>, version: Version, target: Seq<char>, constraint: semver::VersionReq },
    CycleDetected { path: Seq<Seq<char>>, repeated: Seq<char> },
    NodeNotFound { name: Seq<char>, version: Version },
}

impl View for Diagnostic {
    type V = Diag;

    open spec fn view(&self) -> Diag {
        match self {
            Diagnostic::UnsatisfiedRequirement { name, version, target, constraint } =>
                Diag::UnsatisfiedRequirement {
                    name: name@,
                    version: *version,
                    target: target@,
                    constraint: *constraint,
                },
            Diagnostic::CycleDetected { path, repeated } => Diag::CycleDetected {
                path: Seq::new(path@.len(), |i: int| path@[i]@),
                repeated: repeated@,
            },
            Diagnostic::NodeNotFound { name, version } => Diag::NodeNotFound {
                name: name@,
                version: *version,
            },
        }
    }
}

/// The views of a vector of diagnostics, in order.
pub open spec fn diags_view(d: Seq<Diagnostic>) -> Seq<Diag> {
    Seq::new(d.len(), |i: int| d[i]@)
}

} // verus!
