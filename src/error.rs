use vstd::prelude::*;

verus! {

/// Everything that can go wrong while building the upstream table or resolving a query.
#[derive(Debug, PartialEq, Eq)]
pub enum DrouteError {
    /// A tag is referenced, directly or from a hybrid list, but names no upstream.
    MissingTag(String),
    /// A hybrid upstream lists no members.
    EmptyHybrid(String),
    /// A chain of hybrid references comes back to a tag already on the path.
    HybridRecursion(String),
    /// No client could be built for an upstream.
    ClientCreation,
    /// The upstream did not answer within its deadline.
    Timeout,
    /// Sending the query or receiving the answer failed.
    Transport,
    /// Every member of a hybrid race failed; this is the failure that came last.
    AllBranchesFailed(Box<DrouteError>),
}

} // verus!
