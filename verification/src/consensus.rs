use vstd::prelude::*;

verus! {

/// How a node answers an AppendEntries request.
#[derive(Debug, Clone, Copy, PartialEq, Eq, Structural)]
pub enum AppendEntriesResult {
    /// The entries were accepted.
    Success,
    /// The request came from an older term; the node's term is given.
    TermMismatch(u64),
    /// The node's log does not hold the entry that precedes the new ones; the index
    /// and term of its last entry are given.
    LogEntriesMismatch { last_index: u64, last_term: u64 },
}

/// Why a node refused an AppendEntries request.
#[derive(Debug, Clone, Copy, PartialEq, Eq, Structural)]
pub enum AppendEntriesError {
    TermMismatch(u64),
    LogEntriesMismatch { last_index: u64, last_term: u64 },
}

impl AppendEntriesResult {
    /// The answer as a `Result`: success, or the reason of the refusal.
    pub fn into_result(self) -> (result: Result<(), AppendEntriesError>)
        ensures
            self is Success <==> result is Ok,
            self matches AppendEntriesResult::TermMismatch(t) ==> result == Err::<(), AppendEntriesError>(
                AppendEntriesError::TermMismatch(t),
            ),
            self matches AppendEntriesResult::LogEntriesMismatch { last_index, last_term } ==> result == Err::<
                (),
                AppendEntriesError,
            >(AppendEntriesError::LogEntriesMismatch { last_index, last_term }),
    {
        match self {
            AppendEntriesResult::Success => Ok(()),
            AppendEntriesResult::TermMismatch(t) => Err(AppendEntriesError::TermMismatch(t)),
            AppendEntriesResult::LogEntriesMismatch { last_index, last_term } => Err(
                AppendEntriesError::LogEntriesMismatch { last_index, last_term },
            ),
        }
    }
}

/// Whether `votes` out of `cluster_size` nodes are a majority: more than half of
/// them, or any number at all in a cluster of one.
pub open spec fn is_majority_of(cluster_size: u64, votes: u64) -> bool {
    votes > cluster_size / 2 || cluster_size == 1
}

/// Whether `votes` out of `cluster_size` nodes are a majority.
pub fn is_majority(cluster_size: u64, votes: u64) -> (majority: bool)
    ensures
        majority == is_majority_of(cluster_size, votes),
{
    let has_majority = votes > cluster_size / 2;
    has_majority || cluster_size == 1
}

/// Two majorities of the same cluster always share a node, so two candidates cannot
/// both win an election with disjoint sets of votes (clusters of one node aside,
/// where the rule counts even zero votes as a majority).
pub proof fn lemma_majorities_overlap(cluster_size: u64, votes_a: u64, votes_b: u64)
    requires
        cluster_size != 1,
        is_majority_of(cluster_size, votes_a),
        is_majority_of(cluster_size, votes_b),
    ensures
        votes_a + votes_b > cluster_size,
{
}

} // verus!
