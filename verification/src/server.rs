use vstd::prelude::*;

use crate::consensus::AppendEntriesResult;
use crate::dto::{AppendEntriesResponse, VoteResponse};

verus! {

/// What a follower sends back on the wire for its answer to AppendEntries: success
/// only for accepted entries; a refusal for an older term carries the follower's
/// term; a log mismatch is refused with the index and term of its last entry.
pub fn append_entries_response(result: AppendEntriesResult) -> (response: AppendEntriesResponse)
    ensures
        result is Success <==> response is Success,
        result matches AppendEntriesResult::TermMismatch(term) ==> response == AppendEntriesResponse::Refused(term),
        result matches AppendEntriesResult::LogEntriesMismatch { last_index, last_term } ==> response
            == (AppendEntriesResponse::LogMismatch { last_index, last_term }),
{
    match result {
        AppendEntriesResult::Success => AppendEntriesResponse::Success,
        AppendEntriesResult::TermMismatch(term) => AppendEntriesResponse::Refused(term),
        AppendEntriesResult::LogEntriesMismatch { last_index, last_term } => AppendEntriesResponse::LogMismatch {
            last_index,
            last_term,
        },
    }
}

/// The fields a node sends back on the wire for its answer to RequestVote:
/// `(vote_granted, term)`.
pub fn request_vote_response(response: &VoteResponse) -> (fields: (bool, u64))
    ensures
        fields == (response@.1, response@.0),
{
    (response.vote_granted(), response.term())
}

} // verus!
