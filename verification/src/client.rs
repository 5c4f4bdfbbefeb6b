use vstd::prelude::*;

use crate::dto::{AppendEntriesRequest, AppendEntriesResponse, VoteRequest, VoteRequestView, VoteResponse};
use crate::state::State;
use crate::storage::{LogEntry, entries_view, last_log_info_of};

verus! {

/// What came back from the request sent to one peer.
#[derive(Debug, Clone, Copy, PartialEq, Eq, Structural)]
pub enum PeerReply<R> {
    /// The task that carried the request was lost; which peer it was for is unknown.
    Lost,
    /// The request to the peer at this position in the peer list failed.
    Failed(usize),
    /// The peer answered.
    Replied(R),
}

/// A round of AppendEntries stopped by a peer with a higher term.
#[derive(Debug)]
pub struct FailureAppendEntriesResult {
    higher_term: u64,
    failed_peers: Vec<usize>,
}

impl FailureAppendEntriesResult {
    pub closed spec fn spec_higher_term(&self) -> u64 {
        self.higher_term
    }

    pub closed spec fn spec_failed_peers(&self) -> Seq<usize> {
        self.failed_peers@
    }

    pub fn higher_term(&self) -> (term: u64)
        ensures
            term == self.spec_higher_term(),
    {
        self.higher_term
    }

    pub fn failed_peers(&self) -> (peers: &[usize])
        ensures
            peers@ == self.spec_failed_peers(),
    {
        self.failed_peers.as_slice()
    }
}

/// A round of AppendEntries that no peer refused.
#[derive(Debug)]
pub struct SuccessfulAppendEntriesResult {
    appends_succesful: u64,
    failed_peers: Vec<usize>,
}

impl SuccessfulAppendEntriesResult {
    pub closed spec fn spec_appends_succesful(&self) -> u64 {
        self.appends_succesful
    }

    pub closed spec fn spec_failed_peers(&self) -> Seq<usize> {
        self.failed_peers@
    }

    /// The nodes that hold the entries: the leader and each peer that accepted them.
    pub fn appends_succesful(&self) -> (count: u64)
        ensures
            count == self.spec_appends_succesful(),
    {
        self.appends_succesful
    }

    pub fn failed_peers(&self) -> (peers: &[usize])
        ensures
            peers@ == self.spec_failed_peers(),
    {
        self.failed_peers.as_slice()
    }
}

/// The outcome of an election round.
#[derive(Debug)]
pub struct VoteResult {
    votes_granted: u64,
    failed_peers: Vec<usize>,
}

impl VoteResult {
    pub closed spec fn spec_votes_granted(&self) -> u64 {
        self.votes_granted
    }

    pub closed spec fn spec_failed_peers(&self) -> Seq<usize> {
        self.failed_peers@
    }

    /// The votes for the candidate: its own and each one granted by a peer.
    pub fn votes_granted(&self) -> (votes: u64)
        ensures
            votes == self.spec_votes_granted(),
    {
        self.votes_granted
    }

    pub fn failed_peers(&self) -> (peers: &[usize])
        ensures
            peers@ == self.spec_failed_peers(),
    {
        self.failed_peers.as_slice()
    }
}

/// The position of the peer whose request failed, if the reply is such a failure.
pub open spec fn failed_position<R>(reply: PeerReply<R>) -> Seq<usize> {
    match reply {
        PeerReply::Failed(i) => seq![i],
        _ => Seq::empty(),
    }
}

/// 1 for a granted vote, 0 otherwise.
pub open spec fn granted_vote(reply: PeerReply<VoteResponse>) -> nat {
    match reply {
        PeerReply::Replied(r) => if r@.1 { 1nat } else { 0nat },
        _ => 0nat,
    }
}

/// 1 for a peer that accepted the entries, 0 otherwise.
pub open spec fn accepted_append(reply: PeerReply<AppendEntriesResponse>) -> nat {
    match reply {
        PeerReply::Replied(AppendEntriesResponse::Success) => 1nat,
        _ => 0nat,
    }
}

/// Whether the peer refused the entries.
pub open spec fn is_refusal(reply: PeerReply<AppendEntriesResponse>) -> bool {
    reply matches PeerReply::Replied(AppendEntriesResponse::Refused(_))
}

/// The positions of the peers whose request failed, in the order the replies came.
pub open spec fn failed_positions<R>(replies: Seq<PeerReply<R>>) -> Seq<usize>
    decreases replies.len(),
{
    if replies.len() == 0 {
        Seq::empty()
    } else {
        failed_positions(replies.drop_last()) + failed_position(replies.last())
    }
}

/// The number of peers that granted their vote.
pub open spec fn granted_count(replies: Seq<PeerReply<VoteResponse>>) -> nat
    decreases replies.len(),
{
    if replies.len() == 0 {
        0
    } else {
        granted_count(replies.drop_last()) + granted_vote(replies.last())
    }
}

/// The number of peers that accepted the entries.
pub open spec fn accepted_count(replies: Seq<PeerReply<AppendEntriesResponse>>) -> nat
    decreases replies.len(),
{
    if replies.len() == 0 {
        0
    } else {
        accepted_count(replies.drop_last()) + accepted_append(replies.last())
    }
}

/// The position of the first reply that refused the entries, if any.
pub open spec fn first_refusal(replies: Seq<PeerReply<AppendEntriesResponse>>) -> Option<int>
    decreases replies.len(),
{
    if replies.len() == 0 {
        None
    } else {
        match first_refusal(replies.drop_last()) {
            Some(i) => Some(i),
            None => match replies.last() {
                PeerReply::Replied(AppendEntriesResponse::Refused(_)) => Some(replies.len() - 1),
                _ => None,
            },
        }
    }
}

/// The votes of an election round, counting the candidate's own vote, and the
/// positions of the peers that could not be asked, as the tally of `replies`.
pub struct VoteTally {
    votes_granted: u64,
    failed_peers: Vec<usize>,
}

impl VoteTally {
    pub closed spec fn spec_votes(&self) -> u64 {
        self.votes_granted
    }

    pub closed spec fn spec_failed(&self) -> Seq<usize> {
        self.failed_peers@
    }

    /// The tally before any reply: the candidate's own vote.
    pub fn new() -> (tally: Self)
        ensures
            tally.spec_votes() == 1,
            tally.spec_failed() == Seq::<usize>::empty(),
    {
        VoteTally { votes_granted: 1, failed_peers: Vec::new() }
    }

    /// Counts one more reply.
    pub fn record(&mut self, reply: PeerReply<VoteResponse>)
        requires
            old(self).spec_votes() < u64::MAX,
        ensures
            final(self).spec_votes() == old(self).spec_votes() + granted_vote(reply),
            final(self).spec_failed() == old(self).spec_failed() + failed_position(reply),
    {
        match reply {
            PeerReply::Lost => {},
            PeerReply::Failed(index) => {
                self.failed_peers.push(index);
            },
            PeerReply::Replied(response) => {
                if response.vote_granted() {
                    self.votes_granted = self.votes_granted + 1;
                }
            },
        }
        assert(self.failed_peers@ =~= old(self).failed_peers@ + failed_position(reply));
    }

    pub fn finish(self) -> (result: VoteResult)
        ensures
            result.spec_votes_granted() == self.spec_votes(),
            result.spec_failed_peers() == self.spec_failed(),
    {
        VoteResult { votes_granted: self.votes_granted, failed_peers: self.failed_peers }
    }
}

/// Counts the replies of an election round, in the order they came: the candidate's
/// own vote plus every vote granted, and the positions of the peers whose request
/// failed.
pub fn collect_vote_results(replies: &Vec<PeerReply<VoteResponse>>) -> (result: VoteResult)
    requires
        replies@.len() < u64::MAX,
    ensures
        result.spec_votes_granted() == 1 + granted_count(replies@),
        result.spec_failed_peers() == failed_positions(replies@),
{
    let mut tally = VoteTally::new();
    let n = replies.len();
    let mut i: usize = 0;
    while i < n
        invariant
            n == replies@.len(),
            n < u64::MAX,
            0 <= i <= n,
            tally.spec_votes() == 1 + granted_count(replies@.take(i as int)),
            granted_count(replies@.take(i as int)) <= i,
            tally.spec_failed() == failed_positions(replies@.take(i as int)),
        decreases n - i,
    {
        let reply = replies[i];
        let ghost prefix = replies@.take(i as int);
        let ghost next = replies@.take(i + 1);
        assert(next.drop_last() =~= prefix);
        assert(next.last() == reply);
        tally.record(reply);
        assert(tally.spec_failed() =~= failed_positions(next));
        i += 1;
    }
    assert(replies@.take(n as int) =~= replies@);
    tally.finish()
}

/// The tally of an AppendEntries round: the nodes that hold the entries (the leader
/// included) and the positions of the peers that could not be reached.
pub struct AppendEntriesTally {
    appends_succesful: u64,
    failed_peers: Vec<usize>,
}

impl AppendEntriesTally {
    pub closed spec fn spec_appends(&self) -> u64 {
        self.appends_succesful
    }

    pub closed spec fn spec_failed(&self) -> Seq<usize> {
        self.failed_peers@
    }

    /// The tally before any reply: the leader holds the entries.
    pub fn new() -> (tally: Self)
        ensures
            tally.spec_appends() == 1,
            tally.spec_failed() == Seq::<usize>::empty(),
    {
        AppendEntriesTally { appends_succesful: 1, failed_peers: Vec::new() }
    }

    /// Counts one more reply; a refusal ends the round with the peer's higher term
    /// and the failures seen so far.
    pub fn record(self, reply: PeerReply<AppendEntriesResponse>) -> (next: Result<
        AppendEntriesTally,
        FailureAppendEntriesResult,
    >)
        requires
            self.spec_appends() < u64::MAX,
        ensures
            reply matches PeerReply::Replied(AppendEntriesResponse::Refused(term)) ==> (next matches Err(f)
                && f.spec_higher_term() == term && f.spec_failed_peers() == self.spec_failed()),
            !is_refusal(reply) ==> (next matches Ok(t)
                && t.spec_appends() == self.spec_appends() + accepted_append(reply)
                && t.spec_failed() == self.spec_failed() + failed_position(reply)),
    {
        let mut tally = self;
        match reply {
            PeerReply::Lost => {},
            PeerReply::Failed(index) => {
                tally.failed_peers.push(index);
            },
            PeerReply::Replied(AppendEntriesResponse::Success) => {
                tally.appends_succesful = tally.appends_succesful + 1;
            },
            PeerReply::Replied(AppendEntriesResponse::LogMismatch { .. }) => {},
            PeerReply::Replied(AppendEntriesResponse::Refused(higher_term)) => {
                return Err(FailureAppendEntriesResult { higher_term, failed_peers: tally.failed_peers });
            },
        }
        assert(tally.failed_peers@ =~= self.failed_peers@ + failed_position(reply));
        Ok(tally)
    }

    pub fn finish(self) -> (result: SuccessfulAppendEntriesResult)
        ensures
            result.spec_appends_succesful() == self.spec_appends(),
            result.spec_failed_peers() == self.spec_failed(),
    {
        SuccessfulAppendEntriesResult { appends_succesful: self.appends_succesful, failed_peers: self.failed_peers }
    }
}

/// Tallies the replies of an AppendEntries round, in the order they came. The first
/// refusal ends the round: the result is that peer's higher term and the failures
/// seen before it. Without a refusal, the result counts the leader and each peer that
/// accepted, and lists the positions of the peers whose request failed.
pub fn manage_append_entries_tasks(replies: &Vec<PeerReply<AppendEntriesResponse>>) -> (result: Result<
    SuccessfulAppendEntriesResult,
    FailureAppendEntriesResult,
>)
    requires
        replies@.len() < u64::MAX,
    ensures
        first_refusal(replies@) matches Some(i) ==> (result matches Err(f)
            && replies@[i] == PeerReply::Replied(AppendEntriesResponse::Refused(f.spec_higher_term()))
            && f.spec_failed_peers() == failed_positions(replies@.take(i))),
        first_refusal(replies@) is None ==> (result matches Ok(s)
            && s.spec_appends_succesful() == 1 + accepted_count(replies@)
            && s.spec_failed_peers() == failed_positions(replies@)),
{
    let mut tally = AppendEntriesTally::new();
    let n = replies.len();
    let mut i: usize = 0;
    while i < n
        invariant
            n == replies@.len(),
            n < u64::MAX,
            0 <= i <= n,
            first_refusal(replies@.take(i as int)) is None,
            tally.spec_appends() == 1 + accepted_count(replies@.take(i as int)),
            accepted_count(replies@.take(i as int)) <= i,
            tally.spec_failed() == failed_positions(replies@.take(i as int)),
        decreases n - i,
    {
        let reply = replies[i];
        let ghost prefix = replies@.take(i as int);
        let ghost next = replies@.take(i + 1);
        assert(next.drop_last() =~= prefix);
        assert(next.last() == reply);
        proof {
            lemma_first_refusal_prefix(replies@, i as int);
        }
        match tally.record(reply) {
            Ok(t) => {
                tally = t;
                assert(tally.spec_failed() =~= failed_positions(next));
            },
            Err(failure) => {
                return Err(failure);
            },
        }
        i += 1;
    }
    assert(replies@.take(n as int) =~= replies@);
    Ok(tally.finish())
}

/// A refusal found in a prefix is the first refusal of the whole sequence.
proof fn lemma_first_refusal_prefix(replies: Seq<PeerReply<AppendEntriesResponse>>, i: int)
    requires
        0 <= i < replies.len(),
        first_refusal(replies.take(i)) is None,
    ensures
        is_refusal(replies[i]) ==> first_refusal(replies) == Some(i),
        !is_refusal(replies[i]) ==> first_refusal(replies.take(i + 1)) is None,
    decreases replies.len(),
{
    assert(replies.take(i + 1).drop_last() =~= replies.take(i));
    if is_refusal(replies[i]) {
        lemma_first_refusal_extends(replies, i + 1, i);
    }
}

/// The first refusal of a prefix stays the first refusal of every longer prefix.
proof fn lemma_first_refusal_extends(replies: Seq<PeerReply<AppendEntriesResponse>>, j: int, i: int)
    requires
        0 <= i < j <= replies.len(),
        first_refusal(replies.take(j)) == Some(i),
    ensures
        first_refusal(replies) == Some(i),
    decreases replies.len() - j,
{
    if j < replies.len() {
        assert(replies.take(j + 1).drop_last() =~= replies.take(j));
        lemma_first_refusal_extends(replies, j + 1, i);
    } else {
        assert(replies.take(j) =~= replies);
    }
}

/// The vote request a candidate sends to every peer: its term, its identity, and the
/// index and term of its last log entry.
pub fn prepare_vote_request<C>(state: &State<C>) -> (request: VoteRequest)
    ensures
        request@ == (VoteRequestView {
            term: state@.current_term,
            candidate_id: state@.id,
            last_log_index: last_log_info_of(state@.log).0,
            last_log_term: last_log_info_of(state@.log).1,
        }),
{
    let info = state.last_log_info();
    let candidate_id = state.id().addr().to_owned();
    VoteRequest::new(state.current_term(), candidate_id, info.last_log_index(), info.last_log_term())
}

/// The AppendEntries request a leader sends to every peer: its term and identity, the
/// index and term of its last log entry as the preceding entry, its commit index, and
/// the entries (none for a heartbeat).
pub fn prepare_append_entries_request<C>(state: &State<C>, entries: &[LogEntry]) -> (request: AppendEntriesRequest)
    ensures
        request.term == state@.current_term,
        request.leader_id@ == state@.id,
        request.prev_log_index == last_log_info_of(state@.log).0,
        request.prev_log_term == last_log_info_of(state@.log).1,
        request.leader_commit == state@.commit_index,
        entries_view(request.entries@) == entries_view(entries@),
{
    let info = state.last_log_info();
    let mut copies: Vec<LogEntry> = Vec::new();
    let mut i: usize = 0;
    while i < entries.len()
        invariant
            0 <= i <= entries@.len(),
            entries_view(copies@) =~= entries_view(entries@).take(i as int),
        decreases entries@.len() - i,
    {
        let copy = entries[i].duplicate();
        let ghost before = entries_view(copies@);
        copies.push(copy);
        assert(entries_view(copies@) =~= before.push(entries[i as int]@));
        assert(entries_view(entries@).take(i + 1) =~= entries_view(entries@).take(i as int).push(entries[i as int]@));
        i += 1;
    }
    assert(entries_view(entries@).take(entries@.len() as int) =~= entries_view(entries@));
    AppendEntriesRequest {
        term: state.current_term(),
        leader_id: state.id().addr().to_owned(),
        prev_log_index: info.last_log_index(),
        prev_log_term: info.last_log_term(),
        entries: copies,
        leader_commit: state.commit_index(),
    }
}

} // verus!
