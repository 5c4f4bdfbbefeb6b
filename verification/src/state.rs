use vstd::prelude::*;

use crate::consensus::{AppendEntriesResult, is_majority_of};
use crate::dto::VoteResponse;
use crate::peers::{Peer, Peers};
use crate::storage::{
    EntryView, consecutive_from, lemma_merge_idempotent, lemma_merge_places_entries, well_indexed, LogEntries, LogEntry, LogsInformation, append_command, entries_view,
    last_log_info_of, merge_entries, previous_entry_matches,
};

verus! {

/// The role a node plays in the cluster.
#[derive(Debug, Clone, Copy, PartialEq, Eq, Structural)]
pub enum Role {
    Leader,
    Candidate,
    Follower,
}

impl Default for Role {
    fn default() -> (role: Self)
        ensures
            role == Role::Follower,
    {
        Role::Follower
    }
}

/// The identity of a node: the text of its socket address, in the canonical form in
/// which the standard library prints one (`127.0.0.1:4000`, `[::1]:4000`). Two nodes
/// are the same when these texts are equal.
#[derive(Debug, Clone)]
pub struct NodeId(String);

impl View for NodeId {
    type V = Seq<char>;

    closed spec fn view(&self) -> Seq<char> {
        self.0@
    }
}

impl NodeId {
    pub fn new(addr: String) -> (id: Self)
        ensures
            id@ == addr@,
    {
        NodeId(addr)
    }

    /// The address text of the node.
    pub fn addr(&self) -> (addr: &str)
        ensures
            addr@ == self@,
    {
        self.0.as_str()
    }

    /// A copy of this identity.
    pub fn duplicate(&self) -> (copy: Self)
        ensures
            copy@ == self@,
    {
        NodeId(self.0.clone())
    }

    /// Whether both identities name the same node.
    pub fn same_as(&self, other: &NodeId) -> (same: bool)
        ensures
            same == (self@ == other@),
    {
        self.0 == other.0
    }
}

impl PartialEq for NodeId {
    fn eq(&self, other: &Self) -> (equal: bool) {
        self.0 == other.0
    }
}

impl vstd::std_specs::cmp::PartialEqSpecImpl for NodeId {
    open spec fn obeys_eq_spec() -> bool {
        true
    }

    open spec fn eq_spec(&self, other: &Self) -> bool {
        self@ == other@
    }
}

impl Eq for NodeId {
}

/// The part of a node's state that must survive a restart: the latest term it has
/// seen, whom it voted for in that term, and its log; with the file that holds them.
#[derive(Debug)]
pub struct HardState {
    current_term: u64,
    voted_for: Option<NodeId>,
    log_entries: LogEntries,
    file_path: String,
}

/// The identities in an optional identity, as text.
pub open spec fn opt_id_view(id: Option<NodeId>) -> Option<Seq<char>> {
    match id {
        Some(n) => Some(n@),
        None => None,
    }
}

impl HardState {
    /// The hard state of a node that has never run: term 0, no vote, empty log.
    pub fn new(file_path: String) -> (hard_state: Self)
        ensures
            hard_state.spec_current_term() == 0,
            hard_state.spec_voted_for() == None::<Seq<char>>,
            hard_state.spec_log() == Seq::<EntryView>::empty(),
            hard_state.spec_file_path() == file_path@,
    {
        HardState { current_term: 0, voted_for: None, log_entries: LogEntries::default(), file_path }
    }

    /// The hard state read back from disk.
    pub fn from_parts(
        current_term: u64,
        voted_for: Option<NodeId>,
        log_entries: LogEntries,
        file_path: String,
    ) -> (hard_state: Self)
        ensures
            hard_state.spec_current_term() == current_term,
            hard_state.spec_voted_for() == opt_id_view(voted_for),
            hard_state.spec_log() == log_entries@,
            hard_state.spec_file_path() == file_path@,
    {
        HardState { current_term, voted_for, log_entries, file_path }
    }

    pub closed spec fn spec_current_term(&self) -> u64 {
        self.current_term
    }

    pub closed spec fn spec_voted_for(&self) -> Option<Seq<char>> {
        opt_id_view(self.voted_for)
    }

    pub closed spec fn spec_log(&self) -> Seq<EntryView> {
        self.log_entries@
    }

    pub closed spec fn spec_file_path(&self) -> Seq<char> {
        self.file_path@
    }

    pub fn current_term(&self) -> (term: u64)
        ensures
            term == self.spec_current_term(),
    {
        self.current_term
    }

    pub fn voted_for(&self) -> (vote: Option<&NodeId>)
        ensures
            vote.is_some() == self.spec_voted_for().is_some(),
            vote.is_some() ==> Some(vote.unwrap()@) == self.spec_voted_for(),
    {
        self.voted_for.as_ref()
    }

    pub fn log_entries(&self) -> (log: &LogEntries)
        ensures
            log@ == self.spec_log(),
    {
        &self.log_entries
    }

    pub fn file_path(&self) -> (path: &str)
        ensures
            path@ == self.spec_file_path(),
    {
        self.file_path.as_str()
    }
}

/// The part of a node's state that is rebuilt after a restart.
#[derive(Debug, Clone, Copy, PartialEq, Eq, Structural)]
pub struct SoftState {
    commit_index: u64,
    last_applied: u64,
}

/// What a leader tracks of each follower's log.
#[derive(Debug)]
pub struct LeaderState {
    match_index: Vec<(NodeId, u64)>,
    next_index: Vec<(NodeId, u64)>,
}

/// The state of a node as mathematical values.
pub struct StateView {
    pub id: Seq<char>,
    pub role: Role,
    pub leader: Option<Seq<char>>,
    pub current_term: u64,
    pub voted_for: Option<Seq<char>>,
    pub log: Seq<EntryView>,
    pub commit_index: u64,
    pub last_applied: u64,
    pub file_path: Seq<char>,
}

/// The state after stepping down to follower in `term`, following `leader` if known.
pub open spec fn follower_of(s: StateView, leader: Option<Seq<char>>, term: u64) -> StateView {
    StateView { role: Role::Follower, current_term: term, voted_for: None, leader, ..s }
}

/// The state after starting an election: a new term, a vote for itself, no leader.
pub open spec fn candidate_of(s: StateView) -> StateView {
    StateView {
        role: Role::Candidate,
        current_term: (s.current_term + 1) as u64,
        voted_for: Some(s.id),
        leader: None,
        ..s
    }
}

/// The state after winning an election: leader of its own term.
pub open spec fn leader_of(s: StateView) -> StateView {
    StateView { role: Role::Leader, leader: Some(s.id), ..s }
}

/// The smaller of two terms or indices.
pub open spec fn min_u64(a: u64, b: u64) -> u64 {
    if a <= b {
        a
    } else {
        b
    }
}

/// The index of the last new entry of an AppendEntries request: that of its last
/// entry, or `prev_log_index` when it carries none (a heartbeat).
pub open spec fn last_new_index(prev_log_index: int, entries: Seq<EntryView>) -> u64 {
    if entries.len() > 0 {
        entries.last().index
    } else {
        prev_log_index as u64
    }
}

/// How a node answers an AppendEntries request, and the state it is in afterwards:
/// 1. a request from an older term is refused with the node's term, nothing changes;
/// 2. otherwise the node follows the sender in the request's term (vote cleared);
/// 3. if its log has no entry at `prev_log_index` with `prev_log_term` it reports
///    the index and term of its last entry;
/// 4. otherwise it merges the entries into its log and, if `leader_commit` is above
///    its commit index, sets that index to `leader_commit` or the index of the last
///    new entry (`prev_log_index` for a heartbeat), whichever is smaller.
pub open spec fn append_entries_step(
    s: StateView,
    term: u64,
    leader: Seq<char>,
    prev_log_index: int,
    prev_log_term: u64,
    leader_commit: u64,
    entries: Seq<EntryView>,
) -> (StateView, AppendEntriesResult) {
    if term < s.current_term {
        (s, AppendEntriesResult::TermMismatch(s.current_term))
    } else {
        let f = follower_of(s, Some(leader), term);
        if !previous_entry_matches(f.log, prev_log_index, prev_log_term) {
            (
                f,
                AppendEntriesResult::LogEntriesMismatch {
                    last_index: last_log_info_of(f.log).0,
                    last_term: last_log_info_of(f.log).1,
                },
            )
        } else {
            let log = merge_entries(f.log, entries);
            let commit_index = if leader_commit > f.commit_index {
                min_u64(leader_commit, last_new_index(prev_log_index, entries))
            } else {
                f.commit_index
            };
            (StateView { log, commit_index, ..f }, AppendEntriesResult::Success)
        }
    }
}

/// Whether a candidate whose last entry has index `last_log_index` and term
/// `last_log_term` has a log at least as up to date as `log`: a later last term,
/// or the same last term and at least as long.
pub open spec fn candidate_log_up_to_date(log: Seq<EntryView>, last_log_index: u64, last_log_term: u64) -> bool {
    let (index, term) = last_log_info_of(log);
    last_log_term > term || (last_log_index >= index && last_log_term == term)
}

/// How a node answers a RequestVote, as `(term, vote_granted)`, and its state
/// afterwards:
/// 1. a request from an older term is refused with the node's term, nothing changes;
/// 2. a request from a newer term makes the node a follower of that term, with no
///    known leader and no vote;
/// 3. the vote is granted, and recorded, when the node has not voted in this term or
///    voted for this same candidate, and the candidate's log is at least as up to
///    date as its own.
pub open spec fn request_vote_step(
    s: StateView,
    term: u64,
    candidate: Seq<char>,
    last_log_index: u64,
    last_log_term: u64,
) -> (StateView, (u64, bool)) {
    if term < s.current_term {
        (s, (s.current_term, false))
    } else {
        let s1 = if term > s.current_term {
            follower_of(s, None, term)
        } else {
            s
        };
        let may_vote = s1.voted_for is None || s1.voted_for == Some(candidate);
        if may_vote && candidate_log_up_to_date(s1.log, last_log_index, last_log_term) {
            (StateView { voted_for: Some(candidate), ..s1 }, (s1.current_term, true))
        } else {
            (s1, (s1.current_term, false))
        }
    }
}

/// The state of a Raft node: its identity and role, the leader it follows, its
/// persistent and volatile state, and its peers, reached through handles of type `C`.
#[derive(Debug)]
pub struct State<C> {
    id: NodeId,
    role: Role,
    leader: Option<NodeId>,
    leader_state: LeaderState,
    hard_state: HardState,
    soft_state: SoftState,
    peers: Peers<C>,
}

impl<C> View for State<C> {
    type V = StateView;

    closed spec fn view(&self) -> StateView {
        StateView {
            id: self.id@,
            role: self.role,
            leader: opt_id_view(self.leader),
            current_term: self.hard_state.current_term,
            voted_for: opt_id_view(self.hard_state.voted_for),
            log: self.hard_state.log_entries@,
            commit_index: self.soft_state.commit_index,
            last_applied: self.soft_state.last_applied,
            file_path: self.hard_state.file_path@,
        }
    }
}

impl<C> State<C> {
    /// A follower with no known leader and no peers, starting from `hard_state`.
    pub fn new(id: NodeId, hard_state: HardState) -> (state: Self)
        ensures
            state@ == (StateView {
                id: id@,
                role: Role::Follower,
                leader: None,
                current_term: hard_state.spec_current_term(),
                voted_for: hard_state.spec_voted_for(),
                log: hard_state.spec_log(),
                commit_index: 0,
                last_applied: 0,
                file_path: hard_state.spec_file_path(),
            }),
            state.peer_list() == Seq::<Peer<C>>::empty(),
    {
        State {
            id,
            role: Role::Follower,
            leader: None,
            leader_state: LeaderState { match_index: Vec::new(), next_index: Vec::new() },
            hard_state,
            soft_state: SoftState { commit_index: 0, last_applied: 0 },
            peers: Peers::new(),
        }
    }

    /// The peers of the node, in order.
    pub closed spec fn peer_list(&self) -> Seq<Peer<C>> {
        self.peers@
    }

    /// The number of nodes in the cluster: the peers and this node.
    pub open spec fn spec_cluster_size(&self) -> int {
        self.peer_list().len() + 1int
    }

    pub fn id(&self) -> (id: &NodeId)
        ensures
            id@ == self@.id,
    {
        &self.id
    }

    pub fn role(&self) -> (role: Role)
        ensures
            role == self@.role,
    {
        self.role
    }

    /// The leader this node follows, if it knows one.
    pub fn leader(&self) -> (leader: Option<&NodeId>)
        ensures
            leader.is_some() == self@.leader.is_some(),
            leader.is_some() ==> Some(leader.unwrap()@) == self@.leader,
    {
        self.leader.as_ref()
    }

    pub fn current_term(&self) -> (term: u64)
        ensures
            term == self@.current_term,
    {
        self.hard_state.current_term
    }

    pub fn commit_index(&self) -> (index: u64)
        ensures
            index == self@.commit_index,
    {
        self.soft_state.commit_index
    }

    pub fn last_applied(&self) -> (index: u64)
        ensures
            index == self@.last_applied,
    {
        self.soft_state.last_applied
    }

    pub fn update_commit_index(&mut self, commit_index: u64)
        ensures
            final(self)@ == (StateView { commit_index, ..old(self)@ }),
            final(self).peer_list() == old(self).peer_list(),
    {
        self.soft_state.commit_index = commit_index;
    }

    pub fn last_log_info(&self) -> (info: LogsInformation)
        ensures
            info@ == last_log_info_of(self@.log),
    {
        self.hard_state.log_entries.last_log_info()
    }

    pub fn log_entries(&self) -> (log: &LogEntries)
        ensures
            log@ == self@.log,
    {
        &self.hard_state.log_entries
    }

    /// The persistent part of the state, as it is to be written to disk.
    pub fn hard_state(&self) -> (hard_state: &HardState)
        ensures
            hard_state.spec_current_term() == self@.current_term,
            hard_state.spec_voted_for() == self@.voted_for,
            hard_state.spec_log() == self@.log,
            hard_state.spec_file_path() == self@.file_path,
    {
        &self.hard_state
    }

    pub fn voted_for(&self) -> (vote: Option<&NodeId>)
        ensures
            vote.is_some() == self@.voted_for.is_some(),
            vote.is_some() ==> Some(vote.unwrap()@) == self@.voted_for,
    {
        self.hard_state.voted_for.as_ref()
    }

    pub fn vote_for(&mut self, node: NodeId)
        ensures
            final(self)@ == (StateView { voted_for: Some(node@), ..old(self)@ }),
            final(self).peer_list() == old(self).peer_list(),
    {
        self.hard_state.voted_for = Some(node);
    }

    /// Steps down to follower in `new_term`, following `leader_id` if given, with
    /// the vote cleared.
    pub fn become_follower(&mut self, leader_id: Option<NodeId>, new_term: u64)
        ensures
            final(self)@ == follower_of(old(self)@, opt_id_view(leader_id), new_term),
            final(self).peer_list() == old(self).peer_list(),
    {
        self.role = Role::Follower;
        self.hard_state.current_term = new_term;
        self.hard_state.voted_for = None;
        self.leader = leader_id;
    }

    /// Starts an election: the next term, a vote for itself, no leader.
    pub fn become_candidate(&mut self)
        requires
            old(self)@.current_term < u64::MAX,
        ensures
            final(self)@ == candidate_of(old(self)@),
            final(self).peer_list() == old(self).peer_list(),
    {
        self.role = Role::Candidate;
        self.hard_state.current_term = self.hard_state.current_term + 1;
        self.hard_state.voted_for = Some(self.id.duplicate());
        self.leader = None;
    }

    /// Takes the lead of the cluster in the current term.
    pub fn become_leader(&mut self)
        ensures
            final(self)@ == leader_of(old(self)@),
            final(self).peer_list() == old(self).peer_list(),
    {
        self.role = Role::Leader;
        self.leader = Some(self.id.duplicate());
    }

    /// The number of nodes in the cluster: the peers and this node.
    pub fn cluster_size(&self) -> (size: u64)
        requires
            self.spec_cluster_size() <= u64::MAX,
        ensures
            size == self.spec_cluster_size(),
    {
        self.peers.total_connected() as u64 + 1
    }

    /// Whether `votes` (this node's own included) are a majority of the cluster.
    pub fn is_majority(&self, votes: u64) -> (majority: bool)
        requires
            self.spec_cluster_size() <= u64::MAX,
        ensures
            majority == is_majority_of(self.spec_cluster_size() as u64, votes),
    {
        crate::consensus::is_majority(self.cluster_size(), votes)
    }

    /// Ends an election with `votes` (own vote included): with a majority the node
    /// becomes leader, otherwise nothing changes.
    pub fn count_votes(&mut self, votes: u64)
        requires
            old(self).spec_cluster_size() <= u64::MAX,
        ensures
            is_majority_of(old(self).spec_cluster_size() as u64, votes) ==> final(self)@ == leader_of(old(self)@),
            !is_majority_of(old(self).spec_cluster_size() as u64, votes) ==> final(self)@ == old(self)@,
            final(self).peer_list() == old(self).peer_list(),
    {
        if self.is_majority(votes) {
            self.become_leader();
        }
    }

    /// Appends a command received from a client to the log, in the current term.
    pub fn new_entry(&mut self, command: Vec<u8>)
        requires
            old(self)@.log.len() > 0 ==> old(self)@.log.last().index < u64::MAX,
        ensures
            final(self)@ == (StateView {
                log: append_command(old(self)@.log, old(self)@.current_term, command@),
                ..old(self)@
            }),
            final(self).peer_list() == old(self).peer_list(),
    {
        let term = self.hard_state.current_term;
        self.hard_state.log_entries.new_entry(term, command);
    }

    /// Answers an AppendEntries request from `leader_id` (see `append_entries_step`).
    pub fn handle_append_entries(
        &mut self,
        term: u64,
        leader_id: NodeId,
        prev_log_index: usize,
        prev_log_term: u64,
        leader_commit: u64,
        entries: Vec<LogEntry>,
    ) -> (result: AppendEntriesResult)
        requires
            term >= old(self)@.current_term ==> prev_log_index + old(self)@.log.len() <= usize::MAX,
        ensures
            (final(self)@, result) == append_entries_step(
                old(self)@,
                term,
                leader_id@,
                prev_log_index as int,
                prev_log_term,
                leader_commit,
                entries_view(entries@),
            ),
            final(self).peer_list() == old(self).peer_list(),
    {
        if term < self.hard_state.current_term {
            return AppendEntriesResult::TermMismatch(self.hard_state.current_term);
        }
        self.become_follower(Some(leader_id), term);
        if !self.hard_state.log_entries.previous_log_entry_is_up_to_date(prev_log_index, prev_log_term) {
            let info = self.last_log_info();
            return AppendEntriesResult::LogEntriesMismatch {
                last_index: info.last_log_index(),
                last_term: info.last_log_term(),
            };
        }
        let n = entries.len();
        let last_new = if n > 0 {
            entries[n - 1].index()
        } else {
            prev_log_index as u64
        };
        self.hard_state.log_entries.merge(entries);
        if leader_commit > self.soft_state.commit_index {
            let last_index = last_new;
            self.soft_state.commit_index = if leader_commit <= last_index {
                leader_commit
            } else {
                last_index
            };
        }
        AppendEntriesResult::Success
    }

    /// Answers a RequestVote from `candidate` (see `request_vote_step`).
    pub fn handle_request_vote(
        &mut self,
        term: u64,
        candidate: NodeId,
        last_log_index: u64,
        last_log_term: u64,
    ) -> (response: VoteResponse)
        ensures
            (final(self)@, response@) == request_vote_step(
                old(self)@,
                term,
                candidate@,
                last_log_index,
                last_log_term,
            ),
            final(self).peer_list() == old(self).peer_list(),
    {
        if term < self.hard_state.current_term {
            return VoteResponse::not_granted(self.hard_state.current_term);
        }
        if term > self.hard_state.current_term {
            self.become_follower(None, term);
        }
        let may_vote = match &self.hard_state.voted_for {
            None => true,
            Some(node) => node.same_as(&candidate),
        };
        let info = self.last_log_info();
        let logs_up_to_date = last_log_term > info.last_log_term() || (last_log_index
            >= info.last_log_index() && last_log_term == info.last_log_term());
        if may_vote && logs_up_to_date {
            self.vote_for(candidate);
            VoteResponse::granted(self.hard_state.current_term)
        } else {
            VoteResponse::not_granted(self.hard_state.current_term)
        }
    }

    pub fn peers(&self) -> (peers: &Peers<C>)
        ensures
            peers@ == self.peer_list(),
    {
        &self.peers
    }

    /// Adds a peer at the end of the list.
    pub fn add_peer(&mut self, peer: Peer<C>)
        ensures
            final(self)@ == old(self)@,
            final(self).peer_list() == old(self).peer_list().push(peer),
    {
        self.peers.push(peer);
    }

    /// Removes and returns the peer at position `index`.
    pub fn remove_peer(&mut self, index: usize) -> (peer: Peer<C>)
        requires
            index < old(self).peer_list().len(),
        ensures
            final(self)@ == old(self)@,
            peer == old(self).peer_list()[index as int],
            final(self).peer_list() == old(self).peer_list().remove(index as int),
    {
        self.peers.remove(index)
    }
}

/// A node never goes back to an older term, whatever AppendEntries it answers, and
/// it refuses a request only with a term newer than the request's.
pub proof fn lemma_append_entries_never_lowers_term(
    s: StateView,
    term: u64,
    leader: Seq<char>,
    prev_log_index: int,
    prev_log_term: u64,
    leader_commit: u64,
    entries: Seq<EntryView>,
)
    ensures
        ({
            let (next, result) = append_entries_step(s, term, leader, prev_log_index, prev_log_term, leader_commit, entries);
            &&& next.current_term >= s.current_term
            &&& next.current_term >= term || result == AppendEntriesResult::TermMismatch(s.current_term)
            &&& (result matches AppendEntriesResult::TermMismatch(t) ==> t > term && next == s)
        }),
{
}

/// A node never goes back to an older term, whatever RequestVote it answers, and the
/// term it replies with is its term afterwards.
pub proof fn lemma_request_vote_never_lowers_term(
    s: StateView,
    term: u64,
    candidate: Seq<char>,
    last_log_index: u64,
    last_log_term: u64,
)
    ensures
        ({
            let (next, reply) = request_vote_step(s, term, candidate, last_log_index, last_log_term);
            &&& next.current_term >= s.current_term
            &&& reply.0 == next.current_term
            &&& next.current_term >= term
        }),
{
}

/// A request from an older term changes nothing: AppendEntries is refused with the
/// node's term, RequestVote is not granted.
pub proof fn lemma_stale_requests_change_nothing(
    s: StateView,
    term: u64,
    sender: Seq<char>,
    prev_log_index: int,
    prev_log_term: u64,
    leader_commit: u64,
    entries: Seq<EntryView>,
    last_log_index: u64,
    last_log_term: u64,
)
    requires
        term < s.current_term,
    ensures
        append_entries_step(s, term, sender, prev_log_index, prev_log_term, leader_commit, entries)
            == (s, AppendEntriesResult::TermMismatch(s.current_term)),
        request_vote_step(s, term, sender, last_log_index, last_log_term) == (s, (s.current_term, false)),
{
}

/// Within one term a node that has voted for a candidate refuses every other
/// candidate and keeps its vote.
pub proof fn lemma_single_vote_per_term(
    s: StateView,
    candidate: Seq<char>,
    last_log_index: u64,
    last_log_term: u64,
)
    requires
        s.voted_for is Some,
        s.voted_for != Some(candidate),
    ensures
        ({
            let (next, reply) = request_vote_step(s, s.current_term, candidate, last_log_index, last_log_term);
            &&& !reply.1
            &&& next == s
        }),
{
}

/// A granted vote is recorded for the candidate, in the request's term, and the
/// candidate's log is at least as up to date as the voter's.
pub proof fn lemma_granted_vote_is_recorded(
    s: StateView,
    term: u64,
    candidate: Seq<char>,
    last_log_index: u64,
    last_log_term: u64,
)
    ensures
        ({
            let (next, reply) = request_vote_step(s, term, candidate, last_log_index, last_log_term);
            reply.1 ==> {
                &&& next.voted_for == Some(candidate)
                &&& next.current_term == term
                &&& reply.0 == term
                &&& candidate_log_up_to_date(s.log, last_log_index, last_log_term)
                &&& next.log == s.log
            }
        }),
{
}

/// After an accepted AppendEntries that raised the commit index, that index is no
/// more than the leader's and no more than the index of the last new entry.
pub proof fn lemma_commit_index_bounded(
    s: StateView,
    term: u64,
    leader: Seq<char>,
    prev_log_index: int,
    prev_log_term: u64,
    leader_commit: u64,
    entries: Seq<EntryView>,
)
    requires
        leader_commit > s.commit_index,
    ensures
        ({
            let (next, result) = append_entries_step(s, term, leader, prev_log_index, prev_log_term, leader_commit, entries);
            result == AppendEntriesResult::Success ==> {
                &&& next.commit_index <= leader_commit
                &&& next.commit_index <= last_new_index(prev_log_index, entries)
            }
        }),
{
}

/// The commit index does not go down on an accepted AppendEntries, as long as the
/// last new entry (the preceding entry for a heartbeat) reaches the old commit index.
pub proof fn lemma_commit_index_never_decreases(
    s: StateView,
    term: u64,
    leader: Seq<char>,
    prev_log_index: int,
    prev_log_term: u64,
    leader_commit: u64,
    entries: Seq<EntryView>,
)
    requires
        ({
            let (next, result) = append_entries_step(s, term, leader, prev_log_index, prev_log_term, leader_commit, entries);
            result == AppendEntriesResult::Success ==> last_new_index(prev_log_index, entries) >= s.commit_index
        }),
    ensures
        append_entries_step(s, term, leader, prev_log_index, prev_log_term, leader_commit, entries).0.commit_index
            >= s.commit_index,
{
}

/// Once a follower accepts AppendEntries whose entries carry consecutive indices
/// right after `prev_log_index`, its well-indexed log holds each entry's term at the
/// entry's index, and the entries up to `prev_log_index` are untouched.
pub proof fn lemma_accepted_entries_are_in_log(
    s: StateView,
    term: u64,
    leader: Seq<char>,
    prev_log_index: int,
    prev_log_term: u64,
    leader_commit: u64,
    entries: Seq<EntryView>,
)
    requires
        well_indexed(s.log),
        consecutive_from(entries, prev_log_index + 1),
        0 <= prev_log_index < s.log.len(),
    ensures
        ({
            let (next, result) = append_entries_step(s, term, leader, prev_log_index, prev_log_term, leader_commit, entries);
            result == AppendEntriesResult::Success ==> {
                &&& well_indexed(next.log)
                &&& forall|k: int| 0 <= k < entries.len() ==> #[trigger] next.log[prev_log_index + 1 + k].term == entries[k].term
                &&& forall|i: int| 0 <= i <= prev_log_index ==> #[trigger] next.log[i] == s.log[i]
            }
        }),
{
    lemma_merge_places_entries(s.log, entries, prev_log_index + 1);
}

/// Receiving the same AppendEntries twice leaves the node as receiving it once, and
/// it gives the same answer, when the entries carry consecutive indices starting
/// after `prev_log_index` and no later than the end of the node's well-indexed log.
pub proof fn lemma_append_entries_idempotent(
    s: StateView,
    term: u64,
    leader: Seq<char>,
    prev_log_index: int,
    prev_log_term: u64,
    leader_commit: u64,
    entries: Seq<EntryView>,
    start: int,
)
    requires
        well_indexed(s.log),
        consecutive_from(entries, start),
        prev_log_index < start <= s.log.len(),
    ensures
        ({
            let (once, result) = append_entries_step(s, term, leader, prev_log_index, prev_log_term, leader_commit, entries);
            append_entries_step(once, term, leader, prev_log_index, prev_log_term, leader_commit, entries) == (once, result)
        }),
{
    let (once, result) = append_entries_step(s, term, leader, prev_log_index, prev_log_term, leader_commit, entries);
    if term >= s.current_term {
        let f = follower_of(s, Some(leader), term);
        if previous_entry_matches(f.log, prev_log_index, prev_log_term) {
            lemma_merge_places_entries(s.log, entries, start);
            lemma_merge_idempotent(s.log, entries, start);
            let log = merge_entries(s.log, entries);
            if 0 <= prev_log_index {
                assert(log[prev_log_index] == s.log[prev_log_index]);
            }
            assert(previous_entry_matches(once.log, prev_log_index, prev_log_term));
            let f2 = follower_of(once, Some(leader), term);
            assert(f2 == StateView { log, commit_index: once.commit_index, ..f });
        }
    }
}

/// A node that has just started an election has voted for itself, so in that term
/// it refuses its vote to every other candidate.
pub proof fn lemma_candidate_refuses_rivals(
    s: StateView,
    rival: Seq<char>,
    last_log_index: u64,
    last_log_term: u64,
)
    requires
        rival != s.id,
        s.current_term < u64::MAX,
    ensures
        ({
            let c = candidate_of(s);
            let (next, reply) = request_vote_step(c, c.current_term, rival, last_log_index, last_log_term);
            &&& !reply.1
            &&& next == c
        }),
{
    lemma_single_vote_per_term(candidate_of(s), rival, last_log_index, last_log_term);
}

/// A vote is granted exactly when the request is not from an older term, the voter
/// has not voted for someone else in the request's term, and the candidate's log is
/// at least as up to date as the voter's: its last term is later than the voter's
/// last term, or the same with a last index at least the voter's last index (an
/// empty log is matched by every candidate).
pub proof fn lemma_vote_granted_iff(
    s: StateView,
    term: u64,
    candidate: Seq<char>,
    last_log_index: u64,
    last_log_term: u64,
)
    ensures
        ({
            let (next, reply) = request_vote_step(s, term, candidate, last_log_index, last_log_term);
            reply.1 <==> {
                &&& term >= s.current_term
                &&& (term > s.current_term || s.voted_for is None || s.voted_for == Some(candidate))
                &&& (s.log.len() == 0 || last_log_term > s.log.last().term || (last_log_term
                    == s.log.last().term && last_log_index >= s.log.last().index))
            }
        }),
        ({
            let (next, reply) = request_vote_step(s, term, candidate, last_log_index, last_log_term);
            reply.1 && s.log.len() > 0 && last_log_term == s.log.last().term ==> last_log_index
                >= s.log.last().index
        }),
        ({
            let (next, reply) = request_vote_step(s, term, candidate, last_log_index, last_log_term);
            reply.1 && s.log.len() > 0 ==> last_log_term >= s.log.last().term
        }),
        ({
            let (next, reply) = request_vote_step(s, term, candidate, last_log_index, last_log_term);
            &&& next.log == s.log
            &&& next.commit_index == s.commit_index
            &&& (term > s.current_term ==> next.role == Role::Follower && next.current_term == term)
            &&& (reply.1 ==> next.voted_for == Some(candidate))
            &&& (!reply.1 && term == s.current_term ==> next == s)
        }),
{
}

/// AppendEntries succeeds exactly when the request is not from an older term and the
/// log holds an entry at `prev_log_index` whose term is `prev_log_term` (an empty log
/// accepts the position 0), heartbeats included. On success the commit index, when
/// `leader_commit` is above it, becomes `leader_commit` or the index of the last
/// entry sent (`prev_log_index` for a heartbeat), whichever is smaller, and otherwise
/// stays; a heartbeat leaves the log as it was. A refusal for the log leaves the log
/// and the commit index as they were.
pub proof fn lemma_append_entries_rule(
    s: StateView,
    term: u64,
    leader: Seq<char>,
    prev_log_index: int,
    prev_log_term: u64,
    leader_commit: u64,
    entries: Seq<EntryView>,
)
    requires
        0 <= prev_log_index <= u64::MAX,
    ensures
        ({
            let (next, result) = append_entries_step(s, term, leader, prev_log_index, prev_log_term, leader_commit, entries);
            result == AppendEntriesResult::Success <==> {
                &&& term >= s.current_term
                &&& ((prev_log_index == 0 && s.log.len() == 0) || (prev_log_index < s.log.len()
                    && s.log[prev_log_index].term == prev_log_term))
            }
        }),
        ({
            let (next, result) = append_entries_step(s, term, leader, prev_log_index, prev_log_term, leader_commit, entries);
            result == AppendEntriesResult::Success ==> next.commit_index as int == if leader_commit
                <= s.commit_index {
                s.commit_index as int
            } else if entries.len() == 0 {
                if leader_commit <= prev_log_index { leader_commit as int } else { prev_log_index }
            } else {
                if leader_commit <= entries.last().index {
                    leader_commit as int
                } else {
                    entries.last().index as int
                }
            }
        }),
        ({
            let (next, result) = append_entries_step(s, term, leader, prev_log_index, prev_log_term, leader_commit, entries);
            result == AppendEntriesResult::Success && entries.len() == 0 ==> {
                &&& next.log == s.log
                &&& (prev_log_index >= s.commit_index ==> next.commit_index >= s.commit_index)
                &&& (s.log.len() > 0 && leader_commit > s.commit_index ==> next.commit_index
                    < next.log.len())
            }
        }),
        ({
            let (next, result) = append_entries_step(s, term, leader, prev_log_index, prev_log_term, leader_commit, entries);
            result is LogEntriesMismatch ==> next.log == s.log && next.commit_index == s.commit_index
        }),
        ({
            let (next, result) = append_entries_step(s, term, leader, prev_log_index, prev_log_term, leader_commit, entries);
            term >= s.current_term ==> {
                &&& next.role == Role::Follower
                &&& next.current_term == term
                &&& next.voted_for is None
                &&& next.leader == Some(leader)
                &&& next.id == s.id
            }
        }),
{
}

} // verus!
