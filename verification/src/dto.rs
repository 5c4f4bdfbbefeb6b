use vstd::prelude::*;

use crate::storage::LogEntry;

verus! {

/// A node's answer to a RequestVote: its term and whether it grants its vote.
#[derive(Debug, Clone, Copy, PartialEq, Eq, Structural)]
pub struct VoteResponse {
    term: u64,
    vote_granted: bool,
}

impl View for VoteResponse {
    /// `(term, vote_granted)`
    type V = (u64, bool);

    closed spec fn view(&self) -> (u64, bool) {
        (self.term, self.vote_granted)
    }
}

impl VoteResponse {
    pub fn granted(term: u64) -> (response: Self)
        ensures
            response@ == (term, true),
    {
        Self { term, vote_granted: true }
    }

    pub fn not_granted(term: u64) -> (response: Self)
        ensures
            response@ == (term, false),
    {
        Self { term, vote_granted: false }
    }

    pub fn term(&self) -> (term: u64)
        ensures
            term == self@.0,
    {
        self.term
    }

    pub fn vote_granted(&self) -> (granted: bool)
        ensures
            granted == self@.1,
    {
        self.vote_granted
    }
}

/// What a follower replies to an AppendEntries on the wire: accepted; refused
/// because the follower is in a higher term; or refused because its log has no
/// matching entry before the new ones, with the index and term of its last entry.
#[derive(Debug, Clone, Copy, PartialEq, Eq, Structural)]
pub enum AppendEntriesResponse {
    Success,
    Refused(u64),
    LogMismatch { last_index: u64, last_term: u64 },
}

/// A candidate's request for a vote.
#[derive(Debug)]
pub struct VoteRequest {
    term: u64,
    candidate_id: String,
    last_log_index: u64,
    last_log_term: u64,
}

/// A vote request as mathematical values.
pub struct VoteRequestView {
    pub term: u64,
    pub candidate_id: Seq<char>,
    pub last_log_index: u64,
    pub last_log_term: u64,
}

impl View for VoteRequest {
    type V = VoteRequestView;

    closed spec fn view(&self) -> VoteRequestView {
        VoteRequestView {
            term: self.term,
            candidate_id: self.candidate_id@,
            last_log_index: self.last_log_index,
            last_log_term: self.last_log_term,
        }
    }
}

impl VoteRequest {
    pub fn new(term: u64, candidate_id: String, last_log_index: u64, last_log_term: u64) -> (request: Self)
        ensures
            request@ == (VoteRequestView { term, candidate_id: candidate_id@, last_log_index, last_log_term }),
    {
        Self { term, candidate_id, last_log_index, last_log_term }
    }

    pub fn term(&self) -> (term: u64)
        ensures
            term == self@.term,
    {
        self.term
    }

    pub fn candidate_id(&self) -> (candidate_id: &str)
        ensures
            candidate_id@ == self@.candidate_id,
    {
        self.candidate_id.as_str()
    }

    pub fn last_log_index(&self) -> (index: u64)
        ensures
            index == self@.last_log_index,
    {
        self.last_log_index
    }

    pub fn last_log_term(&self) -> (term: u64)
        ensures
            term == self@.last_log_term,
    {
        self.last_log_term
    }
}

/// A leader's request to replicate entries (empty for a heartbeat).
#[derive(Debug)]
pub struct AppendEntriesRequest {
    pub term: u64,
    pub leader_id: String,
    pub prev_log_index: u64,
    pub prev_log_term: u64,
    pub entries: Vec<LogEntry>,
    pub leader_commit: u64,
}

/// A record of the store: its identifier and its bytes.
#[derive(Debug)]
pub struct Entry {
    pub id: String,
    pub data: Vec<u8>,
}

/// A read of the store: the record's identifier and an optional filter.
#[derive(Debug)]
pub struct Query {
    id: String,
    filter: Option<String>,
}

impl Query {
    pub fn new(id: String, filter: Option<String>) -> (query: Self)
        ensures
            query.spec_id() == id@,
            query.spec_filter() == match filter { Some(f) => Some(f@), None => None::<Seq<char>> },
    {
        Self { id, filter }
    }

    pub closed spec fn spec_id(&self) -> Seq<char> {
        self.id@
    }

    pub closed spec fn spec_filter(&self) -> Option<Seq<char>> {
        match self.filter {
            Some(f) => Some(f@),
            None => None,
        }
    }

    pub fn id(&self) -> (id: &str)
        ensures
            id@ == self.spec_id(),
    {
        self.id.as_str()
    }

    pub fn filter(&self) -> (filter: Option<&str>)
        ensures
            filter.is_some() == self.spec_filter().is_some(),
            filter.is_some() ==> Some(filter.unwrap()@) == self.spec_filter(),
    {
        match &self.filter {
            Some(f) => Some(f.as_str()),
            None => None,
        }
    }
}

/// A change to the store asked for by a client.
#[derive(Debug)]
pub enum Operation {
    Create(Vec<u8>),
    Update(String, Vec<u8>),
    Delete(String),
}

/// The kind of request a user of the interactive client sends.
#[derive(Debug, Clone, Copy, PartialEq, Eq, Structural)]
pub enum CrudOperation {
    Create,
    Read,
    Update,
    Delete,
}

/// A request of the interactive client: the operation, the record's identifier and
/// the data, where the operation needs them.
#[derive(Debug)]
pub struct CrudRequest {
    pub operation: CrudOperation,
    pub id: Option<String>,
    pub data: Option<String>,
}

/// A request of the interactive client together with the nodes it may be sent to.
#[derive(Debug)]
pub struct CrudMessage {
    pub request: CrudRequest,
    pub nodes: Vec<String>,
}

} // verus!
