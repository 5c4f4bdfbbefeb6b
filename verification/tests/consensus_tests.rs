use raft::consensus::{is_majority, AppendEntriesError, AppendEntriesResult};
use raft::peers::Peer;
use raft::state::{HardState, NodeId, Role, State};
use raft::storage::{LogEntries, LogEntry};

fn node(addr: &str) -> NodeId {
    NodeId::new(addr.to_string())
}

fn entry(index: u64, term: u64, command: &str) -> LogEntry {
    LogEntry::new(index, term, command.as_bytes().to_vec())
}

/// A follower at 127.0.0.1:4000 in `term`, having voted for `voted_for`, with `log`
/// and `cluster_size - 1` peers.
fn state(term: u64, voted_for: Option<&str>, log: Vec<LogEntry>, cluster_size: usize) -> State<()> {
    let hard = HardState::from_parts(
        term,
        voted_for.map(node),
        LogEntries::new(log),
        "data/state/127.0.0.1_4000".to_string(),
    );
    let mut state = State::new(node("127.0.0.1:4000"), hard);
    for i in 1..cluster_size {
        let addr = format!("127.0.0.1:{}", 4000 + i);
        state.add_peer(Peer::new(node(&addr), addr.clone(), ()));
    }
    state
}

fn voted_for(state: &State<()>) -> Option<String> {
    state.voted_for().map(|n| n.addr().to_string())
}

fn leader(state: &State<()>) -> Option<String> {
    state.leader().map(|n| n.addr().to_string())
}

#[test]
fn test_is_majority_single_node() {
    let state = state(0, None, vec![], 1);
    assert!(state.is_majority(1));
    assert!(state.is_majority(0));
}

#[test]
fn test_is_majority_three_nodes() {
    let state = state(0, None, vec![], 3);
    assert!(!state.is_majority(0));
    assert!(!state.is_majority(1));
    assert!(state.is_majority(2));
    assert!(state.is_majority(3));
}

#[test]
fn test_is_majority_five_nodes() {
    let state = state(0, None, vec![], 5);
    assert!(!state.is_majority(0));
    assert!(!state.is_majority(1));
    assert!(!state.is_majority(2));
    assert!(state.is_majority(3));
    assert!(state.is_majority(4));
    assert!(state.is_majority(5));
}

#[test]
fn test_is_majority_even_nodes() {
    let state = state(0, None, vec![], 4);
    assert!(!state.is_majority(0));
    assert!(!state.is_majority(1));
    assert!(!state.is_majority(2));
    assert!(state.is_majority(3));
    assert!(state.is_majority(4));
}

#[test]
fn majority_of_a_cluster_size() {
    assert!(is_majority(1, 0));
    assert!(!is_majority(2, 1));
    assert!(is_majority(2, 2));
    assert!(!is_majority(0, 0));
    assert!(is_majority(0, 1));
}

#[test]
fn test_count_votes_becomes_leader_with_majority() {
    let mut state = state(0, None, vec![], 3);
    state.count_votes(2);
    assert_eq!(state.role(), Role::Leader);
    assert_eq!(leader(&state), Some("127.0.0.1:4000".to_string()));
}

#[test]
fn test_count_votes_stays_candidate_without_majority() {
    let mut state = state(0, None, vec![], 5);
    state.become_candidate();
    state.count_votes(2);
    assert_eq!(state.role(), Role::Candidate);
}

#[test]
fn test_count_votes_single_node_becomes_leader() {
    let mut state = state(0, None, vec![], 1);
    state.count_votes(1);
    assert_eq!(state.role(), Role::Leader);
}

#[test]
fn test_handle_request_vote_grants_vote_when_valid() {
    let mut state = state(1, None, vec![], 3);

    let candidate_addr = "127.0.0.1:4001";
    let response = state.handle_request_vote(1, node(candidate_addr), 1, 1);

    assert!(response.vote_granted());
    assert_eq!(response.term(), 1);
    assert_eq!(voted_for(&state), Some(candidate_addr.to_string()));
}

#[test]
fn test_handle_request_vote_rejects_lower_term() {
    let mut state = state(2, None, vec![], 3);

    let response = state.handle_request_vote(1, node("127.0.0.1:4001"), 1, 1);

    assert!(!response.vote_granted());
    assert_eq!(response.term(), 2);
    assert!(state.voted_for().is_none());
}

#[test]
fn test_handle_request_vote_rejects_already_voted() {
    let mut state = state(1, Some("127.0.0.1:4002"), vec![], 3);

    let response = state.handle_request_vote(1, node("127.0.0.1:4001"), 1, 1);

    assert!(!response.vote_granted());
    assert_eq!(response.term(), 1);
}

#[test]
fn test_handle_request_vote_allows_revote_for_same_candidate() {
    let mut state = state(1, Some("127.0.0.1:4001"), vec![], 3);

    let response = state.handle_request_vote(1, node("127.0.0.1:4001"), 1, 1);

    assert!(response.vote_granted());
    assert_eq!(response.term(), 1);
}

#[test]
fn test_handle_request_vote_updates_term_when_higher() {
    let mut state = state(0, None, vec![], 3);
    state.become_candidate();
    assert_eq!(state.current_term(), 1);

    let response = state.handle_request_vote(3, node("127.0.0.1:4001"), 1, 1);

    assert_eq!(state.current_term(), 3);
    assert_eq!(state.role(), Role::Follower);
    assert!(state.voted_for().is_some());
    assert!(response.vote_granted());
}

#[test]
fn test_handle_append_entries_rejects_lower_term() {
    let mut state = state(2, None, vec![], 3);

    let result = state.handle_append_entries(1, node("127.0.0.1:4001"), 0, 0, 0, vec![]);

    match result {
        AppendEntriesResult::TermMismatch(term) => assert_eq!(term, 2),
        _ => panic!("Expected TermMismatch"),
    }
}

#[test]
fn test_handle_append_entries_becomes_follower() {
    let mut state = state(0, None, vec![], 3);
    state.become_candidate();

    let _result = state.handle_append_entries(2, node("127.0.0.1:4001"), 0, 0, 0, vec![]);

    assert_eq!(state.role(), Role::Follower);
    assert_eq!(state.current_term(), 2);
    assert_eq!(leader(&state), Some("127.0.0.1:4001".to_string()));
}

#[test]
fn test_handle_append_entries_updates_commit_index() {
    let mut state = state(1, None, vec![], 3);

    let _result = state.handle_append_entries(1, node("127.0.0.1:4001"), 0, 0, 5, vec![]);

    assert_eq!(state.commit_index(), 0);
}

#[test]
fn test_handle_append_entries_success_case() {
    let mut state = state(1, None, vec![], 3);

    let result = state.handle_append_entries(1, node("127.0.0.1:4001"), 0, 0, 0, vec![]);

    match result {
        AppendEntriesResult::Success => {}
        _ => panic!("Expected Ok result"),
    }
    assert_eq!(state.role(), Role::Follower);
    assert_eq!(leader(&state), Some("127.0.0.1:4001".to_string()));
}

#[test]
fn test_handle_append_entries_same_term_updates_leader() {
    let mut state = state(0, None, vec![], 3);
    state.become_candidate();
    assert!(state.leader().is_none());

    let _result = state.handle_append_entries(1, node("127.0.0.1:4001"), 0, 0, 0, vec![]);

    assert_eq!(state.role(), Role::Follower);
    assert_eq!(state.current_term(), 1);
    assert_eq!(leader(&state), Some("127.0.0.1:4001".to_string()));
}

#[test]
fn test_handle_append_entries_term_lower_than_current_follower() {
    let mut service = state(1, None, vec![], 1);

    let response = service.handle_append_entries(0, node("127.0.0.1:4000"), 0, 0, 0, vec![]);

    match response.into_result().unwrap_err() {
        AppendEntriesError::TermMismatch(term) => assert_eq!(term, 1),
        _ => panic!("Expected TermMismatch error"),
    }
    assert_eq!(service.current_term(), 1);
    assert_eq!(voted_for(&service), None);
    assert_eq!(service.log_entries().len(), 0);
    assert_eq!(service.commit_index(), 0);
    assert_eq!(service.role(), Role::Follower);
    assert_eq!(service.id().addr(), "127.0.0.1:4000");
    assert_eq!(leader(&service), None);
}

#[test]
fn test_handle_append_entries_term_lower_than_current_candidate() {
    let mut service = state(0, None, vec![], 1);
    service.become_candidate();
    service.vote_for(node("127.0.0.1:4003"));
    let leader_before = service.leader().map(|l| l.addr().to_string());

    let response = service.handle_append_entries(0, node("127.0.0.1:4000"), 0, 0, 0, vec![]);

    match response.into_result().unwrap_err() {
        AppendEntriesError::TermMismatch(term) => assert_eq!(term, 1),
        _ => panic!("Expected TermMismatch error"),
    }
    assert_eq!(service.current_term(), 1);
    assert_eq!(voted_for(&service), Some("127.0.0.1:4003".to_string()));
    assert_eq!(service.log_entries().len(), 0);
    assert_eq!(service.commit_index(), 0);
    assert_eq!(service.last_applied(), 0);
    assert_eq!(service.role(), Role::Candidate);
    assert_eq!(service.id().addr(), "127.0.0.1:4000");
    assert_eq!(service.leader().map(|l| l.addr().to_string()), leader_before);
}

#[test]
fn test_handle_append_entries_log_index_mismatch_follower() {
    let mut service = state(1, Some("127.0.0.1:4003"), vec![entry(0, 1, "command1")], 1);

    let entries = vec![entry(2, 1, "command2")];
    let response = service.handle_append_entries(1, node("127.0.0.1:4003"), 1, 1, 1, entries);

    match response.into_result().unwrap_err() {
        AppendEntriesError::LogEntriesMismatch { last_index, last_term } => {
            assert_eq!(last_index, 0);
            assert_eq!(last_term, 1);
        }
        _ => panic!("Expected LogEntriesMismatch error"),
    }
    assert_eq!(service.current_term(), 1);
    assert_eq!(voted_for(&service), None);
    assert_eq!(service.log_entries().len(), 1);
    assert_eq!(service.log_entries()[0].index(), 0);
    assert_eq!(service.log_entries()[0].term(), 1);
    assert_eq!(service.log_entries()[0].command(), b"command1");
    assert_eq!(service.commit_index(), 0);
    assert_eq!(service.role(), Role::Follower);
    assert_eq!(leader(&service), Some("127.0.0.1:4003".to_string()));
}

#[test]
fn test_handle_append_entries_log_index_mismatch_candidate() {
    let mut service = state(0, None, vec![entry(0, 1, "command1")], 1);
    service.become_candidate();
    service.vote_for(node("127.0.0.1:4004"));

    let entries = vec![entry(2, 1, "command2")];
    let response = service.handle_append_entries(1, node("127.0.0.1:4003"), 1, 1, 1, entries);

    match response.into_result().unwrap_err() {
        AppendEntriesError::LogEntriesMismatch { last_index, last_term } => {
            assert_eq!(last_index, 0);
            assert_eq!(last_term, 1);
        }
        _ => panic!("Expected LogEntriesMismatch error"),
    }
    assert_eq!(service.current_term(), 1);
    assert_eq!(voted_for(&service), None);
    assert_eq!(service.log_entries().len(), 1);
    assert_eq!(service.commit_index(), 0);
    assert_eq!(service.role(), Role::Follower);
    assert_eq!(leader(&service), Some("127.0.0.1:4003".to_string()));
}

#[test]
fn test_handle_append_entries_log_term_mismatch_candidate() {
    let mut service = state(0, None, vec![entry(0, 1, "command1")], 1);
    service.become_candidate();
    service.vote_for(node("127.0.0.1:4004"));

    let entries = vec![entry(1, 2, "command2")];
    let response = service.handle_append_entries(2, node("127.0.0.1:4003"), 0, 2, 1, entries);

    match response.into_result().unwrap_err() {
        AppendEntriesError::LogEntriesMismatch { last_index, last_term } => {
            assert_eq!(last_index, 0);
            assert_eq!(last_term, 1);
        }
        _ => panic!("Expected LogEntriesMismatch error"),
    }
    assert_eq!(service.current_term(), 2);
    assert_eq!(voted_for(&service), None);
    assert_eq!(service.log_entries().len(), 1);
    assert_eq!(service.log_entries()[0].term(), 1);
    assert_eq!(service.commit_index(), 0);
    assert_eq!(service.role(), Role::Follower);
    assert_eq!(leader(&service), Some("127.0.0.1:4003".to_string()));
}

#[test]
fn test_handle_append_entries_update_commit_index() {
    let mut service = state(0, None, vec![entry(0, 1, "command1")], 1);
    service.become_candidate();
    service.vote_for(node("127.0.0.1:4004"));

    let entries = vec![entry(1, 2, "command2")];
    let response = service.handle_append_entries(2, node("127.0.0.1:4003"), 0, 1, 1, entries);

    assert!(response.into_result().is_ok());
    assert_eq!(service.current_term(), 2);
    assert_eq!(voted_for(&service), None);
    assert_eq!(service.log_entries().len(), 2);
    assert_eq!(service.log_entries()[0].index(), 0);
    assert_eq!(service.log_entries()[0].term(), 1);
    assert_eq!(service.log_entries()[0].command(), b"command1");
    assert_eq!(service.log_entries()[1].index(), 1);
    assert_eq!(service.log_entries()[1].term(), 2);
    assert_eq!(service.log_entries()[1].command(), b"command2");
    assert_eq!(service.commit_index(), 1);
    assert_eq!(service.role(), Role::Follower);
    assert_eq!(leader(&service), Some("127.0.0.1:4003".to_string()));
}

#[test]
fn test_handle_request_vote_term_mismatch() {
    let mut service = state(2, None, vec![], 1);

    let response = service.handle_request_vote(1, node("127.0.0.1:4001"), 0, 0);

    assert_eq!(response.vote_granted(), false);
    assert_eq!(response.term(), 2);
    assert_eq!(service.current_term(), 2);
    assert_eq!(voted_for(&service), None);
    assert_eq!(service.role(), Role::Follower);
}

#[test]
fn test_handle_request_vote_valid_vote_candidate() {
    let mut service = state(0, None, vec![entry(0, 1, "command1")], 1);
    service.become_candidate();

    let response = service.handle_request_vote(2, node("127.0.0.1:4001"), 0, 2);

    assert_eq!(response.vote_granted(), true);
    assert_eq!(response.term(), 2);
    assert_eq!(service.current_term(), 2);
    assert_eq!(voted_for(&service), Some("127.0.0.1:4001".to_string()));
    assert_eq!(service.role(), Role::Follower);
    assert_eq!(leader(&service), None);
}

#[test]
fn test_handle_request_vote_valid_vote() {
    let mut service = state(0, None, vec![entry(0, 1, "command1")], 1);

    let response = service.handle_request_vote(2, node("127.0.0.1:4001"), 1, 1);

    assert_eq!(response.vote_granted(), true);
    assert_eq!(response.term(), 2);
    assert_eq!(service.current_term(), 2);
    assert_eq!(voted_for(&service), Some("127.0.0.1:4001".to_string()));
    assert_eq!(service.role(), Role::Follower);
    assert_eq!(leader(&service), None);
}

#[test]
fn test_handle_request_vote_already_voted() {
    let mut service = state(2, Some("127.0.0.1:4001"), vec![entry(0, 1, "command1")], 1);

    let response = service.handle_request_vote(2, node("127.0.0.1:4002"), 0, 1);

    assert_eq!(response.vote_granted(), false);
    assert_eq!(response.term(), 2);
    assert_eq!(service.current_term(), 2);
    assert_eq!(voted_for(&service), Some("127.0.0.1:4001".to_string()));
    assert_eq!(service.role(), Role::Follower);
}

#[test]
fn test_handle_request_vote_logs_not_up_to_date() {
    let mut service = state(0, None, vec![entry(0, 1, "command1"), entry(1, 2, "command1")], 1);

    let response = service.handle_request_vote(2, node("127.0.0.1:4001"), 1, 1);

    assert_eq!(response.vote_granted(), false);
    assert_eq!(response.term(), 2);
    assert_eq!(service.current_term(), 2);
    assert_eq!(voted_for(&service), None);
}

#[test]
fn become_candidate_starts_a_new_term_voting_for_itself() {
    let mut service = state(4, Some("127.0.0.1:4001"), vec![], 3);
    service.become_follower(Some(node("127.0.0.1:4001")), 4);
    service.become_candidate();
    assert_eq!(service.current_term(), 5);
    assert_eq!(service.role(), Role::Candidate);
    assert_eq!(voted_for(&service), Some("127.0.0.1:4000".to_string()));
    assert_eq!(leader(&service), None);
}

#[test]
fn same_append_entries_twice_changes_nothing_more() {
    let mut service = state(1, None, vec![entry(0, 1, "a"), entry(1, 1, "b")], 1);
    let first = service.handle_append_entries(2, node("127.0.0.1:4001"), 0, 1, 7, vec![entry(1, 2, "x"), entry(2, 2, "y")]);
    let second = service.handle_append_entries(2, node("127.0.0.1:4001"), 0, 1, 7, vec![entry(1, 2, "x"), entry(2, 2, "y")]);
    assert_eq!(first, AppendEntriesResult::Success);
    assert_eq!(second, AppendEntriesResult::Success);
    assert_eq!(service.log_entries().len(), 3);
    assert_eq!(service.commit_index(), 2);
}

#[test]
fn vote_within_term_goes_to_one_candidate() {
    let mut service = state(3, None, vec![], 3);
    assert!(service.handle_request_vote(3, node("127.0.0.1:4001"), 0, 0).vote_granted());
    assert!(!service.handle_request_vote(3, node("127.0.0.1:4002"), 9, 9).vote_granted());
    assert_eq!(voted_for(&service), Some("127.0.0.1:4001".to_string()));
}

#[test]
fn commit_index_is_capped_by_the_last_entry() {
    let mut service = state(1, None, vec![entry(0, 1, "a")], 1);
    let result = service.handle_append_entries(1, node("127.0.0.1:4001"), 0, 1, 10, vec![entry(1, 1, "b")]);
    assert_eq!(result, AppendEntriesResult::Success);
    assert_eq!(service.commit_index(), 1);
    let result = service.handle_append_entries(1, node("127.0.0.1:4001"), 1, 1, 1, vec![]);
    assert_eq!(result, AppendEntriesResult::Success);
    assert_eq!(service.commit_index(), 1);
}

#[test]
fn peers_are_added_and_removed() {
    let mut service = state(0, None, vec![], 3);
    assert_eq!(service.cluster_size(), 3);
    let removed = service.remove_peer(0);
    assert_eq!(removed.addr(), "127.0.0.1:4001");
    assert_eq!(service.peers().total_connected(), 1);
    assert_eq!(service.cluster_size(), 2);
}
