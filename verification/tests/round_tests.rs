use raft::client::{
    collect_vote_results, manage_append_entries_tasks, prepare_append_entries_request, prepare_vote_request,
    AppendEntriesTally, PeerReply, VoteTally,
};
use raft::consensus::AppendEntriesResult;
use raft::dto::{AppendEntriesResponse, VoteResponse};
use raft::node::{
    disconnect_peers, finish_election, handle_create_command, join_retry_delay, other_nodes, runs_election_timer,
    send_entries_outcome, sends_heartbeats, start_election,
};
use raft::peers::{next_backoff, Peer, PeerDisconnected, PeersDisconnected};
use raft::server::{append_entries_response, request_vote_response};
use raft::state::{HardState, NodeId, Role, State};
use raft::storage::{LogEntries, LogEntry};

fn node(addr: &str) -> NodeId {
    NodeId::new(addr.to_string())
}

fn cluster(peers: usize) -> State<()> {
    let hard = HardState::new("data/state/127.0.0.1_4000".to_string());
    let mut state = State::new(node("127.0.0.1:4000"), hard);
    for i in 1..=peers {
        let addr = format!("127.0.0.1:{}", 4000 + i);
        state.add_peer(Peer::new(node(&addr), addr.clone(), ()));
    }
    state
}

#[test]
fn votes_count_own_vote_and_granted_replies() {
    let replies = vec![
        PeerReply::Replied(VoteResponse::granted(3)),
        PeerReply::Failed(1),
        PeerReply::Lost,
        PeerReply::Replied(VoteResponse::not_granted(3)),
        PeerReply::Replied(VoteResponse::granted(3)),
        PeerReply::Failed(4),
    ];
    let result = collect_vote_results(&replies);
    assert_eq!(result.votes_granted(), 3);
    assert_eq!(result.failed_peers(), &[1, 4]);
}

#[test]
fn no_replies_leaves_only_own_vote() {
    let result = collect_vote_results(&vec![]);
    assert_eq!(result.votes_granted(), 1);
    assert!(result.failed_peers().is_empty());
    let mut tally = VoteTally::new();
    tally.record(PeerReply::Replied(VoteResponse::granted(1)));
    assert_eq!(tally.finish().votes_granted(), 2);
}

#[test]
fn appends_count_leader_and_accepting_peers() {
    let replies = vec![
        PeerReply::Replied(AppendEntriesResponse::Success),
        PeerReply::Failed(2),
        PeerReply::Replied(AppendEntriesResponse::Success),
        PeerReply::Lost,
    ];
    let result = manage_append_entries_tasks(&replies).ok().unwrap();
    assert_eq!(result.appends_succesful(), 3);
    assert_eq!(result.failed_peers(), &[2]);
}

#[test]
fn first_refusal_stops_the_round() {
    let replies = vec![
        PeerReply::Failed(0),
        PeerReply::Replied(AppendEntriesResponse::Refused(9)),
        PeerReply::Failed(3),
        PeerReply::Replied(AppendEntriesResponse::Refused(12)),
    ];
    let failure = manage_append_entries_tasks(&replies).err().unwrap();
    assert_eq!(failure.higher_term(), 9);
    assert_eq!(failure.failed_peers(), &[0]);
    let tally = AppendEntriesTally::new();
    let failure = tally.record(PeerReply::Replied(AppendEntriesResponse::Refused(4))).err().unwrap();
    assert_eq!(failure.higher_term(), 4);
}

#[test]
fn election_rounds_drive_the_state() {
    let mut state = cluster(2);
    let request = start_election(&mut state);
    assert_eq!(request.term(), 1);
    assert_eq!(request.candidate_id(), "127.0.0.1:4000");
    assert_eq!((request.last_log_index(), request.last_log_term()), (0, 0));
    assert_eq!(state.role(), Role::Candidate);

    let result = collect_vote_results(&vec![PeerReply::Replied(VoteResponse::granted(1)), PeerReply::Failed(1)]);
    let disconnected = finish_election(&mut state, &result).unwrap();
    assert_eq!(state.role(), Role::Leader);
    assert_eq!(disconnected.0.len(), 1);
    assert_eq!(disconnected.0[0].addr(), "127.0.0.1:4002");
    assert_eq!(state.peers().total_connected(), 1);
}

#[test]
fn lost_election_keeps_candidate() {
    let mut state = cluster(4);
    start_election(&mut state);
    let result = collect_vote_results(&vec![PeerReply::Replied(VoteResponse::granted(1))]);
    assert!(finish_election(&mut state, &result).is_none());
    assert_eq!(state.role(), Role::Candidate);
}

#[test]
fn refused_replication_steps_down() {
    let mut state = cluster(3);
    start_election(&mut state);
    state.count_votes(4);
    assert_eq!(state.role(), Role::Leader);
    let failure = manage_append_entries_tasks(&vec![PeerReply::Failed(0), PeerReply::Replied(AppendEntriesResponse::Refused(7))]);
    let (outcome, disconnected) = send_entries_outcome(&mut state, failure);
    assert!(outcome.is_err());
    assert_eq!(state.role(), Role::Follower);
    assert_eq!(state.current_term(), 7);
    assert!(state.leader().is_none());
    assert_eq!(disconnected.unwrap().0[0].addr(), "127.0.0.1:4001");

    let success = manage_append_entries_tasks(&vec![PeerReply::Replied(AppendEntriesResponse::Success)]);
    let (outcome, disconnected) = send_entries_outcome(&mut state, success);
    assert_eq!(outcome, Ok(2));
    assert!(disconnected.is_none());
}

#[test]
fn failed_peers_are_removed_one_after_the_other() {
    let mut state = cluster(4);
    let disconnected = disconnect_peers(&mut state, &[0, 1]).unwrap();
    let addrs: Vec<&str> = disconnected.0.iter().map(|p| p.addr()).collect();
    assert_eq!(addrs, vec!["127.0.0.1:4001", "127.0.0.1:4003"]);
    let left: Vec<&str> = state.peers().iter().map(|p| p.addr()).collect();
    assert_eq!(left, vec!["127.0.0.1:4002", "127.0.0.1:4004"]);
    assert!(disconnect_peers(&mut state, &[]).is_none());
}

#[test]
fn heartbeat_request_carries_leader_state() {
    let mut state = cluster(1);
    state.new_entry(b"x".to_vec());
    state.update_commit_index(0);
    let request = prepare_append_entries_request(&state, &[LogEntry::new(1, 0, b"y".to_vec())]);
    assert_eq!(request.term, 0);
    assert_eq!(request.leader_id, "127.0.0.1:4000");
    assert_eq!(request.prev_log_index, 0);
    assert_eq!(request.prev_log_term, 0);
    assert_eq!(request.leader_commit, 0);
    assert_eq!(request.entries.len(), 1);
    assert_eq!(request.entries[0].command(), b"y");
    let vote = prepare_vote_request(&state);
    assert_eq!(vote.term(), 0);
}

#[test]
fn create_command_appends_to_the_log() {
    let mut state = cluster(0);
    state.become_candidate();
    let reply = handle_create_command(&mut state, b"{\"key\": \"value\"}".to_vec());
    assert_eq!(reply.id, "hey");
    assert_eq!(reply.data, b"{\"key\": \"value\"}".to_vec());
    assert_eq!(state.log_entries().len(), 1);
    assert_eq!(state.log_entries()[0].term(), 1);
    assert_eq!(state.log_entries()[0].index(), 0);
}

#[test]
fn joining_skips_own_address_and_gives_up_after_five_rounds() {
    let nodes = vec![node("127.0.0.1:4000"), node("127.0.0.1:4001"), node("127.0.0.1:4002")];
    let others = other_nodes(&nodes, &node("127.0.0.1:4001"));
    let addrs: Vec<&str> = others.iter().map(|n| n.addr()).collect();
    assert_eq!(addrs, vec!["127.0.0.1:4000", "127.0.0.1:4002"]);
    assert_eq!(join_retry_delay(1), Some(1));
    assert_eq!(join_retry_delay(4), Some(4));
    assert_eq!(join_retry_delay(5), None);
}

#[test]
fn timers_follow_the_role() {
    assert!(runs_election_timer(Role::Follower));
    assert!(runs_election_timer(Role::Candidate));
    assert!(!runs_election_timer(Role::Leader));
    assert!(sends_heartbeats(Role::Leader));
    assert!(!sends_heartbeats(Role::Follower));
}

#[test]
fn backoff_doubles_up_to_the_maximum() {
    assert_eq!(next_backoff(100, 300), 200);
    assert_eq!(next_backoff(200, 300), 300);
    assert_eq!(next_backoff(150, 300), 300);
}

#[test]
fn wire_responses() {
    assert_eq!(append_entries_response(AppendEntriesResult::Success), AppendEntriesResponse::Success);
    assert_eq!(append_entries_response(AppendEntriesResult::TermMismatch(5)), AppendEntriesResponse::Refused(5));
    assert_eq!(
        append_entries_response(AppendEntriesResult::LogEntriesMismatch { last_index: 1, last_term: 1 }),
        AppendEntriesResponse::LogMismatch { last_index: 1, last_term: 1 }
    );
    assert_eq!(request_vote_response(&VoteResponse::granted(3)), (true, 3));
}

#[test]
fn disconnected_batch_from_peers() {
    let peer = Peer::new(node("127.0.0.1:4009"), "127.0.0.1:4009".to_string(), 7u8);
    assert_eq!(*peer.client(), 7);
    let gone = PeerDisconnected::from_peer(peer);
    assert_eq!(gone.id().addr(), "127.0.0.1:4009");
    let batch = PeersDisconnected::new(vec![gone, PeerDisconnected::new(node("a:1"), "a:1".to_string())]);
    assert_eq!(batch.0.len(), 2);
    let _ = LogEntries::default();
}

#[test]
fn log_mismatch_reply_is_neither_accepted_nor_a_refusal() {
    let success = manage_append_entries_tasks(&vec![
        PeerReply::Replied(AppendEntriesResponse::LogMismatch { last_index: 3, last_term: 2 }),
        PeerReply::Replied(AppendEntriesResponse::Success),
    ]);
    match success {
        Ok(s) => assert_eq!(s.appends_succesful(), 2),
        Err(_) => panic!("a log mismatch is no refusal"),
    }
}
