use raft::dto::{CrudMessage, CrudOperation, CrudRequest, Entry, Operation, Query, VoteRequest, VoteResponse};
use raft::state::{NodeId, Role};

#[test]
fn vote_request_and_response_fields() {
    let request = VoteRequest::new(3, "127.0.0.1:4001".to_string(), 7, 2);
    assert_eq!(request.term(), 3);
    assert_eq!(request.candidate_id(), "127.0.0.1:4001");
    assert_eq!(request.last_log_index(), 7);
    assert_eq!(request.last_log_term(), 2);
    let granted = VoteResponse::granted(3);
    assert!(granted.vote_granted());
    assert_eq!(granted.term(), 3);
    assert!(!VoteResponse::not_granted(4).vote_granted());
}

#[test]
fn query_fields() {
    let query = Query::new("id1".to_string(), Some("f".to_string()));
    assert_eq!(query.id(), "id1");
    assert_eq!(query.filter(), Some("f"));
    assert_eq!(Query::new("x".to_string(), None).filter(), None);
}

#[test]
fn plain_messages() {
    let entry = Entry { id: "a".to_string(), data: vec![1] };
    assert_eq!(entry.data, vec![1]);
    let op = Operation::Update("a".to_string(), vec![2]);
    assert!(matches!(op, Operation::Update(_, _)));
    let msg = CrudMessage {
        request: CrudRequest { operation: CrudOperation::Read, id: Some("a".to_string()), data: None },
        nodes: vec!["127.0.0.1:4000".to_string()],
    };
    assert_eq!(msg.request.operation, CrudOperation::Read);
    assert_eq!(Role::default(), Role::Follower);
    assert!(NodeId::new("a:1".to_string()) == NodeId::new("a:1".to_string()));
}
