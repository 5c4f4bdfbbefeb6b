use vstd::prelude::*;

use crate::client::{
    FailureAppendEntriesResult, SuccessfulAppendEntriesResult, VoteResult, prepare_vote_request,
};
use crate::consensus::is_majority_of;
use crate::dto::{Entry, VoteRequest, VoteRequestView};
use crate::peers::{Peer, PeerDisconnected, PeersDisconnected};
use crate::state::{NodeId, Role, State, StateView, candidate_of, follower_of, leader_of};
use crate::storage::{append_command, last_log_info_of};

verus! {

/// `items` after removing, one after the other, the item at each position of
/// `positions` (each position counts in the sequence left by the removals before it).
pub open spec fn remove_in_order<T>(items: Seq<T>, positions: Seq<usize>) -> Seq<T>
    decreases positions.len(),
{
    if positions.len() == 0 {
        items
    } else {
        remove_in_order(items, positions.drop_last()).remove(positions.last() as int)
    }
}

/// The items removed by `remove_in_order`, in the order of their removal.
pub open spec fn removed_in_order<T>(items: Seq<T>, positions: Seq<usize>) -> Seq<T>
    decreases positions.len(),
{
    if positions.len() == 0 {
        Seq::empty()
    } else {
        removed_in_order(items, positions.drop_last()).push(
            remove_in_order(items, positions.drop_last())[positions.last() as int],
        )
    }
}

/// Each position lies within the sequence left by the removals before it.
pub open spec fn removals_in_range(len: int, positions: Seq<usize>) -> bool {
    forall|k: int| 0 <= k < positions.len() ==> #[trigger] positions[k] < len - k
}

/// Whether `disconnected` describes exactly the peers `removed`, in order.
pub open spec fn describes<C>(disconnected: Seq<PeerDisconnected>, removed: Seq<Peer<C>>) -> bool {
    &&& disconnected.len() == removed.len()
    &&& forall|k: int|
        0 <= k < removed.len() ==> (#[trigger] disconnected[k]).spec_id() == removed[k].spec_id()
            && disconnected[k].spec_addr() == removed[k].spec_addr()
}

proof fn lemma_remove_in_order_len<T>(items: Seq<T>, positions: Seq<usize>)
    requires
        removals_in_range(items.len() as int, positions),
    ensures
        remove_in_order(items, positions).len() == items.len() - positions.len(),
        removed_in_order(items, positions).len() == positions.len(),
    decreases positions.len(),
{
    if positions.len() > 0 {
        let init = positions.drop_last();
        assert forall|k: int| 0 <= k < init.len() implies #[trigger] init[k] < items.len() - k by {
            assert(init[k] == positions[k]);
        }
        lemma_remove_in_order_len(items, init);
        assert(positions[positions.len() - 1] < items.len() - (positions.len() - 1));
    }
}

/// Removes the peers whose requests failed, at the positions given, one after the
/// other, and returns what is needed to reconnect them; nothing when no request
/// failed.
pub fn disconnect_peers<C>(state: &mut State<C>, failed_peers: &[usize]) -> (disconnected: Option<
    PeersDisconnected,
>)
    requires
        removals_in_range(old(state).peer_list().len() as int, failed_peers@),
    ensures
        final(state)@ == old(state)@,
        final(state).peer_list() == remove_in_order(old(state).peer_list(), failed_peers@),
        failed_peers@.len() == 0 <==> disconnected is None,
        disconnected matches Some(d) ==> describes(d.0@, removed_in_order(old(state).peer_list(), failed_peers@)),
{
    if failed_peers.len() == 0 {
        return None;
    }
    let ghost initial = state.peer_list();
    let mut gone: Vec<PeerDisconnected> = Vec::new();
    let mut i: usize = 0;
    while i < failed_peers.len()
        invariant
            0 <= i <= failed_peers@.len(),
            removals_in_range(initial.len() as int, failed_peers@),
            state@ == old(state)@,
            initial == old(state).peer_list(),
            state.peer_list() == remove_in_order(initial, failed_peers@.take(i as int)),
            describes(gone@, removed_in_order(initial, failed_peers@.take(i as int))),
        decreases failed_peers@.len() - i,
    {
        let ghost prefix = failed_peers@.take(i as int);
        let ghost next = failed_peers@.take(i + 1);
        assert(next.drop_last() =~= prefix);
        assert(next.last() == failed_peers@[i as int]);
        proof {
            assert forall|k: int| 0 <= k < prefix.len() implies #[trigger] prefix[k] < initial.len() - k by {
                assert(prefix[k] == failed_peers@[k]);
            }
            lemma_remove_in_order_len(initial, prefix);
        }
        let index = failed_peers[i];
        let peer = state.remove_peer(index);
        gone.push(PeerDisconnected::from_peer(peer));
        i += 1;
    }
    assert(failed_peers@.take(failed_peers@.len() as int) =~= failed_peers@);
    Some(PeersDisconnected::new(gone))
}

/// Starts an election when the election timer fires: the node becomes candidate in
/// the next term, voting for itself, and returns the request to send to its peers.
pub fn start_election<C>(state: &mut State<C>) -> (request: VoteRequest)
    requires
        old(state)@.current_term < u64::MAX,
    ensures
        final(state)@ == candidate_of(old(state)@),
        final(state).peer_list() == old(state).peer_list(),
        request@ == (VoteRequestView {
            term: final(state)@.current_term,
            candidate_id: old(state)@.id,
            last_log_index: last_log_info_of(old(state)@.log).0,
            last_log_term: last_log_info_of(old(state)@.log).1,
        }),
{
    state.become_candidate();
    prepare_vote_request(state)
}

/// Ends an election with its outcome: the node leads if the votes are a majority of
/// the cluster, then drops the peers that could not be asked.
pub fn finish_election<C>(state: &mut State<C>, result: &VoteResult) -> (disconnected: Option<
    PeersDisconnected,
>)
    requires
        old(state).spec_cluster_size() <= u64::MAX,
        removals_in_range(old(state).peer_list().len() as int, result.spec_failed_peers()),
    ensures
        is_majority_of(old(state).spec_cluster_size() as u64, result.spec_votes_granted()) ==> final(state)@
            == leader_of(old(state)@),
        !is_majority_of(old(state).spec_cluster_size() as u64, result.spec_votes_granted()) ==> final(state)@
            == old(state)@,
        final(state).peer_list() == remove_in_order(old(state).peer_list(), result.spec_failed_peers()),
        result.spec_failed_peers().len() == 0 <==> disconnected is None,
        disconnected matches Some(d) ==> describes(
            d.0@,
            removed_in_order(old(state).peer_list(), result.spec_failed_peers()),
        ),
{
    state.count_votes(result.votes_granted());
    disconnect_peers(state, result.failed_peers())
}

/// Acts on the outcome of an AppendEntries round: on success it reports how many
/// nodes hold the entries; on a refusal the node steps down to follower in the
/// higher term, with no known leader. Either way the peers that could not be
/// reached are dropped.
pub fn send_entries_outcome<C>(
    state: &mut State<C>,
    result: Result<SuccessfulAppendEntriesResult, FailureAppendEntriesResult>,
) -> (outcome: (Result<u64, ()>, Option<PeersDisconnected>))
    requires
        match result {
            Ok(s) => removals_in_range(old(state).peer_list().len() as int, s.spec_failed_peers()),
            Err(f) => removals_in_range(old(state).peer_list().len() as int, f.spec_failed_peers()),
        },
    ensures
        match result {
            Ok(s) => {
                &&& outcome.0 == Ok::<u64, ()>(s.spec_appends_succesful())
                &&& final(state)@ == old(state)@
                &&& final(state).peer_list() == remove_in_order(old(state).peer_list(), s.spec_failed_peers())
                &&& (s.spec_failed_peers().len() == 0 <==> outcome.1 is None)
                &&& (outcome.1 matches Some(d) ==> describes(
                    d.0@,
                    removed_in_order(old(state).peer_list(), s.spec_failed_peers()),
                ))
            },
            Err(f) => {
                &&& outcome.0 == Err::<u64, ()>(())
                &&& final(state)@ == follower_of(old(state)@, None, f.spec_higher_term())
                &&& final(state).peer_list() == remove_in_order(old(state).peer_list(), f.spec_failed_peers())
                &&& (f.spec_failed_peers().len() == 0 <==> outcome.1 is None)
                &&& (outcome.1 matches Some(d) ==> describes(
                    d.0@,
                    removed_in_order(old(state).peer_list(), f.spec_failed_peers()),
                ))
            },
        },
{
    match result {
        Ok(success) => {
            let disconnected = disconnect_peers(state, success.failed_peers());
            (Ok(success.appends_succesful()), disconnected)
        },
        Err(failure) => {
            state.become_follower(None, failure.higher_term());
            let disconnected = disconnect_peers(state, failure.failed_peers());
            (Err(()), disconnected)
        },
    }
}

/// Accepts a client's request to create a record: the data is appended to the log as
/// a command of the current term, and the reply carries the data back.
pub fn handle_create_command<C>(state: &mut State<C>, data: Vec<u8>) -> (reply: Entry)
    requires
        old(state)@.log.len() > 0 ==> old(state)@.log.last().index < u64::MAX,
    ensures
        final(state)@ == (StateView {
            log: append_command(old(state)@.log, old(state)@.current_term, data@),
            ..old(state)@
        }),
        final(state).peer_list() == old(state).peer_list(),
        reply.id@ == "hey"@,
        reply.data@ == data@,
{
    let command = data.clone();
    assert(command@ =~= data@);
    state.new_entry(command);
    Entry { id: "hey".to_owned(), data }
}

/// The nodes to contact to join the cluster: those given, without this node.
pub fn other_nodes(nodes: &Vec<NodeId>, me: &NodeId) -> (others: Vec<NodeId>)
    ensures
        others@.map_values(|n: NodeId| n@) == nodes@.map_values(|n: NodeId| n@).filter(|a: Seq<char>| a != me@),
{
    let ghost keep = |a: Seq<char>| a != me@;
    let ghost all = nodes@.map_values(|n: NodeId| n@);
    let mut others: Vec<NodeId> = Vec::new();
    let mut i: usize = 0;
    while i < nodes.len()
        invariant
            0 <= i <= nodes@.len(),
            all == nodes@.map_values(|n: NodeId| n@),
            keep == (|a: Seq<char>| a != me@),
            others@.map_values(|n: NodeId| n@) == all.take(i as int).filter(keep),
        decreases nodes@.len() - i,
    {
        let ghost before = others@.map_values(|n: NodeId| n@);
        proof {
            reveal(Seq::filter);
            assert(all.take(i + 1).drop_last() =~= all.take(i as int));
            assert(all.take(i + 1).last() == nodes@[i as int]@);
        }
        if !nodes[i].same_as(me) {
            others.push(nodes[i].duplicate());
            assert(others@.map_values(|n: NodeId| n@) =~= before.push(nodes@[i as int]@));
        }
        i += 1;
    }
    assert(all.take(nodes@.len() as int) =~= all);
    others
}

/// How long to wait, in seconds, after `failed_rounds` rounds in which no node of the
/// cluster let this node join; `None` once the node should give up.
pub fn join_retry_delay(failed_rounds: u64) -> (delay: Option<u64>)
    ensures
        failed_rounds >= 5 <==> delay is None,
        delay matches Some(d) ==> d == failed_rounds,
{
    if failed_rounds >= 5 {
        None
    } else {
        Some(failed_rounds)
    }
}

/// Whether the election timer may fire: every node but the leader starts an
/// election when it hears nothing for too long.
pub fn runs_election_timer(role: Role) -> (armed: bool)
    ensures
        armed == (role != Role::Leader),
{
    role != Role::Leader
}

/// Whether the heartbeat timer may fire: only the leader sends heartbeats.
pub fn sends_heartbeats(role: Role) -> (armed: bool)
    ensures
        armed == (role == Role::Leader),
{
    role == Role::Leader
}

} // verus!
