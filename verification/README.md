# raft

A Raft consensus node whose decision logic is verified with Verus.

- `src/` is the verified library:
  - `storage.rs`: log entries and the replicated log (merging entries from a leader,
    matching the preceding entry, appending commands), with laws on merging.
  - `state.rs`: node identity, role, hard and soft state, and the AppendEntries and
    RequestVote rules, stated as transitions over `StateView`, with laws on terms,
    votes and the commit index.
  - `consensus.rs`: answers to AppendEntries and the majority rule.
  - `client.rs`: building requests and tallying the replies of a round.
  - `node.rs`: the decisions of the node loop (elections, replication outcomes,
    dropping unreachable peers, client commands, joining the cluster).
  - `peers.rs`, `dto.rs`, `server.rs`: peers, messages and wire answers.
  - `table.rs`: the index of the record store and the format of its indices file,
    with a proof that reading back what was written gives the same index.
- `app/` is the program: command line, timers, TCP transport, files.
- `tests/` runs the library on concrete cases.
