//! A Raft consensus node: the replicated log, the node's persistent and volatile
//! state, the rules for handling AppendEntries and RequestVote, the tallying of
//! peer replies, and the on-disk index of the record store.

pub mod client;
pub mod consensus;
pub mod dto;
pub mod node;
pub mod peers;
pub mod server;
pub mod state;
pub mod storage;
pub mod table;
