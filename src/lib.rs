//! A sharded in-memory key-value cache: a byte-bounded LRU store, a
//! consistent-hash ring that assigns each key to one owning peer, and
//! read-through groups that consult the cache, the owner and a loader in turn.

pub mod byteview;
pub mod cache;
pub mod peer;
pub mod peermanager;
pub mod dbgetter;
pub mod group;
pub mod groupmanager;
pub mod memdb;
pub mod request;
