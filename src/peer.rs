use crate::byteview::ByteView;
use vstd::prelude::*;

verus! {

/// A way to fetch a group's value for a key from another peer.
pub trait PeerClient {
    /// Whether `r` is an answer the remote peer gives for `key` of group
    /// `group`.
    /// An implementation that does not describe its answers promises nothing.
    open spec fn answers(&self, group: Seq<char>, key: Seq<char>, r: Result<ByteView, String>) -> bool {
        true
    }

    fn get_from_remote(&self, group: &str, key: &str) -> (r: Result<ByteView, String>)
        ensures
            self.answers(group@, key@, r),
    ;

    fn is_active(&self) -> bool;
}

/// A way to find the peer client that owns a key.
pub trait PeerPicker<C> {
    /// Whether the picker is ready to answer.
    spec fn ready(&self) -> bool;

    /// The owning peer's client, or `None` when the owner is the local peer.
    fn pick_peer(&self, key: &str) -> Option<&C>
        requires
            self.ready(),
    ;
}

} // verus!
