use crate::byteview::ByteView;
use vstd::prelude::*;

verus! {

/// The backing store a group loads missing values from.
pub trait DbGetter {
    /// Whether `r` is an answer this store gives for `key` of group `group`.
    /// An implementation that does not describe its answers promises nothing.
    open spec fn answers(&self, group: Seq<char>, key: Seq<char>, r: Result<ByteView, String>) -> bool {
        true
    }

    fn get_data(&self, group_name: &str, key: &str) -> (r: Result<ByteView, String>)
        ensures
            self.answers(group_name@, key@, r),
    ;
}

} // verus!
