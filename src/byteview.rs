use vstd::prelude::*;
use vstd::string::StrSliceExecFns;
use vstd::utf8::encode_utf8;

verus! {

/// An immutable carrier of a byte payload.
pub struct ByteView {
    data: Vec<u8>,
}

impl View for ByteView {
    type V = Seq<u8>;

    closed spec fn view(&self) -> Seq<u8> {
        self.data@
    }
}

impl Clone for ByteView {
    fn clone(&self) -> (r: Self)
        ensures
            r@ == self@,
    {
        ByteView { data: self.data.clone() }
    }
}

impl ByteView {
    /// The number of bytes held.
    pub fn len(&self) -> (r: usize)
        ensures
            r == self@.len(),
    {
        self.data.len()
    }

    /// The UTF-8 encoding of `s`.
    pub fn from_string(s: String) -> (r: ByteView)
        ensures
            r@ == encode_utf8(s@),
    {
        ByteView { data: s.as_str().as_bytes_vec() }
    }

    /// Takes ownership of `data` as the payload.
    pub fn from_bytes(data: Vec<u8>) -> (r: ByteView)
        ensures
            r@ == data@,
    {
        ByteView { data }
    }

    /// Gives the payload back as a vector.
    pub fn into_bytes(self) -> (r: Vec<u8>)
        ensures
            r@ == self@,
    {
        self.data
    }
}

} // verus!
