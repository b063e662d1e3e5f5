use vstd::prelude::*;

verus! {

/// Access to the byte vector that backs an input.
pub trait HasBytesVec {
    /// The bytes of the input.
    spec fn spec_bytes(&self) -> Seq<u8>;

    /// The bytes of the input, read only.
    fn bytes(&self) -> (b: &[u8])
        ensures
            b@ == self.spec_bytes(),
    ;

    /// The byte vector of the input, for changing it in place.
    fn bytes_mut(&mut self) -> (b: &mut Vec<u8>)
        ensures
            b@ == old(self).spec_bytes(),
            final(self).spec_bytes() == final(b)@,
    ;
}

/// An input made of a plain byte vector.
#[derive(Clone, Debug)]
pub struct BytesInput {
    bytes: Vec<u8>,
}

impl BytesInput {
    /// Creates an input from the given bytes.
    pub fn new(bytes: Vec<u8>) -> (r: Self)
        ensures
            r.spec_bytes() == bytes@,
    {
        BytesInput { bytes }
    }
}

impl HasBytesVec for BytesInput {
    closed spec fn spec_bytes(&self) -> Seq<u8> {
        self.bytes@
    }

    fn bytes(&self) -> (b: &[u8]) {
        self.bytes.as_slice()
    }

    fn bytes_mut(&mut self) -> (b: &mut Vec<u8>) {
        &mut self.bytes
    }
}

} // verus!
