//! The interface of a stateful compressor.

use vstd::prelude::*;

verus! {

/// A compressor that carries state from one input to the next.
pub trait Compressor {
    /// The inputs that can be compressed next.
    spec fn accepts(&self, input: Seq<u8>) -> bool;

    /// What an input is compressed to next.
    spec fn compressed(&self, input: Seq<u8>) -> Seq<u8>;

    /// Compresses one input.
    fn compress(&mut self, input: &[u8]) -> (output: Vec<u8>)
        requires
            old(self).accepts(input@),
        ensures
            output@ == old(self).compressed(input@),
    ;
}

} // verus!
