use vstd::prelude::*;

verus! {

/// A value that can be asked for its 32-byte digest.
pub trait Hashable {
    /// The digest as a mathematical value.
    spec fn hash_spec(&self) -> Seq<u8>;

    /// Computes the digest.
    fn hash(&self) -> (r: Vec<u8>)
        ensures
            r@ == self.hash_spec(),
            r@.len() == 32,
    ;
}

} // verus!
