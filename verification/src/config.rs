//! The public configuration of a shuffle: how many items are shuffled, and
//! the key that commits to vectors of that length.

use crate::commitment::{CommitKey, CommitKeyValue};
use crate::error::Error;
use vstd::prelude::*;

verus! {

/// A commitment key together with the number of shuffled items, which the
/// key's length equals and which is at least one.
pub struct PublicConfig {
    pub(crate) commit_key: CommitKey,
    pub(crate) size: usize,
}

impl View for PublicConfig {
    type V = CommitKeyValue;

    closed spec fn view(&self) -> CommitKeyValue {
        self.commit_key@
    }
}

impl PublicConfig {
    /// The key holds as many generators as there are items, and at least
    /// one.
    #[verifier::type_invariant]
    pub closed spec fn well_formed(&self) -> bool {
        self.commit_key.generators.len() == self.size && self.size >= 1
    }

    /// A configuration for `size` items, where `size` is at least one and
    /// the key holds exactly `size` generators.
    pub fn new(commit_key: CommitKey, size: usize) -> (r: Result<PublicConfig, Error>)
        ensures
            r is Ok <==> commit_key@.generators.len() == size && size >= 1,
            r matches Ok(c) ==> c@ == commit_key@,
            r matches Err(e) ==> e == Error::DotProductLenError,
    {
        if commit_key.len() == size && size >= 1 {
            Ok(PublicConfig { commit_key, size })
        } else {
            Err(Error::DotProductLenError)
        }
    }

    /// The commitment key.
    pub fn commit_key(&self) -> (r: &CommitKey)
        ensures
            r@ == self@,
            r@.generators.len() >= 1,
    {
        proof {
            use_type_invariant(self);
        }
        &self.commit_key
    }

    /// The number of shuffled items.
    pub fn size(&self) -> (r: usize)
        ensures
            r == self@.generators.len(),
            r >= 1,
    {
        proof {
            use_type_invariant(self);
        }
        self.size
    }
}

} // verus!
