//! The stored value: an identifier and a fixed-size numeric vector, each
//! component carried as the 64-bit pattern of an IEEE-754 double.

use vstd::prelude::*;
use crate::model::VectorModel;

verus! {

/// A stored vector: an identifier (in current usage equal to the key it is
/// stored under) and the bit patterns of its 64-bit components.
#[derive(Debug, PartialEq, Eq)]
pub struct Vector {
    id: u64,
    data: Vec<u64>,
}

impl View for Vector {
    type V = VectorModel;

    closed spec fn view(&self) -> VectorModel {
        VectorModel { id: self.id, data: self.data@ }
    }
}

impl Clone for Vector {
    /// Clones are indistinguishable from the original value.
    fn clone(&self) -> (r: Self)
        ensures
            r@ == self@,
    {
        let mut data: Vec<u64> = Vec::new();
        let mut i: usize = 0;
        while i < self.data.len()
            invariant
                i <= self.data.len(),
                data@ == self.data@.take(i as int),
            decreases self.data.len() - i,
        {
            data.push(self.data[i]);
            proof {
                assert(data@ =~= self.data@.take(i as int + 1));
            }
            i += 1;
        }
        proof {
            assert(data@ =~= self.data@);
        }
        Vector { id: self.id, data }
    }
}

impl Vector {
    /// Builds a vector from its identifier and components.
    pub fn new(id: u64, data: Vec<u64>) -> (r: Vector)
        ensures
            r@ == (VectorModel { id, data: data@ }),
    {
        Vector { id, data }
    }

    /// The vector's components.
    pub fn data(&self) -> (r: &Vec<u64>)
        ensures
            r@ == self@.data,
    {
        &self.data
    }

    /// The vector's identifier.
    pub fn id(&self) -> (r: u64)
        ensures
            r == self@.id,
    {
        self.id
    }
}

} // verus!
