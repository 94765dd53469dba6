//! The accumulator: an object count and a byte count.

use vstd::prelude::*;

verus! {

/// A directory-level rollup: how many objects were counted and how many
/// bytes they hold.
#[derive(Clone, Copy, Debug, PartialEq, Eq, Structural)]
pub struct Acc {
    pub inodes: u64,
    pub bytes: u64,
}

impl Acc {
    /// One object of the given size.
    pub fn new(bytes: u64) -> (a: Acc)
        ensures
            a == (Acc { inodes: 1u64, bytes }),
    {
        Acc { inodes: 1, bytes }
    }

    /// The empty rollup.
    pub fn zero() -> (a: Acc)
        ensures
            a == (Acc { inodes: 0u64, bytes: 0u64 }),
    {
        Acc { inodes: 0, bytes: 0 }
    }

    /// Counts one more object of the given size.
    pub fn add_assign(&mut self, bytes: u64)
        requires
            old(self).inodes + 1 <= u64::MAX,
            old(self).bytes + bytes <= u64::MAX,
        ensures
            *final(self) == (Acc {
                inodes: (old(self).inodes + 1) as u64,
                bytes: (old(self).bytes + bytes) as u64,
            }),
    {
        self.inodes = self.inodes + 1;
        self.bytes = self.bytes + bytes;
    }
}

/// Whether a value stands in a vector.
pub fn contains_u64(v: &Vec<u64>, x: u64) -> (r: bool)
    ensures
        r == v@.contains(x),
{
    let mut j: usize = 0;
    while j < v.len()
        invariant
            0 <= j <= v@.len(),
            forall|i: int| 0 <= i < j ==> v@[i] != x,
        decreases v@.len() - j,
    {
        if v[j] == x {
            proof {
                assert(v@[j as int] == x);
            }
            return true;
        }
        j = j + 1;
    }
    false
}

impl Default for Acc {
    /// The empty rollup.
    fn default() -> (a: Acc)
        ensures
            a == (Acc { inodes: 0u64, bytes: 0u64 }),
    {
        Acc { inodes: 0, bytes: 0 }
    }
}

} // verus!
