//! Orthonormal basis vectors: an id plus a signature saying whether the
//! vector squares to +1, 0 or -1.

use vstd::prelude::*;

verus! {

/// An orthonormal basis vector. `P` squares to +1, `Z` to 0, `N` to -1;
/// the payload is the basis id.
#[derive(Debug, Clone, Copy, PartialEq, Eq, Hash, Structural)]
pub enum ONBasis {
    P(usize),
    Z(usize),
    N(usize),
}

impl ONBasis {
    /// The id of the basis, whatever its signature.
    pub open spec fn id(self) -> nat {
        match self {
            ONBasis::P(i) => i as nat,
            ONBasis::Z(i) => i as nat,
            ONBasis::N(i) => i as nat,
        }
    }

    /// What the basis squares to: +1, 0 or -1.
    pub open spec fn square(self) -> int {
        match self {
            ONBasis::P(_) => 1,
            ONBasis::Z(_) => 0,
            ONBasis::N(_) => -1,
        }
    }

    /// Gets the id of the basis.
    pub fn unwrap(&self) -> (id: usize)
        ensures
            id == self.id(),
    {
        match self {
            ONBasis::P(i) => *i,
            ONBasis::Z(i) => *i,
            ONBasis::N(i) => *i,
        }
    }

    /// The result of multiplying the basis against itself.
    pub fn sqr(&self) -> (s: i64)
        ensures
            s == self.square(),
    {
        match self {
            ONBasis::P(_) => 1,
            ONBasis::Z(_) => 0,
            ONBasis::N(_) => -1,
        }
    }

    /// Checks if the basis squares to +1.
    pub fn is_pos(&self) -> (r: bool)
        ensures
            r == (self.square() == 1),
    {
        match self {
            ONBasis::P(_) => true,
            ONBasis::Z(_) => false,
            ONBasis::N(_) => false,
        }
    }

    /// Checks if the basis squares to 0.
    pub fn is_zero(&self) -> (r: bool)
        ensures
            r == (self.square() == 0),
    {
        match self {
            ONBasis::P(_) => false,
            ONBasis::Z(_) => true,
            ONBasis::N(_) => false,
        }
    }

    /// The inner product of two bases: the square for a basis against
    /// itself, zero against any other basis.
    pub fn dot(&self, rhs: &ONBasis) -> (r: i64)
        ensures
            *self == *rhs ==> r == self.square(),
            *self != *rhs ==> r == 0,
    {
        if self == rhs {
            self.sqr()
        } else {
            0
        }
    }

    /// Checks if the basis squares to -1.
    pub fn is_neg(&self) -> (r: bool)
        ensures
            r == (self.square() == -1),
    {
        match self {
            ONBasis::P(_) => false,
            ONBasis::Z(_) => false,
            ONBasis::N(_) => true,
        }
    }
}

} // verus!
