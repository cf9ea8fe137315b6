//! The ambient context of an algebra: which orthonormal bases are in play.

use vstd::prelude::*;

use crate::basis::ONBasis;

verus! {

/// A geometry: the orthonormal bases of the ambient space, and any other
/// named spans built from them. The spans are not guaranteed orthonormal.
#[derive(Debug, Clone)]
pub struct Geometry {
    /// The orthonormal bases of this geometry.
    pub onbases: Vec<ONBasis>,
    /// Other available spaces in this geometry.
    pub spaces: Vec<Vec<ONBasis>>,
}

impl Geometry {
    /// An empty geometry with no bases.
    pub fn new() -> (g: Geometry)
        ensures
            g.onbases@.len() == 0,
            g.spaces@.len() == 0,
    {
        Geometry { onbases: Vec::new(), spaces: Vec::new() }
    }
}

} // verus!
