use vstd::prelude::*;

use crate::grid::GridValue;

verus! {

/// A per-cell terrain record. `walkable` gates movement, `transparent` gates
/// the visibility scan; the two are independent. `entities` holds references
/// to externally owned scene objects, opaque to the algorithms here: they are
/// carried along and never read.
#[derive(Debug)]
pub struct Tile {
    pub walkable: bool,
    pub transparent: bool,
    pub entities: Vec<u64>,
}

impl GridValue for Tile {
    open spec fn is_initial(&self) -> bool {
        self.walkable && self.transparent && self.entities@.len() == 0
    }

    fn initial() -> (r: Self) {
        Tile { walkable: true, transparent: true, entities: Vec::new() }
    }
}

} // verus!
