use crate::factory::Factory;
use crate::terrain::Terrain;
use crate::tool::ToolType;
use vstd::prelude::*;

verus! {

/// One grid cell: its terrain and what stands on it.
#[derive(Clone, Copy, PartialEq, Eq, Structural, Debug)]
pub struct Cell {
    pub terrain: Terrain,
    pub tool: Option<ToolType>,
    pub factory: Option<Factory>,
}

impl Cell {
    pub fn new(terrain: Terrain, tool: Option<ToolType>, factory: Option<Factory>) -> (r: Self)
        ensures
            r == (Cell { terrain, tool, factory }),
    {
        Cell { terrain, tool, factory }
    }
}

impl Default for Cell {
    fn default() -> (r: Self)
        ensures
            r == (Cell { terrain: Terrain::Grass, tool: None, factory: None }),
    {
        Cell::new(Terrain::Grass, None, None)
    }
}

} // verus!
