use vstd::prelude::*;

verus! {

/// Terrain of a cell: a cost class, or an obstacle that cannot be entered.
#[derive(Clone, Copy, PartialEq, Eq, Structural, Debug)]
pub enum Terrain {
    Grass,
    Mountain,
    Swamp,
    Desert,
    Obstacle,
}

/// Cost of entering a cell of terrain `t`; an obstacle has none.
pub open spec fn terrain_cost(t: Terrain) -> Option<nat> {
    match t {
        Terrain::Grass => Some(1),
        Terrain::Mountain => Some(5),
        Terrain::Swamp => Some(10),
        Terrain::Desert => Some(20),
        Terrain::Obstacle => None,
    }
}

/// Relative chance of wandering onto terrain `t`, proportional to the inverse of
/// its cost (1, 1/5, 1/10, 1/20, scaled by 20); an obstacle is never chosen.
pub open spec fn terrain_weight(t: Terrain) -> nat {
    match t {
        Terrain::Grass => 20,
        Terrain::Mountain => 4,
        Terrain::Swamp => 2,
        Terrain::Desert => 1,
        Terrain::Obstacle => 0,
    }
}

impl Terrain {
    pub open spec fn passable(&self) -> bool {
        *self != Terrain::Obstacle
    }

    pub fn is_passable(&self) -> (r: bool)
        ensures
            r == self.passable(),
            r == terrain_cost(*self).is_some(),
    {
        match self {
            Terrain::Obstacle => false,
            _ => true,
        }
    }

    /// Cost of entering a cell of this terrain, `None` for an obstacle.
    pub fn cost(&self) -> (r: Option<u64>)
        ensures
            r.is_some() == terrain_cost(*self).is_some(),
            r.is_some() ==> r.unwrap() == terrain_cost(*self).unwrap(),
            r.is_some() ==> 1 <= r.unwrap() <= 20,
    {
        match self {
            Terrain::Grass => Some(1),
            Terrain::Mountain => Some(5),
            Terrain::Swamp => Some(10),
            Terrain::Desert => Some(20),
            Terrain::Obstacle => None,
        }
    }

    /// Weight of this terrain for random exploration.
    pub fn weight(&self) -> (r: u32)
        ensures
            r == terrain_weight(*self),
            r <= 20,
            r > 0 <==> self.passable(),
    {
        match self {
            Terrain::Grass => 20,
            Terrain::Mountain => 4,
            Terrain::Swamp => 2,
            Terrain::Desert => 1,
            Terrain::Obstacle => 0,
        }
    }
}

} // verus!
