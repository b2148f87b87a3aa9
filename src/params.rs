use crate::tool::ToolType;
use vstd::prelude::*;

verus! {

/// Setup of a run: how many tools of each kind to spread, what each factory
/// needs, the agent's sensing radius, the search's weights and which input set
/// to load.
pub struct Params {
    pub items_quantity: Vec<(ToolType, usize)>,
    pub factories_needs: Vec<(ToolType, usize)>,
    pub agent_radius: usize,
    pub h_factor: i32,
    pub g_factor: i32,
    pub input_idx: usize,
}

impl Params {
    pub fn new(
        items_quantity: Vec<(ToolType, usize)>,
        factories_needs: Vec<(ToolType, usize)>,
        agent_radius: usize,
        h_factor: i32,
        g_factor: i32,
        input_idx: usize,
    ) -> (r: Self)
        ensures
            r.items_quantity@ == items_quantity@,
            r.factories_needs@ == factories_needs@,
            r.agent_radius == agent_radius,
            r.h_factor == h_factor,
            r.g_factor == g_factor,
            r.input_idx == input_idx,
    {
        Params { items_quantity, factories_needs, agent_radius, h_factor, g_factor, input_idx }
    }
}

} // verus!
