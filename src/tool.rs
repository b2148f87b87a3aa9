use vstd::prelude::*;

verus! {

/// The kinds of tool that lie on the grid and that factories ask for.
#[derive(Clone, Copy, PartialEq, Eq, Structural, Debug)]
pub enum ToolType {
    Battery,
    WeldingArm,
    SuctionPump,
    CoolingDevice,
    PneumaticArm,
}

/// Number of tool kinds; an inventory holds one count per kind.
pub const TOOL_KINDS: usize = 5;

/// Position of a tool kind in an inventory.
pub open spec fn tool_index(t: ToolType) -> int {
    match t {
        ToolType::Battery => 0,
        ToolType::WeldingArm => 1,
        ToolType::SuctionPump => 2,
        ToolType::CoolingDevice => 3,
        ToolType::PneumaticArm => 4,
    }
}

impl ToolType {
    pub fn index(&self) -> (r: usize)
        ensures
            r == tool_index(*self),
            r < TOOL_KINDS,
    {
        match self {
            ToolType::Battery => 0,
            ToolType::WeldingArm => 1,
            ToolType::SuctionPump => 2,
            ToolType::CoolingDevice => 3,
            ToolType::PneumaticArm => 4,
        }
    }
}

/// A tool lying on the grid; `tool_type` is cleared once it is picked up.
#[derive(Clone, Copy, PartialEq, Eq, Structural, Debug)]
pub struct Tool {
    pub x: usize,
    pub y: usize,
    pub tool_type: Option<ToolType>,
}

impl Tool {
    pub fn new(x: usize, y: usize, tool_type: Option<ToolType>) -> (r: Self)
        ensures
            r == (Tool { x, y, tool_type }),
    {
        Tool { x, y, tool_type }
    }
}

} // verus!
