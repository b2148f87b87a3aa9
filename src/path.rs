use vstd::prelude::*;

verus! {

/// The route still to follow: unit moves `(dx, dy)`, consumed from the front.
/// `(0, 0)` is a move that leaves the agent where it is.
pub struct Path {
    pub moves: Vec<(i32, i32)>,
}

impl Path {
    pub fn new() -> (r: Self)
        ensures
            r.moves@ == Seq::<(i32, i32)>::empty(),
    {
        Path { moves: Vec::new() }
    }
}

impl Default for Path {
    fn default() -> (r: Self)
        ensures
            r.moves@ == Seq::<(i32, i32)>::empty(),
    {
        Path::new()
    }
}

} // verus!
