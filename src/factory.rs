use crate::agent::{queued, upos};
use crate::board::Board;
use crate::cell::Cell;
use crate::tool::ToolType;
use vstd::prelude::*;

verus! {

/// A factory's requisition: the tool it needs and how many. A requisition with
/// no tool, or with a quantity of zero, is satisfied.
#[derive(Clone, Copy, PartialEq, Eq, Structural, Debug)]
pub struct Factory {
    pub x: usize,
    pub y: usize,
    pub needed_tool: Option<ToolType>,
    pub quantity: usize,
}

impl Factory {
    pub fn new(x: usize, y: usize, needed_tool: Option<ToolType>, quantity: usize) -> (r: Self)
        ensures
            r == (Factory { x, y, needed_tool, quantity }),
    {
        Factory { x, y, needed_tool, quantity }
    }

    /// The same factory with its requisition cleared.
    pub open spec fn satisfied(self) -> Factory {
        Factory { needed_tool: None, quantity: 0, ..self }
    }
}

/// A position where a factory may go once the factories at `placed` stand:
/// inside the board, free there, and not taken by one of them.
pub open spec fn open_spot(board: &Board, placed: Seq<(usize, usize)>, p: (usize, usize)) -> bool {
    board.in_bounds(upos(p)) && board.is_free_spec(upos(p)) && !placed.contains(p)
}

/// Where the factories go: each on the first open spot of `positions` at or
/// after index `from`, the next one searching on from there, until `count`
/// stand; `None` when the positions run out first.
pub open spec fn factory_spots(
    board: &Board,
    count: nat,
    positions: Seq<(usize, usize)>,
    from: int,
    placed: Seq<(usize, usize)>,
) -> Option<Seq<(usize, usize)>>
    decreases positions.len() - from,
{
    if placed.len() >= count {
        Some(placed)
    } else if from < 0 || from >= positions.len() {
        None
    } else if open_spot(board, placed, positions[from]) {
        factory_spots(board, count, positions, from + 1, placed.push(positions[from]))
    } else {
        factory_spots(board, count, positions, from + 1, placed)
    }
}

/// Puts up one factory for each `(tool, quantity)` need, at the spots that
/// `factory_spots` gives; returns them in the order of the needs, or `None`,
/// with the board untouched, when the positions run out.
pub fn spawn_factories(board: &mut Board, needs: &Vec<(ToolType, usize)>, positions: &Vec<(usize, usize)>) -> (r:
    Option<Vec<Factory>>)
    requires
        old(board).wf(),
    ensures
        final(board).wf(),
        final(board).same_terrain(old(board)),
        r.is_some() == factory_spots(old(board), needs@.len(), positions@, 0, Seq::empty()).is_some(),
        r.is_none() ==> *final(board) == *old(board),
        r.is_some() ==> {
            let fs = r.unwrap()@;
            let spots = factory_spots(old(board), needs@.len(), positions@, 0, Seq::empty()).unwrap();
            &&& fs.len() == needs@.len()
            &&& forall|i: int| 0 <= i < fs.len() ==> (#[trigger] fs[i]) == (Factory {
                x: spots[i].0,
                y: spots[i].1,
                needed_tool: Some(needs@[i].0),
                quantity: needs@[i].1,
            })
            &&& forall|i: int| 0 <= i < fs.len() ==> final(board).cell_at(upos(spots[i])) == (Cell {
                factory: Some(#[trigger] fs[i]),
                ..old(board).cell_at(upos(spots[i]))
            })
            &&& forall|p: (usize, usize)| final(board).in_bounds(upos(p)) && !spots.contains(p)
                ==> #[trigger] final(board).cell_at(upos(p)) == old(board).cell_at(upos(p))
        },
{
    let n = needs.len();
    let mut spots: Vec<(usize, usize)> = Vec::new();
    let mut idx: usize = 0;
    let ghost target = factory_spots(board, n as nat, positions@, 0, Seq::empty());
    assert(spots@ =~= Seq::<(usize, usize)>::empty());
    assert(target == factory_spots(old(board), needs@.len(), positions@, 0, Seq::empty()));
    while spots.len() < n
        invariant
            board.wf(),
            *board == *old(board),
            target == factory_spots(old(board), needs@.len(), positions@, 0, Seq::empty()),
            spots@.len() <= n,
            n == needs@.len(),
            idx <= positions@.len(),
            target == factory_spots(board, n as nat, positions@, idx as int, spots@),
            forall|i: int| 0 <= i < spots@.len() ==> open_spot(board, spots@.take(i), #[trigger] spots@[i]),
        decreases positions@.len() - idx,
    {
        if idx >= positions.len() {
            assert(factory_spots(board, n as nat, positions@, idx as int, spots@).is_none());
            return None;
        }
        let p = positions[idx];
        let ghost before = spots@;
        let mut open = p.0 < board.height && p.1 < board.width;
        if open {
            open = board.is_free(p.0, p.1);
        }
        if open {
            open = !queued(&spots, p);
        }
        assert(open == open_spot(board, spots@, p));
        if open {
            spots.push(p);
            assert forall|i: int| 0 <= i < spots@.len() implies open_spot(board, spots@.take(i), #[trigger] spots@[i]) by {
                if i < before.len() {
                    assert(spots@.take(i) == before.take(i));
                } else {
                    assert(spots@.take(i) == before);
                }
            }
        }
        idx = idx + 1;
    }
    assert(target == Some(spots@));
    let ghost b0 = *board;
    let mut fs: Vec<Factory> = Vec::new();
    let mut i: usize = 0;
    while i < n
        invariant
            board.wf(),
            board.same_terrain(&b0),
            b0.wf(),
            n == needs@.len(),
            n == spots@.len(),
            i <= n,
            fs@.len() == i,
            target == Some(spots@),
            forall|k: int| 0 <= k < spots@.len() ==> open_spot(&b0, spots@.take(k), #[trigger] spots@[k]),
            forall|k: int| 0 <= k < i ==> (#[trigger] fs@[k]) == (Factory {
                x: spots@[k].0,
                y: spots@[k].1,
                needed_tool: Some(needs@[k].0),
                quantity: needs@[k].1,
            }),
            forall|k: int| 0 <= k < i ==> board.cell_at(upos(spots@[k])) == (Cell {
                factory: Some(#[trigger] fs@[k]),
                ..b0.cell_at(upos(spots@[k]))
            }),
            forall|p: (usize, usize)| board.in_bounds(upos(p)) && !spots@.take(i as int).contains(p)
                ==> #[trigger] board.cell_at(upos(p)) == b0.cell_at(upos(p)),
        decreases n - i,
    {
        let p = spots[i];
        let need = needs[i];
        let f = Factory::new(p.0, p.1, Some(need.0), need.1);
        proof {
            assert(open_spot(&b0, spots@.take(i as int), p));
            assert(!spots@.take(i as int).contains(p));
            assert(board.cell_at(upos(p)) == b0.cell_at(upos(p)));
        }
        let placed = board.place_factory(f);
        fs.push(f);
        proof {
            assert(placed);
            assert(spots@.take(i as int + 1) == spots@.take(i as int).push(p));
            assert forall|q: (usize, usize)| board.in_bounds(upos(q)) && !spots@.take(i as int + 1).contains(q)
                implies #[trigger] board.cell_at(upos(q)) == b0.cell_at(upos(q)) by {
                assert(spots@.take(i as int + 1)[i as int] == p);
                if q == p {
                    assert(spots@.take(i as int + 1).contains(q));
                }
                if spots@.take(i as int).contains(q) {
                    let k = choose|k: int| 0 <= k < i && spots@.take(i as int)[k] == q;
                    assert(spots@.take(i as int + 1)[k] == q);
                }
                assert(upos(q) != upos(p));
            }
            assert forall|k: int| 0 <= k < i implies board.cell_at(upos(spots@[k])) == (Cell {
                factory: Some(#[trigger] fs@[k]),
                ..b0.cell_at(upos(spots@[k]))
            }) by {
                assert(spots@.take(i as int).contains(spots@[k])) by {
                    assert(spots@.take(i as int)[k] == spots@[k]);
                }
                assert(spots@[k] != p);
            }
        }
        i = i + 1;
    }
    assert(spots@.take(n as int) == spots@);
    Some(fs)
}

} // verus!
