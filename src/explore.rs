//! Fallback exploration: a random step to a neighbour, weighted by terrain,
//! never straight back the way the previous step came.
use crate::agent::Agent;
use crate::board::{step, Board, Pos};
use crate::planner::{move_of, neighbor, unit_move};
use crate::terrain::terrain_weight;
use vstd::prelude::*;

verus! {

/// Weight of moving from `p` by `move_of(k)`: that of the terrain entered, or
/// zero where the move leaves the grid or undoes the previous step.
pub open spec fn explore_weight(board: &Board, p: Pos, last_move: (i32, i32), k: int) -> nat {
    let n = step(p, move_of(k));
    if board.in_bounds(n) && move_of(k) != last_move {
        terrain_weight(board.cell_at(n).terrain)
    } else {
        0
    }
}

/// Some neighbour of `p` has a positive exploration weight.
pub open spec fn can_explore(board: &Board, p: Pos, last_move: (i32, i32)) -> bool {
    exists|k: int| 0 <= k < 4 && explore_weight(board, p, last_move, k) > 0
}

/// The reverse of a move.
pub open spec fn reverse(m: (i32, i32)) -> (i32, i32) {
    ((-m.0) as i32, (-m.1) as i32)
}

/// The exploration weights of the four moves from `(x, y)`.
pub fn explore_weights(board: &Board, x: usize, y: usize, last_move: (i32, i32)) -> (r: Vec<u32>)
    requires
        board.wf(),
        board.in_bounds((x as int, y as int)),
    ensures
        r@.len() == 4,
        forall|k: int| 0 <= k < 4 ==> r@[k] == explore_weight(board, (x as int, y as int), last_move, k),
        forall|k: int| 0 <= k < 4 ==> r@[k] <= 20,
{
    let mut w: Vec<u32> = Vec::new();
    let mut k: usize = 0;
    while k < 4
        invariant
            board.wf(),
            board.in_bounds((x as int, y as int)),
            k <= 4,
            w@.len() == k,
            forall|j: int| 0 <= j < k ==> w@[j] == explore_weight(board, (x as int, y as int), last_move, j),
            forall|j: int| 0 <= j < k ==> w@[j] <= 20,
        decreases 4 - k,
    {
        let m = unit_move(k);
        let weight: u32 = match neighbor(board, (x, y), k) {
            Some(n) => {
                if m.0 == last_move.0 && m.1 == last_move.1 {
                    0
                } else {
                    board.get(n.0, n.1).terrain.weight()
                }
            },
            None => 0,
        };
        w.push(weight);
        k = k + 1;
    }
    w
}

/// Relies on `rand::distributions::WeightedIndex` (`new`, then `sample` with
/// `rand::thread_rng`): it draws an index with probability proportional to its
/// weight, so an index of weight zero is never drawn. The bounds keep the
/// total weight within `u32`.
#[verifier::external_body]
fn weighted_choice(weights: &Vec<u32>) -> (r: usize)
    requires
        0 < weights@.len() <= 1000,
        forall|i: int| 0 <= i < weights@.len() ==> weights@[i] <= 1000,
        exists|i: int| 0 <= i < weights@.len() && weights@[i] > 0,
    ensures
        r < weights@.len(),
        weights@[r as int] > 0,
{
    let dist = rand::distributions::WeightedIndex::new(weights).unwrap();
    rand::distributions::Distribution::sample(&dist, &mut rand::thread_rng())
}

/// Takes exploration move `k`: the agent moves, pays for the cell entered,
/// and remembers the reverse of the move as the one not to take next.
pub fn take_explore_move(agent: &mut Agent, board: &Board, k: usize)
    requires
        board.wf(),
        k < 4,
        board.in_bounds(old(agent).pos()),
        board.passable_at(step(old(agent).pos(), move_of(k as int))),
        old(agent).cost <= usize::MAX - 20,
    ensures
        final(agent).pos() == step(old(agent).pos(), move_of(k as int)),
        final(agent).cost == old(agent).cost + board.cost_at(final(agent).pos()),
        final(agent).last_move == reverse(move_of(k as int)),
        final(agent).radius == old(agent).radius && final(agent).expansions == old(agent).expansions,
        final(agent).ended == old(agent).ended,
        final(agent).inventory@ == old(agent).inventory@,
        final(agent).requisitions@ == old(agent).requisitions@,
        final(agent).destination_queue@ == old(agent).destination_queue@,
{
    let m = unit_move(k);
    let n = match neighbor(board, (agent.x, agent.y), k) {
        Some(n) => n,
        None => (agent.x, agent.y),
    };
    agent.x = n.0;
    agent.y = n.1;
    agent.last_move = (-m.0, -m.1);
    let c: u64 = match board.get(n.0, n.1).terrain.cost() {
        Some(c) => c,
        None => 0,
    };
    agent.cost = agent.cost + c as usize;
}

/// The fallback explorer: when some neighbour has a positive weight, steps to
/// one drawn at random by weight, and returns `true`; otherwise stays put and
/// returns `false`. It never takes the move that undoes the previous step.
pub fn explore(agent: &mut Agent, board: &Board) -> (moved: bool)
    requires
        board.wf(),
        board.in_bounds(old(agent).pos()),
        old(agent).cost <= usize::MAX - 20,
    ensures
        moved == can_explore(board, old(agent).pos(), old(agent).last_move),
        moved ==> exists|k: int|
            0 <= k < 4 && explore_weight(board, old(agent).pos(), old(agent).last_move, k) > 0
                && #[trigger] move_of(k) != old(agent).last_move
                && board.passable_at(final(agent).pos())
                && final(agent).pos() == step(old(agent).pos(), move_of(k))
                && final(agent).cost == old(agent).cost + board.cost_at(final(agent).pos())
                && final(agent).last_move == reverse(move_of(k)),
        !moved ==> *final(agent) == *old(agent),
        final(agent).radius == old(agent).radius && final(agent).expansions == old(agent).expansions,
        final(agent).ended == old(agent).ended,
        final(agent).inventory@ == old(agent).inventory@,
        final(agent).requisitions@ == old(agent).requisitions@,
        final(agent).destination_queue@ == old(agent).destination_queue@,
{
    let weights = explore_weights(board, agent.x, agent.y, agent.last_move);
    let has_option = weights[0] > 0 || weights[1] > 0 || weights[2] > 0 || weights[3] > 0;
    if !has_option {
        assert(!can_explore(board, agent.pos(), agent.last_move)) by {
            assert forall|k: int| 0 <= k < 4 implies explore_weight(board, agent.pos(), agent.last_move, k) == 0 by {
                assert(weights@[k] == 0);
            }
        }
        return false;
    }
    let k = weighted_choice(&weights);
    proof {
        let kk = k as int;
        assert(explore_weight(board, agent.pos(), agent.last_move, kk) > 0);
        assert(board.in_bounds(step(agent.pos(), move_of(kk))));
        assert(terrain_weight(board.cell_at(step(agent.pos(), move_of(kk))).terrain) > 0);
    }
    take_explore_move(agent, board, k);
    true
}

} // verus!
