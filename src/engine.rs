//! One agent on one board: the per-tick decide phase (`move_agent`) and
//! execute phase (`follow_path`).
use crate::agent::{
    check_next_destination, check_radius, check_requisitions, coord, first_nearest, lemma_remove_keeps_no_dups,
    match_reqs, sense, dequeue, requested, search_requisition, sensed,
    serve_at, all_resolved, deliverable, upos, Agent,
};
use crate::board::{step, walk_end, Board, Pos};
use crate::explore::{can_explore, explore, explore_weight, reverse};
use crate::cell::Cell;
use crate::factory::Factory;
use crate::path::Path;
use crate::planner::{find_path, move_of, neighbor, ROUTE_COST_LIMIT};
use crate::tool::{tool_index, Tool, ToolType};
use vstd::prelude::*;

verus! {

/// Everything the engine works on: the board, the one agent, its route, and
/// the record of each tool spread on the board.
pub struct Simulation {
    pub board: Board,
    pub agent: Agent,
    pub path: Path,
    pub tools: Vec<Tool>,
}

/// The validity check of a destination on `board`: a tool cell is worth a
/// visit while some requisition asks for its kind, a factory cell while its
/// requisition is open; any other cell is not.
pub open spec fn target_ok(board: &Board, reqs: Seq<Factory>, p: Pos) -> bool {
    match board.cell_at(p).tool {
        Some(t) => requested(t, reqs),
        None => match board.cell_at(p).factory {
            Some(f) => f.needed_tool.is_some(),
            None => false,
        },
    }
}

/// Inventory after picking up one unit of `t`.
pub open spec fn add_one(inventory: Seq<usize>, t: ToolType) -> Seq<usize> {
    inventory.update(tool_index(t), (inventory[tool_index(t)] + 1) as usize)
}

/// Inventory after delivering what `f` needs.
pub open spec fn take_out(inventory: Seq<usize>, f: Factory) -> Seq<usize> {
    let i = tool_index(f.needed_tool.unwrap());
    inventory.update(i, (inventory[i] - f.quantity) as usize)
}

impl Simulation {
    pub open spec fn wf(&self) -> bool {
        &&& self.board.wf()
        &&& self.agent.wf()
        &&& self.board.passable_at(self.agent.pos())
        &&& self.board.is_route(self.agent.pos(), self.path.moves@)
        &&& forall|k: int| 0 <= k < self.agent.destination_queue@.len()
            ==> self.board.in_bounds(upos(#[trigger] self.agent.destination_queue@[k]))
        &&& forall|i: int| 0 <= i < self.agent.requisitions@.len()
            ==> self.board.in_bounds(upos(coord(#[trigger] self.agent.requisitions@[i])))
    }

    /// The counters have room for one more tick.
    pub open spec fn within_limits(&self) -> bool {
        &&& self.agent.cost <= usize::MAX - 20
        &&& forall|i: int| 0 <= i < self.agent.inventory@.len() ==> #[trigger] self.agent.inventory@[i] < usize::MAX
    }

    /// A simulation with an empty route.
    pub fn new(board: Board, agent: Agent, tools: Vec<Tool>) -> (r: Self)
        requires
            board.wf(),
            agent.wf(),
            board.passable_at(agent.pos()),
            forall|k: int| 0 <= k < agent.destination_queue@.len()
                ==> board.in_bounds(upos(#[trigger] agent.destination_queue@[k])),
            forall|i: int| 0 <= i < agent.requisitions@.len()
                ==> board.in_bounds(upos(coord(#[trigger] agent.requisitions@[i]))),
        ensures
            r.wf(),
            r.board == board,
            r.agent == agent,
            r.tools == tools,
            r.path.moves@.len() == 0,
    {
        let path = Path::new();
        assert(board.is_walk(agent.pos(), path.moves@));
        Simulation { board, agent, path, tools }
    }

    /// Moves still to follow.
    pub fn remaining_moves(&self) -> (r: usize)
        ensures
            r == self.path.moves@.len(),
    {
        self.path.moves.len()
    }
}

/// The validity check of a destination (see `target_ok`).
pub fn target_valid(board: &Board, requisitions: &Vec<Factory>, x: usize, y: usize) -> (r: bool)
    requires
        board.wf(),
        board.in_bounds((x as int, y as int)),
    ensures
        r == target_ok(board, requisitions@, (x as int, y as int)),
{
    let cell = board.get(x, y);
    match cell.tool {
        Some(t) => search_requisition(t, requisitions),
        None => match cell.factory {
            Some(f) => f.needed_tool.is_some(),
            None => false,
        },
    }
}

/// Delivery to factory `f`: when the agent holds at least what `f` needs, the
/// quantity leaves the inventory, the factory's coordinate leaves the queue,
/// and the agent's copy of that requisition is marked satisfied. Returns
/// whether it delivered.
pub fn deliver(agent: &mut Agent, f: Factory) -> (r: bool)
    requires
        old(agent).wf(),
    ensures
        final(agent).wf(),
        r == deliverable(f, old(agent).inventory@),
        r ==> final(agent).inventory@ == take_out(old(agent).inventory@, f),
        r ==> final(agent).inventory@[tool_index(f.needed_tool.unwrap())] == old(agent).inventory@[tool_index(
            f.needed_tool.unwrap(),
        )] - f.quantity,
        r ==> final(agent).requisitions@ == serve_at(old(agent).requisitions@, coord(f)),
        r ==> !final(agent).destination_queue@.contains(coord(f)),
        r ==> forall|q: (usize, usize)| q != coord(f)
            ==> (final(agent).destination_queue@.contains(q) <==> old(agent).destination_queue@.contains(q)),
        !r ==> *final(agent) == *old(agent),
        final(agent).x == old(agent).x && final(agent).y == old(agent).y,
        final(agent).cost == old(agent).cost && final(agent).expansions == old(agent).expansions,
        final(agent).radius == old(agent).radius && final(agent).ended == old(agent).ended,
        final(agent).last_move == old(agent).last_move,
{
    match f.needed_tool {
        None => false,
        Some(t) => {
            let i = t.index();
            if agent.inventory[i] < f.quantity {
                return false;
            }
            agent.inventory[i] = agent.inventory[i] - f.quantity;
            dequeue(&mut agent.destination_queue, (f.x, f.y));
            let n = agent.requisitions.len();
            let ghost inv = agent.inventory@;
            let ghost dq = agent.destination_queue@;
            assert(inv == take_out(old(agent).inventory@, f));
            let mut j: usize = 0;
            while j < n
                invariant
                    agent.inventory@ == inv,
                    agent.destination_queue@ == dq,
                    agent.x == old(agent).x && agent.y == old(agent).y,
                    agent.cost == old(agent).cost && agent.expansions == old(agent).expansions,
                    agent.radius == old(agent).radius && agent.ended == old(agent).ended,
                    agent.last_move == old(agent).last_move,
                    n == agent.requisitions@.len(),
                    n == old(agent).requisitions@.len(),
                    j <= n,
                    forall|k: int| 0 <= k < j ==> #[trigger] agent.requisitions@[k] == (if coord(old(agent).requisitions@[k]) == coord(f) {
                        old(agent).requisitions@[k].satisfied()
                    } else {
                        old(agent).requisitions@[k]
                    }),
                    forall|k: int| j <= k < n ==> #[trigger] agent.requisitions@[k] == old(agent).requisitions@[k],
                decreases n - j,
            {
                let fact = agent.requisitions[j];
                if fact.x == f.x && fact.y == f.y {
                    agent.requisitions[j].needed_tool = None;
                    agent.requisitions[j].quantity = 0;
                }
                j = j + 1;
            }
            assert(agent.requisitions@ =~= serve_at(old(agent).requisitions@, coord(f)));
            true
        },
    }
}

/// The index `k` with `move_of(k) == m`.
fn move_index(m: (i32, i32)) -> (k: usize)
    requires
        crate::board::is_unit_move(m),
    ensures
        k < 4,
        move_of(k as int) == m,
{
    if m.0 == 1 {
        0
    } else if m.1 == 1 {
        1
    } else if m.0 == -1 {
        2
    } else {
        3
    }
}

/// Tool records after the tool at `(x, y)` has been taken.
pub open spec fn clear_tools_at(tools: Seq<Tool>, x: usize, y: usize) -> Seq<Tool> {
    tools.map_values(|t: Tool| if t.x == x && t.y == y { Tool { tool_type: None, ..t } } else { t })
}

/// Pickup at `(x, y)`: a tool lying there goes into the inventory and leaves
/// the cell and the tool records. Returns the kind picked up.
pub fn pick_up(sim: &mut Simulation, x: usize, y: usize) -> (r: Option<ToolType>)
    requires
        old(sim).board.wf(),
        old(sim).agent.wf(),
        old(sim).board.in_bounds((x as int, y as int)),
        forall|i: int| 0 <= i < old(sim).agent.inventory@.len() ==> #[trigger] old(sim).agent.inventory@[i] < usize::MAX,
    ensures
        r == old(sim).board.cell_at((x as int, y as int)).tool,
        final(sim).board.wf(),
        final(sim).agent.wf(),
        final(sim).board.same_terrain(&old(sim).board),
        final(sim).board.cell_at((x as int, y as int)) == (Cell { tool: None, ..old(sim).board.cell_at((x as int, y as int)) }),
        forall|p: Pos| final(sim).board.in_bounds(p) && p != (x as int, y as int)
            ==> #[trigger] final(sim).board.cell_at(p) == old(sim).board.cell_at(p),
        final(sim).agent.inventory@ == (match r {
            Some(t) => add_one(old(sim).agent.inventory@, t),
            None => old(sim).agent.inventory@,
        }),
        final(sim).tools@ == (if r.is_some() { clear_tools_at(old(sim).tools@, x, y) } else { old(sim).tools@ }),
        final(sim).path.moves@ == old(sim).path.moves@,
        final(sim).agent.x == old(sim).agent.x && final(sim).agent.y == old(sim).agent.y,
        final(sim).agent.cost == old(sim).agent.cost && final(sim).agent.expansions == old(sim).agent.expansions,
        final(sim).agent.radius == old(sim).agent.radius && final(sim).agent.ended == old(sim).agent.ended,
        final(sim).agent.last_move == old(sim).agent.last_move,
        final(sim).agent.requisitions@ == old(sim).agent.requisitions@,
        final(sim).agent.destination_queue@ == old(sim).agent.destination_queue@,
{
    let cell = sim.board.get(x, y);
    match cell.tool {
        None => None,
        Some(t) => {
            let i = t.index();
            sim.agent.inventory[i] = sim.agent.inventory[i] + 1;
            sim.board.cells[x][y].tool = None;
            assert forall|p: Pos| sim.board.in_bounds(p) implies (#[trigger] sim.board.cell_at(p)).terrain
                == old(sim).board.cell_at(p).terrain by {}
            let n = sim.tools.len();
            let ghost b0 = sim.board;
            let ghost a0 = sim.agent;
            let ghost p0 = sim.path;
            let mut j: usize = 0;
            while j < n
                invariant
                    sim.board == b0,
                    sim.agent == a0,
                    sim.path == p0,
                    n == sim.tools@.len(),
                    n == old(sim).tools@.len(),
                    j <= n,
                    forall|k: int| 0 <= k < j ==> #[trigger] sim.tools@[k] == clear_tools_at(old(sim).tools@, x, y)[k],
                    forall|k: int| j <= k < n ==> #[trigger] sim.tools@[k] == old(sim).tools@[k],
                decreases n - j,
            {
                let tool = sim.tools[j];
                if tool.x == x && tool.y == y {
                    sim.tools[j].tool_type = None;
                }
                j = j + 1;
            }
            assert(sim.tools@ =~= clear_tools_at(old(sim).tools@, x, y));
            Some(t)
        },
    }
}

/// What one step of the route onto `p` does, from `pre` to `post`: the agent
/// moves there and pays for it, senses from there, picks up the tool lying
/// there, and delivers to the factory there if it can.
pub open spec fn executed(pre: Simulation, post: Simulation, p: Pos) -> bool {
    let cell = pre.board.cell_at(p);
    let inv1 = match cell.tool {
        Some(t) => add_one(pre.agent.inventory@, t),
        None => pre.agent.inventory@,
    };
    let delivered = cell.factory.is_some() && deliverable(cell.factory.unwrap(), inv1);
    let f = cell.factory.unwrap();
    let r = pre.agent.radius as int;
    &&& post.agent.pos() == p
    &&& post.agent.cost == pre.agent.cost + pre.board.cost_at(p)
    &&& post.agent.inventory@ == (if delivered { take_out(inv1, f) } else { inv1 })
    &&& post.agent.requisitions@ == (if delivered { serve_at(pre.agent.requisitions@, coord(f)) } else { pre.agent.requisitions@ })
    &&& post.board.same_terrain(&pre.board)
    &&& post.board.cell_at(p) == (Cell {
        terrain: cell.terrain,
        tool: None,
        factory: if delivered { Some(f.satisfied()) } else { cell.factory },
    })
    &&& forall|q: Pos| post.board.in_bounds(q) && q != p ==> #[trigger] post.board.cell_at(q) == pre.board.cell_at(q)
    &&& post.tools@ == (if cell.tool.is_some() { clear_tools_at(pre.tools@, p.0 as usize, p.1 as usize) } else { pre.tools@ })
    &&& delivered ==> !post.agent.destination_queue@.contains(coord(f))
    &&& forall|q: (usize, usize)| #[trigger] pre.agent.destination_queue@.contains(q) && !(delivered && q == coord(f))
        ==> post.agent.destination_queue@.contains(q)
    &&& forall|q: (usize, usize)| #[trigger] post.agent.destination_queue@.contains(q)
        ==> pre.agent.destination_queue@.contains(q) || sensed(&pre.board, q, p.0, p.1, r, pre.agent.requisitions@)
    &&& forall|q: (usize, usize)| sensed(&pre.board, q, p.0, p.1, r, pre.agent.requisitions@) && !(delivered && q == coord(f))
        ==> #[trigger] post.agent.destination_queue@.contains(q)
    &&& post.agent.radius == pre.agent.radius && post.agent.ended == pre.agent.ended
    &&& post.agent.expansions == pre.agent.expansions && post.agent.last_move == pre.agent.last_move
}

/// The move executor: takes the first move of the route. The move `(0, 0)`
/// does nothing more; any other moves the agent as `executed` describes.
pub fn follow_path(sim: &mut Simulation)
    requires
        old(sim).wf(),
        old(sim).within_limits(),
    ensures
        final(sim).wf(),
        old(sim).path.moves@.len() == 0 ==> *final(sim) == *old(sim),
        old(sim).path.moves@.len() > 0 ==> final(sim).path.moves@ == old(sim).path.moves@.drop_first(),
        old(sim).path.moves@.len() > 0 && old(sim).path.moves@[0] == (0i32, 0i32) ==> {
            &&& final(sim).board == old(sim).board
            &&& final(sim).agent == old(sim).agent
            &&& final(sim).tools == old(sim).tools
        },
        old(sim).path.moves@.len() > 0 && old(sim).path.moves@[0] != (0i32, 0i32) ==> executed(
            *old(sim),
            *final(sim),
            step(old(sim).agent.pos(), old(sim).path.moves@[0]),
        ),
{
    if sim.path.moves.len() == 0 {
        return;
    }
    let ghost pre = *sim;
    let m = sim.path.moves.remove(0);
    assert(sim.path.moves@ =~= pre.path.moves@.drop_first());
    if m.0 == 0 && m.1 == 0 {
        assert(sim.path.moves@.len() == 0);
        assert(sim.board.is_walk(sim.agent.pos(), sim.path.moves@));
        return;
    }
    assert(pre.board.is_walk(pre.agent.pos(), pre.path.moves@));
    let ghost p = step(pre.agent.pos(), m);
    let k = move_index(m);
    let n = match neighbor(&sim.board, (sim.agent.x, sim.agent.y), k) {
        Some(n) => n,
        None => (sim.agent.x, sim.agent.y),
    };
    let nx = n.0;
    let ny = n.1;
    sim.agent.x = nx;
    sim.agent.y = ny;
    check_radius(&sim.board, nx, ny, sim.agent.radius, &mut sim.agent.destination_queue, &sim.agent.requisitions);
    let ghost sensed_q = sim.agent.destination_queue@;
    assert forall|q: (usize, usize)| #[trigger] pre.agent.destination_queue@.contains(q) implies sensed_q.contains(q) by {
        let i = choose|i: int| 0 <= i < pre.agent.destination_queue@.len() && pre.agent.destination_queue@[i] == q;
        assert(sensed_q[i] == q);
    }
    assert forall|q: (usize, usize)| #[trigger] sensed_q.contains(q)
        implies pre.agent.destination_queue@.contains(q) || sensed(&pre.board, q, p.0, p.1, pre.agent.radius as int, pre.agent.requisitions@) by {
        let i = choose|i: int| 0 <= i < sensed_q.len() && sensed_q[i] == q;
        if i < pre.agent.destination_queue@.len() {
            assert(pre.agent.destination_queue@[i] == q);
        }
    }
    let c: u64 = match sim.board.get(nx, ny).terrain.cost() {
        Some(c) => c,
        None => 0,
    };
    sim.agent.cost = sim.agent.cost + c as usize;
    let ghost mid = *sim;
    pick_up(sim, nx, ny);
    let ghost picked = *sim;
    let cell = sim.board.get(nx, ny);
    match cell.factory {
        Some(f) => {
            if deliver(&mut sim.agent, f) {
                sim.board.cells[nx][ny].factory = Some(Factory { needed_tool: None, quantity: 0, ..f });
                assert forall|q: Pos| sim.board.in_bounds(q) && q != p
                    implies #[trigger] sim.board.cell_at(q) == pre.board.cell_at(q) by {
                    assert(sim.board.cell_at(q) == picked.board.cell_at(q));
                }
                assert forall|q: Pos| sim.board.in_bounds(q) implies (#[trigger] sim.board.cell_at(q)).terrain
                    == pre.board.cell_at(q).terrain by {
                    assert(picked.board.cell_at(q).terrain == pre.board.cell_at(q).terrain);
                }
            }
        },
        None => {},
    }
    proof {
        pre.board.lemma_walk_same_terrain(&sim.board, p, sim.path.moves@);
    }
    assert forall|k: int| 0 <= k < sim.agent.destination_queue@.len()
        implies sim.board.in_bounds(upos(#[trigger] sim.agent.destination_queue@[k])) by {
        let q = sim.agent.destination_queue@[k];
        assert(sim.agent.destination_queue@.contains(q));
        assert(sensed_q.contains(q));
        if pre.agent.destination_queue@.contains(q) {
            let i = choose|i: int| 0 <= i < pre.agent.destination_queue@.len() && pre.agent.destination_queue@[i] == q;
            assert(pre.board.in_bounds(upos(pre.agent.destination_queue@[i])));
        }
    }
}

/// No walk from `from` reaches `to` within the planner's cost limit.
pub open spec fn unreachable(board: &Board, from: Pos, to: Pos) -> bool {
    forall|moves: Seq<(i32, i32)>|
        #![trigger board.walk_cost(from, moves)]
        board.is_walk(from, moves) && walk_end(from, moves) == to ==> board.walk_cost(from, moves) > ROUTE_COST_LIMIT
}

/// A walk of least cost among those from `from` that end where it ends.
pub open spec fn cheapest(board: &Board, from: Pos, moves: Seq<(i32, i32)>) -> bool {
    forall|other: Seq<(i32, i32)>|
        #![trigger board.walk_cost(from, other)]
        board.is_walk(from, other) && walk_end(from, other) == walk_end(from, moves) ==> board.walk_cost(from, moves)
            <= board.walk_cost(from, other)
}

/// The queue once the decide phase has sensed from the agent's cell and
/// matched the requisitions against the inventory.
pub open spec fn decide_queue(pre: Simulation) -> Seq<(usize, usize)> {
    let a = pre.agent;
    match_reqs(
        sense(&pre.board, a.destination_queue@, a.x as int, a.y as int, a.radius as int, a.requisitions@),
        a.requisitions@,
        a.inventory@,
    )
}

/// The route that the decide phase queues from `pre` for destination `d`:
/// none when `d` fails the validity check; the move `(0, 0)` when the agent
/// stands on `d` or no walk reaches it; otherwise a cheapest walk to `d`.
pub open spec fn route_for(pre: Simulation, d: Pos, moves: Seq<(i32, i32)>) -> bool {
    let b = pre.board;
    let p = pre.agent.pos();
    if !target_ok(&b, pre.agent.requisitions@, d) {
        moves.len() == 0
    } else if d == p || unreachable(&b, p, d) {
        moves == seq![(0i32, 0i32)]
    } else {
        &&& moves.len() > 0
        &&& b.is_walk(p, moves)
        &&& walk_end(p, moves) == d
        &&& cheapest(&b, p, moves)
    }
}

/// The agent knows of nothing to do: its queue is empty, sensing finds
/// nothing and no requisition can be met, though some are still open.
pub open spec fn idle(sim: Simulation) -> bool {
    let a = sim.agent;
    &&& a.destination_queue@.len() == 0
    &&& forall|q: (usize, usize)| !#[trigger] sensed(&sim.board, q, a.x as int, a.y as int, a.radius as int, a.requisitions@)
    &&& forall|i: int| 0 <= i < a.requisitions@.len() ==> !deliverable(#[trigger] a.requisitions@[i], a.inventory@)
    &&& !all_resolved(a.requisitions@)
}

/// One exploration step from `pre` to `post`, never the move that undoes the
/// previous one.
pub open spec fn explored(pre: Simulation, post: Simulation) -> bool {
    exists|k: int|
        0 <= k < 4 && explore_weight(&pre.board, pre.agent.pos(), pre.agent.last_move, k) > 0
            && #[trigger] move_of(k) != pre.agent.last_move
            && post.agent.pos() == step(pre.agent.pos(), move_of(k))
            && post.agent.cost == pre.agent.cost + pre.board.cost_at(post.agent.pos())
            && post.agent.last_move == reverse(move_of(k))
}

/// The agent has not moved, paid or explored.
pub open spec fn stayed(pre: Simulation, post: Simulation) -> bool {
    &&& post.agent.pos() == pre.agent.pos()
    &&& post.agent.cost == pre.agent.cost
    &&& post.agent.last_move == pre.agent.last_move
}

/// The decide phase, run while no route is queued: sensing, then the
/// requisition matcher; when every requisition is satisfied the run ends.
/// Otherwise the nearest queued destination is taken off the queue and, if
/// the validity check passes, the planner queues a route to it (or the move
/// `(0, 0)` when it is out of reach); with nothing queued the agent explores.
pub fn move_agent(sim: &mut Simulation)
    requires
        old(sim).wf(),
        old(sim).within_limits(),
    ensures
        final(sim).wf(),
        old(sim).path.moves@.len() > 0 ==> *final(sim) == *old(sim),
        old(sim).path.moves@.len() == 0 ==> {
            &&& final(sim).board == old(sim).board
            &&& final(sim).tools == old(sim).tools
            &&& final(sim).agent.inventory@ == old(sim).agent.inventory@
            &&& final(sim).agent.requisitions@ == old(sim).agent.requisitions@
            &&& final(sim).agent.radius == old(sim).agent.radius
            &&& final(sim).agent.expansions >= old(sim).agent.expansions
            &&& final(sim).agent.ended == (old(sim).agent.ended || all_resolved(old(sim).agent.requisitions@))
            &&& all_resolved(old(sim).agent.requisitions@) ==> {
                &&& stayed(*old(sim), *final(sim))
                &&& final(sim).path.moves@.len() == 0
                &&& final(sim).agent.destination_queue@ == old(sim).agent.destination_queue@
                &&& final(sim).agent.expansions == old(sim).agent.expansions
            }
            &&& !all_resolved(old(sim).agent.requisitions@) && decide_queue(*old(sim)).len() == 0 ==> {
                &&& final(sim).agent.destination_queue@.len() == 0
                &&& final(sim).path.moves@.len() == 0
                &&& final(sim).agent.expansions == old(sim).agent.expansions
                &&& can_explore(&old(sim).board, old(sim).agent.pos(), old(sim).agent.last_move) ==> explored(
                    *old(sim),
                    *final(sim),
                )
                &&& !can_explore(&old(sim).board, old(sim).agent.pos(), old(sim).agent.last_move) ==> stayed(
                    *old(sim),
                    *final(sim),
                )
            }
            &&& !all_resolved(old(sim).agent.requisitions@) && decide_queue(*old(sim)).len() > 0 ==> {
                let q2 = decide_queue(*old(sim));
                &&& stayed(*old(sim), *final(sim))
                &&& final(sim).agent.expansions >= old(sim).agent.expansions
                &&& exists|i: int|
                    #[trigger] first_nearest(q2, old(sim).agent.pos(), i) && final(sim).agent.destination_queue@
                        == q2.remove(i) && route_for(*old(sim), upos(q2[i]), final(sim).path.moves@) && (!target_ok(
                        &old(sim).board,
                        old(sim).agent.requisitions@,
                        upos(q2[i]),
                    ) ==> final(sim).agent.expansions == old(sim).agent.expansions)
            }
            &&& idle(*old(sim)) && can_explore(&old(sim).board, old(sim).agent.pos(), old(sim).agent.last_move)
                ==> explored(*old(sim), *final(sim))
            &&& idle(*old(sim)) && !can_explore(&old(sim).board, old(sim).agent.pos(), old(sim).agent.last_move)
                ==> stayed(*old(sim), *final(sim))
        },
{
    if sim.path.moves.len() > 0 {
        return;
    }
    let ghost pre = *sim;
    check_radius(&sim.board, sim.agent.x, sim.agent.y, sim.agent.radius, &mut sim.agent.destination_queue, &sim.agent.requisitions);
    let ghost q1 = sim.agent.destination_queue@;
    assert forall|k: int| 0 <= k < q1.len() implies sim.board.in_bounds(upos(#[trigger] q1[k])) by {
        if k < pre.agent.destination_queue@.len() {
            assert(q1[k] == pre.agent.destination_queue@[k]);
        }
    }
    let resolved = check_requisitions(&mut sim.agent);
    let ghost q2 = sim.agent.destination_queue@;
    assert forall|k: int| 0 <= k < q2.len() implies sim.board.in_bounds(upos(#[trigger] q2[k])) by {
        if k < q1.len() {
            assert(q2[k] == q1[k]);
        } else {
            assert(crate::agent::matched(q2[k], sim.agent.requisitions@, sim.agent.inventory@));
            let i = choose|i: int| 0 <= i < sim.agent.requisitions@.len() && coord(#[trigger] sim.agent.requisitions@[i]) == q2[k]
                && deliverable(sim.agent.requisitions@[i], sim.agent.inventory@);
            assert(sim.board.in_bounds(upos(coord(sim.agent.requisitions@[i]))));
        }
    }
    assert(q2 == decide_queue(pre));
    if resolved {
        assert(q1 == pre.agent.destination_queue@) by {
            if q1.len() > pre.agent.destination_queue@.len() {
                let k = pre.agent.destination_queue@.len() as int;
                assert(sensed(&pre.board, q1[k], pre.agent.x as int, pre.agent.y as int, pre.agent.radius as int, pre.agent.requisitions@));
                let t = pre.board.cell_at(upos(q1[k])).tool.unwrap();
                assert(requested(t, pre.agent.requisitions@));
            }
            assert(q1.take(pre.agent.destination_queue@.len() as int) == pre.agent.destination_queue@);
            assert(q1 =~= q1.take(pre.agent.destination_queue@.len() as int));
        }
        assert(q2 == q1) by {
            if q2.len() > q1.len() {
                let k = q1.len() as int;
                assert(crate::agent::matched(q2[k], sim.agent.requisitions@, sim.agent.inventory@));
                let i = choose|i: int| 0 <= i < sim.agent.requisitions@.len() && coord(#[trigger] sim.agent.requisitions@[i]) == q2[k]
                    && deliverable(sim.agent.requisitions@[i], sim.agent.inventory@);
                assert(sim.agent.requisitions@[i].needed_tool.is_none());
            }
            assert(q2.take(q1.len() as int) == q1);
            assert(q2 =~= q2.take(q1.len() as int));
        }
        if !sim.agent.ended {
            sim.agent.ended = true;
        }
        return;
    }
    if sim.agent.destination_queue.len() > 0 {
        assert(!idle(pre)) by {
            if idle(pre) {
                if q1.len() > 0 {
                    assert(sensed(&pre.board, q1[0], pre.agent.x as int, pre.agent.y as int, pre.agent.radius as int, pre.agent.requisitions@));
                } else {
                    assert(crate::agent::matched(q2[0], sim.agent.requisitions@, sim.agent.inventory@));
                    let i = choose|i: int| 0 <= i < sim.agent.requisitions@.len() && coord(#[trigger] sim.agent.requisitions@[i]) == q2[0]
                        && deliverable(sim.agent.requisitions@[i], sim.agent.inventory@);
                    assert(!deliverable(pre.agent.requisitions@[i], pre.agent.inventory@));
                }
            }
        }
        let idx = check_next_destination(&sim.agent);
        let d = sim.agent.destination_queue.remove(idx);
        proof {
            lemma_remove_keeps_no_dups(q2, idx as int);
            assert(sim.board.in_bounds(upos(q2[idx as int])));
        }
        assert forall|k: int| 0 <= k < sim.agent.destination_queue@.len()
            implies sim.board.in_bounds(upos(#[trigger] sim.agent.destination_queue@[k])) by {
            let q = sim.agent.destination_queue@[k];
            assert(sim.agent.destination_queue@.contains(q));
            assert(q2.contains(q));
            let i = choose|i: int| 0 <= i < q2.len() && q2[i] == q;
            assert(sim.board.in_bounds(upos(q2[i])));
        }
        let ghost p = pre.agent.pos();
        if target_valid(&sim.board, &sim.agent.requisitions, d.0, d.1) {
            match find_path(&sim.board, (sim.agent.x, sim.agent.y), d, &mut sim.agent.expansions) {
                Some(moves) => {
                    if moves.len() > 0 {
                        proof {
                            assert(!unreachable(&pre.board, p, upos(d))) by {
                                assert(pre.board.walk_cost(p, moves@) <= ROUTE_COST_LIMIT);
                            }
                            if upos(d) == p {
                                let e = Seq::<(i32, i32)>::empty();
                                assert(pre.board.is_walk(p, e));
                                assert(walk_end(p, e) == p);
                                assert(pre.board.walk_cost(p, e) == 0);
                                pre.board.lemma_walk_cost_bounds(p, moves@);
                                assert(pre.board.walk_cost(p, moves@) <= pre.board.walk_cost(p, e));
                            }
                        }
                        sim.path.moves = moves;
                    } else {
                        sim.path.moves.push((0, 0));
                        assert(sim.path.moves@ =~= seq![(0i32, 0i32)]);
                        assert(walk_end(p, moves@) == p);
                    }
                },
                None => {
                    sim.path.moves.push((0, 0));
                    assert(sim.path.moves@ =~= seq![(0i32, 0i32)]);
                },
            }
        }
        assert(route_for(pre, upos(q2[idx as int]), sim.path.moves@));
        assert(first_nearest(q2, pre.agent.pos(), idx as int));
    } else {
        assert(q2.len() == 0);
        explore(&mut sim.agent, &sim.board);
    }
}

} // verus!
