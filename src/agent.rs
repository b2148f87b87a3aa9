use crate::board::{manhattan, Board, Pos};
use crate::factory::Factory;
use crate::tool::{tool_index, ToolType, TOOL_KINDS};
pub use crate::engine::{follow_path, move_agent, Simulation};
use vstd::prelude::*;

verus! {

/// The agent: where it stands, what it has spent, what it carries, what it
/// knows of the factories' requisitions, and where it means to go.
pub struct Agent {
    pub x: usize,
    pub y: usize,
    pub radius: usize,
    pub cost: usize,
    pub expansions: usize,
    /// The move that would undo the previous exploration step; exploring does
    /// not take it next.
    pub last_move: (i32, i32),
    pub ended: bool,
    /// Units held of each tool kind, indexed by `ToolType::index`.
    pub inventory: Vec<usize>,
    pub requisitions: Vec<Factory>,
    pub destination_queue: Vec<(usize, usize)>,
}

/// No coordinate occurs twice.
pub open spec fn no_dups(q: Seq<(usize, usize)>) -> bool {
    forall|i: int, j: int| 0 <= i < q.len() && 0 <= j < q.len() && i != j ==> q[i] != q[j]
}

/// Some requisition asks for tool kind `t`.
pub open spec fn requested(t: ToolType, reqs: Seq<Factory>) -> bool {
    exists|i: int| 0 <= i < reqs.len() && (#[trigger] reqs[i]).needed_tool == Some(t)
}

/// Every requisition is satisfied.
pub open spec fn all_resolved(reqs: Seq<Factory>) -> bool {
    forall|i: int| 0 <= i < reqs.len() ==> (#[trigger] reqs[i]).needed_tool.is_none()
}

/// `new` is `old` with entries appended.
pub open spec fn extends(new: Seq<(usize, usize)>, old: Seq<(usize, usize)>) -> bool {
    old.len() <= new.len() && new.take(old.len() as int) == old
}

pub open spec fn coord(f: Factory) -> (usize, usize) {
    (f.x, f.y)
}

pub open spec fn upos(p: (usize, usize)) -> Pos {
    (p.0 as int, p.1 as int)
}

/// The agent could meet requisition `f` with what `inventory` holds.
pub open spec fn deliverable(f: Factory, inventory: Seq<usize>) -> bool {
    match f.needed_tool {
        Some(t) => inventory[tool_index(t)] >= f.quantity,
        None => false,
    }
}

/// Inside the square of half-side `r` around `(ax, ay)`.
pub open spec fn in_square(p: Pos, ax: int, ay: int, r: int) -> bool {
    ax - r <= p.0 <= ax + r && ay - r <= p.1 <= ay + r
}

/// A cell worth a visit to pick up its tool: it holds a tool that some
/// requisition asks for.
pub open spec fn wanted_tool_at(board: &Board, p: Pos, reqs: Seq<Factory>) -> bool {
    match board.cell_at(p).tool {
        Some(t) => requested(t, reqs),
        None => false,
    }
}

/// Requisitions after the factory at `c` has been served.
pub open spec fn serve_at(reqs: Seq<Factory>, c: (usize, usize)) -> Seq<Factory> {
    reqs.map_values(|f: Factory| if coord(f) == c { f.satisfied() } else { f })
}

impl Agent {
    /// A fresh agent at `(x, y)` with sensing radius `radius`: nothing spent,
    /// nothing held, nothing known.
    pub fn new(x: usize, y: usize, radius: usize) -> (r: Self)
        ensures
            r.x == x && r.y == y && r.radius == radius,
            r.cost == 0 && r.expansions == 0,
            r.last_move == (0i32, 0i32),
            !r.ended,
            r.inventory@ == seq![0usize, 0usize, 0usize, 0usize, 0usize],
            r.requisitions@.len() == 0,
            r.destination_queue@.len() == 0,
    {
        Agent {
            x,
            y,
            radius,
            cost: 0,
            expansions: 0,
            last_move: (0, 0),
            ended: false,
            inventory: vec![0, 0, 0, 0, 0],
            requisitions: Vec::new(),
            destination_queue: Vec::new(),
        }
    }

    pub open spec fn pos(&self) -> Pos {
        (self.x as int, self.y as int)
    }

    pub open spec fn wf(&self) -> bool {
        &&& self.inventory@.len() == TOOL_KINDS
        &&& no_dups(self.destination_queue@)
    }

    /// The agent's cell.
    pub fn position(&self) -> (r: (usize, usize))
        ensures
            r == (self.x, self.y),
    {
        (self.x, self.y)
    }

    /// Total terrain cost paid so far.
    pub fn total_cost(&self) -> (r: usize)
        ensures
            r == self.cost,
    {
        self.cost
    }

    /// Cells the route planner has expanded so far.
    pub fn expansion_count(&self) -> (r: usize)
        ensures
            r == self.expansions,
    {
        self.expansions
    }

    /// Whether the run has ended.
    pub fn has_ended(&self) -> (r: bool)
        ensures
            r == self.ended,
    {
        self.ended
    }

    /// Units of `t` held.
    pub fn held(&self, t: ToolType) -> (r: usize)
        requires
            self.wf(),
        ensures
            r == self.inventory@[tool_index(t)],
    {
        self.inventory[t.index()]
    }
}

/// Copies the factories' requisitions into the agent's own list.
pub fn setup_agent_factories(agent: &mut Agent, factories: &Vec<Factory>)
    ensures
        final(agent).requisitions@ == old(agent).requisitions@ + factories@,
        final(agent).x == old(agent).x && final(agent).y == old(agent).y,
        final(agent).inventory@ == old(agent).inventory@,
        final(agent).destination_queue@ == old(agent).destination_queue@,
        final(agent).cost == old(agent).cost && final(agent).expansions == old(agent).expansions,
        final(agent).radius == old(agent).radius && final(agent).ended == old(agent).ended,
        final(agent).last_move == old(agent).last_move,
{
    let mut i: usize = 0;
    while i < factories.len()
        invariant
            i <= factories@.len(),
            agent.requisitions@ == old(agent).requisitions@ + factories@.take(i as int),
            agent.x == old(agent).x && agent.y == old(agent).y,
            agent.inventory@ == old(agent).inventory@,
            agent.destination_queue@ == old(agent).destination_queue@,
            agent.cost == old(agent).cost && agent.expansions == old(agent).expansions,
            agent.radius == old(agent).radius && agent.ended == old(agent).ended,
            agent.last_move == old(agent).last_move,
        decreases factories@.len() - i,
    {
        agent.requisitions.push(factories[i]);
        assert(factories@.take(i as int + 1) == factories@.take(i as int).push(factories@[i as int]));
        i = i + 1;
    }
    assert(factories@.take(i as int) == factories@);
}

/// Brings each factory's requisition in line with the agent's list: a factory
/// takes the tool and quantity of the last entry of the list at its coordinate.
pub fn update_agent_factories(agent: &Agent, factories: &mut Vec<Factory>)
    ensures
        final(factories)@.len() == old(factories)@.len(),
        forall|i: int| 0 <= i < old(factories)@.len() ==> {
            let f = #[trigger] old(factories)@[i];
            let g = final(factories)@[i];
            &&& g.x == f.x && g.y == f.y
            &&& (exists|j: int| 0 <= j < agent.requisitions@.len() && coord(agent.requisitions@[j]) == coord(f))
                ==> exists|j: int|
                0 <= j < agent.requisitions@.len() && coord(#[trigger] agent.requisitions@[j]) == coord(f)
                    && g.needed_tool == agent.requisitions@[j].needed_tool
                    && g.quantity == agent.requisitions@[j].quantity
            &&& (forall|j: int| 0 <= j < agent.requisitions@.len() ==> coord(#[trigger] agent.requisitions@[j]) != coord(f))
                ==> g == f
        },
{
    let n = factories.len();
    let mut i: usize = 0;
    while i < n
        invariant
            n == old(factories)@.len(),
            i <= n,
            factories@.len() == n,
            forall|k: int| i <= k < n ==> #[trigger] factories@[k] == old(factories)@[k],
            forall|k: int| 0 <= k < i ==> {
                let f = #[trigger] old(factories)@[k];
                let g = factories@[k];
                &&& g.x == f.x && g.y == f.y
                &&& (exists|j: int| 0 <= j < agent.requisitions@.len() && coord(agent.requisitions@[j]) == coord(f))
                    ==> exists|j: int|
                    0 <= j < agent.requisitions@.len() && coord(#[trigger] agent.requisitions@[j]) == coord(f)
                        && g.needed_tool == agent.requisitions@[j].needed_tool
                        && g.quantity == agent.requisitions@[j].quantity
                &&& (forall|j: int| 0 <= j < agent.requisitions@.len() ==> coord(#[trigger] agent.requisitions@[j]) != coord(f))
                    ==> g == f
            },
        decreases n - i,
    {
        let mut f = factories[i];
        let mut j: usize = 0;
        let ghost mut found: Option<int> = None;
        while j < agent.requisitions.len()
            invariant
                j <= agent.requisitions@.len(),
                f.x == old(factories)@[i as int].x && f.y == old(factories)@[i as int].y,
                found.is_none() ==> f == old(factories)@[i as int],
                found.is_none() ==> forall|k: int| 0 <= k < j ==> coord(#[trigger] agent.requisitions@[k]) != coord(f),
                found.is_some() ==> {
                    let k = found.unwrap();
                    &&& 0 <= k < agent.requisitions@.len()
                    &&& coord(agent.requisitions@[k]) == coord(f)
                    &&& f.needed_tool == agent.requisitions@[k].needed_tool
                    &&& f.quantity == agent.requisitions@[k].quantity
                },
            decreases agent.requisitions@.len() - j,
        {
            let fact = agent.requisitions[j];
            if f.x == fact.x && f.y == fact.y {
                f.needed_tool = fact.needed_tool;
                f.quantity = fact.quantity;
                proof {
                    found = Some(j as int);
                }
            }
            j = j + 1;
        }
        factories.set(i, f);
        i = i + 1;
    }
}

/// Whether some requisition asks for tool kind `tool_type`.
pub fn search_requisition(tool_type: ToolType, requisitions: &Vec<Factory>) -> (r: bool)
    ensures
        r == requested(tool_type, requisitions@),
{
    let mut i: usize = 0;
    while i < requisitions.len()
        invariant
            i <= requisitions@.len(),
            forall|k: int| 0 <= k < i ==> (#[trigger] requisitions@[k]).needed_tool != Some(tool_type),
        decreases requisitions@.len() - i,
    {
        if requisitions[i].needed_tool == Some(tool_type) {
            return true;
        }
        i = i + 1;
    }
    false
}

/// Whether `destinations` holds `p`.
pub fn queued(destinations: &Vec<(usize, usize)>, p: (usize, usize)) -> (r: bool)
    ensures
        r == destinations@.contains(p),
{
    let mut i: usize = 0;
    while i < destinations.len()
        invariant
            i <= destinations@.len(),
            forall|k: int| 0 <= k < i ==> destinations@[k] != p,
        decreases destinations@.len() - i,
    {
        if destinations[i].0 == p.0 && destinations[i].1 == p.1 {
            return true;
        }
        i = i + 1;
    }
    false
}

/// Taking an entry out of a queue without repeats leaves one without repeats,
/// holding only what it held and no longer the entry taken out.
pub proof fn lemma_remove_keeps_no_dups(q: Seq<(usize, usize)>, i: int)
    requires
        no_dups(q),
        0 <= i < q.len(),
    ensures
        no_dups(q.remove(i)),
        !q.remove(i).contains(q[i]),
        forall|p: (usize, usize)| #[trigger] q.remove(i).contains(p) ==> q.contains(p),
{
    let r = q.remove(i);
    assert forall|a: int, b: int| 0 <= a < r.len() && 0 <= b < r.len() && a != b implies r[a] != r[b] by {
        let a1 = if a < i { a } else { a + 1 };
        let b1 = if b < i { b } else { b + 1 };
        assert(r[a] == q[a1] && r[b] == q[b1]);
    }
    assert forall|p: (usize, usize)| #[trigger] r.contains(p) implies q.contains(p) by {
        let k = choose|k: int| 0 <= k < r.len() && r[k] == p;
        if k < i {
            assert(q[k] == p);
        } else {
            assert(q[k + 1] == p);
        }
    }
    if r.contains(q[i]) {
        let k = choose|k: int| 0 <= k < r.len() && r[k] == q[i];
        if k < i {
            assert(q[k] == q[i]);
        } else {
            assert(q[k + 1] == q[i]);
        }
    }
}

/// Appends `p` unless it is already there.
pub fn enqueue(destinations: &mut Vec<(usize, usize)>, p: (usize, usize))
    requires
        no_dups(old(destinations)@),
    ensures
        no_dups(final(destinations)@),
        final(destinations)@ == (if old(destinations)@.contains(p) {
            old(destinations)@
        } else {
            old(destinations)@.push(p)
        }),
{
    if !queued(destinations, p) {
        destinations.push(p);
    }
}

/// Removes `p` if it is there.
pub fn dequeue(destinations: &mut Vec<(usize, usize)>, p: (usize, usize))
    requires
        no_dups(old(destinations)@),
    ensures
        no_dups(final(destinations)@),
        !final(destinations)@.contains(p),
        forall|q: (usize, usize)| q != p ==> (final(destinations)@.contains(q) <==> old(destinations)@.contains(q)),
        !old(destinations)@.contains(p) ==> final(destinations)@ == old(destinations)@,
{
    let mut i: usize = 0;
    while i < destinations.len()
        invariant
            i <= destinations@.len(),
            destinations@ == old(destinations)@,
            no_dups(old(destinations)@),
            forall|k: int| 0 <= k < i ==> destinations@[k] != p,
        decreases destinations@.len() - i,
    {
        if destinations[i].0 == p.0 && destinations[i].1 == p.1 {
            let ghost before = destinations@;
            destinations.remove(i);
            assert forall|q: (usize, usize)| q != p implies (destinations@.contains(q) <==> before.contains(q)) by {
                if before.contains(q) {
                    let k = choose|k: int| 0 <= k < before.len() && before[k] == q;
                    if k < i {
                        assert(destinations@[k] == q);
                    } else {
                        assert(k != i);
                        assert(destinations@[k - 1] == q);
                    }
                }
                if destinations@.contains(q) {
                    let k = choose|k: int| 0 <= k < destinations@.len() && destinations@[k] == q;
                    if k < i {
                        assert(before[k] == q);
                    } else {
                        assert(before[k + 1] == q);
                    }
                }
            }
            assert forall|a: int, b: int| 0 <= a < destinations@.len() && 0 <= b < destinations@.len() && a != b
                implies destinations@[a] != destinations@[b] by {
                let a1 = if a < i { a } else { a + 1 };
                let b1 = if b < i { b } else { b + 1 };
                assert(destinations@[a] == before[a1]);
                assert(destinations@[b] == before[b1]);
                assert(a1 != b1);
                assert(before[a1] != before[b1]);
            }
            assert(!destinations@.contains(p)) by {
                if destinations@.contains(p) {
                    let k = choose|k: int| 0 <= k < destinations@.len() && destinations@[k] == p;
                    if k < i {
                        assert(before[k] == p);
                        assert(false);
                    } else {
                        assert(before[k + 1] == p);
                        assert(before[i as int] == p);
                        assert(before[k + 1] != before[i as int]);
                    }
                }
            }
            return;
        }
        i = i + 1;
    }
}

/// What sensing may add: a cell of the square, inside the grid, whose tool
/// some requisition asks for.
pub open spec fn sensed(board: &Board, p: (usize, usize), ax: int, ay: int, r: int, reqs: Seq<Factory>) -> bool {
    &&& board.in_bounds(upos(p))
    &&& in_square(upos(p), ax, ay, r)
    &&& wanted_tool_at(board, upos(p), reqs)
}

pub open spec fn span_lo(a: int, r: int) -> int {
    if a >= r { a - r } else { 0 }
}

pub open spec fn span_end(a: int, r: int, n: int) -> int {
    if a + r + 1 <= n { a + r + 1 } else { n }
}

/// `q` with `p` appended when its cell holds a wanted tool and `p` is not
/// queued yet.
pub open spec fn add_sensed(board: &Board, q: Seq<(usize, usize)>, p: (usize, usize), reqs: Seq<Factory>) -> Seq<(usize, usize)> {
    if wanted_tool_at(board, upos(p), reqs) && !q.contains(p) {
        q.push(p)
    } else {
        q
    }
}

/// Sensing of the cells `(x, y_lo)` up to `(x, y - 1)`, in that order.
pub open spec fn sense_row(board: &Board, q: Seq<(usize, usize)>, x: int, y_lo: int, y: int, reqs: Seq<Factory>) -> Seq<
    (usize, usize),
>
    decreases y - y_lo,
{
    if y <= y_lo {
        q
    } else {
        add_sensed(board, sense_row(board, q, x, y_lo, y - 1, reqs), (x as usize, (y - 1) as usize), reqs)
    }
}

/// Sensing of the rows `x_lo` up to `x - 1`, each from `y_lo` to `y_end - 1`.
pub open spec fn sense_rows(
    board: &Board,
    q: Seq<(usize, usize)>,
    x_lo: int,
    x: int,
    y_lo: int,
    y_end: int,
    reqs: Seq<Factory>,
) -> Seq<(usize, usize)>
    decreases x - x_lo,
{
    if x <= x_lo {
        q
    } else {
        sense_row(board, sense_rows(board, q, x_lo, x - 1, y_lo, y_end, reqs), x - 1, y_lo, y_end, reqs)
    }
}

/// The queue after sensing from `(ax, ay)` with radius `r`: the square's cells
/// inside the grid are looked at row by row, and each one holding a wanted
/// tool and not queued yet is appended.
pub open spec fn sense(board: &Board, q: Seq<(usize, usize)>, ax: int, ay: int, r: int, reqs: Seq<Factory>) -> Seq<
    (usize, usize),
> {
    sense_rows(
        board,
        q,
        span_lo(ax, r),
        span_end(ax, r, board.height as int),
        span_lo(ay, r),
        span_end(ay, r, board.width as int),
        reqs,
    )
}

/// `q` with the coordinate of `f` appended when `inventory` can meet `f` and
/// the coordinate is not queued yet.
pub open spec fn add_matched(q: Seq<(usize, usize)>, f: Factory, inventory: Seq<usize>) -> Seq<(usize, usize)> {
    if deliverable(f, inventory) && !q.contains(coord(f)) {
        q.push(coord(f))
    } else {
        q
    }
}

pub open spec fn match_upto(q: Seq<(usize, usize)>, reqs: Seq<Factory>, inventory: Seq<usize>, i: int) -> Seq<(usize, usize)>
    decreases i,
{
    if i <= 0 {
        q
    } else {
        add_matched(match_upto(q, reqs, inventory, i - 1), reqs[i - 1], inventory)
    }
}

/// The queue after matching: the requisitions are taken in order.
pub open spec fn match_reqs(q: Seq<(usize, usize)>, reqs: Seq<Factory>, inventory: Seq<usize>) -> Seq<(usize, usize)> {
    match_upto(q, reqs, inventory, reqs.len() as int)
}

/// Sensing: appends to `destinations` each cell of the square of half-side `r`
/// around `(ax, ay)`, inside the grid, that holds a tool some requisition asks
/// for and is not queued yet. Nothing is removed.
pub fn check_radius(
    board: &Board,
    ax: usize,
    ay: usize,
    r: usize,
    destinations: &mut Vec<(usize, usize)>,
    requisitions: &Vec<Factory>,
)
    requires
        board.wf(),
        no_dups(old(destinations)@),
    ensures
        final(destinations)@ == sense(board, old(destinations)@, ax as int, ay as int, r as int, requisitions@),
        no_dups(final(destinations)@),
        extends(final(destinations)@, old(destinations)@),
        forall|k: int| old(destinations)@.len() <= k < final(destinations)@.len()
            ==> sensed(board, #[trigger] final(destinations)@[k], ax as int, ay as int, r as int, requisitions@),
        forall|p: (usize, usize)| sensed(board, p, ax as int, ay as int, r as int, requisitions@)
            ==> #[trigger] final(destinations)@.contains(p),
{
    let ghost start = destinations@;
    assert(start.take(start.len() as int) =~= start);
    let height = board.height;
    let width = board.width;
    let x_lo: usize = if ax >= r { ax - r } else { 0 };
    let y_lo: usize = if ay >= r { ay - r } else { 0 };
    let x_end: usize = if r < height && ax < height - r { ax + r + 1 } else { height };
    let y_end: usize = if r < width && ay < width - r { ay + r + 1 } else { width };
    let mut x: usize = x_lo;
    while x < x_end
        invariant
            board.wf(),
            height == board.height && width == board.width,
            x_lo <= x,
            x <= x_end || x == x_lo,
            x_end <= height,
            x_lo as int == (if ax >= r { ax - r } else { 0 }),
            y_lo as int == (if ay >= r { ay - r } else { 0 }),
            x_end as int == (if ax + r + 1 <= height { ax + r + 1 } else { height as int }),
            y_end as int == (if ay + r + 1 <= width { ay + r + 1 } else { width as int }),
            start == old(destinations)@,
            destinations@ == sense_rows(board, start, x_lo as int, x as int, y_lo as int, y_end as int, requisitions@),
            no_dups(destinations@),
            extends(destinations@, start),
            forall|k: int| start.len() <= k < destinations@.len()
                ==> sensed(board, #[trigger] destinations@[k], ax as int, ay as int, r as int, requisitions@),
            forall|p: (usize, usize)| p.0 < x && sensed(board, p, ax as int, ay as int, r as int, requisitions@)
                ==> #[trigger] destinations@.contains(p),
        decreases x_end - x,
    {
        let mut y: usize = y_lo;
        while y < y_end
            invariant
                board.wf(),
                height == board.height && width == board.width,
                x_lo <= x < x_end,
                x_end <= height,
                y_lo <= y,
                y <= y_end || y == y_lo,
                y_end <= width,
                x_lo as int == (if ax >= r { ax - r } else { 0 }),
                y_lo as int == (if ay >= r { ay - r } else { 0 }),
                x_end as int == (if ax + r + 1 <= height { ax + r + 1 } else { height as int }),
                y_end as int == (if ay + r + 1 <= width { ay + r + 1 } else { width as int }),
                start == old(destinations)@,
                destinations@ == sense_row(
                    board,
                    sense_rows(board, start, x_lo as int, x as int, y_lo as int, y_end as int, requisitions@),
                    x as int,
                    y_lo as int,
                    y as int,
                    requisitions@,
                ),
                no_dups(destinations@),
                extends(destinations@, start),
                forall|k: int| start.len() <= k < destinations@.len()
                    ==> sensed(board, #[trigger] destinations@[k], ax as int, ay as int, r as int, requisitions@),
                forall|p: (usize, usize)| (p.0 < x || (p.0 == x && p.1 < y)) && sensed(board, p, ax as int, ay as int, r as int, requisitions@)
                    ==> #[trigger] destinations@.contains(p),
            decreases y_end - y,
        {
            let ghost before = destinations@;
            let cell = board.get(x, y);
            match cell.tool {
                Some(t) => {
                    if search_requisition(t, requisitions) {
                        enqueue(destinations, (x, y));
                        assert(destinations@.contains((x, y))) by {
                            if !before.contains((x, y)) {
                                assert(destinations@[before.len() as int] == (x, y));
                            }
                        }
                        assert(destinations@.take(start.len() as int) == start) by {
                            if destinations@ != before {
                                assert(destinations@.take(start.len() as int) == before.take(start.len() as int));
                            }
                        }
                    }
                },
                None => {},
            }
            assert forall|p: (usize, usize)| before.contains(p) implies #[trigger] destinations@.contains(p) by {
                let k = choose|k: int| 0 <= k < before.len() && before[k] == p;
                if destinations@ != before {
                    assert(destinations@[k] == p);
                }
            }
            y = y + 1;
        }
        assert(sense_rows(board, start, x_lo as int, x as int + 1, y_lo as int, y_end as int, requisitions@) == sense_row(
            board,
            sense_rows(board, start, x_lo as int, x as int, y_lo as int, y_end as int, requisitions@),
            x as int,
            y_lo as int,
            y_end as int,
            requisitions@,
        ));
        x = x + 1;
    }
    assert(x_end as int == span_end(ax as int, r as int, board.height as int));
}

/// `p` is the coordinate of a requisition that `inventory` can meet.
pub open spec fn matched(p: (usize, usize), reqs: Seq<Factory>, inventory: Seq<usize>) -> bool {
    exists|i: int| 0 <= i < reqs.len() && coord(#[trigger] reqs[i]) == p && deliverable(reqs[i], inventory)
}

/// The requisition matcher: queues the coordinate of every requisition that
/// the agent's inventory can meet now and that is not queued yet, and tells
/// whether every requisition is satisfied.
pub fn check_requisitions(agent: &mut Agent) -> (r: bool)
    requires
        old(agent).wf(),
    ensures
        r == all_resolved(old(agent).requisitions@),
        final(agent).destination_queue@ == match_reqs(
            old(agent).destination_queue@,
            old(agent).requisitions@,
            old(agent).inventory@,
        ),
        final(agent).wf(),
        extends(final(agent).destination_queue@, old(agent).destination_queue@),
        forall|k: int| old(agent).destination_queue@.len() <= k < final(agent).destination_queue@.len()
            ==> matched(#[trigger] final(agent).destination_queue@[k], old(agent).requisitions@, old(agent).inventory@),
        forall|i: int| 0 <= i < old(agent).requisitions@.len() && deliverable(#[trigger] old(agent).requisitions@[i], old(agent).inventory@)
            ==> final(agent).destination_queue@.contains(coord(old(agent).requisitions@[i])),
        final(agent).requisitions@ == old(agent).requisitions@,
        final(agent).inventory@ == old(agent).inventory@,
        final(agent).x == old(agent).x && final(agent).y == old(agent).y,
        final(agent).cost == old(agent).cost && final(agent).expansions == old(agent).expansions,
        final(agent).radius == old(agent).radius && final(agent).ended == old(agent).ended,
        final(agent).last_move == old(agent).last_move,
{
    let ghost start = agent.destination_queue@;
    assert(start.take(start.len() as int) =~= start);
    let mut resolved: usize = 0;
    let n = agent.requisitions.len();
    let mut i: usize = 0;
    while i < n
        invariant
            n == agent.requisitions@.len(),
            i <= n,
            resolved <= i,
            agent.wf(),
            start == old(agent).destination_queue@,
            agent.destination_queue@ == match_upto(start, agent.requisitions@, agent.inventory@, i as int),
            extends(agent.destination_queue@, start),
            (resolved == i) == (forall|k: int| 0 <= k < i ==> (#[trigger] agent.requisitions@[k]).needed_tool.is_none()),
            forall|k: int| start.len() <= k < agent.destination_queue@.len()
                ==> matched(#[trigger] agent.destination_queue@[k], agent.requisitions@, agent.inventory@),
            forall|j: int| 0 <= j < i && deliverable(#[trigger] agent.requisitions@[j], agent.inventory@)
                ==> agent.destination_queue@.contains(coord(agent.requisitions@[j])),
            agent.requisitions@ == old(agent).requisitions@,
            agent.inventory@ == old(agent).inventory@,
            agent.x == old(agent).x && agent.y == old(agent).y,
            agent.cost == old(agent).cost && agent.expansions == old(agent).expansions,
            agent.radius == old(agent).radius && agent.ended == old(agent).ended,
            agent.last_move == old(agent).last_move,
        decreases n - i,
    {
        let f = agent.requisitions[i];
        let ghost before = agent.destination_queue@;
        match f.needed_tool {
            Some(t) => {
                if agent.inventory[t.index()] >= f.quantity {
                    enqueue(&mut agent.destination_queue, (f.x, f.y));
                    assert(agent.destination_queue@.contains((f.x, f.y))) by {
                        if !before.contains((f.x, f.y)) {
                            assert(agent.destination_queue@[before.len() as int] == (f.x, f.y));
                        }
                    }
                    assert(agent.destination_queue@.take(start.len() as int) == start) by {
                        if agent.destination_queue@ != before {
                            assert(agent.destination_queue@.take(start.len() as int) == before.take(start.len() as int));
                        }
                    }
                    assert forall|k: int| start.len() <= k < agent.destination_queue@.len()
                        implies matched(#[trigger] agent.destination_queue@[k], agent.requisitions@, agent.inventory@) by {
                        if k == before.len() {
                            assert(coord(agent.requisitions@[i as int]) == agent.destination_queue@[k]);
                        } else {
                            assert(agent.destination_queue@[k] == before[k]);
                        }
                    }
                }
            },
            None => {
                resolved = resolved + 1;
            },
        }
        assert forall|p: (usize, usize)| before.contains(p) implies #[trigger] agent.destination_queue@.contains(p) by {
            let k = choose|k: int| 0 <= k < before.len() && before[k] == p;
            if agent.destination_queue@ != before {
                assert(agent.destination_queue@[k] == p);
            }
        }
        i = i + 1;
    }
    resolved == n
}

/// Manhattan distance between two grid coordinates.
pub fn h(a: (usize, usize), b: (usize, usize)) -> (r: u128)
    ensures
        r == manhattan(upos(a), upos(b)),
{
    let dx: u128 = if a.0 >= b.0 { (a.0 - b.0) as u128 } else { (b.0 - a.0) as u128 };
    let dy: u128 = if a.1 >= b.1 { (a.1 - b.1) as u128 } else { (b.1 - a.1) as u128 };
    dx + dy
}

/// `i` is the first index of `q` whose coordinate is nearest to `p`.
pub open spec fn first_nearest(q: Seq<(usize, usize)>, p: Pos, i: int) -> bool {
    &&& 0 <= i < q.len()
    &&& forall|j: int| 0 <= j < q.len() ==> manhattan(p, upos(q[i])) <= manhattan(p, upos(#[trigger] q[j]))
    &&& forall|j: int| 0 <= j < i ==> manhattan(p, upos(q[i])) < manhattan(p, upos(#[trigger] q[j]))
}

/// The destination selector: the index of the queued coordinate nearest to
/// the agent, the first one among equals.
pub fn check_next_destination(agent: &Agent) -> (r: usize)
    requires
        agent.destination_queue@.len() > 0,
    ensures
        r < agent.destination_queue@.len(),
        first_nearest(agent.destination_queue@, agent.pos(), r as int),
        forall|j: int| 0 <= j < agent.destination_queue@.len()
            ==> manhattan(agent.pos(), upos(agent.destination_queue@[r as int]))
                <= manhattan(agent.pos(), upos(#[trigger] agent.destination_queue@[j])),
        forall|j: int| 0 <= j < r
            ==> manhattan(agent.pos(), upos(agent.destination_queue@[r as int]))
                < manhattan(agent.pos(), upos(#[trigger] agent.destination_queue@[j])),
{
    let q = &agent.destination_queue;
    let here = (agent.x, agent.y);
    let mut min_idx: usize = 0;
    let mut min_distance: u128 = h(here, q[0]);
    let mut idx: usize = 1;
    while idx < q.len()
        invariant
            q@ == agent.destination_queue@,
            here == (agent.x, agent.y),
            1 <= idx <= q@.len(),
            min_idx < idx,
            min_distance == manhattan(agent.pos(), upos(q@[min_idx as int])),
            forall|j: int| 0 <= j < idx ==> min_distance <= manhattan(agent.pos(), upos(#[trigger] q@[j])),
            forall|j: int| 0 <= j < min_idx ==> min_distance < manhattan(agent.pos(), upos(#[trigger] q@[j])),
        decreases q@.len() - idx,
    {
        let distance = h(here, q[idx]);
        if distance < min_distance {
            min_distance = distance;
            min_idx = idx;
        }
        idx = idx + 1;
    }
    min_idx
}

/// Whether `(x, y)` lies inside `0 <= x < width`, `0 <= y < height`.
pub fn valid(x: i32, y: i32, width: i32, height: i32) -> (r: bool)
    ensures
        r == (0 <= x < width && 0 <= y < height),
{
    if x < 0 {
        return false;
    }
    if y < 0 {
        return false;
    }
    if x >= width {
        return false;
    }
    if y >= height {
        return false;
    }
    true
}

} // verus!
