//! The route planner: a best-first search over terrain costs from the agent's
//! cell to a destination, with the Manhattan distance to the destination as
//! heuristic.
use crate::agent::{h, upos};
use crate::board::{is_unit_move, manhattan, step, walk_end, Board, Pos};
use crate::frontier::{frontier_items, frontier_new, frontier_pop_min, frontier_push};
use vstd::prelude::*;

verus! {

/// Paths dearer than this are not followed by the search.
pub const ROUTE_COST_LIMIT: u64 = 0x1000_0000_0000_0000;

/// The unit moves in the order in which the search looks at neighbours.
pub open spec fn move_of(k: int) -> (i32, i32) {
    if k == 0 {
        (1i32, 0i32)
    } else if k == 1 {
        (0i32, 1i32)
    } else if k == 2 {
        (-1i32, 0i32)
    } else {
        (0i32, -1i32)
    }
}

pub fn unit_move(k: usize) -> (r: (i32, i32))
    requires
        k < 4,
    ensures
        r == move_of(k as int),
        is_unit_move(r),
{
    if k == 0 {
        (1, 0)
    } else if k == 1 {
        (0, 1)
    } else if k == 2 {
        (-1, 0)
    } else {
        (0, -1)
    }
}

/// The cell one move `k` away from `c`, if it lies in the grid.
pub fn neighbor(board: &Board, c: (usize, usize), k: usize) -> (r: Option<(usize, usize)>)
    requires
        k < 4,
        board.in_bounds(upos(c)),
    ensures
        r.is_some() == board.in_bounds(step(upos(c), move_of(k as int))),
        r.is_some() ==> upos(r.unwrap()) == step(upos(c), move_of(k as int)),
{
    if k == 0 {
        if c.0 + 1 < board.height { Some((c.0 + 1, c.1)) } else { None }
    } else if k == 1 {
        if c.1 + 1 < board.width { Some((c.0, c.1 + 1)) } else { None }
    } else if k == 2 {
        if c.0 > 0 { Some((c.0 - 1, c.1)) } else { None }
    } else {
        if c.1 > 0 { Some((c.0, c.1 - 1)) } else { None }
    }
}

pub open spec fn best_at(best: Seq<Vec<Option<u64>>>, p: Pos) -> Option<u64> {
    best[p.0]@[p.1]
}

/// Having reached `p`, the search has also reached its neighbour across `m`
/// at no greater cost than through `p`, unless that cost is past the limit.
pub open spec fn relaxed(board: &Board, best: Seq<Vec<Option<u64>>>, p: Pos, m: (i32, i32)) -> bool {
    let n = step(p, m);
    let g = best_at(best, p).unwrap() as int;
    board.passable_at(n) ==> {
        ||| (best_at(best, n).is_some() && best_at(best, n).unwrap() <= g + board.cost_at(n))
        ||| g + board.cost_at(n) > ROUTE_COST_LIMIT
    }
}

pub open spec fn settled(board: &Board, best: Seq<Vec<Option<u64>>>, p: Pos) -> bool {
    &&& relaxed(board, best, p, move_of(0))
    &&& relaxed(board, best, p, move_of(1))
    &&& relaxed(board, best, p, move_of(2))
    &&& relaxed(board, best, p, move_of(3))
}

pub open spec fn pot(o: Option<u64>) -> int {
    match o {
        Some(g) => g as int,
        None => ROUTE_COST_LIMIT + 1,
    }
}

pub open spec fn row_pot(r: Seq<Option<u64>>) -> int
    decreases r.len(),
{
    if r.len() == 0 {
        0
    } else {
        row_pot(r.drop_last()) + pot(r.last())
    }
}

pub open spec fn grid_pot(g: Seq<Vec<Option<u64>>>) -> int
    decreases g.len(),
{
    if g.len() == 0 {
        0
    } else {
        grid_pot(g.drop_last()) + row_pot(g.last()@)
    }
}

proof fn lemma_row_pot(r: Seq<Option<u64>>, j: int, v: Option<u64>)
    requires
        0 <= j < r.len(),
    ensures
        row_pot(r.update(j, v)) == row_pot(r) - pot(r[j]) + pot(v),
        row_pot(r) >= 0,
    decreases r.len(),
{
    let s = r.update(j, v);
    if j == r.len() - 1 {
        assert(s.drop_last() =~= r.drop_last());
        lemma_row_pot_nonneg(r.drop_last());
    } else {
        assert(s.drop_last() =~= r.drop_last().update(j, v));
        lemma_row_pot(r.drop_last(), j, v);
    }
}

proof fn lemma_row_pot_nonneg(r: Seq<Option<u64>>)
    ensures
        row_pot(r) >= 0,
    decreases r.len(),
{
    if r.len() > 0 {
        lemma_row_pot_nonneg(r.drop_last());
    }
}

proof fn lemma_grid_pot(g: Seq<Vec<Option<u64>>>, i: int, row: Vec<Option<u64>>)
    requires
        0 <= i < g.len(),
    ensures
        grid_pot(g.update(i, row)) == grid_pot(g) - row_pot(g[i]@) + row_pot(row@),
    decreases g.len(),
{
    let s = g.update(i, row);
    if i == g.len() - 1 {
        assert(s.drop_last() =~= g.drop_last());
    } else {
        assert(s.drop_last() =~= g.drop_last().update(i, row));
        lemma_grid_pot(g.drop_last(), i, row);
    }
}

proof fn lemma_grid_pot_nonneg(g: Seq<Vec<Option<u64>>>)
    ensures
        grid_pot(g) >= 0,
    decreases g.len(),
{
    if g.len() > 0 {
        lemma_grid_pot_nonneg(g.drop_last());
        lemma_row_pot_nonneg(g.last()@);
    }
}

proof fn lemma_walk_cost_nonneg(board: &Board, start: Pos, moves: Seq<(i32, i32)>)
    ensures
        board.walk_cost(start, moves) >= 0,
    decreases moves.len(),
{
    if moves.len() > 0 {
        lemma_walk_cost_nonneg(board, step(start, moves[0]), moves.drop_first());
    }
}

/// Once every reached cell is settled, a walk from a reached cell `p` that
/// stays within the cost limit ends at a reached cell, at a cost no greater.
proof fn lemma_settled_reaches(board: &Board, best: Seq<Vec<Option<u64>>>, p: Pos, moves: Seq<(i32, i32)>)
    requires
        board.wf(),
        board.in_bounds(p),
        best_at(best, p).is_some(),
        forall|c: (usize, usize)| board.in_bounds(upos(c)) && (#[trigger] best_at(best, upos(c))).is_some() ==> settled(board, best, upos(c)),
        board.is_walk(p, moves),
        best_at(best, p).unwrap() + board.walk_cost(p, moves) <= ROUTE_COST_LIMIT,
    ensures
        best_at(best, walk_end(p, moves)).is_some(),
        best_at(best, walk_end(p, moves)).unwrap() <= best_at(best, p).unwrap() + board.walk_cost(p, moves),
    decreases moves.len(),
{
    if moves.len() > 0 {
        let m = moves[0];
        let n = step(p, m);
        lemma_walk_cost_nonneg(board, n, moves.drop_first());
        let c = (p.0 as usize, p.1 as usize);
        assert(upos(c) == p);
        assert(settled(board, best, upos(c)));
        assert(relaxed(board, best, p, m));
        lemma_settled_reaches(board, best, n, moves.drop_first());
    }
}

/// Each step of a walk costs at least one, so a walk costs at least the
/// Manhattan distance it covers.
proof fn lemma_manhattan_below_cost(board: &Board, p: Pos, moves: Seq<(i32, i32)>)
    requires
        board.is_walk(p, moves),
    ensures
        manhattan(p, walk_end(p, moves)) <= board.walk_cost(p, moves),
    decreases moves.len(),
{
    if moves.len() > 0 {
        let n = step(p, moves[0]);
        lemma_manhattan_below_cost(board, n, moves.drop_first());
        assert(board.cost_at(n) >= 1);
    }
}

/// Before an item is taken from the frontier: a walk from a reached cell `p`
/// to the goal, within the cost limit, passes a frontier cell whose priority is
/// at most what reaching `p` cost (`acc`) plus the walk's cost.
proof fn lemma_frontier_below(
    board: &Board,
    best: Seq<Vec<Option<u64>>>,
    fmap: Map<(usize, usize), u128>,
    goal: (usize, usize),
    p: Pos,
    moves: Seq<(i32, i32)>,
    acc: int,
)
    requires
        board.wf(),
        board.in_bounds(p),
        board.in_bounds(upos(goal)),
        best_at(best, p).is_some(),
        best_at(best, p).unwrap() <= acc,
        board.is_walk(p, moves),
        walk_end(p, moves) == upos(goal),
        acc + board.walk_cost(p, moves) <= ROUTE_COST_LIMIT,
        forall|c: (usize, usize)| board.in_bounds(upos(c)) && (#[trigger] best_at(best, upos(c))).is_some()
            && !fmap.contains_key(c) ==> settled(board, best, upos(c)),
        forall|c: (usize, usize)| #[trigger] fmap.contains_key(c) ==> {
            &&& board.in_bounds(upos(c))
            &&& best_at(best, upos(c)).is_some()
            &&& fmap[c] == best_at(best, upos(c)).unwrap() + manhattan(upos(c), upos(goal))
        },
        best_at(best, upos(goal)).is_some() ==> fmap.contains_key(goal),
    ensures
        exists|c: (usize, usize)| #[trigger] fmap.contains_key(c) && fmap[c] <= acc + board.walk_cost(p, moves),
    decreases moves.len(),
{
    let c = (p.0 as usize, p.1 as usize);
    assert(upos(c) == p);
    lemma_walk_cost_nonneg(board, p, moves);
    if fmap.contains_key(c) {
        lemma_manhattan_below_cost(board, p, moves);
        assert(fmap[c] <= acc + board.walk_cost(p, moves));
    } else if moves.len() == 0 {
        assert(upos(goal) == p);
        assert(c == goal);
    } else {
        let m = moves[0];
        let n = step(p, m);
        lemma_walk_cost_nonneg(board, n, moves.drop_first());
        assert(settled(board, best, upos(c)));
        assert(relaxed(board, best, p, m));
        lemma_frontier_below(board, best, fmap, goal, n, moves.drop_first(), acc + board.cost_at(n));
    }
}

/// Copies a route, with one more move at its end.
fn extend_route(route: &Vec<(i32, i32)>, m: Option<(i32, i32)>) -> (r: Vec<(i32, i32)>)
    ensures
        r@ == (match m {
            Some(m) => route@.push(m),
            None => route@,
        }),
{
    let mut r: Vec<(i32, i32)> = Vec::new();
    let mut i: usize = 0;
    while i < route.len()
        invariant
            i <= route@.len(),
            r@ == route@.take(i as int),
        decreases route@.len() - i,
    {
        r.push(route[i]);
        assert(route@.take(i as int + 1) == route@.take(i as int).push(route@[i as int]));
        i = i + 1;
    }
    assert(route@.take(i as int) =~= route@);
    match m {
        Some(m) => r.push(m),
        None => {},
    }
    r
}

/// A grid of `height` rows of `width` copies of `v`.
fn grid_of<T: Copy>(height: usize, width: usize, v: T) -> (r: Vec<Vec<T>>)
    ensures
        r@.len() == height,
        forall|i: int| 0 <= i < height ==> (#[trigger] r@[i])@.len() == width,
        forall|i: int, j: int| 0 <= i < height && 0 <= j < width ==> #[trigger] r@[i]@[j] == v,
{
    let mut g: Vec<Vec<T>> = Vec::new();
    let mut i: usize = 0;
    while i < height
        invariant
            i <= height,
            g@.len() == i,
            forall|a: int| 0 <= a < i ==> (#[trigger] g@[a])@.len() == width,
            forall|a: int, b: int| 0 <= a < i && 0 <= b < width ==> #[trigger] g@[a]@[b] == v,
        decreases height - i,
    {
        let mut row: Vec<T> = Vec::new();
        let mut j: usize = 0;
        while j < width
            invariant
                j <= width,
                row@.len() == j,
                forall|b: int| 0 <= b < j ==> #[trigger] row@[b] == v,
            decreases width - j,
        {
            row.push(v);
            j = j + 1;
        }
        g.push(row);
        i = i + 1;
    }
    g
}

/// A grid of `height` rows of `width` empty routes.
fn empty_routes(height: usize, width: usize) -> (r: Vec<Vec<Vec<(i32, i32)>>>)
    ensures
        r@.len() == height,
        forall|i: int| 0 <= i < height ==> (#[trigger] r@[i])@.len() == width,
        forall|i: int, j: int| 0 <= i < height && 0 <= j < width ==> (#[trigger] r@[i]@[j])@.len() == 0,
{
    let mut g: Vec<Vec<Vec<(i32, i32)>>> = Vec::new();
    let mut i: usize = 0;
    while i < height
        invariant
            i <= height,
            g@.len() == i,
            forall|a: int| 0 <= a < i ==> (#[trigger] g@[a])@.len() == width,
            forall|a: int, b: int| 0 <= a < i && 0 <= b < width ==> (#[trigger] g@[a]@[b])@.len() == 0,
        decreases height - i,
    {
        let mut row: Vec<Vec<(i32, i32)>> = Vec::new();
        let mut j: usize = 0;
        while j < width
            invariant
                j <= width,
                row@.len() == j,
                forall|b: int| 0 <= b < j ==> (#[trigger] row@[b])@.len() == 0,
            decreases width - j,
        {
            row.push(Vec::new());
            j = j + 1;
        }
        g.push(row);
        i = i + 1;
    }
    g
}

pub open spec fn route_at(routes: Seq<Vec<Vec<(i32, i32)>>>, p: Pos) -> Seq<(i32, i32)> {
    routes[p.0]@[p.1]@
}

/// What the search knows of a reached cell: a walk from the start that ends
/// there and costs what is recorded.
pub open spec fn known_route(
    board: &Board,
    start: Pos,
    best: Seq<Vec<Option<u64>>>,
    routes: Seq<Vec<Vec<(i32, i32)>>>,
    p: Pos,
) -> bool {
    let g = best_at(best, p).unwrap();
    &&& g <= ROUTE_COST_LIMIT
    &&& board.is_walk(start, route_at(routes, p))
    &&& walk_end(start, route_at(routes, p)) == p
    &&& board.walk_cost(start, route_at(routes, p)) == g
}

/// The route planner: searches from `start` to `goal`, entering no obstacle,
/// with terrain costs, expanding first the frontier cell of least cost so far
/// plus Manhattan distance to `goal`. Returns the moves of the route found, or
/// `None` when no walk reaches `goal` within the cost limit. Each cell taken
/// from the frontier and expanded counts once in `expansions`.
pub fn find_path(board: &Board, start: (usize, usize), goal: (usize, usize), expansions: &mut usize) -> (r: Option<
    Vec<(i32, i32)>,
>)
    requires
        board.wf(),
        board.in_bounds(upos(start)),
        board.in_bounds(upos(goal)),
    ensures
        *final(expansions) >= *old(expansions),
        r.is_some() ==> {
            let moves = r.unwrap()@;
            &&& board.is_walk(upos(start), moves)
            &&& walk_end(upos(start), moves) == upos(goal)
            &&& board.walk_cost(upos(start), moves) <= ROUTE_COST_LIMIT
        },
        upos(start) != upos(goal) && *old(expansions) < usize::MAX ==> *final(expansions) > *old(expansions),
        r.is_some() ==> forall|other: Seq<(i32, i32)>|
            #![trigger board.walk_cost(upos(start), other)]
            board.is_walk(upos(start), other) && walk_end(upos(start), other) == upos(goal)
                ==> board.walk_cost(upos(start), r.unwrap()@) <= board.walk_cost(upos(start), other),
        r.is_none() ==> forall|moves: Seq<(i32, i32)>|
            #![trigger board.walk_cost(upos(start), moves)]
            board.is_walk(upos(start), moves) && walk_end(upos(start), moves) == upos(goal)
                ==> board.walk_cost(upos(start), moves) > ROUTE_COST_LIMIT,
{
    let height = board.height;
    let width = board.width;
    let ghost s = upos(start);
    let ghost gl = upos(goal);
    let mut best: Vec<Vec<Option<u64>>> = grid_of(height, width, None);
    let mut routes = empty_routes(height, width);
    best[start.0][start.1] = Some(0);
    assert(routes@[start.0 as int]@[start.1 as int]@ =~= Seq::<(i32, i32)>::empty());
    assert(board.walk_cost(s, route_at(routes@, s)) == 0);
    assert(walk_end(s, route_at(routes@, s)) == s);
    let mut pq = frontier_new();
    frontier_push(&mut pq, start, h(start, goal));
    loop
        invariant
            board.wf(),
            height == board.height && width == board.width,
            board.in_bounds(s) && board.in_bounds(gl),
            s == upos(start) && gl == upos(goal),
            *expansions >= *old(expansions),
            *expansions == *old(expansions) && *old(expansions) < usize::MAX ==> forall|c: (usize, usize)|
                #[trigger] frontier_items(pq).contains_key(c) <==> c == start,
            best@.len() == height,
            forall|i: int| 0 <= i < height ==> (#[trigger] best@[i])@.len() == width,
            routes@.len() == height,
            forall|i: int| 0 <= i < height ==> (#[trigger] routes@[i])@.len() == width,
            best_at(best@, s) == Some(0u64),
            forall|c: (usize, usize)| board.in_bounds(upos(c)) && (#[trigger] best_at(best@, upos(c))).is_some()
                ==> known_route(board, s, best@, routes@, upos(c)),
            frontier_items(pq).dom().finite(),
            forall|c: (usize, usize)| #[trigger] frontier_items(pq).contains_key(c) ==> {
                &&& board.in_bounds(upos(c))
                &&& best_at(best@, upos(c)).is_some()
                &&& frontier_items(pq)[c] == best_at(best@, upos(c)).unwrap() + manhattan(upos(c), gl)
            },
            forall|c: (usize, usize)| board.in_bounds(upos(c)) && (#[trigger] best_at(best@, upos(c))).is_some()
                && !frontier_items(pq).contains_key(c) ==> settled(board, best@, upos(c)),
            best_at(best@, gl).is_some() ==> frontier_items(pq).contains_key(goal),
        decreases 2 * grid_pot(best@) + frontier_items(pq).dom().len(),
    {
        proof {
            lemma_grid_pot_nonneg(best@);
        }
        let ghost m0 = 2 * grid_pot(best@) + frontier_items(pq).dom().len();
        let ghost fmap = frontier_items(pq);
        let popped = frontier_pop_min(&mut pq);
        match popped {
            None => {
                assert forall|moves: Seq<(i32, i32)>|
                    #![trigger board.walk_cost(upos(start), moves)]
                    board.is_walk(upos(start), moves) && walk_end(upos(start), moves) == upos(goal)
                        implies board.walk_cost(upos(start), moves) > ROUTE_COST_LIMIT by {
                    if board.walk_cost(s, moves) <= ROUTE_COST_LIMIT {
                        assert(upos(start) == s);
                        lemma_settled_reaches(board, best@, s, moves);
                        assert(frontier_items(pq).contains_key(goal));
                    }
                }
                return None;
            },
            Some((c, _)) => {
                let ghost cp = upos(c);
                if c.0 == goal.0 && c.1 == goal.1 {
                    let moves = extend_route(&routes[c.0][c.1], None);
                    assert forall|other: Seq<(i32, i32)>|
                        #![trigger board.walk_cost(upos(start), other)]
                        board.is_walk(upos(start), other) && walk_end(upos(start), other) == upos(goal)
                            implies board.walk_cost(upos(start), moves@) <= board.walk_cost(upos(start), other) by {
                        assert(c == goal);
                        assert(fmap[goal] == best_at(best@, gl).unwrap() + manhattan(gl, gl));
                        if board.walk_cost(s, other) <= ROUTE_COST_LIMIT {
                            lemma_frontier_below(board, best@, fmap, goal, s, other, 0);
                        }
                    }
                    return Some(moves);
                }
                *expansions = expansions.saturating_add(1);
                let g: u64 = match best[c.0][c.1] {
                    Some(g) => g,
                    None => 0,
                };
                let mut k: usize = 0;
                while k < 4
                    invariant
                        board.wf(),
                        height == board.height && width == board.width,
                        board.in_bounds(s) && board.in_bounds(gl),
                        s == upos(start) && gl == upos(goal),
                        *expansions >= *old(expansions),
                        *expansions > *old(expansions) || *old(expansions) == usize::MAX,
                        best@.len() == height,
                        forall|i: int| 0 <= i < height ==> (#[trigger] best@[i])@.len() == width,
                        routes@.len() == height,
                        forall|i: int| 0 <= i < height ==> (#[trigger] routes@[i])@.len() == width,
                        best_at(best@, s) == Some(0u64),
                        forall|c: (usize, usize)| board.in_bounds(upos(c)) && (#[trigger] best_at(best@, upos(c))).is_some()
                            ==> known_route(board, s, best@, routes@, upos(c)),
                        frontier_items(pq).dom().finite(),
                        forall|c: (usize, usize)| #[trigger] frontier_items(pq).contains_key(c) ==> {
                            &&& board.in_bounds(upos(c))
                            &&& best_at(best@, upos(c)).is_some()
                            &&& frontier_items(pq)[c] == best_at(best@, upos(c)).unwrap() + manhattan(upos(c), gl)
                        },
                        forall|d: (usize, usize)| board.in_bounds(upos(d)) && (#[trigger] best_at(best@, upos(d))).is_some()
                            && !frontier_items(pq).contains_key(d) && d != c ==> settled(board, best@, upos(d)),
                        best_at(best@, gl).is_some() ==> frontier_items(pq).contains_key(goal),
                        k <= 4,
                        cp == upos(c),
                        board.in_bounds(cp),
                        cp != gl,
                        best_at(best@, cp) == Some(g),
                        !frontier_items(pq).contains_key(c),
                        forall|j: int| 0 <= j < k ==> relaxed(board, best@, cp, #[trigger] move_of(j)),
                        2 * grid_pot(best@) + frontier_items(pq).dom().len() < m0,
                    decreases 4 - k,
                {
                    let ghost best0 = best@;
                    let ghost routes0 = routes@;
                    let ghost f0 = frontier_items(pq);
                    match neighbor(board, c, k) {
                        None => {},
                        Some(n) => {
                            let ghost np = upos(n);
                            match board.get(n.0, n.1).terrain.cost() {
                                None => {},
                                Some(cost) => {
                                    let ng: u64 = g + cost;
                                    let improves = match best[n.0][n.1] {
                                        Some(g2) => ng < g2,
                                        None => true,
                                    };
                                    if ng <= ROUTE_COST_LIMIT && improves {
                                        let m = unit_move(k);
                                        let route = extend_route(&routes[c.0][c.1], Some(m));
                                        proof {
                                            board.lemma_walk_push(s, route_at(routes@, cp), m);
                                            lemma_row_pot(best@[n.0 as int]@, n.1 as int, Some(ng));
                                        }
                                        let ghost newrow = best@[n.0 as int]@.update(n.1 as int, Some(ng));
                                        best[n.0][n.1] = Some(ng);
                                        routes[n.0][n.1] = route;
                                        proof {
                                            lemma_grid_pot(best0, n.0 as int, best@[n.0 as int]);
                                            assert(best@[n.0 as int]@ == newrow);
                                        }
                                        assert forall|q: Pos| board.in_bounds(q) implies #[trigger] best_at(best@, q) == (if q == np {
                                            Some(ng)
                                        } else {
                                            best_at(best0, q)
                                        }) && route_at(routes@, q) == (if q == np {
                                            route@
                                        } else {
                                            route_at(routes0, q)
                                        }) by {}
                                        let pr: u128 = ng as u128 + h(n, goal);
                                        frontier_push(&mut pq, n, pr);
                                    }
                                },
                            }
                        },
                    }
                    k = k + 1;
                }
                proof {
                    lemma_grid_pot_nonneg(best@);
                }
            },
        }
    }
}

} // verus!
