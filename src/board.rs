use crate::cell::Cell;
use crate::factory::Factory;
use crate::terrain::{terrain_cost, Terrain};
use crate::tool::ToolType;
use vstd::prelude::*;

verus! {

/// A grid position as mathematical integers: `(x, y)`.
pub type Pos = (int, int);

/// The four unit moves, in the order in which neighbours are looked at.
pub open spec fn is_unit_move(m: (i32, i32)) -> bool {
    m == (1i32, 0i32) || m == (0i32, 1i32) || m == (-1i32, 0i32) || m == (0i32, -1i32)
}

pub open spec fn step(p: Pos, m: (i32, i32)) -> Pos {
    (p.0 + m.0, p.1 + m.1)
}

/// Where a sequence of moves from `start` ends.
pub open spec fn walk_end(start: Pos, moves: Seq<(i32, i32)>) -> Pos
    decreases moves.len(),
{
    if moves.len() == 0 {
        start
    } else {
        walk_end(step(start, moves[0]), moves.drop_first())
    }
}

pub open spec fn manhattan(a: Pos, b: Pos) -> int {
    (if a.0 >= b.0 { a.0 - b.0 } else { b.0 - a.0 }) + (if a.1 >= b.1 { a.1 - b.1 } else { b.1 - a.1 })
}

/// The terrain grid: `height` rows indexed by `x`, each of `width` cells
/// indexed by `y`.
pub struct Board {
    pub width: usize,
    pub height: usize,
    pub cells: Vec<Vec<Cell>>,
}

impl Board {
    pub open spec fn wf(&self) -> bool {
        &&& self.cells@.len() == self.height
        &&& forall|i: int| 0 <= i < self.height ==> (#[trigger] self.cells@[i])@.len() == self.width
    }

    pub open spec fn in_bounds(&self, p: Pos) -> bool {
        0 <= p.0 < self.height && 0 <= p.1 < self.width
    }

    pub open spec fn cell_at(&self, p: Pos) -> Cell {
        self.cells@[p.0]@[p.1]
    }

    /// In the grid and not an obstacle.
    pub open spec fn passable_at(&self, p: Pos) -> bool {
        self.in_bounds(p) && self.cell_at(p).terrain.passable()
    }

    pub open spec fn cost_at(&self, p: Pos) -> int {
        match terrain_cost(self.cell_at(p).terrain) {
            Some(c) => c as int,
            None => 0,
        }
    }

    /// The two boards have the same dimensions and terrain; what stands on the
    /// cells may differ.
    pub open spec fn same_terrain(&self, other: &Board) -> bool {
        &&& self.width == other.width
        &&& self.height == other.height
        &&& self.cells@.len() == other.cells@.len()
        &&& forall|i: int| 0 <= i < self.height ==> (#[trigger] self.cells@[i])@.len() == other.cells@[i]@.len()
        &&& forall|p: Pos| self.in_bounds(p) ==> (#[trigger] self.cell_at(p)).terrain == other.cell_at(p).terrain
    }

    /// Every move is a unit move into a passable cell.
    pub open spec fn is_walk(&self, start: Pos, moves: Seq<(i32, i32)>) -> bool
        decreases moves.len(),
    {
        moves.len() == 0 || {
            &&& is_unit_move(moves[0])
            &&& self.passable_at(step(start, moves[0]))
            &&& self.is_walk(step(start, moves[0]), moves.drop_first())
        }
    }

    /// Sum of the costs of the cells that the moves enter.
    pub open spec fn walk_cost(&self, start: Pos, moves: Seq<(i32, i32)>) -> int
        decreases moves.len(),
    {
        if moves.len() == 0 {
            0
        } else {
            self.cost_at(step(start, moves[0])) + self.walk_cost(step(start, moves[0]), moves.drop_first())
        }
    }

    /// A route that the agent can follow from `start`: a walk, or the single
    /// move that stays in place.
    pub open spec fn is_route(&self, start: Pos, moves: Seq<(i32, i32)>) -> bool {
        self.is_walk(start, moves) || moves == seq![(0i32, 0i32)]
    }

    pub proof fn lemma_walk_push(&self, start: Pos, moves: Seq<(i32, i32)>, m: (i32, i32))
        requires
            self.is_walk(start, moves),
            is_unit_move(m),
            self.passable_at(step(walk_end(start, moves), m)),
        ensures
            self.is_walk(start, moves.push(m)),
            walk_end(start, moves.push(m)) == step(walk_end(start, moves), m),
            self.walk_cost(start, moves.push(m)) == self.walk_cost(start, moves) + self.cost_at(
                step(walk_end(start, moves), m),
            ),
        decreases moves.len(),
    {
        if moves.len() > 0 {
            assert(moves.push(m)[0] == moves[0]);
            assert(moves.push(m).drop_first() =~= moves.drop_first().push(m));
            self.lemma_walk_push(step(start, moves[0]), moves.drop_first(), m);
            assert(self.is_walk(start, moves.push(m)));
        } else {
            assert(moves.push(m)[0] == m);
            assert(moves.push(m).drop_first() =~= moves);
            assert(walk_end(step(start, m), moves) == step(start, m));
            assert(self.is_walk(step(start, m), moves));
            assert(self.walk_cost(step(start, m), moves) == 0);
            assert(walk_end(start, moves) == start);
            assert(self.walk_cost(start, moves) == 0);
        }
    }

    /// A walk never enters an obstacle: each cell it passes through after the
    /// start lies in the grid and is passable.
    pub proof fn lemma_walk_avoids_obstacles(&self, start: Pos, moves: Seq<(i32, i32)>, i: int)
        requires
            self.is_walk(start, moves),
            0 <= i < moves.len(),
        ensures
            self.in_bounds(walk_end(start, moves.take(i + 1))),
            self.cell_at(walk_end(start, moves.take(i + 1))).terrain != Terrain::Obstacle,
        decreases moves.len(),
    {
        let t = moves.take(i + 1);
        assert(t[0] == moves[0]);
        assert(walk_end(start, t) == walk_end(step(start, moves[0]), t.drop_first()));
        if i == 0 {
            assert(t.drop_first().len() == 0);
            assert(walk_end(step(start, moves[0]), t.drop_first()) == step(start, moves[0]));
        } else {
            assert(t.drop_first() =~= moves.drop_first().take(i));
            self.lemma_walk_avoids_obstacles(step(start, moves[0]), moves.drop_first(), i - 1);
        }
    }

    /// A walk costs nothing only when it is empty.
    pub proof fn lemma_walk_cost_bounds(&self, start: Pos, moves: Seq<(i32, i32)>)
        ensures
            self.walk_cost(start, moves) >= 0,
            self.is_walk(start, moves) && moves.len() > 0 ==> self.walk_cost(start, moves) >= 1,
        decreases moves.len(),
    {
        if moves.len() > 0 {
            self.lemma_walk_cost_bounds(step(start, moves[0]), moves.drop_first());
        }
    }

    /// A walk stays a walk on a board with the same terrain.
    pub proof fn lemma_walk_same_terrain(&self, other: &Board, start: Pos, moves: Seq<(i32, i32)>)
        requires
            self.same_terrain(other),
            self.is_walk(start, moves),
        ensures
            other.is_walk(start, moves),
        decreases moves.len(),
    {
        if moves.len() > 0 {
            assert(self.cell_at(step(start, moves[0])).terrain == other.cell_at(step(start, moves[0])).terrain);
            self.lemma_walk_same_terrain(other, step(start, moves[0]), moves.drop_first());
        }
    }

    /// An all-grass board of `height` rows of `width` cells.
    pub fn new(width: usize, height: usize) -> (r: Self)
        ensures
            r.wf(),
            r.width == width,
            r.height == height,
            forall|p: Pos| r.in_bounds(p) ==> #[trigger] r.cell_at(p) == (Cell { terrain: Terrain::Grass, tool: None, factory: None }),
    {
        let mut cells: Vec<Vec<Cell>> = Vec::new();
        let mut i: usize = 0;
        while i < height
            invariant
                i <= height,
                cells@.len() == i,
                forall|a: int| 0 <= a < i ==> (#[trigger] cells@[a])@.len() == width,
                forall|a: int, b: int| 0 <= a < i && 0 <= b < width ==> #[trigger] cells@[a]@[b] == (Cell { terrain: Terrain::Grass, tool: None, factory: None }),
            decreases height - i,
        {
            let mut row: Vec<Cell> = Vec::new();
            let mut j: usize = 0;
            while j < width
                invariant
                    j <= width,
                    row@.len() == j,
                    forall|b: int| 0 <= b < j ==> #[trigger] row@[b] == (Cell { terrain: Terrain::Grass, tool: None, factory: None }),
                decreases width - j,
            {
                row.push(Cell::new(Terrain::Grass, None, None));
                j = j + 1;
            }
            cells.push(row);
            i = i + 1;
        }
        Board { width, height, cells }
    }

    pub fn get(&self, x: usize, y: usize) -> (r: Cell)
        requires
            self.wf(),
            self.in_bounds((x as int, y as int)),
        ensures
            r == self.cell_at((x as int, y as int)),
    {
        self.cells[x][y]
    }

    /// Sets the terrain of a cell.
    pub fn set_terrain(&mut self, x: usize, y: usize, terrain: Terrain)
        requires
            old(self).wf(),
            old(self).in_bounds((x as int, y as int)),
        ensures
            final(self).wf(),
            final(self).width == old(self).width,
            final(self).height == old(self).height,
            final(self).cell_at((x as int, y as int)) == (Cell { terrain, ..old(self).cell_at((x as int, y as int)) }),
            forall|p: Pos| final(self).in_bounds(p) && p != (x as int, y as int) ==> #[trigger] final(self).cell_at(p) == old(self).cell_at(p),
    {
        self.cells[x][y].terrain = terrain;
    }

    /// Puts a tool on a cell, as tools are spread at setup: only on a grass
    /// cell that holds no tool yet. Returns whether it was placed.
    pub fn place_tool(&mut self, x: usize, y: usize, tool: ToolType) -> (r: bool)
        requires
            old(self).wf(),
            old(self).in_bounds((x as int, y as int)),
        ensures
            final(self).wf(),
            final(self).width == old(self).width,
            final(self).height == old(self).height,
            r == (old(self).cell_at((x as int, y as int)).terrain == Terrain::Grass
                && old(self).cell_at((x as int, y as int)).tool.is_none()),
            final(self).cell_at((x as int, y as int)) == (if r {
                Cell { tool: Some(tool), ..old(self).cell_at((x as int, y as int)) }
            } else {
                old(self).cell_at((x as int, y as int))
            }),
            forall|p: Pos| final(self).in_bounds(p) && p != (x as int, y as int) ==> #[trigger] final(self).cell_at(p) == old(self).cell_at(p),
    {
        let cell = self.cells[x][y];
        if cell.terrain == Terrain::Grass && cell.tool.is_none() {
            self.cells[x][y].tool = Some(tool);
            true
        } else {
            false
        }
    }

    /// Puts a factory on its cell, as factories are spread at setup: only on a
    /// cell that is no obstacle and holds neither a tool nor a factory. Returns
    /// whether it was placed.
    pub fn place_factory(&mut self, factory: Factory) -> (r: bool)
        requires
            old(self).wf(),
            old(self).in_bounds((factory.x as int, factory.y as int)),
        ensures
            final(self).wf(),
            final(self).width == old(self).width,
            final(self).height == old(self).height,
            r == old(self).is_free_spec((factory.x as int, factory.y as int)),
            final(self).cell_at((factory.x as int, factory.y as int)) == (if r {
                Cell { factory: Some(factory), ..old(self).cell_at((factory.x as int, factory.y as int)) }
            } else {
                old(self).cell_at((factory.x as int, factory.y as int))
            }),
            forall|p: Pos| final(self).in_bounds(p) && p != (factory.x as int, factory.y as int) ==> #[trigger] final(self).cell_at(p) == old(self).cell_at(p),
    {
        if self.is_free(factory.x, factory.y) {
            self.cells[factory.x][factory.y].factory = Some(factory);
            true
        } else {
            false
        }
    }

    /// A cell that is no obstacle and holds neither a tool nor a factory.
    pub open spec fn is_free_spec(&self, p: Pos) -> bool {
        &&& self.cell_at(p).terrain.passable()
        &&& self.cell_at(p).tool.is_none()
        &&& self.cell_at(p).factory.is_none()
    }

    /// Whether the agent may start on a cell, or a factory be put there.
    pub fn is_free(&self, x: usize, y: usize) -> (r: bool)
        requires
            self.wf(),
            self.in_bounds((x as int, y as int)),
        ensures
            r == self.is_free_spec((x as int, y as int)),
    {
        let cell = self.cells[x][y];
        cell.terrain.is_passable() && cell.tool.is_none() && cell.factory.is_none()
    }
}

/// The terrain rows can fill a board: each cell `(x, y)` takes the
/// terrain `rows[height - 1 - y][x]`, so a file's last line is the board's
/// first column.
pub open spec fn terrain_fits(rows: Seq<Vec<Terrain>>, width: int, height: int) -> bool {
    &&& width <= height
    &&& (width == 0 || height <= rows.len())
    &&& forall|i: int| height - width <= i < height ==> (#[trigger] rows[i])@.len() >= height
}

/// A board of `height` rows of `width` cells, with the terrain of `rows`
/// turned as `terrain_fits` says, and nothing on it; `None` where the
/// rows do not fit.
pub fn setup_board(rows: &Vec<Vec<Terrain>>, width: usize, height: usize) -> (r: Option<Board>)
    ensures
        r.is_some() == terrain_fits(rows@, width as int, height as int),
        r.is_some() ==> {
            let b = r.unwrap();
            &&& b.wf()
            &&& b.width == width && b.height == height
            &&& forall|p: Pos| b.in_bounds(p) ==> #[trigger] b.cell_at(p) == (Cell {
                terrain: rows@[height - 1 - p.1]@[p.0],
                tool: None,
                factory: None,
            })
        },
{
    if width > height {
        return None;
    }
    let mut line: usize = height - width;
    while line < height
        invariant
            width <= height,
            height - width <= line <= height,
            line > height - width ==> line <= rows@.len(),
            forall|k: int| height - width <= k < line ==> (#[trigger] rows@[k])@.len() >= height,
        decreases height - line,
    {
        if line >= rows.len() || rows[line].len() < height {
            assert(!terrain_fits(rows@, width as int, height as int)) by {
                let row = rows@[line as int];
            }
            return None;
        }
        line = line + 1;
    }
    assert(terrain_fits(rows@, width as int, height as int));
    let mut cells: Vec<Vec<Cell>> = Vec::new();
    let mut x: usize = 0;
    while x < height
        invariant
            terrain_fits(rows@, width as int, height as int),
            x <= height,
            cells@.len() == x,
            forall|a: int| 0 <= a < x ==> (#[trigger] cells@[a])@.len() == width,
            forall|a: int, b: int| 0 <= a < x && 0 <= b < width ==> #[trigger] cells@[a]@[b] == (Cell {
                terrain: rows@[height - 1 - b]@[a],
                tool: None,
                factory: None,
            }),
        decreases height - x,
    {
        let mut row: Vec<Cell> = Vec::new();
        let mut y: usize = 0;
        while y < width
            invariant
                terrain_fits(rows@, width as int, height as int),
                x < height,
                y <= width,
                row@.len() == y,
                forall|b: int| 0 <= b < y ==> #[trigger] row@[b] == (Cell {
                    terrain: rows@[height - 1 - b]@[x as int],
                    tool: None,
                    factory: None,
                }),
            decreases width - y,
        {
            let src = height - 1 - y;
            assert(rows@[src as int]@.len() >= height);
            row.push(Cell::new(rows[src][x], None, None));
            y = y + 1;
        }
        cells.push(row);
        x = x + 1;
    }
    Some(Board { width, height, cells })
}

impl Default for Board {
    fn default() -> (r: Self)
        ensures
            r.wf(),
            r.width == 42,
            r.height == 42,
    {
        Board::new(42, 42)
    }
}

} // verus!
