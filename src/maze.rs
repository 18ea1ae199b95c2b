//! Rectangular mazes carved by a randomized depth-first "recursive
//! backtracker", and their ASCII drawing.
use vstd::prelude::*;
use crate::random::{random_below, rng_from_entropy, rng_from_seed, shuffle};

verus! {

/// One maze cell: whether the carver reached it, and its walls in the order
/// up, right, down, left.
#[derive(Clone, Copy, Debug)]
pub struct MazeCell {
    pub visited: bool,
    pub walls: [bool; 4],
}

/// A `width` x `height` maze stored row by row.
pub struct Maze {
    pub width: usize,
    pub height: usize,
    pub grid: Vec<MazeCell>,
}

/// Number of visited cells among the first `n`.
pub open spec fn visited_below(cells: Seq<MazeCell>, n: int) -> nat
    decreases n,
{
    if n <= 0 {
        0
    } else {
        visited_below(cells, n - 1) + if cells[n - 1].visited { 1nat } else { 0nat }
    }
}

proof fn lemma_visit(cells: Seq<MazeCell>, i: int, c: MazeCell, n: int)
    requires
        0 <= i < cells.len(),
        0 <= n <= cells.len(),
        !cells[i].visited,
        c.visited,
    ensures
        visited_below(cells.update(i, c), n) == visited_below(cells, n) + (if i < n { 1nat } else { 0nat }),
    decreases n,
{
    if n > 0 {
        lemma_visit(cells, i, c, n - 1);
    }
}

proof fn lemma_keep_visited(cells: Seq<MazeCell>, i: int, c: MazeCell, n: int)
    requires
        0 <= i < cells.len(),
        0 <= n <= cells.len(),
        cells[i].visited == c.visited,
    ensures
        visited_below(cells.update(i, c), n) == visited_below(cells, n),
    decreases n,
{
    if n > 0 {
        lemma_keep_visited(cells, i, c, n - 1);
    }
}

proof fn lemma_visited_bound(cells: Seq<MazeCell>, n: int)
    requires
        0 <= n <= cells.len(),
    ensures
        visited_below(cells, n) <= n,
    decreases n,
{
    if n > 0 {
        lemma_visited_bound(cells, n - 1);
    }
}

impl Maze {
    /// The cell storage matches the dimensions.
    pub open spec fn wf(&self) -> bool {
        &&& self.grid@.len() == self.width * self.height
        &&& self.width * self.height <= usize::MAX
    }

    /// Wall `dir` (0 up, 1 right, 2 down, 3 left) of cell (`x`, `y`) stands.
    pub open spec fn wall(&self, x: int, y: int, dir: int) -> bool {
        self.grid@[y * self.width + x].walls@[dir]
    }

    /// A maze with every wall standing and no cell visited.
    pub fn new(width: usize, height: usize) -> (m: Maze)
        requires
            width * height <= usize::MAX,
        ensures
            m.width == width,
            m.height == height,
            m.wf(),
            forall|k: int| 0 <= k < width * height ==> #[trigger] m.grid@[k] == (MazeCell { visited: false, walls: [true, true, true, true] }),
    {
        let n = width * height;
        let mut grid: Vec<MazeCell> = Vec::new();
        let mut k: usize = 0;
        while k < n
            invariant
                k <= n,
                grid@.len() == k,
                forall|j: int| 0 <= j < k ==> #[trigger] grid@[j] == (MazeCell { visited: false, walls: [true, true, true, true] }),
            decreases n - k,
        {
            grid.push(MazeCell { visited: false, walls: [true, true, true, true] });
            k = k + 1;
        }
        Maze { width, height, grid }
    }

    /// Row-major index of cell (`x`, `y`).
    fn idx(&self, x: usize, y: usize) -> (i: usize)
        requires
            self.wf(),
            x < self.width,
            y < self.height,
        ensures
            i == y * self.width + x,
            i < self.grid@.len(),
    {
        proof {
            lemma_index_bound(x as int, y as int, self.width as int, self.height as int);
            assert(y * self.width <= y * self.width + x);
        }
        y * self.width + x
    }

    /// Cell (`x`, `y`) was reached by the carver.
    pub open spec fn visited_at(&self, x: int, y: int) -> bool {
        self.grid@[y * self.width + x].visited
    }

    /// Neighbouring cells agree on the wall between them.
    pub open spec fn walls_agree(&self) -> bool {
        forall|x: int, y: int|
            #![trigger self.wall(x, y, 1)]
            #![trigger self.wall(x, y, 2)]
            0 <= x < self.width && 0 <= y < self.height ==> (x + 1 < self.width ==> self.wall(x, y, 1) == self.wall(
                x + 1,
                y,
                3,
            )) && (y + 1 < self.height ==> self.wall(x, y, 2) == self.wall(x, y + 1, 0))
    }

    /// Every wall on the outer border stands.
    pub open spec fn border_closed(&self) -> bool {
        forall|x: int, y: int|
            #![trigger self.wall(x, y, 0)]
            #![trigger self.wall(x, y, 1)]
            #![trigger self.wall(x, y, 2)]
            #![trigger self.wall(x, y, 3)]
            0 <= x < self.width && 0 <= y < self.height ==> (x == 0 ==> self.wall(x, y, 3)) && (x + 1
                == self.width ==> self.wall(x, y, 1)) && (y == 0 ==> self.wall(x, y, 0)) && (y + 1 == self.height
                ==> self.wall(x, y, 2))
    }

    /// A cell not yet reached keeps all four walls.
    pub open spec fn unvisited_walled(&self) -> bool {
        forall|x: int, y: int, e: int|
            0 <= x < self.width && 0 <= y < self.height && 0 <= e < 4 && !self.visited_at(x, y) ==> #[trigger] self.wall(x, y, e)
    }

    /// The carver's stack holds distinct reached cells, and every reached
    /// cell off the stack has all its neighbours reached.
    #[verifier::opaque]
    pub open spec fn stack_ok(&self, stack: Seq<(usize, usize)>) -> bool {
        &&& forall|k: int| 0 <= k < stack.len() ==> (#[trigger] stack[k]).0 < self.width && stack[k].1 < self.height
            && self.visited_at(stack[k].0 as int, stack[k].1 as int)
        &&& stack.no_duplicates()
        &&& self.closed_except(stack)
    }

    /// Cell (`x`, `y`) has an open wall to a neighbour ranked lower.
    pub open spec fn linked(&self, x: int, y: int, rank: Map<(int, int), int>) -> bool {
        ||| (x > 0 && !self.wall(x, y, 3) && rank[(x - 1, y)] < rank[(x, y)])
        ||| (x + 1 < self.width && !self.wall(x, y, 1) && rank[(x + 1, y)] < rank[(x, y)])
        ||| (y > 0 && !self.wall(x, y, 0) && rank[(x, y - 1)] < rank[(x, y)])
        ||| (y + 1 < self.height && !self.wall(x, y, 2) && rank[(x, y + 1)] < rank[(x, y)])
    }

    /// Every cell other than (`sx`, `sy`) is linked to a lower-ranked
    /// neighbour: following such links always ends at (`sx`, `sy`), so every
    /// cell is joined to it through open walls.
    pub open spec fn joined(&self, sx: int, sy: int, rank: Map<(int, int), int>) -> bool {
        &&& 0 <= sx < self.width && 0 <= sy < self.height
        &&& forall|x: int, y: int|
            0 <= x < self.width && 0 <= y < self.height && !(x == sx && y == sy) ==> #[trigger] self.linked(x, y, rank)
    }

    /// Every reached cell is ranked below `t`, and every reached cell other
    /// than the start is linked to a lower-ranked neighbour.
    #[verifier::opaque]
    pub open spec fn links_ok(&self, sx: int, sy: int, rank: Map<(int, int), int>, t: int) -> bool {
        forall|x: int, y: int|
            0 <= x < self.width && 0 <= y < self.height && #[trigger] self.visited_at(x, y) ==> rank.contains_key((x, y))
                && rank[(x, y)] < t && (!(x == sx && y == sy) ==> self.linked(x, y, rank))
    }

    /// Number of open inner walls on the right and bottom sides of cell
    /// (`x`, `y`).
    pub open spec fn open_at(&self, x: int, y: int) -> nat {
        (if x + 1 < self.width && !self.wall(x, y, 1) { 1nat } else { 0nat }) + (if y + 1 < self.height && !self.wall(x, y, 2) {
            1nat
        } else {
            0nat
        })
    }

    /// Open inner walls counted over the first `n` cells of row `y`.
    pub open spec fn open_row(&self, y: int, n: int) -> nat
        decreases n,
    {
        if n <= 0 {
            0
        } else {
            self.open_row(y, n - 1) + self.open_at(n - 1, y)
        }
    }

    /// Open inner walls counted over the first `n` rows.
    pub open spec fn open_rows(&self, n: int) -> nat
        decreases n,
    {
        if n <= 0 {
            0
        } else {
            self.open_rows(n - 1) + self.open_row(n - 1, self.width as int)
        }
    }

    /// Number of open inner walls, each counted once.
    pub open spec fn open_walls(&self) -> nat {
        self.open_rows(self.height as int)
    }

    /// The wall properties that carving keeps.
    #[verifier::opaque]
    pub open spec fn walls_ok(&self) -> bool {
        self.walls_agree() && self.border_closed() && self.unvisited_walled()
    }

    /// Every cell was reached by the carver.
    pub open spec fn all_visited(&self) -> bool {
        forall|x: int, y: int| 0 <= x < self.width && 0 <= y < self.height ==> #[trigger] self.visited_at(x, y)
    }

    /// Every reached cell off `stack` has all its neighbours reached.
    pub open spec fn closed_except(&self, stack: Seq<(usize, usize)>) -> bool {
        forall|x: int, y: int|
            0 <= x < self.width && 0 <= y < self.height && #[trigger] self.visited_at(x, y) && !stack.contains(
                (x as usize, y as usize),
            ) ==> (x > 0 ==> self.visited_at(x - 1, y)) && (x + 1 < self.width ==> self.visited_at(x + 1, y)) && (y > 0
                ==> self.visited_at(x, y - 1)) && (y + 1 < self.height ==> self.visited_at(x, y + 1))
    }

    /// Carves a maze with a randomized depth-first search from a random
    /// start cell: each step knocks down the wall to a random unvisited
    /// neighbour and moves there, backing up when there is none. Every cell
    /// is reached, neighbours agree on the walls between them and the outer
    /// border stays closed. The same `seed` gives the same maze.
    #[verifier::rlimit(100)]
    pub fn generate_recursive_backtracker(width: usize, height: usize, seed: Option<u64>) -> (m: Maze)
        requires
            width > 0,
            height > 0,
            width * height <= usize::MAX,
        ensures
            m.width == width,
            m.height == height,
            m.wf(),
            m.all_visited(),
            m.walls_agree(),
            m.border_closed(),
            exists|sx: int, sy: int, rank: Map<(int, int), int>| #[trigger] m.joined(sx, sy, rank),
            m.open_walls() + 1 == width * height,
    {
        let mut maze = Maze::new(width, height);
        proof {
            assert forall|x: int, y: int, e: int| 0 <= x < width && 0 <= y < height && 0 <= e < 4 implies #[trigger] maze.wall(x, y, e) by {
                lemma_index_bound(x, y, width as int, height as int);
            }
        }
        let mut rng = match seed {
            Some(s) => rng_from_seed(s),
            None => match rng_from_entropy() {
                Some(r) => r,
                None => rng_from_seed(0),
            },
        };
        let mut stack: Vec<(usize, usize)> = Vec::new();
        let sx = random_below(&mut rng, width);
        let sy = random_below(&mut rng, height);
        stack.push((sx, sy));
        let start = maze.idx(sx, sy);
        let mut cell = maze.grid[start];
        cell.visited = true;
        proof {
            lemma_visit(maze.grid@, start as int, cell, maze.grid@.len() as int);
        }
        let ghost g0 = maze.grid@;
        maze.grid.set(start, cell);
        proof {
            assert forall|x: int, y: int, e: int| 0 <= x < width && 0 <= y < height && 0 <= e < 4 implies #[trigger] maze.wall(x, y, e) by {
                lemma_index_bound(x, y, width as int, height as int);
                assert(g0[y * width + x].walls@[e]);
            }
            assert forall|x: int, y: int|
                0 <= x < width && 0 <= y < height && #[trigger] maze.visited_at(x, y) implies x == sx && y == sy by {
                lemma_index_bound(x, y, width as int, height as int);
                if y * width + x != start {
                    assert(g0[y * width + x].visited == false);
                } else {
                    lemma_index_inj(x, y, sx as int, sy as int, width as int);
                }
            }
            assert(stack@[0] == (sx, sy));
            assert(maze.unvisited_walled());
            reveal(Maze::walls_ok);
            reveal(Maze::stack_ok);
        }
        let ghost total = (width * height) as int;
        let ghost mut rank: Map<(int, int), int> = Map::empty().insert((sx as int, sy as int), 0int);
        let ghost mut t: int = 1;
        proof {
            reveal(Maze::links_ok);
            lemma_no_open(maze, height as int);
            lemma_none_visited(g0, total);
        }
        while stack.len() > 0
            invariant
                maze.width == width,
                maze.height == height,
                maze.wf(),
                total == maze.grid@.len(),
                stack@.len() <= visited_below(maze.grid@, total),
                maze.stack_ok(stack@),
                sx < width && sy < height && maze.visited_at(sx as int, sy as int),
                maze.walls_ok(),
                maze.links_ok(sx as int, sy as int, rank, t),
                t == visited_below(maze.grid@, total),
                maze.open_walls() + 1 == t,
            decreases 2 * (total - visited_below(maze.grid@, total)) + stack@.len(),
        {
            proof {
                lemma_visited_bound(maze.grid@, total);
            }
            proof {
                lemma_stack_top(maze, stack@);
            }
            let (cx, cy) = stack[stack.len() - 1];
            let mut neighbors: Vec<(usize, usize, usize)> = Vec::new();
            let up = cy > 0 && !maze.grid[maze.idx(cx, cy - 1)].visited;
            if up {
                neighbors.push((cx, cy - 1, 0));
            }
            let right = cx + 1 < width && !maze.grid[maze.idx(cx + 1, cy)].visited;
            if right {
                neighbors.push((cx + 1, cy, 1));
            }
            let down = cy + 1 < height && !maze.grid[maze.idx(cx, cy + 1)].visited;
            if down {
                neighbors.push((cx, cy + 1, 2));
            }
            let left = cx > 0 && !maze.grid[maze.idx(cx - 1, cy)].visited;
            if left {
                neighbors.push((cx - 1, cy, 3));
            }
            proof {
                assert forall|k: int| 0 <= k < neighbors@.len() implies (#[trigger] neighbors@[k]).0 < width && neighbors@[k].1 < height
                    && neighbors@[k].2 < 4 && !maze.visited_at(neighbors@[k].0 as int, neighbors@[k].1 as int)
                    && neighbors@[k].0 as int == cx + (if neighbors@[k].2 == 1 { 1int } else if neighbors@[k].2 == 3 { -1int } else { 0int })
                    && neighbors@[k].1 as int == cy + (if neighbors@[k].2 == 2 { 1int } else if neighbors@[k].2 == 0 { -1int } else { 0int }) by {}
            }
            if neighbors.len() == 0 {
                let ghost before = stack@;
                stack.pop();
                proof {
                    assert(before == stack@.push((cx, cy)));
                    assert(!up && !right && !down && !left);
                    lemma_pop_state(maze, before, stack@, cx as int, cy as int);
                }
            } else {
                let ghost before = neighbors@;
                shuffle(&mut rng, &mut neighbors);
                proof {
                    before.to_multiset_ensures();
                    neighbors@.to_multiset_ensures();
                    assert(neighbors@.contains(neighbors@[0]));
                    assert(neighbors@.to_multiset().count(neighbors@[0]) > 0);
                    assert(before.to_multiset().count(neighbors@[0]) > 0);
                    assert(before.contains(neighbors@[0]));
                }
                let (nx, ny, dir) = neighbors[0];
                let opp = (dir + 2) % 4;
                let cur_idx = maze.idx(cx, cy);
                let next_idx = maze.idx(nx, ny);
                let ghost old_maze_grid = maze.grid@;
                let ghost old_stack = stack@;
                let ghost old_maze = maze;
                let mut cur = maze.grid[cur_idx];
                cur.walls[dir] = false;
                proof {
                    lemma_keep_visited(maze.grid@, cur_idx as int, cur, total);
                }
                maze.grid.set(cur_idx, cur);
                let mut next = maze.grid[next_idx];
                assert(!next.visited);
                next.walls[opp] = false;
                next.visited = true;
                proof {
                    lemma_visit(maze.grid@, next_idx as int, next, total);
                }
                maze.grid.set(next_idx, next);
                stack.push((nx, ny));
                proof {
                    assert(cur_idx != next_idx);
                    assert(maze.grid@[cur_idx as int].walls@ == old_maze_grid[cur_idx as int].walls@.update(dir as int, false));
                    assert(maze.grid@[next_idx as int].walls@ == old_maze_grid[next_idx as int].walls@.update(opp as int, false));
                    lemma_carve_grid(old_maze, maze, cx as int, cy as int, nx as int, ny as int, dir as int, opp as int);
                    lemma_push_state(old_maze, maze, old_stack, stack@, cx as int, cy as int, nx as int, ny as int, dir as int, opp as int);
                    assert(old_maze.visited_at(cx as int, cy as int));
                    lemma_carve_walls(old_maze, maze, cx as int, cy as int, nx as int, ny as int, dir as int, opp as int);
                    lemma_carved_keeps(old_maze, maze, cx as int, cy as int, nx as int, ny as int, dir as int, opp as int, sx as int, sy as int);
                    lemma_carve_count(old_maze, maze, cx as int, cy as int, nx as int, ny as int, dir as int, opp as int);
                    lemma_carve_links(old_maze, maze, cx as int, cy as int, nx as int, ny as int, dir as int, opp as int, sx as int, sy as int, rank, t);
                    rank = rank.insert((nx as int, ny as int), t);
                    t = t + 1;
                }
            }
        }
        proof {
            reveal(Maze::stack_ok);
            lemma_spread(maze, sx as int, sy as int);
            reveal(Maze::walls_ok);
            reveal(Maze::links_ok);
            assert forall|x: int, y: int|
                0 <= x < width && 0 <= y < height && !(x == sx && y == sy) implies #[trigger] maze.linked(x, y, rank) by {
                assert(maze.visited_at(x, y));
            }
            assert(maze.joined(sx as int, sy as int, rank));
            assert forall|k: int| 0 <= k < total implies #[trigger] maze.grid@[k].visited by {
                let q = k / (width as int);
                let r = k % (width as int);
                vstd::arithmetic::div_mod::lemma_fundamental_div_mod(k, width as int);
                assert(0 <= r < width);
                assert(0 <= q < height) by (nonlinear_arith)
                    requires
                        k == (width as int) * q + r,
                        0 <= r < width,
                        0 <= k < (width as int) * (height as int),
                        width > 0,
                ;
                assert(maze.visited_at(r, q));
                assert(q * width + r == k) by (nonlinear_arith)
                    requires
                        k == (width as int) * q + r,
                ;
            }
            lemma_all_visited_count(maze.grid@, total);
        }
        maze
    }
}

/// The top of a non-empty carver stack is a reached cell on the board.
proof fn lemma_stack_top(m: Maze, stack: Seq<(usize, usize)>)
    requires
        m.stack_ok(stack),
        stack.len() > 0,
    ensures
        stack.last().0 < m.width && stack.last().1 < m.height,
        m.visited_at(stack.last().0 as int, stack.last().1 as int),
{
    reveal(Maze::stack_ok);
}

/// Popping a cell whose neighbours are all reached keeps the stack
/// invariant.
proof fn lemma_pop_state(m: Maze, before: Seq<(usize, usize)>, after: Seq<(usize, usize)>, cx: int, cy: int)
    requires
        m.stack_ok(before),
        before == after.push((cx as usize, cy as usize)),
        0 <= cx < m.width,
        0 <= cy < m.height,
        cx > 0 ==> m.visited_at(cx - 1, cy),
        cx + 1 < m.width ==> m.visited_at(cx + 1, cy),
        cy > 0 ==> m.visited_at(cx, cy - 1),
        cy + 1 < m.height ==> m.visited_at(cx, cy + 1),
    ensures
        m.stack_ok(after),
{
    reveal(Maze::stack_ok);
    lemma_pop_closed(m, before, after, cx, cy);
    assert forall|a: int, b: int| 0 <= a < after.len() && 0 <= b < after.len() && a != b implies after[a] != after[b] by {
        assert(after[a] == before[a] && after[b] == before[b]);
    }
    assert forall|k: int| 0 <= k < after.len() implies (#[trigger] after[k]).0 < m.width && after[k].1 < m.height
        && m.visited_at(after[k].0 as int, after[k].1 as int) by {
        assert(after[k] == before[k]);
    }
}

/// Pushing a newly reached cell keeps the stack invariant.
proof fn lemma_push_state(
    old_m: Maze,
    new_m: Maze,
    old_stack: Seq<(usize, usize)>,
    new_stack: Seq<(usize, usize)>,
    cx: int,
    cy: int,
    nx: int,
    ny: int,
    dir: int,
    opp: int,
)
    requires
        old_m.width == new_m.width,
        old_m.height == new_m.height,
        old_m.stack_ok(old_stack),
        new_stack == old_stack.push((nx as usize, ny as usize)),
        0 <= nx < old_m.width,
        0 <= ny < old_m.height,
        !old_m.visited_at(nx, ny),
        carved(old_m, new_m, cx, cy, nx, ny, dir, opp),
    ensures
        new_m.stack_ok(new_stack),
{
    reveal(carved);
    reveal(Maze::stack_ok);
    assert forall|k: int| 0 <= k < old_stack.len() implies old_stack[k] != (nx as usize, ny as usize) by {
        assert(old_m.visited_at(old_stack[k].0 as int, old_stack[k].1 as int));
    }
    assert forall|a: int, b: int| 0 <= a < new_stack.len() && 0 <= b < new_stack.len() && a != b implies new_stack[a] != new_stack[b] by {
        if a < old_stack.len() && b < old_stack.len() {
            assert(new_stack[a] == old_stack[a] && new_stack[b] == old_stack[b]);
        } else if a < old_stack.len() {
            assert(new_stack[a] == old_stack[a]);
        } else if b < old_stack.len() {
            assert(new_stack[b] == old_stack[b]);
        }
    }
    assert forall|k: int| 0 <= k < new_stack.len() implies (#[trigger] new_stack[k]).0 < new_m.width && new_stack[k].1 < new_m.height
        && new_m.visited_at(new_stack[k].0 as int, new_stack[k].1 as int) by {
        if k < old_stack.len() {
            assert(new_stack[k] == old_stack[k]);
        }
    }
    lemma_push_closed(old_m, new_m, old_stack, new_stack, nx, ny);
}

/// `new_m` is `old_m` after carving from (`cx`, `cy`) towards `dir` into
/// (`nx`, `ny`): those two walls are down and the new cell is reached.
#[verifier::opaque]
pub open spec fn carved(old_m: Maze, new_m: Maze, cx: int, cy: int, nx: int, ny: int, dir: int, opp: int) -> bool {
    &&& forall|x: int, y: int| 0 <= x < old_m.width && 0 <= y < old_m.height ==> (#[trigger] new_m.visited_at(x, y)
        == (old_m.visited_at(x, y) || (x == nx && y == ny)))
    &&& forall|x: int, y: int, e: int| 0 <= x < old_m.width && 0 <= y < old_m.height && 0 <= e < 4 ==> (#[trigger] new_m.wall(x, y, e)
        == if x == cx && y == cy && e == dir { false } else if x == nx && y == ny && e == opp { false } else { old_m.wall(x, y, e) })
}

/// A carve opens exactly one inner wall that was closed.
proof fn lemma_carve_count(old_m: Maze, new_m: Maze, cx: int, cy: int, nx: int, ny: int, dir: int, opp: int)
    requires
        old_m.width == new_m.width,
        old_m.height == new_m.height,
        0 <= cx < old_m.width && 0 <= cy < old_m.height,
        0 <= nx < old_m.width && 0 <= ny < old_m.height,
        0 <= dir < 4,
        opp == (dir + 2) % 4,
        nx == cx + (if dir == 1 { 1int } else if dir == 3 { -1int } else { 0int }),
        ny == cy + (if dir == 2 { 1int } else if dir == 0 { -1int } else { 0int }),
        !old_m.visited_at(nx, ny),
        old_m.walls_ok(),
        carved(old_m, new_m, cx, cy, nx, ny, dir, opp),
    ensures
        new_m.open_walls() == old_m.open_walls() + 1,
{
    reveal(carved);
    reveal(Maze::walls_ok);
    let w = old_m.width as int;
    let h = old_m.height as int;
    let (x0, y0) = if dir == 1 || dir == 2 { (cx, cy) } else { (nx, ny) };
    assert(old_m.wall(nx, ny, 0) && old_m.wall(nx, ny, 1) && old_m.wall(nx, ny, 2) && old_m.wall(nx, ny, 3));
    if dir == 1 {
        assert(old_m.wall(cx, cy, 1) == old_m.wall(cx + 1, cy, 3));
    } else if dir == 2 {
        assert(old_m.wall(cx, cy, 2) == old_m.wall(cx, cy + 1, 0));
    }
    assert forall|x: int, y: int| 0 <= x < w && 0 <= y < h implies #[trigger] new_m.open_at(x, y) == old_m.open_at(x, y) + (
        if x == x0 && y == y0 { 1nat } else { 0nat }) by {
        assert(new_m.wall(x, y, 1) == if x == cx && y == cy && 1 == dir { false } else if x == nx && y == ny && 1 == opp { false } else { old_m.wall(x, y, 1) });
        assert(new_m.wall(x, y, 2) == if x == cx && y == cy && 2 == dir { false } else if x == nx && y == ny && 2 == opp { false } else { old_m.wall(x, y, 2) });
    }
    lemma_rows_bump(old_m, new_m, x0, y0, h);
}

proof fn lemma_row_bump(old_m: Maze, new_m: Maze, x0: int, y0: int, y: int, n: int)
    requires
        old_m.width == new_m.width,
        old_m.height == new_m.height,
        0 <= y < old_m.height,
        0 <= n <= old_m.width,
        forall|x: int, y2: int| 0 <= x < old_m.width && 0 <= y2 < old_m.height ==> #[trigger] new_m.open_at(x, y2) == old_m.open_at(x, y2)
            + (if x == x0 && y2 == y0 { 1nat } else { 0nat }),
    ensures
        new_m.open_row(y, n) == old_m.open_row(y, n) + (if y == y0 && 0 <= x0 < n { 1nat } else { 0nat }),
    decreases n,
{
    if n > 0 {
        lemma_row_bump(old_m, new_m, x0, y0, y, n - 1);
        assert(new_m.open_at(n - 1, y) == old_m.open_at(n - 1, y) + (if n - 1 == x0 && y == y0 { 1nat } else { 0nat }));
    }
}

proof fn lemma_rows_bump(old_m: Maze, new_m: Maze, x0: int, y0: int, n: int)
    requires
        old_m.width == new_m.width,
        old_m.height == new_m.height,
        0 <= n <= old_m.height,
        0 <= x0 < old_m.width,
        0 <= y0 < old_m.height,
        forall|x: int, y2: int| 0 <= x < old_m.width && 0 <= y2 < old_m.height ==> #[trigger] new_m.open_at(x, y2) == old_m.open_at(x, y2)
            + (if x == x0 && y2 == y0 { 1nat } else { 0nat }),
    ensures
        new_m.open_rows(n) == old_m.open_rows(n) + (if y0 < n { 1nat } else { 0nat }),
    decreases n,
{
    if n > 0 {
        lemma_rows_bump(old_m, new_m, x0, y0, n - 1);
        lemma_row_bump(old_m, new_m, x0, y0, n - 1, old_m.width as int);
    }
}

proof fn lemma_no_open_row(m: Maze, y: int, n: int)
    requires
        0 <= y < m.height,
        0 <= n <= m.width,
        forall|x: int, e: int| 0 <= x < m.width && 0 <= e < 4 ==> #[trigger] m.wall(x, y, e),
    ensures
        m.open_row(y, n) == 0,
    decreases n,
{
    if n > 0 {
        lemma_no_open_row(m, y, n - 1);
        assert(m.wall(n - 1, y, 1) && m.wall(n - 1, y, 2));
    }
}

/// A maze with every wall standing has no open wall.
proof fn lemma_no_open(m: Maze, n: int)
    requires
        0 <= n <= m.height,
        forall|x: int, y: int, e: int| 0 <= x < m.width && 0 <= y < m.height && 0 <= e < 4 ==> #[trigger] m.wall(x, y, e),
    ensures
        m.open_rows(n) == 0,
    decreases n,
{
    if n > 0 {
        lemma_no_open(m, n - 1);
        lemma_no_open_row(m, n - 1, m.width as int);
    }
}

proof fn lemma_none_visited(cells: Seq<MazeCell>, n: int)
    requires
        0 <= n <= cells.len(),
        forall|k: int| 0 <= k < cells.len() ==> !(#[trigger] cells[k]).visited,
    ensures
        visited_below(cells, n) == 0,
    decreases n,
{
    if n > 0 {
        lemma_none_visited(cells, n - 1);
    }
}

proof fn lemma_all_visited_count(cells: Seq<MazeCell>, n: int)
    requires
        0 <= n <= cells.len(),
        forall|k: int| 0 <= k < n ==> (#[trigger] cells[k]).visited,
    ensures
        visited_below(cells, n) == n,
    decreases n,
{
    if n > 0 {
        lemma_all_visited_count(cells, n - 1);
    }
}

/// A carve keeps every reached cell reached.
proof fn lemma_carved_keeps(old_m: Maze, new_m: Maze, cx: int, cy: int, nx: int, ny: int, dir: int, opp: int, x: int, y: int)
    requires
        carved(old_m, new_m, cx, cy, nx, ny, dir, opp),
        0 <= x < old_m.width && 0 <= y < old_m.height,
        old_m.visited_at(x, y),
    ensures
        new_m.visited_at(x, y),
{
    reveal(carved);
}

/// How the cells read after the two cells of a carve were rewritten.
proof fn lemma_carve_grid(old_m: Maze, new_m: Maze, cx: int, cy: int, nx: int, ny: int, dir: int, opp: int)
    requires
        old_m.width == new_m.width,
        old_m.height == new_m.height,
        old_m.wf(),
        new_m.grid@.len() == old_m.grid@.len(),
        0 <= cx < old_m.width && 0 <= cy < old_m.height,
        0 <= nx < old_m.width && 0 <= ny < old_m.height,
        cy * old_m.width + cx != ny * old_m.width + nx,
        forall|k: int| 0 <= k < old_m.grid@.len() && k != cy * old_m.width + cx && k != ny * old_m.width + nx
            ==> #[trigger] new_m.grid@[k] == old_m.grid@[k],
        new_m.grid@[cy * old_m.width + cx].visited == old_m.grid@[cy * old_m.width + cx].visited,
        new_m.grid@[cy * old_m.width + cx].walls@ == old_m.grid@[cy * old_m.width + cx].walls@.update(dir, false),
        new_m.grid@[ny * old_m.width + nx].visited,
        new_m.grid@[ny * old_m.width + nx].walls@ == old_m.grid@[ny * old_m.width + nx].walls@.update(opp, false),
        0 <= dir < 4,
        0 <= opp < 4,
    ensures
        carved(old_m, new_m, cx, cy, nx, ny, dir, opp),
{
    reveal(carved);
    let w = old_m.width as int;
    let h = old_m.height as int;
    assert forall|x: int, y: int| 0 <= x < w && 0 <= y < h implies (#[trigger] new_m.visited_at(x, y)
        == (old_m.visited_at(x, y) || (x == nx && y == ny))) by {
        lemma_index_bound(x, y, w, h);
        if y * w + x == ny * w + nx {
            lemma_index_inj(x, y, nx, ny, w);
        } else if y * w + x == cy * w + cx {
            lemma_index_inj(x, y, cx, cy, w);
        }
    }
    assert forall|x: int, y: int, e: int| 0 <= x < w && 0 <= y < h && 0 <= e < 4 implies (#[trigger] new_m.wall(x, y, e)
        == if x == cx && y == cy && e == dir { false } else if x == nx && y == ny && e == opp { false } else { old_m.wall(x, y, e) }) by {
        lemma_index_bound(x, y, w, h);
        if y * w + x == ny * w + nx {
            lemma_index_inj(x, y, nx, ny, w);
        } else if y * w + x == cy * w + cx {
            lemma_index_inj(x, y, cx, cy, w);
        }
    }
}

/// Knocking down the wall between a reached cell and an unreached
/// neighbour, from both sides, keeps neighbours agreeing, the border closed
/// and unreached cells walled.
proof fn lemma_carve_walls(old_m: Maze, new_m: Maze, cx: int, cy: int, nx: int, ny: int, dir: int, opp: int)
    requires
        old_m.width == new_m.width,
        old_m.height == new_m.height,
        0 <= cx < old_m.width && 0 <= cy < old_m.height,
        0 <= nx < old_m.width && 0 <= ny < old_m.height,
        0 <= dir < 4,
        opp == (dir + 2) % 4,
        nx == cx + (if dir == 1 { 1int } else if dir == 3 { -1int } else { 0int }),
        ny == cy + (if dir == 2 { 1int } else if dir == 0 { -1int } else { 0int }),
        old_m.visited_at(cx, cy),
        !old_m.visited_at(nx, ny),
        old_m.walls_ok(),
        carved(old_m, new_m, cx, cy, nx, ny, dir, opp),
    ensures
        new_m.walls_ok(),
{
    reveal(carved);
    reveal(Maze::walls_ok);
    let w = old_m.width as int;
    let h = old_m.height as int;
    assert forall|x: int, y: int|
        #![trigger new_m.wall(x, y, 1)]
        #![trigger new_m.wall(x, y, 2)]
        0 <= x < w && 0 <= y < h implies (x + 1 < w ==> new_m.wall(x, y, 1) == new_m.wall(x + 1, y, 3))
        && (y + 1 < h ==> new_m.wall(x, y, 2) == new_m.wall(x, y + 1, 0)) by {
        assert(old_m.wall(x, y, 1) == old_m.wall(x, y, 1));
        assert(old_m.wall(x, y, 2) == old_m.wall(x, y, 2));
        assert(new_m.wall(x, y, 1) == if x == cx && y == cy && 1 == dir { false } else if x == nx && y == ny && 1 == opp { false } else { old_m.wall(x, y, 1) });
        assert(new_m.wall(x, y, 2) == if x == cx && y == cy && 2 == dir { false } else if x == nx && y == ny && 2 == opp { false } else { old_m.wall(x, y, 2) });
        if x + 1 < w {
            assert(old_m.wall(x, y, 1) == old_m.wall(x + 1, y, 3));
            assert(new_m.wall(x + 1, y, 3) == if x + 1 == cx && y == cy && 3 == dir { false } else if x + 1 == nx && y == ny && 3 == opp { false } else { old_m.wall(x + 1, y, 3) });
            if x == nx && y == ny && opp != 1 && x + 1 == cx && y == cy {
                assert(!old_m.visited_at(x, y));
            }
            if x + 1 == nx && y == ny && opp != 3 && x == cx && y == cy {
                assert(!old_m.visited_at(x + 1, y));
            }
        }
        if y + 1 < h {
            assert(old_m.wall(x, y, 2) == old_m.wall(x, y + 1, 0));
            assert(new_m.wall(x, y + 1, 0) == if x == cx && y + 1 == cy && 0 == dir { false } else if x == nx && y + 1 == ny && 0 == opp { false } else { old_m.wall(x, y + 1, 0) });
            if x == nx && y == ny && opp != 2 && x == cx && y + 1 == cy {
                assert(!old_m.visited_at(x, y));
            }
            if x == nx && y + 1 == ny && opp != 0 && x == cx && y == cy {
                assert(!old_m.visited_at(x, y + 1));
            }
        }
    }
    assert forall|x: int, y: int|
        #![trigger new_m.wall(x, y, 0)]
        #![trigger new_m.wall(x, y, 1)]
        #![trigger new_m.wall(x, y, 2)]
        #![trigger new_m.wall(x, y, 3)]
        0 <= x < w && 0 <= y < h implies (x == 0 ==> new_m.wall(x, y, 3)) && (x + 1 == w
        ==> new_m.wall(x, y, 1)) && (y == 0 ==> new_m.wall(x, y, 0)) && (y + 1 == h ==> new_m.wall(x, y, 2)) by {
        assert(old_m.wall(x, y, 0) == old_m.wall(x, y, 0));
        assert(new_m.wall(x, y, 3) == if x == cx && y == cy && 3 == dir { false } else if x == nx && y == ny && 3 == opp { false } else { old_m.wall(x, y, 3) });
        assert(new_m.wall(x, y, 0) == if x == cx && y == cy && 0 == dir { false } else if x == nx && y == ny && 0 == opp { false } else { old_m.wall(x, y, 0) });
        assert(new_m.wall(x, y, 1) == if x == cx && y == cy && 1 == dir { false } else if x == nx && y == ny && 1 == opp { false } else { old_m.wall(x, y, 1) });
        assert(new_m.wall(x, y, 2) == if x == cx && y == cy && 2 == dir { false } else if x == nx && y == ny && 2 == opp { false } else { old_m.wall(x, y, 2) });
    }
    assert forall|x: int, y: int, e: int| 0 <= x < w && 0 <= y < h && 0 <= e < 4 && !new_m.visited_at(x, y) implies #[trigger] new_m.wall(x, y, e) by {
        assert(!old_m.visited_at(x, y));
    }
}

/// Carving from a reached cell into an unreached neighbour, which gets the
/// next rank, keeps every reached cell linked.
proof fn lemma_carve_links(
    old_m: Maze,
    new_m: Maze,
    cx: int,
    cy: int,
    nx: int,
    ny: int,
    dir: int,
    opp: int,
    sx: int,
    sy: int,
    rank: Map<(int, int), int>,
    t: int,
)
    requires
        old_m.width == new_m.width,
        old_m.height == new_m.height,
        0 <= cx < old_m.width && 0 <= cy < old_m.height,
        0 <= nx < old_m.width && 0 <= ny < old_m.height,
        0 <= dir < 4,
        opp == (dir + 2) % 4,
        nx == cx + (if dir == 1 { 1int } else if dir == 3 { -1int } else { 0int }),
        ny == cy + (if dir == 2 { 1int } else if dir == 0 { -1int } else { 0int }),
        old_m.visited_at(cx, cy),
        !old_m.visited_at(nx, ny),
        old_m.walls_ok(),
        old_m.links_ok(sx, sy, rank, t),
        carved(old_m, new_m, cx, cy, nx, ny, dir, opp),
    ensures
        new_m.links_ok(sx, sy, rank.insert((nx, ny), t), t + 1),
{
    reveal(carved);
    reveal(Maze::walls_ok);
    reveal(Maze::links_ok);
    let w = old_m.width as int;
    let h = old_m.height as int;
    let r2 = rank.insert((nx, ny), t);
    assert(rank.contains_key((cx, cy)) && rank[(cx, cy)] < t);
    assert forall|x: int, y: int|
        0 <= x < w && 0 <= y < h && #[trigger] new_m.visited_at(x, y) implies r2.contains_key((x, y)) && r2[(x, y)] < t + 1
            && (!(x == sx && y == sy) ==> new_m.linked(x, y, r2)) by {
        if x == nx && y == ny {
            assert(r2[(cx, cy)] == rank[(cx, cy)]);
            assert(new_m.wall(x, y, opp) == false);
            if dir == 0 {
                assert(!new_m.wall(x, y, 2) && r2[(x, y + 1)] < r2[(x, y)]);
            } else if dir == 1 {
                assert(!new_m.wall(x, y, 3) && r2[(x - 1, y)] < r2[(x, y)]);
            } else if dir == 2 {
                assert(!new_m.wall(x, y, 0) && r2[(x, y - 1)] < r2[(x, y)]);
            } else {
                assert(!new_m.wall(x, y, 1) && r2[(x + 1, y)] < r2[(x, y)]);
            }
        } else {
            assert(old_m.visited_at(x, y));
            if !(x == sx && y == sy) {
                assert(old_m.linked(x, y, rank));
                assert(new_m.wall(x, y, 0) == if x == cx && y == cy && 0 == dir { false } else { old_m.wall(x, y, 0) });
                assert(new_m.wall(x, y, 1) == if x == cx && y == cy && 1 == dir { false } else { old_m.wall(x, y, 1) });
                assert(new_m.wall(x, y, 2) == if x == cx && y == cy && 2 == dir { false } else { old_m.wall(x, y, 2) });
                assert(new_m.wall(x, y, 3) == if x == cx && y == cy && 3 == dir { false } else { old_m.wall(x, y, 3) });
                if x > 0 && !old_m.wall(x, y, 3) && x - 1 == nx && y == ny {
                    assert(old_m.wall(x - 1, y, 1) == old_m.wall(x, y, 3));
                    assert(old_m.wall(nx, ny, 1));
                }
                if x + 1 < w && !old_m.wall(x, y, 1) && x + 1 == nx && y == ny {
                    assert(old_m.wall(x, y, 1) == old_m.wall(x + 1, y, 3));
                    assert(old_m.wall(nx, ny, 3));
                }
                if y > 0 && !old_m.wall(x, y, 0) && x == nx && y - 1 == ny {
                    assert(old_m.wall(x, y - 1, 2) == old_m.wall(x, y, 0));
                    assert(old_m.wall(nx, ny, 2));
                }
                if y + 1 < h && !old_m.wall(x, y, 2) && x == nx && y + 1 == ny {
                    assert(old_m.wall(x, y, 2) == old_m.wall(x, y + 1, 0));
                    assert(old_m.wall(nx, ny, 0));
                }
                assert(r2[(x, y)] == rank[(x, y)]);
                if x > 0 {
                    assert(!(x - 1 == nx && y == ny) ==> r2[(x - 1, y)] == rank[(x - 1, y)]);
                }
                if x + 1 < w {
                    assert(!(x + 1 == nx && y == ny) ==> r2[(x + 1, y)] == rank[(x + 1, y)]);
                }
                if y > 0 {
                    assert(!(x == nx && y - 1 == ny) ==> r2[(x, y - 1)] == rank[(x, y - 1)]);
                }
                if y + 1 < h {
                    assert(!(x == nx && y + 1 == ny) ==> r2[(x, y + 1)] == rank[(x, y + 1)]);
                }
            }
        }
    }
}

/// Popping a cell whose neighbours are all reached keeps every reached cell
/// off the stack closed.
proof fn lemma_pop_closed(m: Maze, before: Seq<(usize, usize)>, after: Seq<(usize, usize)>, cx: int, cy: int)
    requires
        m.closed_except(before),
        before == after.push((cx as usize, cy as usize)),
        0 <= cx < m.width,
        0 <= cy < m.height,
        cx > 0 ==> m.visited_at(cx - 1, cy),
        cx + 1 < m.width ==> m.visited_at(cx + 1, cy),
        cy > 0 ==> m.visited_at(cx, cy - 1),
        cy + 1 < m.height ==> m.visited_at(cx, cy + 1),
    ensures
        m.closed_except(after),
{
    let w = m.width as int;
    let h = m.height as int;
    assert forall|x: int, y: int|
        0 <= x < w && 0 <= y < h && #[trigger] m.visited_at(x, y) && !after.contains((x as usize, y as usize))
        implies (x > 0 ==> m.visited_at(x - 1, y)) && (x + 1 < w ==> m.visited_at(x + 1, y))
            && (y > 0 ==> m.visited_at(x, y - 1)) && (y + 1 < h ==> m.visited_at(x, y + 1)) by {
        if !(x == cx && y == cy) {
            if before.contains((x as usize, y as usize)) {
                let k = choose|k: int| 0 <= k < before.len() && before[k] == (x as usize, y as usize);
                if k < after.len() {
                    assert(after[k] == before[k]);
                }
            }
        }
    }
}

/// Pushing the one newly reached cell keeps every reached cell off the
/// stack closed.
proof fn lemma_push_closed(old_m: Maze, new_m: Maze, old_stack: Seq<(usize, usize)>, new_stack: Seq<(usize, usize)>, nx: int, ny: int)
    requires
        old_m.width == new_m.width,
        old_m.height == new_m.height,
        old_m.closed_except(old_stack),
        new_stack == old_stack.push((nx as usize, ny as usize)),
        0 <= nx < old_m.width,
        0 <= ny < old_m.height,
        forall|x: int, y: int| 0 <= x < old_m.width && 0 <= y < old_m.height ==> (#[trigger] new_m.visited_at(x, y)
            == (old_m.visited_at(x, y) || (x == nx && y == ny))),
    ensures
        new_m.closed_except(new_stack),
{
    let w = old_m.width as int;
    let h = old_m.height as int;
    assert forall|x: int, y: int|
        0 <= x < w && 0 <= y < h && #[trigger] new_m.visited_at(x, y) && !new_stack.contains((x as usize, y as usize))
        implies (x > 0 ==> new_m.visited_at(x - 1, y)) && (x + 1 < w ==> new_m.visited_at(x + 1, y))
            && (y > 0 ==> new_m.visited_at(x, y - 1)) && (y + 1 < h ==> new_m.visited_at(x, y + 1)) by {
        if x == nx && y == ny {
            assert(new_stack[new_stack.len() - 1] == (nx as usize, ny as usize));
        }
        if old_stack.contains((x as usize, y as usize)) {
            let k = choose|k: int| 0 <= k < old_stack.len() && old_stack[k] == (x as usize, y as usize);
            assert(new_stack[k] == old_stack[k]);
        }
        assert(old_m.visited_at(x, y));
        if x > 0 {
            assert(old_m.visited_at(x - 1, y));
        }
        if x + 1 < w {
            assert(old_m.visited_at(x + 1, y));
        }
        if y > 0 {
            assert(old_m.visited_at(x, y - 1));
        }
        if y + 1 < h {
            assert(old_m.visited_at(x, y + 1));
        }
    }
}

proof fn lemma_index_inj(x1: int, y1: int, x2: int, y2: int, w: int)
    requires
        0 <= x1 < w,
        0 <= x2 < w,
        0 <= y1,
        0 <= y2,
        y1 * w + x1 == y2 * w + x2,
    ensures
        x1 == x2 && y1 == y2,
{
    if y1 < y2 {
        assert((y1 + 1) * w <= y2 * w) by (nonlinear_arith)
            requires
                y1 + 1 <= y2,
                w >= 0,
        ;
        assert((y1 + 1) * w == y1 * w + w) by (nonlinear_arith);
    } else if y2 < y1 {
        assert((y2 + 1) * w <= y1 * w) by (nonlinear_arith)
            requires
                y2 + 1 <= y1,
                w >= 0,
        ;
        assert((y2 + 1) * w == y2 * w + w) by (nonlinear_arith);
    }
}

proof fn lemma_right(m: Maze, x0: int, y: int, n: int)
    requires
        m.closed_except(Seq::empty()),
        0 <= x0,
        0 <= y < m.height,
        0 <= n,
        x0 + n < m.width,
        m.visited_at(x0, y),
    ensures
        m.visited_at(x0 + n, y),
    decreases n,
{
    if n > 0 {
        lemma_right(m, x0, y, n - 1);
        assert(!Seq::<(usize, usize)>::empty().contains(((x0 + n - 1) as usize, y as usize)));
    }
}

proof fn lemma_left(m: Maze, x0: int, y: int, n: int)
    requires
        m.closed_except(Seq::empty()),
        x0 < m.width,
        0 <= y < m.height,
        0 <= n,
        0 <= x0 - n,
        m.visited_at(x0, y),
    ensures
        m.visited_at(x0 - n, y),
    decreases n,
{
    if n > 0 {
        lemma_left(m, x0, y, n - 1);
        assert(!Seq::<(usize, usize)>::empty().contains(((x0 - n + 1) as usize, y as usize)));
    }
}

proof fn lemma_down(m: Maze, x: int, y0: int, n: int)
    requires
        m.closed_except(Seq::empty()),
        0 <= x < m.width,
        0 <= y0,
        0 <= n,
        y0 + n < m.height,
        m.visited_at(x, y0),
    ensures
        m.visited_at(x, y0 + n),
    decreases n,
{
    if n > 0 {
        lemma_down(m, x, y0, n - 1);
        assert(!Seq::<(usize, usize)>::empty().contains((x as usize, (y0 + n - 1) as usize)));
    }
}

proof fn lemma_up(m: Maze, x: int, y0: int, n: int)
    requires
        m.closed_except(Seq::empty()),
        0 <= x < m.width,
        y0 < m.height,
        0 <= n,
        0 <= y0 - n,
        m.visited_at(x, y0),
    ensures
        m.visited_at(x, y0 - n),
    decreases n,
{
    if n > 0 {
        lemma_up(m, x, y0, n - 1);
        assert(!Seq::<(usize, usize)>::empty().contains((x as usize, (y0 - n + 1) as usize)));
    }
}

/// When no reached cell has an unreached neighbour, one reached cell means
/// all are reached.
proof fn lemma_spread(m: Maze, sx: int, sy: int)
    requires
        m.closed_except(Seq::empty()),
        0 <= sx < m.width,
        0 <= sy < m.height,
        m.visited_at(sx, sy),
    ensures
        m.all_visited(),
{
    assert forall|x: int, y: int| 0 <= x < m.width && 0 <= y < m.height implies #[trigger] m.visited_at(x, y) by {
        if x >= sx {
            lemma_right(m, sx, sy, x - sx);
        } else {
            lemma_left(m, sx, sy, sx - x);
        }
        if y >= sy {
            lemma_down(m, x, sy, y - sy);
        } else {
            lemma_up(m, x, sy, sy - y);
        }
    }
}

proof fn lemma_index_bound(x: int, y: int, w: int, h: int)
    requires
        0 <= x < w,
        0 <= y < h,
    ensures
        y * w + x < w * h,
        0 <= y * w + x,
{
    assert(y * w + x < w * h) by (nonlinear_arith)
        requires
            0 <= x < w,
            0 <= y < h,
    ;
    assert(0 <= y * w) by (nonlinear_arith)
        requires
            0 <= y,
            0 <= w,
    ;
}


/// The first `n` cells of the wall line of row `y`: two spaces and the
/// right wall of each cell.
pub open spec fn ascii_walls(m: Maze, y: int, n: int) -> Seq<char>
    decreases n,
{
    if n <= 0 {
        Seq::empty()
    } else {
        ascii_walls(m, y, n - 1) + seq![' ', ' ', if m.wall(n - 1, y, 1) { '|' } else { ' ' }]
    }
}

/// The first `n` cells of the floor line of row `y`: the bottom wall of
/// each cell and a corner.
pub open spec fn ascii_floors(m: Maze, y: int, n: int) -> Seq<char>
    decreases n,
{
    if n <= 0 {
        Seq::empty()
    } else {
        ascii_floors(m, y, n - 1) + (if m.wall(n - 1, y, 2) { "--"@ } else { "  "@ }) + seq!['+']
    }
}

/// The top border over `n` cells.
pub open spec fn ascii_top(n: int) -> Seq<char>
    decreases n,
{
    if n <= 0 {
        Seq::empty()
    } else {
        ascii_top(n - 1) + "--+"@
    }
}

/// The first `n` rows of the drawing, two lines each.
pub open spec fn ascii_rows(m: Maze, n: int) -> Seq<char>
    decreases n,
{
    if n <= 0 {
        Seq::empty()
    } else {
        ascii_rows(m, n - 1) + seq!['|'] + ascii_walls(m, n - 1, m.width as int) + seq!['\n'] + seq!['+']
            + ascii_floors(m, n - 1, m.width as int) + seq!['\n']
    }
}

impl Maze {
    /// The maze drawn with '+' corners, '|' side walls and "--" floors.
    pub fn to_ascii(&self) -> (s: String)
        requires
            self.wf(),
        ensures
            s@ == seq!['+'] + ascii_top(self.width as int) + seq!['\n'] + ascii_rows(*self, self.height as int),
    {
        let mut v: Vec<char> = Vec::new();
        v.push('+');
        let mut x: usize = 0;
        while x < self.width
            invariant
                x <= self.width,
                v@ == seq!['+'] + ascii_top(x as int),
            decreases self.width - x,
        {
            crate::text::push_text(&mut v, "--+");
            assert(v@ =~= seq!['+'] + ascii_top(x + 1));
            x = x + 1;
        }
        v.push('\n');
        let ghost head = v@;
        let mut y: usize = 0;
        while y < self.height
            invariant
                y <= self.height,
                self.wf(),
                v@ == head + ascii_rows(*self, y as int),
            decreases self.height - y,
        {
            let mut line1: Vec<char> = Vec::new();
            let mut line2: Vec<char> = Vec::new();
            line1.push('|');
            line2.push('+');
            let mut x: usize = 0;
            while x < self.width
                invariant
                    x <= self.width,
                    y < self.height,
                    self.wf(),
                    line1@ == seq!['|'] + ascii_walls(*self, y as int, x as int),
                    line2@ == seq!['+'] + ascii_floors(*self, y as int, x as int),
                decreases self.width - x,
            {
                let c = self.grid[self.idx(x, y)];
                line1.push(' ');
                line1.push(' ');
                line1.push(if c.walls[1] { '|' } else { ' ' });
                if c.walls[2] {
                    crate::text::push_text(&mut line2, "--");
                } else {
                    crate::text::push_text(&mut line2, "  ");
                }
                line2.push('+');
                assert(line1@ =~= seq!['|'] + ascii_walls(*self, y as int, x + 1));
                assert(line2@ =~= seq!['+'] + ascii_floors(*self, y as int, x + 1));
                x = x + 1;
            }
            let ghost before = v@;
            let mut k: usize = 0;
            while k < line1.len()
                invariant
                    k <= line1@.len(),
                    v@ == before + line1@.take(k as int),
                decreases line1@.len() - k,
            {
                v.push(line1[k]);
                assert(line1@.take(k + 1) =~= line1@.take(k as int).push(line1@[k as int]));
                k = k + 1;
            }
            v.push('\n');
            let ghost mid = v@;
            let mut k: usize = 0;
            while k < line2.len()
                invariant
                    k <= line2@.len(),
                    v@ == mid + line2@.take(k as int),
                decreases line2@.len() - k,
            {
                v.push(line2[k]);
                assert(line2@.take(k + 1) =~= line2@.take(k as int).push(line2@[k as int]));
                k = k + 1;
            }
            v.push('\n');
            assert(line1@.take(line1@.len() as int) =~= line1@);
            assert(line2@.take(line2@.len() as int) =~= line2@);
            assert(v@ =~= head + ascii_rows(*self, y + 1));
            y = y + 1;
        }
        crate::grid::string_from_chars(&v)
    }
}

} // verus!
