use crate::graph::{
    lemma_shortcut,
    lemma_connected_back,
    lemma_linked_back,
    lemma_connected_extend,
    lemma_connected_join,
    lemma_connected_mono,
    lemma_connected_self,
    lemma_grid_count_all,
    lemma_grid_count_bound,
    lemma_grid_count_none,
    lemma_grid_count_one_more,
    lemma_grid_count_same,
};
use crate::maze::{Cell, Coordinate, Direction, Maze};
use rand::Rng;
use vstd::prelude::*;

verus! {

/// The cell at `c`, as a pair of integers.
pub open spec fn pos(c: Coordinate) -> (int, int) {
    (c.x as int, c.y as int)
}

/// The coordinate one step from `c` in direction `d`.
pub open spec fn step(c: Coordinate, d: Direction) -> Coordinate {
    Coordinate { x: (c.x + d.dx()) as i32, y: (c.y + d.dy()) as i32 }
}

impl Maze {
    /// No neighbour of `(x, y)` inside the maze is left unvisited.
    pub open spec fn explored(self, x: int, y: int) -> bool {
        &&& !self.open_to(x, y - 1)
        &&& !self.open_to(x + 1, y)
        &&& !self.open_to(x, y + 1)
        &&& !self.open_to(x - 1, y)
    }

    /// The state of a depth-first carve with backtracking stack `stack`:
    /// the visited cells form a tree of passages grown from the top-left cell,
    /// unvisited cells keep all their walls, and a visited cell that has left
    /// the stack has no unvisited neighbour.
    pub open spec fn carving(self, stack: Seq<Coordinate>) -> bool {
        &&& self.shaped()
        &&& self.symmetric()
        &&& self.closed_boundary()
        &&& self.visited(0, 0)
        &&& forall|x: int, y: int, d: Direction|
            self.in_bounds(x, y) && !self.visited(x, y) ==> #[trigger] self.wall(x, y, d)
        &&& forall|i: int|
            0 <= i < stack.len() ==> self.in_bounds((#[trigger] stack[i]).x as int, stack[i].y as int)
                && self.visited(stack[i].x as int, stack[i].y as int)
        &&& forall|x: int, y: int|
            self.in_bounds(x, y) && #[trigger] self.visited(x, y) ==> stack.contains(
                Coordinate { x: x as i32, y: y as i32 },
            ) || self.explored(x, y)
        &&& forall|x: int, y: int|
            self.in_bounds(x, y) && #[trigger] self.visited(x, y) ==> self.connected((0, 0), (x, y))
        &&& self.passage_count() + 1 == self.visited_count()
        &&& self.unique_paths()
    }

    /// What a carve has left to do: twice the unvisited cells, plus the stack.
    pub open spec fn carving_measure(self, stack: Seq<Coordinate>) -> int {
        2 * (self.size() - self.visited_count()) + stack.len()
    }

    /// A perfect maze: walls agree across each shared side, the outer walls
    /// stand, every cell is visited, and the passages form a spanning tree:
    /// one fewer than the cells, and every cell reachable from every other.
    pub open spec fn perfect(self) -> bool {
        &&& self.shaped()
        &&& self.symmetric()
        &&& self.closed_boundary()
        &&& forall|x: int, y: int| self.in_bounds(x, y) ==> #[trigger] self.visited(x, y)
        &&& self.passage_count() == self.size() - 1
        &&& self.unique_paths()
        &&& forall|a: (int, int), b: (int, int)|
            self.in_bounds(a.0, a.1) && self.in_bounds(b.0, b.1) ==> #[trigger] self.connected(a, b)
    }

    /// `self` is `old` after the passage from `cur` in direction `d` was
    /// opened from both sides and the cell it leads to was visited.
    pub open spec fn carved_from(self, old: Maze, cur: Coordinate, d: Direction) -> bool {
        let next = step(cur, d);
        &&& self.shaped()
        &&& self.width == old.width
        &&& self.height == old.height
        &&& forall|x: int, y: int, e: Direction|
            old.in_bounds(x, y) ==> #[trigger] self.wall(x, y, e) == (old.wall(x, y, e) && !((x, y)
                == pos(cur) && e == d) && !((x, y) == pos(next) && e == d.spec_opposite()))
        &&& forall|x: int, y: int|
            old.in_bounds(x, y) ==> #[trigger] self.visited(x, y) == (old.visited(x, y) || (x, y)
                == pos(next))
    }

    /// `self` and `other` have the same dimensions and the same cells.
    pub open spec fn same_cells(self, other: Maze) -> bool {
        &&& self.shaped()
        &&& self.width == other.width
        &&& self.height == other.height
        &&& forall|x: int, y: int| self.in_bounds(x, y) ==> #[trigger] self.cell(x, y) == other.cell(x, y)
    }

    /// Starts a carve of a fresh maze: visits the top-left cell and returns
    /// the backtracking stack that holds it.
    pub fn begin_carving(&mut self) -> (stack: Vec<Coordinate>)
        requires
            old(self).fresh(),
        ensures
            final(self).carving(stack@),
            stack@ == seq![Coordinate { x: 0, y: 0 }],
            final(self).width == old(self).width,
            final(self).height == old(self).height,
            forall|x: int, y: int, d: Direction|
                old(self).in_bounds(x, y) ==> #[trigger] final(self).wall(x, y, d),
            forall|x: int, y: int|
                old(self).in_bounds(x, y) ==> #[trigger] final(self).visited(x, y) == (x == 0 && y
                    == 0),
    {
        let start = Coordinate::new(0, 0);
        let ghost pre = *self;
        self.visit(&start);
        let mut stack: Vec<Coordinate> = Vec::new();
        stack.push(start);
        proof {
            let m = *self;
            let (w, h) = (m.width as int, m.height as int);
            assert(stack@.contains(start)) by {
                assert(stack@[0] == start);
            }
            lemma_grid_count_none(w, h, m.east_fn());
            lemma_grid_count_none(w, h, m.south_fn());
            lemma_grid_count_none(w, h, pre.visited_fn());
            lemma_grid_count_one_more(w, h, pre.visited_fn(), m.visited_fn(), 0, 0);
            lemma_connected_self(m, (0, 0));
            lemma_unique_closed(m);
        }
        stack
    }

    /// One step of the depth-first carve. With `cur` on top of the stack:
    /// when `cur` has no unvisited neighbour, it is popped; otherwise the
    /// neighbour at position `pick % k` of its `k` candidates (see
    /// `get_neighbours`) is reached: the wall between the two comes down on
    /// both sides, the neighbour is visited and pushed.
    pub fn carve_step(&mut self, stack: &mut Vec<Coordinate>, pick: usize)
        requires
            old(self).carving(old(stack)@),
            old(stack)@.len() > 0,
        ensures
            final(self).carving(final(stack)@),
            0 <= final(self).carving_measure(final(stack)@) < old(self).carving_measure(old(stack)@),
            final(self).width == old(self).width,
            final(self).height == old(self).height,
            ({
                let cur = old(stack)@.last();
                let c = old(self).candidates(cur.x as int, cur.y as int);
                &&& c.len() == 0 ==> final(stack)@ == old(stack)@.drop_last() && *final(self) == *old(
                    self,
                )
                &&& c.len() > 0 ==> {
                    let d = c[pick as int % c.len() as int];
                    &&& final(stack)@ == old(stack)@.push(step(cur, d))
                    &&& final(self).carved_from(*old(self), cur, d)
                }
            }),
    {
        let ghost m1 = *self;
        let ghost s1 = stack@;
        let cur = stack[stack.len() - 1];
        let (neighbours, directions) = self.get_neighbours(&cur);
        proof {
            lemma_grid_count_bound(m1.width as int, m1.height as int, m1.visited_fn());
        }
        if neighbours.len() == 0 {
            stack.pop();
            proof {
                assert(s1.last() == cur);
                assert forall|x: int, y: int|
                    m1.in_bounds(x, y) && #[trigger] m1.visited(x, y) implies stack@.contains(
                    Coordinate { x: x as i32, y: y as i32 },
                ) || m1.explored(x, y) by {
                    let c = Coordinate { x: x as i32, y: y as i32 };
                    if c != cur && s1.contains(c) {
                        let i = choose|i: int| 0 <= i < s1.len() && s1[i] == c;
                        assert(stack@[i] == c);
                    }
                }
            }
        } else {
            let k = pick % neighbours.len();
            let next = neighbours[k];
            let d = directions[k];
            self.remove_wall(&cur, &d);
            self.remove_wall(&next, &d.opposite());
            self.visit(&cur);
            self.visit(&next);
            stack.push(next);
            proof {
                lemma_carve_step(m1, *self, s1, cur, d, next);
            }
        }
    }

    /// Carves a fresh maze into a perfect one by a randomized depth-first
    /// search from the top-left cell, choosing among the unvisited
    /// neighbours uniformly at random, and returns a copy of the result.
    pub fn generate(&mut self) -> (r: Maze)
        requires
            old(self).fresh(),
        ensures
            final(self).perfect(),
            final(self).width == old(self).width,
            final(self).height == old(self).height,
            r.same_cells(*final(self)),
            r.perfect(),
    {
        let mut stack = self.begin_carving();
        while stack.len() > 0
            invariant
                self.carving(stack@),
                self.width == old(self).width,
                self.height == old(self).height,
            decreases self.carving_measure(stack@),
        {
            proof {
                lemma_grid_count_bound(self.width as int, self.height as int, self.visited_fn());
            }
            let cur = stack[stack.len() - 1];
            let (neighbours, _) = self.get_neighbours(&cur);
            let pick = if neighbours.len() > 0 {
                random_index(neighbours.len())
            } else {
                0
            };
            self.carve_step(&mut stack, pick);
        }
        proof {
            lemma_finished_is_perfect(*self, stack@);
        }
        let r = self.snapshot();
        proof {
            lemma_same_cells_perfect(*self, r);
        }
        r
    }

    /// A copy of the maze, cell by cell.
    fn snapshot(&self) -> (r: Maze)
        requires
            self.shaped(),
        ensures
            r.same_cells(*self),
    {
        let mut maze: Vec<Vec<Cell>> = Vec::new();
        let mut y: usize = 0;
        while y < self.maze.len()
            invariant
                self.shaped(),
                0 <= y <= self.height,
                maze@.len() == y,
                forall|j: int| 0 <= j < y ==> (#[trigger] maze@[j])@.len() == self.width,
                forall|i: int, j: int|
                    0 <= j < y && 0 <= i < self.width ==> #[trigger] maze@[j]@[i] == self.cell(i, j),
            decreases self.height - y,
        {
            let mut line: Vec<Cell> = Vec::new();
            let mut x: usize = 0;
            while x < self.maze[y].len()
                invariant
                    self.shaped(),
                    0 <= y < self.height,
                    0 <= x <= self.width,
                    line@.len() == x,
                    forall|i: int| 0 <= i < x ==> #[trigger] line@[i] == self.cell(i, y as int),
                decreases self.width - x,
            {
                line.push(self.maze[y][x]);
                x = x + 1;
            }
            maze.push(line);
            y = y + 1;
        }
        Maze { width: self.width, height: self.height, maze }
    }
}

/// Relies on rand's `thread_rng` and `Rng::gen_range`, which returns a value
/// of the half-open range it is given and panics on an empty one.
#[verifier::external_body]
fn random_index(k: usize) -> (r: usize)
    requires
        k > 0,
    ensures
        r < k,
{
    rand::thread_rng().gen_range(0..k)
}

/// When a carve's stack runs empty, the maze is perfect.
pub proof fn lemma_finished_is_perfect(m: Maze, stack: Seq<Coordinate>)
    requires
        m.carving(stack),
        stack.len() == 0,
    ensures
        m.perfect(),
{
    let (w, h) = (m.width as int, m.height as int);
    assert forall|x: int, y: int| m.in_bounds(x, y) implies #[trigger] m.visited(x, y) by {
        lemma_reach(m, stack, x, y);
    }
    lemma_grid_count_all(w, h, m.visited_fn());
    assert forall|a: (int, int), b: (int, int)|
        m.in_bounds(a.0, a.1) && m.in_bounds(b.0, b.1) implies #[trigger] m.connected(a, b) by {
        assert(m.visited(a.0, a.1));
        assert(m.visited(b.0, b.1));
        lemma_connected_back(m, (0, 0), a);
        lemma_connected_join(m, a, (0, 0), b);
    }
}

/// In a perfect maze exactly one simple walk leads from any cell to any
/// other: one exists, and any two are the same.
pub proof fn lemma_exactly_one_path(m: Maze, a: (int, int), b: (int, int))
    requires
        m.perfect(),
        m.in_bounds(a.0, a.1),
        m.in_bounds(b.0, b.1),
    ensures
        exists|p: Seq<(int, int)>| #[trigger] m.is_simple_path(p) && p[0] == a && p.last() == b,
        forall|p: Seq<(int, int)>, q: Seq<(int, int)>|
            #![trigger m.is_simple_path(p), m.is_simple_path(q)]
            m.is_simple_path(p) && m.is_simple_path(q) && p[0] == a && p.last() == b && q[0] == a
                && q.last() == b ==> p == q,
{
    assert(m.connected(a, b));
    let p = choose|p: Seq<(int, int)>| #[trigger] m.is_path(p) && p[0] == a && p.last() == b;
    lemma_shortcut(m, p);
}

/// A perfect maze one cell wide or one cell high is a straight corridor:
/// every internal wall is down.
pub proof fn lemma_corridor(m: Maze)
    requires
        m.perfect(),
        m.width == 1 || m.height == 1,
    ensures
        forall|x: int, y: int|
            m.in_bounds(x, y) && m.in_bounds(x + 1, y) ==> !#[trigger] m.wall(x, y, Direction::East),
        forall|x: int, y: int|
            m.in_bounds(x, y) && m.in_bounds(x, y + 1) ==> !#[trigger] m.wall(x, y, Direction::South),
{
    assert forall|x: int, y: int| m.in_bounds(x, y) && m.in_bounds(x + 1, y) implies !#[trigger] m.wall(
        x,
        y,
        Direction::East,
    ) by {
        assert(m.connected((x, y), (x + 1, y)));
        let p = choose|p: Seq<(int, int)>| #[trigger] m.is_path(p) && p[0] == (x, y) && p.last() == (x
            + 1, y);
        let k = lemma_crossing(m, p, x, true);
        assert(m.hop(p, k));
    }
    assert forall|x: int, y: int| m.in_bounds(x, y) && m.in_bounds(x, y + 1) implies !#[trigger] m.wall(
        x,
        y,
        Direction::South,
    ) by {
        assert(m.connected((x, y), (x, y + 1)));
        let p = choose|p: Seq<(int, int)>| #[trigger] m.is_path(p) && p[0] == (x, y) && p.last() == (x,
            y + 1);
        let k = lemma_crossing(m, p, y, false);
        assert(m.hop(p, k));
    }
}

/// A walk that starts at or before line `c` and ends after it steps across
/// it somewhere: columns when `across_columns`, rows otherwise.
proof fn lemma_crossing(m: Maze, p: Seq<(int, int)>, c: int, across_columns: bool) -> (k: int)
    requires
        m.is_path(p),
        across_columns ==> p[0].0 <= c < p.last().0,
        !across_columns ==> p[0].1 <= c < p.last().1,
    ensures
        0 <= k < p.len() - 1,
        across_columns ==> p[k].0 <= c < p[k + 1].0,
        !across_columns ==> p[k].1 <= c < p[k + 1].1,
    decreases p.len(),
{
    let n = p.len();
    if across_columns && p[n - 2].0 <= c {
        n - 2
    } else if !across_columns && p[n - 2].1 <= c {
        n - 2
    } else {
        let q = p.drop_last();
        assert forall|i: int| 0 <= i < q.len() - 1 implies #[trigger] m.hop(q, i) by {
            assert(m.hop(p, i));
        }
        lemma_crossing(m, q, c, across_columns)
    }
}

proof fn lemma_reach(m: Maze, stack: Seq<Coordinate>, x: int, y: int)
    requires
        m.carving(stack),
        stack.len() == 0,
        m.in_bounds(x, y),
    ensures
        m.visited(x, y),
    decreases x + y,
{
    if x > 0 {
        lemma_reach(m, stack, x - 1, y);
        assert(m.explored(x - 1, y));
    } else if y > 0 {
        lemma_reach(m, stack, x, y - 1);
        assert(m.explored(x, y - 1));
    }
}

proof fn lemma_same_cells_perfect(m: Maze, r: Maze)
    requires
        m.perfect(),
        r.same_cells(m),
    ensures
        r.perfect(),
{
    let (w, h) = (m.width as int, m.height as int);
    assert(m.opened_into(r));
    assert forall|a: (int, int), b: (int, int)|
        r.in_bounds(a.0, a.1) && r.in_bounds(b.0, b.1) implies #[trigger] r.connected(a, b) by {
        assert(m.connected(a, b));
        lemma_connected_mono(m, r, a, b);
    }
    assert(r.opened_into(m));
    assert forall|p: Seq<(int, int)>, q: Seq<(int, int)>|
        r.is_simple_path(p) && r.is_simple_path(q) && p[0] == q[0] && p.last() == q.last() implies p
        == q by {
        lemma_simple_path_mono(r, m, p);
        lemma_simple_path_mono(r, m, q);
    }
    lemma_grid_count_same(w, h, m.east_fn(), r.east_fn());
    lemma_grid_count_same(w, h, m.south_fn(), r.south_fn());
    assert(forall|x: int, y: int| r.in_bounds(x, y) ==> #[trigger] r.visited(x, y) == m.visited(x, y));
    assert forall|x: int, y: int, d: Direction|
        r.in_bounds(x, y) && r.in_bounds(x + d.dx(), y + d.dy()) implies #[trigger] r.wall(x, y, d)
        == r.wall(x + d.dx(), y + d.dy(), d.spec_opposite()) by {
        assert(r.cell(x + d.dx(), y + d.dy()) == m.cell(x + d.dx(), y + d.dy()));
        assert(m.wall(x, y, d) == m.wall(x + d.dx(), y + d.dy(), d.spec_opposite()));
    }
    assert forall|x: int, y: int, d: Direction|
        r.in_bounds(x, y) && !r.in_bounds(x + d.dx(), y + d.dy()) implies #[trigger] r.wall(
        x,
        y,
        d,
    ) by {
        assert(m.wall(x, y, d));
    }
}

/// A carve step that reaches a new cell keeps the carve's invariant.
proof fn lemma_carve_step(
    m1: Maze,
    m2: Maze,
    s1: Seq<Coordinate>,
    cur: Coordinate,
    d: Direction,
    next: Coordinate,
)
    requires
        m1.carving(s1),
        s1.len() > 0,
        cur == s1.last(),
        next == step(cur, d),
        m1.open_to(next.x as int, next.y as int),
        m2.carved_from(m1, cur, d),
    ensures
        m2.carving(s1.push(next)),
        m2.carving_measure(s1.push(next)) < m1.carving_measure(s1),
        m2.carving_measure(s1.push(next)) >= 0,
{
    let (w, h) = (m1.width as int, m1.height as int);
    let (cx, cy) = pos(cur);
    let (nx, ny) = pos(next);
    let s2 = s1.push(next);
    let od = d.spec_opposite();
    assert(s1[s1.len() - 1] == cur);
    assert(m1.in_bounds(cx, cy) && m1.visited(cx, cy));
    assert(m1.wall(nx, ny, od));
    assert(m1.wall(cx, cy, d) == m1.wall(nx, ny, od));
    assert forall|x: int, y: int, e: Direction|
        m2.in_bounds(x, y) && m2.in_bounds(x + e.dx(), y + e.dy()) implies #[trigger] m2.wall(x, y, e)
        == m2.wall(x + e.dx(), y + e.dy(), e.spec_opposite()) by {
        assert(m1.wall(x, y, e) == m1.wall(x + e.dx(), y + e.dy(), e.spec_opposite()));
    }
    assert forall|x: int, y: int, e: Direction|
        m2.in_bounds(x, y) && !m2.in_bounds(x + e.dx(), y + e.dy()) implies #[trigger] m2.wall(
        x,
        y,
        e,
    ) by {
        assert(m1.wall(x, y, e));
    }
    assert forall|x: int, y: int, e: Direction|
        m2.in_bounds(x, y) && !m2.visited(x, y) implies #[trigger] m2.wall(x, y, e) by {
        assert(m1.wall(x, y, e));
    }
    assert forall|i: int| 0 <= i < s2.len() implies m2.in_bounds((#[trigger] s2[i]).x as int, s2[i].y as int)
        && m2.visited(s2[i].x as int, s2[i].y as int) by {
        if i < s1.len() {
            assert(s2[i] == s1[i]);
        }
    }
    assert forall|x: int, y: int|
        m2.in_bounds(x, y) && #[trigger] m2.visited(x, y) implies s2.contains(
        Coordinate { x: x as i32, y: y as i32 },
    ) || m2.explored(x, y) by {
        let c = Coordinate { x: x as i32, y: y as i32 };
        if (x, y) == pos(next) {
            assert(s2[s1.len() as int] == c);
        } else {
            assert(m1.visited(x, y));
            if s1.contains(c) {
                let i = choose|i: int| 0 <= i < s1.len() && s1[i] == c;
                assert(s2[i] == c);
            } else {
                assert(m1.explored(x, y));
            }
        }
    }
    assert(m1.opened_into(m2));
    assert(m2.opens(pos(cur), d, pos(next)));
    assert(m2.linked(pos(cur), pos(next))) by {
        if d == Direction::North {
        } else if d == Direction::East {
        } else if d == Direction::South {
        } else {
        }
    }
    assert forall|x: int, y: int|
        m2.in_bounds(x, y) && #[trigger] m2.visited(x, y) implies m2.connected((0, 0), (x, y)) by {
        if (x, y) == pos(next) {
            assert(m1.connected((0, 0), pos(cur)));
            lemma_connected_mono(m1, m2, (0, 0), pos(cur));
            lemma_connected_extend(m2, (0, 0), pos(cur), pos(next));
        } else {
            assert(m1.visited(x, y));
            lemma_connected_mono(m1, m2, (0, 0), (x, y));
        }
    }
    assert forall|a: int, b: int|
        0 <= a < w && 0 <= b < h && !(a == nx && b == ny) implies #[trigger] m1.visited_fn()(a, b)
        == m2.visited_fn()(a, b) by {
        assert(m2.visited(a, b) == m1.visited(a, b));
    }
    lemma_grid_count_one_more(w, h, m1.visited_fn(), m2.visited_fn(), nx, ny);
    lemma_grid_count_bound(w, h, m2.visited_fn());
    lemma_unique_step(m1, m2, cur, d);
    let (ex, ey) = if d == Direction::East || d == Direction::South {
        (cx, cy)
    } else {
        (nx, ny)
    };
    if d == Direction::East || d == Direction::West {
        assert forall|a: int, b: int|
            0 <= a < w && 0 <= b < h && !(a == ex && b == ey) implies #[trigger] m1.east_fn()(a, b)
            == m2.east_fn()(a, b) by {
            assert(m2.wall(a, b, Direction::East) == m1.wall(a, b, Direction::East));
        }
        assert forall|a: int, b: int| 0 <= a < w && 0 <= b < h implies #[trigger] m1.south_fn()(a, b)
            == m2.south_fn()(a, b) by {
            assert(m2.wall(a, b, Direction::South) == m1.wall(a, b, Direction::South));
        }
        assert(m2.wall(ex, ey, Direction::East) == false);
        lemma_grid_count_one_more(w, h, m1.east_fn(), m2.east_fn(), ex, ey);
        lemma_grid_count_same(w, h, m1.south_fn(), m2.south_fn());
    } else {
        assert forall|a: int, b: int|
            0 <= a < w && 0 <= b < h && !(a == ex && b == ey) implies #[trigger] m1.south_fn()(a, b)
            == m2.south_fn()(a, b) by {
            assert(m2.wall(a, b, Direction::South) == m1.wall(a, b, Direction::South));
        }
        assert forall|a: int, b: int| 0 <= a < w && 0 <= b < h implies #[trigger] m1.east_fn()(a, b)
            == m2.east_fn()(a, b) by {
            assert(m2.wall(a, b, Direction::East) == m1.wall(a, b, Direction::East));
        }
        assert(m2.wall(ex, ey, Direction::South) == false);
        lemma_grid_count_one_more(w, h, m1.south_fn(), m2.south_fn(), ex, ey);
        lemma_grid_count_same(w, h, m1.east_fn(), m2.east_fn());
    }
}

proof fn lemma_simple_path_mono(m1: Maze, m2: Maze, p: Seq<(int, int)>)
    requires
        m1.opened_into(m2),
        m1.is_simple_path(p),
    ensures
        m2.is_simple_path(p),
{
    assert forall|i: int| 0 <= i < p.len() - 1 implies #[trigger] m2.hop(p, i) by {
        assert(m1.hop(p, i));
    }
}

/// With every wall standing, a simple walk is a single cell.
proof fn lemma_unique_closed(m: Maze)
    requires
        m.shaped(),
        forall|x: int, y: int, d: Direction| m.in_bounds(x, y) ==> #[trigger] m.wall(x, y, d),
    ensures
        m.unique_paths(),
{
    assert forall|p: Seq<(int, int)>, q: Seq<(int, int)>|
        m.is_simple_path(p) && m.is_simple_path(q) && p[0] == q[0] && p.last() == q.last() implies p
        == q by {
        if p.len() > 1 {
            assert(m.hop(p, 0));
        }
        if q.len() > 1 {
            assert(m.hop(q, 0));
        }
        assert(p =~= q);
    }
}

/// `m2` is `m1` with one new passage, from the visited cell `cur` to the
/// unvisited cell beyond it in direction `d`, all of whose walls stood.
pub open spec fn grows(m1: Maze, m2: Maze, cur: Coordinate, d: Direction) -> bool {
    let next = step(cur, d);
    &&& m1.shaped()
    &&& m1.symmetric()
    &&& m1.in_bounds(cur.x as int, cur.y as int)
    &&& m1.in_bounds(next.x as int, next.y as int)
    &&& next.x == cur.x + d.dx()
    &&& next.y == cur.y + d.dy()
    &&& forall|e: Direction| #[trigger] m1.wall(next.x as int, next.y as int, e)
    &&& m2.carved_from(m1, cur, d)
}

/// Only `cur` is linked to the new cell, from either side.
proof fn lemma_new_links(m1: Maze, m2: Maze, cur: Coordinate, d: Direction, a: (int, int))
    requires
        grows(m1, m2, cur, d),
    ensures
        m2.linked(a, pos(step(cur, d))) ==> a == pos(cur),
        m2.linked(pos(step(cur, d)), a) ==> a == pos(cur),
{
    let n = pos(step(cur, d));
    if m2.linked(a, n) {
        let e = if m2.opens(a, Direction::North, n) {
            Direction::North
        } else if m2.opens(a, Direction::East, n) {
            Direction::East
        } else if m2.opens(a, Direction::South, n) {
            Direction::South
        } else {
            Direction::West
        };
        assert(m2.opens(a, e, n));
        assert(m1.wall(a.0, a.1, e) == m1.wall(n.0, n.1, e.spec_opposite()));
        assert(m1.wall(n.0, n.1, e.spec_opposite()));
    }
    if m2.linked(n, a) {
        let e = if m2.opens(n, Direction::North, a) {
            Direction::North
        } else if m2.opens(n, Direction::East, a) {
            Direction::East
        } else if m2.opens(n, Direction::South, a) {
            Direction::South
        } else {
            Direction::West
        };
        assert(m2.opens(n, e, a));
        assert(m1.wall(n.0, n.1, e));
    }
}

/// A passage of `m2` between two old cells is a passage of `m1`.
proof fn lemma_old_link(m1: Maze, m2: Maze, cur: Coordinate, d: Direction, a: (int, int), b: (
    int,
    int,
))
    requires
        grows(m1, m2, cur, d),
        m2.linked(a, b),
        a != pos(step(cur, d)),
        b != pos(step(cur, d)),
    ensures
        m1.linked(a, b),
{
    let e = if m2.opens(a, Direction::North, b) {
        Direction::North
    } else if m2.opens(a, Direction::East, b) {
        Direction::East
    } else if m2.opens(a, Direction::South, b) {
        Direction::South
    } else {
        Direction::West
    };
    assert(m2.opens(a, e, b));
    assert(m1.opens(a, e, b));
}

/// A simple walk of `m2` that avoids the new cell is one of `m1`.
proof fn lemma_old_path(m1: Maze, m2: Maze, cur: Coordinate, d: Direction, p: Seq<(int, int)>)
    requires
        grows(m1, m2, cur, d),
        m2.is_simple_path(p),
        !p.contains(pos(step(cur, d))),
    ensures
        m1.is_simple_path(p),
{
    assert forall|i: int| 0 <= i < p.len() - 1 implies #[trigger] m1.hop(p, i) by {
        assert(m2.hop(p, i));
        lemma_old_link(m1, m2, cur, d, p[i], p[i + 1]);
    }
}

/// The new cell can only stand at an end of a simple walk of `m2`.
proof fn lemma_new_at_end(m1: Maze, m2: Maze, cur: Coordinate, d: Direction, p: Seq<(int, int)>, i: int)
    requires
        grows(m1, m2, cur, d),
        m2.is_simple_path(p),
        0 < i < p.len() - 1,
    ensures
        p[i] != pos(step(cur, d)),
{
    if p[i] == pos(step(cur, d)) {
        assert(m2.hop(p, i - 1));
        assert(m2.hop(p, i));
        lemma_new_links(m1, m2, cur, d, p[i - 1]);
        lemma_new_links(m1, m2, cur, d, p[i + 1]);
    }
}

/// Where `p` and `q` end at the new cell and share their start, they are equal.
proof fn lemma_unique_to_new(
    m1: Maze,
    m2: Maze,
    cur: Coordinate,
    d: Direction,
    p: Seq<(int, int)>,
    q: Seq<(int, int)>,
)
    requires
        grows(m1, m2, cur, d),
        m1.unique_paths(),
        m2.is_simple_path(p),
        m2.is_simple_path(q),
        p[0] == q[0],
        p[0] != pos(step(cur, d)),
        p.last() == pos(step(cur, d)),
        q.last() == pos(step(cur, d)),
    ensures
        p == q,
{
    let n = pos(step(cur, d));
    let pp = p.drop_last();
    let qq = q.drop_last();
    assert(m2.hop(p, p.len() - 2));
    assert(m2.hop(q, q.len() - 2));
    lemma_new_links(m1, m2, cur, d, p[p.len() - 2]);
    lemma_new_links(m1, m2, cur, d, q[q.len() - 2]);
    assert forall|i: int| 0 <= i < pp.len() - 1 implies #[trigger] m2.hop(pp, i) by {
        assert(m2.hop(p, i));
    }
    assert forall|i: int| 0 <= i < qq.len() - 1 implies #[trigger] m2.hop(qq, i) by {
        assert(m2.hop(q, i));
    }
    assert(!pp.contains(n)) by {
        if pp.contains(n) {
            let i = choose|i: int| 0 <= i < pp.len() && pp[i] == n;
            assert(p[i] == p[p.len() - 1]);
        }
    }
    assert(!qq.contains(n)) by {
        if qq.contains(n) {
            let i = choose|i: int| 0 <= i < qq.len() && qq[i] == n;
            assert(q[i] == q[q.len() - 1]);
        }
    }
    assert(m2.is_simple_path(pp));
    assert(m2.is_simple_path(qq));
    lemma_old_path(m1, m2, cur, d, pp);
    lemma_old_path(m1, m2, cur, d, qq);
    assert(pp[0] == qq[0]);
    assert(pp.last() == qq.last());
    assert(pp == qq);
    assert(p =~= pp.push(n));
    assert(q =~= qq.push(n));
}

/// Reverses a simple walk.
proof fn lemma_reverse_simple(m: Maze, p: Seq<(int, int)>)
    requires
        m.symmetric(),
        m.is_simple_path(p),
    ensures
        m.is_simple_path(p.reverse()),
        p.reverse()[0] == p.last(),
        p.reverse().last() == p[0],
        p.reverse().reverse() == p,
{
    let q = p.reverse();
    let n = p.len();
    assert forall|i: int| 0 <= i < n implies m.in_bounds(#[trigger] q[i].0, q[i].1) by {
        assert(q[i] == p[n - 1 - i]);
    }
    assert forall|i: int| 0 <= i < n - 1 implies #[trigger] m.hop(q, i) by {
        let j = n - 2 - i;
        assert(m.hop(p, j));
        assert(q[i] == p[j + 1]);
        assert(q[i + 1] == p[j]);
        lemma_linked_back(m, p[j], p[j + 1]);
    }
    assert forall|i: int, j: int| 0 <= i < n && 0 <= j < n && i != j implies q[i] != q[j] by {
        assert(q[i] == p[n - 1 - i]);
        assert(q[j] == p[n - 1 - j]);
    }
    assert(q.reverse() =~= p);
}

/// Adding a passage to a new cell keeps simple walks unique.
proof fn lemma_unique_step(m1: Maze, m2: Maze, cur: Coordinate, d: Direction)
    requires
        grows(m1, m2, cur, d),
        m1.unique_paths(),
        m2.symmetric(),
    ensures
        m2.unique_paths(),
{
    let n = pos(step(cur, d));
    assert forall|p: Seq<(int, int)>, q: Seq<(int, int)>|
        m2.is_simple_path(p) && m2.is_simple_path(q) && p[0] == q[0] && p.last() == q.last() implies p
        == q by {
        let a = p[0];
        let b = p.last();
        if a == n && b == n {
            if p.len() > 1 {
                assert(p[0] == p[p.len() - 1]);
            }
            if q.len() > 1 {
                assert(q[0] == q[q.len() - 1]);
            }
            assert(p =~= q);
        } else if b == n {
            lemma_unique_to_new(m1, m2, cur, d, p, q);
        } else if a == n {
            lemma_reverse_simple(m2, p);
            lemma_reverse_simple(m2, q);
            lemma_unique_to_new(m1, m2, cur, d, p.reverse(), q.reverse());
        } else {
            assert(!p.contains(n)) by {
                if p.contains(n) {
                    let i = choose|i: int| 0 <= i < p.len() && p[i] == n;
                    lemma_new_at_end(m1, m2, cur, d, p, i);
                }
            }
            assert(!q.contains(n)) by {
                if q.contains(n) {
                    let i = choose|i: int| 0 <= i < q.len() && q[i] == n;
                    lemma_new_at_end(m1, m2, cur, d, q, i);
                }
            }
            lemma_old_path(m1, m2, cur, d, p);
            lemma_old_path(m1, m2, cur, d, q);
        }
    }
}

} // verus!
