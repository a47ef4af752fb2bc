use crate::maze::{Direction, Maze};
use vstd::arithmetic::div_mod::{
    lemma_fundamental_div_mod,
    lemma_fundamental_div_mod_converse,
    lemma_mod_pos_bound,
};
use vstd::prelude::*;

verus! {

/// The number of `i` in `[0, n)` with `f(i)`.
pub open spec fn count(n: int, f: spec_fn(int) -> bool) -> nat
    decreases n,
{
    if n <= 0 {
        0
    } else {
        count(n - 1, f) + if f(n - 1) {
            1nat
        } else {
            0nat
        }
    }
}

/// `f` read on cell numbers: cell `i` of a grid `w` wide is `(i % w, i / w)`.
pub open spec fn flat(w: int, f: spec_fn(int, int) -> bool) -> spec_fn(int) -> bool {
    |i: int| f(i % w, i / w)
}

/// The number of cells `(x, y)` of a `w` by `h` grid with `f(x, y)`.
pub open spec fn grid_count(w: int, h: int, f: spec_fn(int, int) -> bool) -> nat {
    count(w * h, flat(w, f))
}

proof fn lemma_count_bound(n: int, f: spec_fn(int) -> bool)
    requires
        n >= 0,
    ensures
        count(n, f) <= n,
    decreases n,
{
    if n > 0 {
        lemma_count_bound(n - 1, f);
    }
}

proof fn lemma_count_all(n: int, f: spec_fn(int) -> bool)
    requires
        n >= 0,
        forall|i: int| 0 <= i < n ==> #[trigger] f(i),
    ensures
        count(n, f) == n,
    decreases n,
{
    if n > 0 {
        lemma_count_all(n - 1, f);
    }
}

proof fn lemma_count_none(n: int, f: spec_fn(int) -> bool)
    requires
        forall|i: int| 0 <= i < n ==> !#[trigger] f(i),
    ensures
        count(n, f) == 0,
    decreases n,
{
    if n > 0 {
        lemma_count_none(n - 1, f);
    }
}

proof fn lemma_count_same(n: int, f: spec_fn(int) -> bool, g: spec_fn(int) -> bool)
    requires
        forall|i: int| 0 <= i < n ==> #[trigger] f(i) == g(i),
    ensures
        count(n, f) == count(n, g),
    decreases n,
{
    if n > 0 {
        lemma_count_same(n - 1, f, g);
    }
}

proof fn lemma_count_one_more(n: int, f: spec_fn(int) -> bool, g: spec_fn(int) -> bool, j: int)
    requires
        0 <= j < n,
        !f(j),
        g(j),
        forall|i: int| 0 <= i < n && i != j ==> #[trigger] f(i) == g(i),
    ensures
        count(n, g) == count(n, f) + 1,
    decreases n,
{
    if j == n - 1 {
        lemma_count_same(n - 1, f, g);
    } else {
        lemma_count_one_more(n - 1, f, g, j);
    }
}

/// Cell `(x, y)` has the number `y * w + x`.
pub proof fn lemma_cell_number(w: int, h: int, x: int, y: int)
    requires
        0 <= x < w,
        0 <= y < h,
    ensures
        0 <= y * w + x < w * h,
        (y * w + x) % w == x,
        (y * w + x) / w == y,
{
    lemma_fundamental_div_mod_converse(y * w + x, w, y, x);
    assert(0 <= y * w + x < w * h) by (nonlinear_arith)
        requires
            0 <= x < w,
            0 <= y < h,
    ;
}

/// Cell number `i` stands for `(i % w, i / w)`, a cell of the grid.
pub proof fn lemma_number_cell(w: int, h: int, i: int)
    requires
        w > 0,
        0 <= i < w * h,
    ensures
        0 <= i % w < w,
        0 <= i / w < h,
        i == (i / w) * w + i % w,
{
    lemma_fundamental_div_mod(i, w);
    lemma_mod_pos_bound(i, w);
    let q = i / w;
    let r = i % w;
    assert(0 <= q < h) by (nonlinear_arith)
        requires
            i == w * q + r,
            0 <= r < w,
            0 <= i < w * h,
            w > 0,
    ;
    assert(i == q * w + r) by (nonlinear_arith)
        requires
            i == w * q + r,
    ;
}

pub proof fn lemma_grid_count_bound(w: int, h: int, f: spec_fn(int, int) -> bool)
    requires
        w > 0,
        h > 0,
    ensures
        grid_count(w, h, f) <= w * h,
{
    assert(w * h > 0) by (nonlinear_arith)
        requires
            w > 0,
            h > 0,
    ;
    lemma_count_bound(w * h, flat(w, f));
}

pub proof fn lemma_grid_count_all(w: int, h: int, f: spec_fn(int, int) -> bool)
    requires
        w > 0,
        h > 0,
        forall|x: int, y: int| 0 <= x < w && 0 <= y < h ==> #[trigger] f(x, y),
    ensures
        grid_count(w, h, f) == w * h,
{
    assert(w * h > 0) by (nonlinear_arith)
        requires
            w > 0,
            h > 0,
    ;
    assert forall|i: int| 0 <= i < w * h implies #[trigger] flat(w, f)(i) by {
        lemma_number_cell(w, h, i);
    }
    lemma_count_all(w * h, flat(w, f));
}

pub proof fn lemma_grid_count_none(w: int, h: int, f: spec_fn(int, int) -> bool)
    requires
        w > 0,
        forall|x: int, y: int| 0 <= x < w && 0 <= y < h ==> !#[trigger] f(x, y),
    ensures
        grid_count(w, h, f) == 0,
{
    assert forall|i: int| 0 <= i < w * h implies !#[trigger] flat(w, f)(i) by {
        lemma_number_cell(w, h, i);
    }
    lemma_count_none(w * h, flat(w, f));
}

pub proof fn lemma_grid_count_same(
    w: int,
    h: int,
    f: spec_fn(int, int) -> bool,
    g: spec_fn(int, int) -> bool,
)
    requires
        w > 0,
        forall|x: int, y: int| 0 <= x < w && 0 <= y < h ==> #[trigger] f(x, y) == g(x, y),
    ensures
        grid_count(w, h, f) == grid_count(w, h, g),
{
    assert forall|i: int| 0 <= i < w * h implies #[trigger] flat(w, f)(i) == flat(w, g)(i) by {
        lemma_number_cell(w, h, i);
    }
    lemma_count_same(w * h, flat(w, f), flat(w, g));
}

pub proof fn lemma_grid_count_one_more(
    w: int,
    h: int,
    f: spec_fn(int, int) -> bool,
    g: spec_fn(int, int) -> bool,
    x: int,
    y: int,
)
    requires
        0 <= x < w,
        0 <= y < h,
        !f(x, y),
        g(x, y),
        forall|a: int, b: int|
            0 <= a < w && 0 <= b < h && !(a == x && b == y) ==> #[trigger] f(a, b) == g(a, b),
    ensures
        grid_count(w, h, g) == grid_count(w, h, f) + 1,
{
    let j = y * w + x;
    lemma_cell_number(w, h, x, y);
    assert forall|i: int| 0 <= i < w * h && i != j implies #[trigger] flat(w, f)(i) == flat(w, g)(
        i,
    ) by {
        lemma_number_cell(w, h, i);
    }
    lemma_count_one_more(w * h, flat(w, f), flat(w, g), j);
}

impl Maze {
    /// The number of cells.
    pub open spec fn size(self) -> int {
        self.width * self.height
    }

    pub open spec fn visited_fn(self) -> spec_fn(int, int) -> bool {
        |x: int, y: int| self.visited(x, y)
    }

    /// The number of visited cells.
    pub open spec fn visited_count(self) -> nat {
        grid_count(self.width as int, self.height as int, self.visited_fn())
    }

    /// Whether the cell at `(x, y)` has an open passage to the cell east of it.
    pub open spec fn east_open(self, x: int, y: int) -> bool {
        self.in_bounds(x + 1, y) && !self.wall(x, y, Direction::East)
    }

    /// Whether the cell at `(x, y)` has an open passage to the cell south of it.
    pub open spec fn south_open(self, x: int, y: int) -> bool {
        self.in_bounds(x, y + 1) && !self.wall(x, y, Direction::South)
    }

    pub open spec fn east_fn(self) -> spec_fn(int, int) -> bool {
        |x: int, y: int| self.east_open(x, y)
    }

    pub open spec fn south_fn(self) -> spec_fn(int, int) -> bool {
        |x: int, y: int| self.south_open(x, y)
    }

    /// The number of passages: internal walls taken down, each counted once
    /// (from the cell west of it or north of it).
    pub open spec fn passage_count(self) -> nat {
        grid_count(self.width as int, self.height as int, self.east_fn()) + grid_count(
            self.width as int,
            self.height as int,
            self.south_fn(),
        )
    }

    /// Whether `b` is the neighbour of `a` in direction `d` and the wall
    /// between them is down on `a`'s side.
    pub open spec fn opens(self, a: (int, int), d: Direction, b: (int, int)) -> bool {
        b == (a.0 + d.dx(), a.1 + d.dy()) && !self.wall(a.0, a.1, d)
    }

    /// Whether a passage leads from cell `a` to cell `b`.
    pub open spec fn linked(self, a: (int, int), b: (int, int)) -> bool {
        &&& self.in_bounds(a.0, a.1)
        &&& self.in_bounds(b.0, b.1)
        &&& {
            ||| self.opens(a, Direction::North, b)
            ||| self.opens(a, Direction::East, b)
            ||| self.opens(a, Direction::South, b)
            ||| self.opens(a, Direction::West, b)
        }
    }

    /// Step `i` of `p` goes through a passage.
    pub open spec fn hop(self, p: Seq<(int, int)>, i: int) -> bool {
        self.linked(p[i], p[i + 1])
    }

    /// `p` is a walk through the maze: a non-empty sequence of cells, each
    /// reached from the one before through a passage.
    pub open spec fn is_path(self, p: Seq<(int, int)>) -> bool {
        &&& p.len() > 0
        &&& forall|i: int| 0 <= i < p.len() ==> self.in_bounds(#[trigger] p[i].0, p[i].1)
        &&& forall|i: int| 0 <= i < p.len() - 1 ==> #[trigger] self.hop(p, i)
    }

    /// Some walk through the maze leads from `a` to `b`.
    pub open spec fn connected(self, a: (int, int), b: (int, int)) -> bool {
        exists|p: Seq<(int, int)>| #[trigger] self.is_path(p) && p[0] == a && p.last() == b
    }

    /// `p` is a walk that passes no cell twice.
    pub open spec fn is_simple_path(self, p: Seq<(int, int)>) -> bool {
        self.is_path(p) && p.no_duplicates()
    }

    /// Between any two cells there is at most one simple walk.
    pub open spec fn unique_paths(self) -> bool {
        forall|p: Seq<(int, int)>, q: Seq<(int, int)>|
            #![trigger self.is_simple_path(p), self.is_simple_path(q)]
            self.is_simple_path(p) && self.is_simple_path(q) && p[0] == q[0] && p.last() == q.last()
                ==> p == q
    }

    /// Every wall that is down in `self` is down in `other`, on a grid of the
    /// same dimensions.
    pub open spec fn opened_into(self, other: Maze) -> bool {
        &&& self.width == other.width
        &&& self.height == other.height
        &&& forall|x: int, y: int, d: Direction|
            self.in_bounds(x, y) && !self.wall(x, y, d) ==> !#[trigger] other.wall(x, y, d)
    }
}

pub proof fn lemma_connected_mono(m1: Maze, m2: Maze, a: (int, int), b: (int, int))
    requires
        m1.opened_into(m2),
        m1.connected(a, b),
    ensures
        m2.connected(a, b),
{
    let p = choose|p: Seq<(int, int)>| #[trigger] m1.is_path(p) && p[0] == a && p.last() == b;
    assert forall|i: int| 0 <= i < p.len() - 1 implies #[trigger] m2.hop(p, i) by {
        assert(m1.hop(p, i));
    }
    assert(m2.is_path(p));
}

pub proof fn lemma_connected_extend(m: Maze, a: (int, int), b: (int, int), c: (int, int))
    requires
        m.connected(a, b),
        m.linked(b, c),
    ensures
        m.connected(a, c),
{
    let p = choose|p: Seq<(int, int)>| #[trigger] m.is_path(p) && p[0] == a && p.last() == b;
    let q = p.push(c);
    assert forall|i: int| 0 <= i < q.len() - 1 implies #[trigger] m.hop(q, i) by {
        if i < p.len() - 1 {
            assert(m.hop(p, i));
        }
    }
    assert(m.is_path(q));
}

pub proof fn lemma_connected_self(m: Maze, a: (int, int))
    requires
        m.in_bounds(a.0, a.1),
    ensures
        m.connected(a, a),
{
    let p = seq![a];
    assert(m.is_path(p));
}

pub proof fn lemma_linked_back(m: Maze, a: (int, int), b: (int, int))
    requires
        m.symmetric(),
        m.linked(a, b),
    ensures
        m.linked(b, a),
{
    if m.opens(a, Direction::North, b) {
        assert(m.wall(a.0, a.1, Direction::North) == m.wall(b.0, b.1, Direction::South));
        assert(m.opens(b, Direction::South, a));
    } else if m.opens(a, Direction::East, b) {
        assert(m.wall(a.0, a.1, Direction::East) == m.wall(b.0, b.1, Direction::West));
        assert(m.opens(b, Direction::West, a));
    } else if m.opens(a, Direction::South, b) {
        assert(m.wall(a.0, a.1, Direction::South) == m.wall(b.0, b.1, Direction::North));
        assert(m.opens(b, Direction::North, a));
    } else {
        assert(m.wall(a.0, a.1, Direction::West) == m.wall(b.0, b.1, Direction::East));
        assert(m.opens(b, Direction::East, a));
    }
}

pub proof fn lemma_connected_back(m: Maze, a: (int, int), b: (int, int))
    requires
        m.symmetric(),
        m.connected(a, b),
    ensures
        m.connected(b, a),
{
    let p = choose|p: Seq<(int, int)>| #[trigger] m.is_path(p) && p[0] == a && p.last() == b;
    let q = p.reverse();
    let n = p.len();
    assert forall|i: int| 0 <= i < n implies m.in_bounds(#[trigger] q[i].0, q[i].1) by {
        assert(q[i] == p[n - 1 - i]);
    }
    assert forall|i: int| 0 <= i < n - 1 implies #[trigger] m.hop(q, i) by {
        let j = n - 2 - i;
        assert(m.hop(p, j));
        assert(q[i] == p[j + 1]);
        assert(q[i + 1] == p[j]);
        lemma_linked_back(m, p[j], p[j + 1]);
    }
    assert(m.is_path(q));
    assert(q[0] == b);
    assert(q.last() == a);
}

pub proof fn lemma_connected_join(m: Maze, a: (int, int), b: (int, int), c: (int, int))
    requires
        m.connected(a, b),
        m.connected(b, c),
    ensures
        m.connected(a, c),
{
    let p = choose|p: Seq<(int, int)>| #[trigger] m.is_path(p) && p[0] == a && p.last() == b;
    let q = choose|q: Seq<(int, int)>| #[trigger] m.is_path(q) && q[0] == b && q.last() == c;
    let r = p + q.subrange(1, q.len() as int);
    let n = p.len();
    assert forall|i: int| 0 <= i < r.len() implies m.in_bounds(#[trigger] r[i].0, r[i].1) by {
        if i >= n {
            assert(r[i] == q[i - n + 1]);
        }
    }
    assert forall|i: int| 0 <= i < r.len() - 1 implies #[trigger] m.hop(r, i) by {
        if i < n - 1 {
            assert(m.hop(p, i));
        } else {
            let j = i - n + 1;
            assert(m.hop(q, j));
            assert(r[i] == q[j]);
            assert(r[i + 1] == q[j + 1]);
        }
    }
    assert(m.is_path(r));
    if q.len() > 1 {
        assert(r.last() == q.last());
    } else {
        assert(r.last() == p.last());
    }
}

/// Every walk from `a` to `b` can be shortened into a simple walk from `a` to `b`.
pub proof fn lemma_shortcut(m: Maze, p: Seq<(int, int)>)
    requires
        m.is_path(p),
    ensures
        exists|q: Seq<(int, int)>| #[trigger] m.is_simple_path(q) && q[0] == p[0] && q.last() == p.last(),
    decreases p.len(),
{
    if p.no_duplicates() {
        assert(m.is_simple_path(p));
    } else {
        let (i0, j0) = choose|i: int, j: int|
            0 <= i < p.len() && 0 <= j < p.len() && i != j && p[i] == p[j];
        let (i, j) = if i0 < j0 {
            (i0, j0)
        } else {
            (j0, i0)
        };
        let r = p.subrange(0, i) + p.subrange(j, p.len() as int);
        assert forall|k: int| 0 <= k < r.len() implies m.in_bounds(#[trigger] r[k].0, r[k].1) by {
            if k >= i {
                assert(r[k] == p[k - i + j]);
            }
        }
        assert forall|k: int| 0 <= k < r.len() - 1 implies #[trigger] m.hop(r, k) by {
            if k < i - 1 {
                assert(m.hop(p, k));
            } else if k == i - 1 {
                assert(m.hop(p, k));
                assert(r[k + 1] == p[j]);
            } else {
                assert(m.hop(p, k - i + j));
                assert(r[k] == p[k - i + j]);
                assert(r[k + 1] == p[k + 1 - i + j]);
            }
        }
        assert(r[0] == p[0]) by {
            if i == 0 {
                assert(r[0] == p[j]);
            }
        }
        assert(r.last() == p.last());
        lemma_shortcut(m, r);
    }
}

} // verus!
