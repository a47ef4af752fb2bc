use vstd::prelude::*;

verus! {

/// A position in the maze: `x` is the column (0 is leftmost), `y` the row
/// (0 is topmost).
#[derive(Debug, Clone, Copy, PartialEq, Eq, Structural)]
pub struct Coordinate {
    /// The column.
    pub x: i32,
    /// The row.
    pub y: i32,
}

/// One of the four sides of a cell.
#[derive(Debug, Clone, Copy, PartialEq, Eq, Structural)]
pub enum Direction {
    /// Towards the row above.
    North,
    /// Towards the column on the right.
    East,
    /// Towards the row below.
    South,
    /// Towards the column on the left.
    West,
}

/// A cell of the maze.
#[derive(Debug, Clone, Copy)]
pub struct Cell {
    /// Where the cell stands.
    pub coordinate: Coordinate,
    /// Whether the carver has reached the cell.
    pub visited: bool,
    /// The walls, indexed by `Direction::index`; `true` means the wall stands.
    pub walls: [bool; 4],
}

/// The error of building a maze.
#[derive(Debug, Clone, Copy, PartialEq, Eq, Structural)]
pub enum MazeError {
    /// A width or a height below one.
    InvalidDimensions,
}

/// A rectangular grid of cells, addressed as `maze[y][x]`.
#[derive(Clone, Debug)]
pub struct Maze {
    /// The number of columns.
    pub width: i32,
    /// The number of rows.
    pub height: i32,
    /// The rows of cells.
    pub maze: Vec<Vec<Cell>>,
}

impl Direction {
    /// The position of this side in a cell's wall array.
    pub open spec fn idx(self) -> int {
        match self {
            Direction::North => 0,
            Direction::East => 1,
            Direction::South => 2,
            Direction::West => 3,
        }
    }

    /// The column offset of a step in this direction.
    pub open spec fn dx(self) -> int {
        match self {
            Direction::East => 1,
            Direction::West => -1,
            _ => 0,
        }
    }

    /// The row offset of a step in this direction.
    pub open spec fn dy(self) -> int {
        match self {
            Direction::North => -1,
            Direction::South => 1,
            _ => 0,
        }
    }

    pub open spec fn spec_opposite(self) -> Direction {
        match self {
            Direction::North => Direction::South,
            Direction::East => Direction::West,
            Direction::South => Direction::North,
            Direction::West => Direction::East,
        }
    }

    /// The direction with the given position in a wall array.
    pub fn from_index(i: usize) -> (r: Direction)
        requires
            i < 4,
        ensures
            r.idx() == i,
    {
        match i {
            0 => Direction::North,
            1 => Direction::East,
            2 => Direction::South,
            _ => Direction::West,
        }
    }

    /// The position of this side in a cell's wall array.
    pub fn index(&self) -> (r: usize)
        ensures
            r == self.idx(),
    {
        match self {
            Direction::North => 0,
            Direction::East => 1,
            Direction::South => 2,
            Direction::West => 3,
        }
    }

    /// The side facing this one across a shared wall.
    pub fn opposite(&self) -> (r: Direction)
        ensures
            r == self.spec_opposite(),
    {
        match self {
            Direction::North => Direction::South,
            Direction::East => Direction::West,
            Direction::South => Direction::North,
            Direction::West => Direction::East,
        }
    }
}

impl Coordinate {
    /// The coordinate `(x, y)`.
    pub fn new(x: i32, y: i32) -> (r: Coordinate)
        ensures
            r.x == x,
            r.y == y,
    {
        Coordinate { x, y }
    }

    /// The coordinate one row up.
    pub fn north(&self) -> (r: Coordinate)
        requires
            self.y > i32::MIN,
        ensures
            r.x == self.x,
            r.y == self.y - 1,
    {
        Coordinate { x: self.x, y: self.y - 1 }
    }

    /// The coordinate one column right.
    pub fn east(&self) -> (r: Coordinate)
        requires
            self.x < i32::MAX,
        ensures
            r.x == self.x + 1,
            r.y == self.y,
    {
        Coordinate { x: self.x + 1, y: self.y }
    }

    /// The coordinate one row down.
    pub fn south(&self) -> (r: Coordinate)
        requires
            self.y < i32::MAX,
        ensures
            r.x == self.x,
            r.y == self.y + 1,
    {
        Coordinate { x: self.x, y: self.y + 1 }
    }

    /// The coordinate one column left.
    pub fn west(&self) -> (r: Coordinate)
        requires
            self.x > i32::MIN,
        ensures
            r.x == self.x - 1,
            r.y == self.y,
    {
        Coordinate { x: self.x - 1, y: self.y }
    }

    /// Whether the coordinate lies inside the maze.
    pub fn is_valide(&self, maze: &Maze) -> (r: bool)
        ensures
            r == maze.in_bounds(self.x as int, self.y as int),
    {
        self.x < maze.width && self.x >= 0 && self.y < maze.height && self.y >= 0
    }
}

impl Cell {
    /// A cell at `(x, y)`, not visited, with its four walls standing.
    pub fn new(x: i32, y: i32) -> (r: Cell)
        ensures
            r.coordinate == (Coordinate { x, y }),
            !r.visited,
            r.walls@ == seq![true, true, true, true],
    {
        Cell { coordinate: Coordinate::new(x, y), visited: false, walls: [true; 4] }
    }
}

impl Maze {
    pub open spec fn in_bounds(self, x: int, y: int) -> bool {
        0 <= x < self.width && 0 <= y < self.height
    }

    pub open spec fn cell(self, x: int, y: int) -> Cell {
        self.maze@[y]@[x]
    }

    /// Whether the wall on side `d` of the cell at `(x, y)` stands.
    pub open spec fn wall(self, x: int, y: int, d: Direction) -> bool {
        self.cell(x, y).walls@[d.idx()]
    }

    pub open spec fn visited(self, x: int, y: int) -> bool {
        self.cell(x, y).visited
    }

    /// The dimensions are positive, the rows match them, and each cell knows
    /// its own coordinate.
    pub open spec fn shaped(self) -> bool {
        &&& self.width >= 1
        &&& self.height >= 1
        &&& self.maze@.len() == self.height
        &&& forall|y: int| 0 <= y < self.height ==> (#[trigger] self.maze@[y])@.len() == self.width
        &&& forall|x: int, y: int|
            self.in_bounds(x, y) ==> (#[trigger] self.cell(x, y)).coordinate == (Coordinate {
                x: x as i32,
                y: y as i32,
            })
    }

    /// Two adjacent cells agree on the wall between them.
    pub open spec fn symmetric(self) -> bool {
        forall|x: int, y: int, d: Direction|
            self.in_bounds(x, y) && self.in_bounds(x + d.dx(), y + d.dy()) ==> #[trigger] self.wall(
                x,
                y,
                d,
            ) == self.wall(x + d.dx(), y + d.dy(), d.spec_opposite())
    }

    /// Every wall that faces out of the grid stands.
    pub open spec fn closed_boundary(self) -> bool {
        forall|x: int, y: int, d: Direction|
            self.in_bounds(x, y) && !self.in_bounds(x + d.dx(), y + d.dy()) ==> #[trigger] self.wall(
                x,
                y,
                d,
            )
    }

    /// No cell has been visited and every wall stands.
    pub open spec fn fresh(self) -> bool {
        &&& self.shaped()
        &&& forall|x: int, y: int| self.in_bounds(x, y) ==> !#[trigger] self.visited(x, y)
        &&& forall|x: int, y: int, d: Direction| self.in_bounds(x, y) ==> #[trigger] self.wall(x, y, d)
    }

    /// Whether the cell at `(x, y)` lies inside the maze and is not yet visited.
    pub open spec fn open_to(self, x: int, y: int) -> bool {
        self.in_bounds(x, y) && !self.visited(x, y)
    }

    /// The directions, in the order north, east, south, west, whose
    /// neighbour of `(x, y)` lies inside the maze and is not yet visited.
    pub open spec fn candidates(self, x: int, y: int) -> Seq<Direction> {
        let n = if self.open_to(x, y - 1) { seq![Direction::North] } else { seq![] };
        let e = if self.open_to(x + 1, y) { seq![Direction::East] } else { seq![] };
        let s = if self.open_to(x, y + 1) { seq![Direction::South] } else { seq![] };
        let w = if self.open_to(x - 1, y) { seq![Direction::West] } else { seq![] };
        n + e + s + w
    }

    /// `true` outside the maze; otherwise whether the cell was visited.
    pub fn is_visited(&self, coordinate: &Coordinate) -> (r: bool)
        requires
            self.shaped(),
        ensures
            r == (!self.in_bounds(coordinate.x as int, coordinate.y as int) || self.visited(
                coordinate.x as int,
                coordinate.y as int,
            )),
    {
        if !coordinate.is_valide(self) {
            true
        } else {
            self.maze[coordinate.y as usize][coordinate.x as usize].visited
        }
    }

    /// Marks the cell at `coordinate` visited; nothing happens outside the maze.
    pub fn visit(&mut self, coordinate: &Coordinate)
        requires
            old(self).shaped(),
        ensures
            final(self).shaped(),
            final(self).width == old(self).width,
            final(self).height == old(self).height,
            forall|x: int, y: int, d: Direction|
                old(self).in_bounds(x, y) ==> #[trigger] final(self).wall(x, y, d) == old(self).wall(
                    x,
                    y,
                    d,
                ),
            forall|x: int, y: int|
                old(self).in_bounds(x, y) ==> #[trigger] final(self).visited(x, y) == (old(
                    self,
                ).visited(x, y) || (x == coordinate.x && y == coordinate.y)),
    {
        let ghost pre = *self;
        if coordinate.is_valide(self) {
            self.maze[coordinate.y as usize][coordinate.x as usize].visited = true;
            assert forall|y: int| 0 <= y < self.height implies (#[trigger] self.maze@[y])@.len()
                == self.width by {
                assert(pre.maze@[y]@.len() == self.width);
            }
            assert forall|x: int, y: int| self.in_bounds(x, y) implies (#[trigger] self.cell(
                x,
                y,
            )).coordinate == pre.cell(x, y).coordinate by {
                assert(pre.maze@[y]@.len() == self.width);
            }
        }
    }

    /// The cell at `coordinate`, or `None` outside the maze.
    pub fn get_cell(&self, coordinate: &Coordinate) -> (r: Option<Cell>)
        requires
            self.shaped(),
        ensures
            self.in_bounds(coordinate.x as int, coordinate.y as int) <==> r is Some,
            r matches Some(c) ==> c == self.cell(coordinate.x as int, coordinate.y as int),
    {
        if coordinate.is_valide(self) {
            Some(self.maze[coordinate.y as usize][coordinate.x as usize])
        } else {
            None
        }
    }

    /// Takes down the wall on side `direction` of the cell at `coordinate`;
    /// nothing happens outside the maze. The wall seen from the other side
    /// is left as it is.
    pub fn remove_wall(&mut self, coordinate: &Coordinate, direction: &Direction)
        requires
            old(self).shaped(),
        ensures
            final(self).shaped(),
            final(self).width == old(self).width,
            final(self).height == old(self).height,
            forall|x: int, y: int, d: Direction|
                old(self).in_bounds(x, y) ==> #[trigger] final(self).wall(x, y, d) == (old(
                    self,
                ).wall(x, y, d) && !(x == coordinate.x && y == coordinate.y && d == *direction)),
            forall|x: int, y: int|
                old(self).in_bounds(x, y) ==> #[trigger] final(self).visited(x, y) == old(
                    self,
                ).visited(x, y),
    {
        let cell = self.get_cell(coordinate);
        if let Some(mut new_cell) = cell {
            let ghost pre = *self;
            new_cell.walls[direction.index()] = false;
            self.maze[coordinate.y as usize][coordinate.x as usize] = new_cell;
            assert forall|y: int| 0 <= y < self.height implies (#[trigger] self.maze@[y])@.len()
                == self.width by {
                assert(pre.maze@[y]@.len() == self.width);
            }
            assert forall|x: int, y: int| self.in_bounds(x, y) implies (#[trigger] self.cell(
                x,
                y,
            )).coordinate == pre.cell(x, y).coordinate by {
                assert(pre.maze@[y]@.len() == self.width);
            }
        }
    }

    /// The neighbours of `coordinate` that lie inside the maze and are not yet
    /// visited, in the order north, east, south, west, each with the
    /// direction that leads to it.
    pub fn get_neighbours(&self, coordinate: &Coordinate) -> (r: (Vec<Coordinate>, Vec<Direction>))
        requires
            self.shaped(),
        ensures
            r.1@ == self.candidates(coordinate.x as int, coordinate.y as int),
            r.0@.len() == r.1@.len(),
            forall|i: int|
                0 <= i < r.0@.len() ==> (#[trigger] r.0@[i]).x == coordinate.x + r.1@[i].dx() && r.0@[i].y
                    == coordinate.y + r.1@[i].dy(),
    {
        let mut neighbours: Vec<Coordinate> = Vec::new();
        let mut directions: Vec<Direction> = Vec::new();
        let ghost (x, y) = (coordinate.x as int, coordinate.y as int);
        if coordinate.y > 0 {
            let north = coordinate.north();
            if north.is_valide(self) && !self.is_visited(&north) {
                neighbours.push(north);
                directions.push(Direction::North);
            }
        }
        assert(directions@ =~= (if self.open_to(x, y - 1) { seq![Direction::North] } else { seq![] }));
        let ghost d1 = directions@;
        if coordinate.x < i32::MAX {
            let east = coordinate.east();
            if east.is_valide(self) && !self.is_visited(&east) {
                neighbours.push(east);
                directions.push(Direction::East);
            }
        }
        assert(directions@ =~= d1 + (if self.open_to(x + 1, y) { seq![Direction::East] } else { seq![] }));
        let ghost d2 = directions@;
        if coordinate.y < i32::MAX {
            let south = coordinate.south();
            if south.is_valide(self) && !self.is_visited(&south) {
                neighbours.push(south);
                directions.push(Direction::South);
            }
        }
        assert(directions@ =~= d2 + (if self.open_to(x, y + 1) { seq![Direction::South] } else { seq![] }));
        let ghost d3 = directions@;
        if coordinate.x > 0 {
            let west = coordinate.west();
            if west.is_valide(self) && !self.is_visited(&west) {
                neighbours.push(west);
                directions.push(Direction::West);
            }
        }
        assert(directions@ =~= d3 + (if self.open_to(x - 1, y) { seq![Direction::West] } else { seq![] }));
        (neighbours, directions)
    }

    /// A maze of `width` columns and `height` rows, with no cell visited
    /// and every wall standing; `InvalidDimensions` when either is below one.
    pub fn new(width: i32, height: i32) -> (r: Result<Maze, MazeError>)
        ensures
            width < 1 || height < 1 <==> r is Err,
            r is Err ==> r == Err::<Maze, MazeError>(MazeError::InvalidDimensions),
            r matches Ok(m) ==> m.width == width && m.height == height && m.fresh(),
    {
        if width < 1 || height < 1 {
            return Err(MazeError::InvalidDimensions);
        }
        let mut maze: Vec<Vec<Cell>> = Vec::new();
        let mut y: i32 = 0;
        while y < height
            invariant
                0 <= y <= height,
                width >= 1,
                maze@.len() == y,
                forall|j: int| 0 <= j < y ==> (#[trigger] maze@[j])@.len() == width,
                forall|i: int, j: int|
                    0 <= j < y && 0 <= i < width ==> {
                        let c = #[trigger] maze@[j]@[i];
                        &&& c.coordinate == (Coordinate { x: i as i32, y: j as i32 })
                        &&& !c.visited
                        &&& c.walls@ == seq![true, true, true, true]
                    },
            decreases height - y,
        {
            let mut line: Vec<Cell> = Vec::new();
            let mut x: i32 = 0;
            while x < width
                invariant
                    0 <= x <= width,
                    0 <= y < height,
                    line@.len() == x,
                    forall|i: int|
                        0 <= i < x ==> {
                            let c = #[trigger] line@[i];
                            &&& c.coordinate == (Coordinate { x: i as i32, y })
                            &&& !c.visited
                            &&& c.walls@ == seq![true, true, true, true]
                        },
                decreases width - x,
            {
                line.push(Cell::new(x, y));
                x = x + 1;
            }
            maze.push(line);
            y = y + 1;
        }
        let m = Maze { width, height, maze };
        assert forall|x: int, y: int, d: Direction| m.in_bounds(x, y) implies #[trigger] m.wall(
            x,
            y,
            d,
        ) by {
            assert(m.cell(x, y).walls@ == seq![true, true, true, true]);
        }
        Ok(m)
    }
}

} // verus!
