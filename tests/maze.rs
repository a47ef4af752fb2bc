use dante::maze::{Cell, Coordinate, Direction, Maze, MazeError};
use rand::rngs::StdRng;
use rand::{Rng, SeedableRng};

fn fresh(width: i32, height: i32) -> Maze {
    Maze::new(width, height).unwrap()
}

fn wall(m: &Maze, x: i32, y: i32, d: Direction) -> bool {
    m.maze[y as usize][x as usize].walls[d.index()]
}

fn carve_seeded(m: &mut Maze, seed: u64) {
    let mut rng = StdRng::seed_from_u64(seed);
    let mut stack = m.begin_carving();
    while !stack.is_empty() {
        let pick: usize = rng.gen_range(0..12);
        m.carve_step(&mut stack, pick);
    }
}

const DIRS: [Direction; 4] = [
    Direction::North,
    Direction::East,
    Direction::South,
    Direction::West,
];

fn offset(d: Direction) -> (i32, i32) {
    match d {
        Direction::North => (0, -1),
        Direction::East => (1, 0),
        Direction::South => (0, 1),
        Direction::West => (-1, 0),
    }
}

fn inside(m: &Maze, x: i32, y: i32) -> bool {
    0 <= x && x < m.width && 0 <= y && y < m.height
}

/// Number of removed internal walls, each counted once.
fn passages(m: &Maze) -> usize {
    let mut n = 0;
    for y in 0..m.height {
        for x in 0..m.width {
            if x + 1 < m.width && !wall(m, x, y, Direction::East) {
                n += 1;
            }
            if y + 1 < m.height && !wall(m, x, y, Direction::South) {
                n += 1;
            }
        }
    }
    n
}

/// Checks symmetry, closed boundary, coverage, passage count and
/// connectivity (hence a spanning tree, hence unique simple paths).
fn assert_perfect(m: &Maze) {
    let (w, h) = (m.width, m.height);
    for y in 0..h {
        for x in 0..w {
            assert!(m.maze[y as usize][x as usize].visited);
            for d in DIRS {
                let (dx, dy) = offset(d);
                let (nx, ny) = (x + dx, y + dy);
                if inside(m, nx, ny) {
                    assert_eq!(wall(m, x, y, d), wall(m, nx, ny, d.opposite()));
                } else {
                    assert!(wall(m, x, y, d));
                }
            }
        }
    }
    assert_eq!(passages(m), (w * h - 1) as usize);
    let mut seen = vec![vec![false; w as usize]; h as usize];
    let mut todo = vec![(0i32, 0i32)];
    seen[0][0] = true;
    let mut reached = 1;
    while let Some((x, y)) = todo.pop() {
        for d in DIRS {
            let (dx, dy) = offset(d);
            let (nx, ny) = (x + dx, y + dy);
            if inside(m, nx, ny) && !wall(m, x, y, d) && !seen[ny as usize][nx as usize] {
                seen[ny as usize][nx as usize] = true;
                reached += 1;
                todo.push((nx, ny));
            }
        }
    }
    assert_eq!(reached, w * h);
}

#[test]
fn new_rejects_zero_height() {
    let r = Maze::new(5, 0);
    assert!(matches!(r, Err(MazeError::InvalidDimensions)));
}

#[test]
fn new_rejects_negative_width() {
    assert!(matches!(Maze::new(-1, 3), Err(MazeError::InvalidDimensions)));
}

#[test]
fn new_builds_fresh_grid() {
    let m = fresh(3, 2);
    assert_eq!(m.width, 3);
    assert_eq!(m.height, 2);
    assert_eq!(m.maze.len(), 2);
    for y in 0..2 {
        assert_eq!(m.maze[y].len(), 3);
        for x in 0..3 {
            let c = m.maze[y][x];
            assert_eq!(c.coordinate, Coordinate::new(x as i32, y as i32));
            assert!(!c.visited);
            assert_eq!(c.walls, [true; 4]);
        }
    }
}

#[test]
fn render_one_by_one() {
    let mut m = fresh(1, 1);
    let g = m.generate();
    assert_eq!(g.render(), "Maze of size 1x1\n###\n#*#\n###\n");
    assert_eq!(passages(&g), 0);
}

#[test]
fn render_two_by_one() {
    let mut m = fresh(2, 1);
    let g = m.generate();
    assert_eq!(g.render(), "Maze of size 2x1\n######\n#****#\n######\n");
    assert!(!wall(&g, 0, 0, Direction::East));
    assert!(!wall(&g, 1, 0, Direction::West));
}

#[test]
fn render_one_by_two() {
    let mut m = fresh(1, 2);
    let g = m.generate();
    assert_eq!(
        g.render(),
        "Maze of size 1x2\n###\n#*#\n#*#\n#*#\n#*#\n###\n"
    );
}

#[test]
fn render_header_has_both_numbers() {
    let m = fresh(12, 3);
    let text = m.render();
    assert!(text.starts_with("Maze of size 12x3\n"));
    assert_eq!(text.len(), "Maze of size 12x3".len() + 1 + 3 * 3 * (3 * 12 + 1));
}

#[test]
fn cell_format_draws_open_sides() {
    let mut c = Cell::new(0, 0);
    assert_eq!(c.format(), vec!["###", "#*#", "###"]);
    c.walls[Direction::North.index()] = false;
    c.walls[Direction::East.index()] = false;
    assert_eq!(c.format(), vec!["#*#", "#**", "###"]);
    c.walls[Direction::South.index()] = false;
    c.walls[Direction::West.index()] = false;
    assert_eq!(c.format(), vec!["#*#", "***", "#*#"]);
}

#[test]
fn corridor_row() {
    let mut m = fresh(7, 1);
    let g = m.generate();
    assert_perfect(&g);
    for x in 0..6 {
        assert!(!wall(&g, x, 0, Direction::East));
    }
    assert_eq!(passages(&g), 6);
}

#[test]
fn corridor_column() {
    let mut m = fresh(1, 5);
    let g = m.generate();
    assert_perfect(&g);
    for y in 0..4 {
        assert!(!wall(&g, 0, y, Direction::South));
    }
}

#[test]
fn two_by_two_removes_three_walls() {
    let mut outcomes = std::collections::HashSet::new();
    for seed in 0..200 {
        let mut m = fresh(2, 2);
        carve_seeded(&mut m, seed);
        assert_perfect(&m);
        assert_eq!(passages(&m), 3);
        outcomes.insert(m.render());
    }
    assert_eq!(outcomes.len(), 2);
}

#[test]
fn three_by_three_fixed_seed() {
    let mut m = fresh(3, 3);
    carve_seeded(&mut m, 42);
    assert_perfect(&m);
    assert_eq!(passages(&m), 8);
}

#[test]
fn ten_by_ten_many_seeds() {
    for seed in 0..1000 {
        let mut m = fresh(10, 10);
        carve_seeded(&mut m, seed);
        assert_perfect(&m);
    }
}

#[test]
fn generate_ten_by_ten_is_perfect() {
    let mut m = fresh(10, 10);
    let g = m.generate();
    assert_perfect(&g);
    assert_perfect(&m);
    assert_eq!(g.render(), m.render());
}

#[test]
fn generate_rectangular_is_perfect() {
    let mut m = fresh(13, 4);
    let g = m.generate();
    assert_perfect(&g);
}

#[test]
fn carve_step_picks_by_remainder() {
    let mut m = fresh(3, 3);
    let mut stack = m.begin_carving();
    assert_eq!(stack, vec![Coordinate::new(0, 0)]);
    // candidates of (0, 0) are east then south: pick 3 selects south.
    m.carve_step(&mut stack, 3);
    assert_eq!(stack, vec![Coordinate::new(0, 0), Coordinate::new(0, 1)]);
    assert!(!wall(&m, 0, 0, Direction::South));
    assert!(!wall(&m, 0, 1, Direction::North));
    assert!(m.is_visited(&Coordinate::new(0, 1)));
    // pick 0 selects the north-most candidate in N, E, S, W order: east.
    m.carve_step(&mut stack, 0);
    assert_eq!(stack.last(), Some(&Coordinate::new(1, 1)));
    assert!(!wall(&m, 0, 1, Direction::East));
}

#[test]
fn carve_step_pops_dead_end() {
    let mut m = fresh(1, 1);
    let mut stack = m.begin_carving();
    m.carve_step(&mut stack, 5);
    assert!(stack.is_empty());
    assert_eq!(m.maze[0][0].walls, [true; 4]);
}

#[test]
fn direction_opposite() {
    assert_eq!(Direction::North.opposite(), Direction::South);
    assert_eq!(Direction::East.opposite(), Direction::West);
    assert_eq!(Direction::South.opposite(), Direction::North);
    assert_eq!(Direction::West.opposite(), Direction::East);
}

#[test]
fn direction_indices() {
    for i in 0..4 {
        assert_eq!(Direction::from_index(i).index(), i);
    }
    assert_eq!(Direction::from_index(2), Direction::South);
}

#[test]
fn coordinate_steps() {
    let c = Coordinate::new(4, 7);
    assert_eq!(c.north(), Coordinate::new(4, 6));
    assert_eq!(c.east(), Coordinate::new(5, 7));
    assert_eq!(c.south(), Coordinate::new(4, 8));
    assert_eq!(c.west(), Coordinate::new(3, 7));
}

#[test]
fn coordinate_validity() {
    let m = fresh(3, 2);
    assert!(Coordinate::new(0, 0).is_valide(&m));
    assert!(Coordinate::new(2, 1).is_valide(&m));
    assert!(!Coordinate::new(3, 1).is_valide(&m));
    assert!(!Coordinate::new(0, 2).is_valide(&m));
    assert!(!Coordinate::new(-1, 0).is_valide(&m));
}

#[test]
fn visited_outside_is_true() {
    let mut m = fresh(2, 2);
    assert!(m.is_visited(&Coordinate::new(-1, 0)));
    assert!(m.is_visited(&Coordinate::new(0, 2)));
    assert!(!m.is_visited(&Coordinate::new(1, 1)));
    m.visit(&Coordinate::new(1, 1));
    assert!(m.is_visited(&Coordinate::new(1, 1)));
    m.visit(&Coordinate::new(5, 5));
    assert!(!m.is_visited(&Coordinate::new(0, 0)));
}

#[test]
fn get_cell_inside_and_outside() {
    let m = fresh(2, 2);
    let c = m.get_cell(&Coordinate::new(1, 0)).unwrap();
    assert_eq!(c.coordinate, Coordinate::new(1, 0));
    assert!(m.get_cell(&Coordinate::new(2, 0)).is_none());
    assert!(m.get_cell(&Coordinate::new(0, -1)).is_none());
}

#[test]
fn remove_wall_one_side_only() {
    let mut m = fresh(2, 2);
    m.remove_wall(&Coordinate::new(0, 0), &Direction::East);
    assert!(!wall(&m, 0, 0, Direction::East));
    assert!(wall(&m, 1, 0, Direction::West));
    m.remove_wall(&Coordinate::new(9, 9), &Direction::East);
    assert_eq!(passages(&m), 1);
}

#[test]
fn neighbours_in_order() {
    let mut m = fresh(3, 3);
    let (n, d) = m.get_neighbours(&Coordinate::new(1, 1));
    assert_eq!(
        d,
        vec![Direction::North, Direction::East, Direction::South, Direction::West]
    );
    assert_eq!(
        n,
        vec![
            Coordinate::new(1, 0),
            Coordinate::new(2, 1),
            Coordinate::new(1, 2),
            Coordinate::new(0, 1)
        ]
    );
    m.visit(&Coordinate::new(2, 1));
    let (_, d) = m.get_neighbours(&Coordinate::new(1, 1));
    assert_eq!(d, vec![Direction::North, Direction::South, Direction::West]);
    let (n, d) = m.get_neighbours(&Coordinate::new(0, 0));
    assert_eq!(d, vec![Direction::East, Direction::South]);
    assert_eq!(n.len(), 2);
    let (n, _) = m.get_neighbours(&Coordinate::new(i32::MIN, i32::MAX));
    assert!(n.is_empty());
}
