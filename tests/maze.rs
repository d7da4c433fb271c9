use ascii_maze::maze::{next_seed, Maze, MazeData};

fn reaches(maze: &Maze, from: (usize, usize), to: (usize, usize)) -> bool {
    let mut seen = vec![vec![false; maze.width]; maze.height];
    let mut todo = vec![from];
    seen[from.1][from.0] = true;
    while let Some((x, y)) = todo.pop() {
        if (x, y) == to {
            return true;
        }
        let mut next = Vec::new();
        if x > 0 {
            next.push((x - 1, y));
        }
        if y > 0 {
            next.push((x, y - 1));
        }
        next.push((x + 1, y));
        next.push((x, y + 1));
        for (nx, ny) in next {
            if !maze.is_wall(nx, ny) && !seen[ny][nx] {
                seen[ny][nx] = true;
                todo.push((nx, ny));
            }
        }
    }
    false
}

fn open_cells(maze: &Maze) -> Vec<(usize, usize)> {
    let mut v = Vec::new();
    for y in 0..maze.height {
        for x in 0..maze.width {
            if !maze.is_wall(x, y) {
                v.push((x, y));
            }
        }
    }
    v
}

#[test]
fn exit_reachable_from_start_for_many_seeds() {
    for seed in 0..200u64 {
        for &(w, h) in &[(5, 5), (8, 8), (9, 9), (12, 7), (21, 15)] {
            let maze = Maze::new(w, h, seed);
            assert!(reaches(&maze, maze.start, maze.exit), "seed {} size {}x{}", seed, w, h);
        }
    }
}

#[test]
fn every_open_cell_reachable_from_start() {
    for seed in [3u64, 17, 99, 12345] {
        let maze = Maze::new(11, 9, seed);
        for c in open_cells(&maze) {
            assert!(reaches(&maze, maze.start, c));
        }
    }
}

#[test]
fn exit_on_outer_edge_away_from_corners() {
    for seed in 0..300u64 {
        let maze = Maze::new(10, 8, seed);
        let (x, y) = maze.exit;
        assert!(x == 0 || x == 9 || y == 0 || y == 7);
        let corner = (x == 0 || x == 9) && (y == 0 || y == 7);
        assert!(!corner);
        assert!(!maze.is_wall(x, y));
    }
}

#[test]
fn start_is_open_interior_cell() {
    for seed in 0..100u64 {
        let maze = Maze::new(9, 9, seed);
        let (x, y) = maze.start;
        assert!(1 <= x && x <= 7 && 1 <= y && y <= 7);
        assert!(!maze.is_wall(x, y));
    }
}

#[test]
fn grid_has_requested_shape() {
    let maze = Maze::new(13, 6, 7);
    assert_eq!(maze.width, 13);
    assert_eq!(maze.height, 6);
    assert_eq!(maze.cells.len(), 6);
    assert!(maze.cells.iter().all(|r| r.len() == 13));
}

#[test]
fn same_seed_same_maze() {
    let a = Maze::new(15, 11, 2024);
    let b = Maze::new(15, 11, 2024);
    assert_eq!(a.cells, b.cells);
    assert_eq!(a.start, b.start);
    assert_eq!(a.exit, b.exit);
}

#[test]
fn exit_and_start_follow_the_seed() {
    let m0 = Maze::new(9, 9, 0);
    assert_eq!(m0.exit, (8, 5));
    assert_eq!(m0.start, (1, 6));
    let m1 = Maze::new(9, 9, 1);
    assert_eq!(m1.exit, (5, 8));
    assert_eq!(m1.start, (1, 1));
    let m42 = Maze::new(9, 9, 42);
    assert_eq!(m42.exit, (0, 1));
    assert_eq!(m42.start, (4, 7));
}

#[test]
fn cell_inside_exit_is_open() {
    for seed in 0..100u64 {
        let maze = Maze::new(9, 9, seed);
        let (x, y) = maze.exit;
        let inside = if y == 0 {
            (x, 1)
        } else if x == 8 {
            (7, y)
        } else if y == 8 {
            (x, 7)
        } else {
            (1, y)
        };
        assert!(!maze.is_wall(inside.0, inside.1));
    }
}

#[test]
fn smallest_maze_is_connected() {
    for seed in 0..50u64 {
        let maze = Maze::new(5, 5, seed);
        assert!(reaches(&maze, maze.start, maze.exit));
    }
}

#[test]
fn outside_the_grid_is_wall() {
    let maze = Maze::new(9, 9, 5);
    assert!(maze.is_wall(9, 0));
    assert!(maze.is_wall(0, 9));
    assert!(maze.is_wall(100, 100));
}

#[test]
fn next_seed_is_the_lcg_step() {
    assert_eq!(next_seed(0), 12345);
    assert_eq!(next_seed(1), 1103515245 + 12345);
    assert_eq!(next_seed(u64::MAX), u64::MAX.wrapping_mul(1103515245).wrapping_add(12345));
}

#[test]
fn maze_data_round_trip() {
    let maze = Maze::new(9, 9, 11);
    let data = MazeData::from(&maze);
    assert_eq!(data.cells, maze.cells);
    assert_eq!(data.start, maze.start);
    assert_eq!(data.exit, maze.exit);
    let back: Maze = data.into();
    assert_eq!(back.cells, maze.cells);
    assert_eq!(back.width, 9);
    assert_eq!(back.height, 9);
}
