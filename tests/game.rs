use ascii_maze::game::{initial_facing, level_side, maze_map, Facing};
use ascii_maze::maze::Maze;

fn maze_with(w: usize, h: usize, open: &[(usize, usize)], start: (usize, usize)) -> Maze {
    let mut cells = vec![vec![true; w]; h];
    for &(x, y) in open {
        cells[y][x] = false;
    }
    Maze { width: w, height: h, cells, start, exit: (w - 1, 1) }
}

#[test]
fn level_sides_grow_by_one() {
    assert_eq!(level_side(1), 8);
    assert_eq!(level_side(5), 12);
}

#[test]
fn facing_prefers_east_then_south_then_west_then_north() {
    let east = maze_with(5, 5, &[(2, 2), (3, 2), (2, 3)], (2, 2));
    assert_eq!(initial_facing(&east), Facing::East);
    let south = maze_with(5, 5, &[(2, 2), (2, 3), (1, 2)], (2, 2));
    assert_eq!(initial_facing(&south), Facing::South);
    let west = maze_with(5, 5, &[(2, 2), (1, 2), (2, 1)], (2, 2));
    assert_eq!(initial_facing(&west), Facing::West);
    let north = maze_with(5, 5, &[(2, 2), (2, 1)], (2, 2));
    assert_eq!(initial_facing(&north), Facing::North);
    let closed = maze_with(5, 5, &[(2, 2)], (2, 2));
    assert_eq!(initial_facing(&closed), Facing::TowardExit);
}

#[test]
fn generated_start_has_open_neighbour() {
    for seed in 0..100u64 {
        let maze = Maze::new(9, 9, seed);
        assert_ne!(initial_facing(&maze), Facing::TowardExit);
    }
}

#[test]
fn map_marks_start_exit_walls_and_floor() {
    let maze = maze_with(5, 3, &[(1, 1), (2, 1), (3, 1), (4, 1)], (1, 1));
    let text: String = maze_map(&maze, (1, 1), (4, 1)).into_iter().collect();
    assert_eq!(text, "\u{2588}\u{2588}\u{2588}\u{2588}\u{2588}\n\u{2588}P  E\n\u{2588}\u{2588}\u{2588}\u{2588}\u{2588}\n");
}

#[test]
fn map_has_one_line_per_row() {
    let maze = Maze::new(9, 7, 3);
    let text: String = maze_map(&maze, maze.start, maze.exit).into_iter().collect();
    let lines: Vec<&str> = text.lines().collect();
    assert_eq!(lines.len(), 7);
    assert!(lines.iter().all(|l| l.chars().count() == 9));
    assert_eq!(text.matches('P').count(), 1);
    assert_eq!(text.matches('E').count(), 1);
}
