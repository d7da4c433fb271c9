use ascii_maze::maze::Maze;
use ascii_maze::raycast::{CellHit, RayWalk, WALL_EAST, WALL_NORTH, WALL_SOUTH, WALL_WEST};

/// A 9 x 9 maze of walls with the given cells open.
fn maze_with(open: &[(usize, usize)], start: (usize, usize), exit: (usize, usize)) -> Maze {
    let mut cells = vec![vec![true; 9]; 9];
    for &(x, y) in open {
        cells[y][x] = false;
    }
    Maze { width: 9, height: 9, cells, start, exit }
}

#[test]
fn east_ray_hits_east_face_of_next_cell() {
    let maze = maze_with(&[(1, 1)], (1, 1), (4, 8));
    let mut walk = RayWalk::new(1, 1, true, true, None);
    assert!(!walk.advance(true));
    assert_eq!((walk.map_x, walk.map_y), (2, 1));
    assert_eq!(walk.classify(&maze), CellHit::Wall);
    assert_eq!(walk.wall_type(), WALL_EAST);
}

#[test]
fn wall_faces_follow_axis_and_direction() {
    let maze = maze_with(&[(4, 4)], (4, 4), (4, 8));
    let mut west = RayWalk::new(4, 4, false, true, None);
    west.advance(true);
    assert_eq!(west.classify(&maze), CellHit::Wall);
    assert_eq!(west.wall_type(), WALL_WEST);
    let mut south = RayWalk::new(4, 4, true, true, None);
    south.advance(false);
    assert_eq!((south.map_x, south.map_y), (4, 5));
    assert_eq!(south.wall_type(), WALL_SOUTH);
    let mut north = RayWalk::new(4, 4, true, false, None);
    north.advance(false);
    assert_eq!((north.map_x, north.map_y), (4, 3));
    assert_eq!(north.wall_type(), WALL_NORTH);
}

#[test]
fn ray_through_exit_corridor_reaches_open_sky() {
    // Corridor from (1, 1) east to (4, 1), then south down to the exit (4, 8),
    // which is still flagged as a wall in the grid.
    let mut open = vec![(1, 1), (2, 1), (3, 1)];
    for y in 1..8 {
        open.push((4, y));
    }
    let maze = maze_with(&open, (1, 1), (4, 8));
    let mut walk = RayWalk::new(4, 1, true, true, Some((4, 8)));
    for y in 2..8 {
        assert!(!walk.advance(false));
        assert_eq!(walk.map_y, y);
        assert_eq!(walk.classify(&maze), CellHit::Open);
    }
    assert!(walk.advance(false));
    walk.mark_passed_exit();
    assert_eq!(walk.classify(&maze), CellHit::Open);
    assert!(!walk.advance(false));
    assert_eq!(walk.classify(&maze), CellHit::OpenSky);
}

#[test]
fn leaving_grid_without_exit_hits_nothing() {
    let mut open = Vec::new();
    for y in 0..9 {
        open.push((4, y));
    }
    let maze = maze_with(&open, (4, 4), (4, 8));
    let mut walk = RayWalk::new(4, 4, true, false, None);
    for _ in 0..4 {
        walk.advance(false);
        assert_eq!(walk.classify(&maze), CellHit::Open);
    }
    walk.advance(false);
    assert_eq!(walk.map_y, -1);
    assert_eq!(walk.classify(&maze), CellHit::LeftGrid);
}

#[test]
fn entering_exit_is_reported_once() {
    let maze = maze_with(&[(3, 8), (4, 8), (5, 8)], (3, 8), (4, 8));
    let mut walk = RayWalk::new(3, 8, true, true, Some((4, 8)));
    assert!(walk.advance(true));
    assert!(!walk.advance(true));
    assert_eq!(walk.classify(&maze), CellHit::Open);
    let mut from_exit = RayWalk::new(4, 8, true, true, Some((4, 8)));
    assert!(!from_exit.advance(false));
    assert_eq!(from_exit.classify(&maze), CellHit::LeftGrid);
}
