//! Level setup: maze size per level, the direction the player first faces,
//! and a text map of a maze.
use vstd::prelude::*;
use crate::grid::{Pos, is_open, is_path, reachable, adjacent};
use crate::maze::{Maze, pos};

verus! {

/// Levels in one run.
pub const LEVEL_COUNT: u8 = 5;

/// Width and height of the first level's maze, less one.
pub const BASE_SIDE: usize = 7;

/// Map glyph of the start cell.
pub const MAP_START: char = 'P';

/// Map glyph of the exit cell.
pub const MAP_EXIT: char = 'E';

/// Map glyph of a wall.
pub const MAP_WALL: char = '\u{2588}';

/// Map glyph of an open cell.
pub const MAP_OPEN: char = ' ';

/// Width and height of the maze of `level`: 8 for the first, one more for
/// each later one.
pub fn level_side(level: u8) -> (r: usize)
    ensures
        r == BASE_SIDE + level,
{
    BASE_SIDE + level as usize
}

/// The direction the player faces when a level begins.
#[derive(PartialEq, Eq, Structural, Clone, Copy, Debug)]
pub enum Facing {
    East,
    South,
    West,
    North,
    /// No neighbour of the start is open: face the exit.
    TowardExit,
}

/// The first open neighbour of the start, tried east, south, west, north.
pub open spec fn facing_for(g: Seq<Seq<bool>>, s: Pos) -> Facing {
    if is_open(g, (s.0 + 1, s.1)) {
        Facing::East
    } else if is_open(g, (s.0, s.1 + 1)) {
        Facing::South
    } else if is_open(g, (s.0 - 1, s.1)) {
        Facing::West
    } else if is_open(g, (s.0, s.1 - 1)) {
        Facing::North
    } else {
        Facing::TowardExit
    }
}

/// The direction to face at the start of `maze`: towards the first open
/// neighbour of the start, tried east, south, west, north; towards the exit
/// if none is open.
pub fn initial_facing(maze: &Maze) -> (r: Facing)
    requires
        maze.wf(),
        maze.start.0 < maze.width,
        maze.start.1 < maze.height,
    ensures
        r == facing_for(maze.grid(), maze.start_pos()),
{
    let (sx, sy) = maze.start;
    if sx + 1 < maze.width && !maze.is_wall(sx + 1, sy) {
        Facing::East
    } else if sy + 1 < maze.height && !maze.is_wall(sx, sy + 1) {
        Facing::South
    } else if sx > 0 && !maze.is_wall(sx - 1, sy) {
        Facing::West
    } else if sy > 0 && !maze.is_wall(sx, sy - 1) {
        Facing::North
    } else {
        Facing::TowardExit
    }
}

/// In a generated maze some neighbour of the start is open, so the player
/// never begins facing a wall by default: the start is interior, the exit
/// is on the edge, and a walk joins them.
pub proof fn lemma_start_has_open_neighbour(maze: &Maze)
    requires
        maze.wf(),
        maze.connected(),
        maze.exit_on_boundary(),
        1 <= maze.start.0 <= maze.width - 2,
        1 <= maze.start.1 <= maze.height - 2,
    ensures
        facing_for(maze.grid(), maze.start_pos()) != Facing::TowardExit,
{
    let g = maze.grid();
    let s = maze.start_pos();
    let e = maze.exit_pos();
    assert(reachable(g, s, e));
    let path = choose|path: Seq<Pos>| #[trigger] is_path(g, path) && path[0] == s && path.last() == e;
    assert(s != e);
    assert(path.len() >= 2);
    assert(adjacent(path[0], path[1]));
    assert(is_open(g, path[1]));
}

/// The map glyph of cell `p`.
pub open spec fn map_glyph(g: Seq<Seq<bool>>, p: Pos, s: Pos, e: Pos) -> char {
    if p == s {
        MAP_START
    } else if p == e {
        MAP_EXIT
    } else if !is_open(g, p) {
        MAP_WALL
    } else {
        MAP_OPEN
    }
}

/// Row `y` of the map: one glyph per cell, then a line break.
pub open spec fn map_row(g: Seq<Seq<bool>>, w: int, y: int, s: Pos, e: Pos) -> Seq<char> {
    Seq::new(w as nat, |x: int| map_glyph(g, (x, y), s, e)).push('\n')
}

/// The first `n` rows of the map.
pub open spec fn map_text(g: Seq<Seq<bool>>, w: int, n: int, s: Pos, e: Pos) -> Seq<char>
    decreases n,
{
    if n <= 0 {
        seq![]
    } else {
        map_text(g, w, n - 1, s, e) + map_row(g, w, n - 1, s, e)
    }
}

/// A text map of `maze`, one line per row: `P` at `start`, `E` at `end`,
/// a block for each wall and a space for each open cell.
pub fn maze_map(maze: &Maze, start: (usize, usize), end: (usize, usize)) -> (r: Vec<char>)
    requires
        maze.wf(),
    ensures
        r@ == map_text(maze.grid(), maze.width as int, maze.height as int, pos(start), pos(end)),
{
    let ghost g = maze.grid();
    let ghost w = maze.width as int;
    let mut out: Vec<char> = Vec::new();
    let mut y: usize = 0;
    while y < maze.height
        invariant
            y <= maze.height,
            maze.wf(),
            g == maze.grid(),
            w == maze.width,
            out@ == map_text(g, w, y as int, pos(start), pos(end)),
        decreases maze.height - y,
    {
        let ghost before = out@;
        let mut x: usize = 0;
        while x < maze.width
            invariant
                x <= maze.width,
                y < maze.height,
                maze.wf(),
                g == maze.grid(),
                w == maze.width,
                out@ == before + Seq::new(x as nat, |i: int| map_glyph(g, (i, y as int), pos(start), pos(end))),
            decreases maze.width - x,
        {
            let c = if x == start.0 && y == start.1 {
                MAP_START
            } else if x == end.0 && y == end.1 {
                MAP_EXIT
            } else if maze.is_wall(x, y) {
                MAP_WALL
            } else {
                MAP_OPEN
            };
            out.push(c);
            x = x + 1;
            assert(out@ =~= before + Seq::new(x as nat, |i: int| map_glyph(g, (i, y as int), pos(start), pos(end))));
        }
        out.push('\n');
        y = y + 1;
        assert(out@ =~= map_text(g, w, y as int, pos(start), pos(end)));
    }
    out
}

} // verus!
