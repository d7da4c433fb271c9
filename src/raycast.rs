//! The grid walk of a DDA raycaster: which cell a ray steps into, whether
//! that step enters the exit cell, what the ray finds there, and which face
//! of a wall it struck. The distances along the ray are the caller's.
use vstd::prelude::*;
use crate::grid::{in_bounds, is_open};
use crate::maze::Maze;

verus! {

/// Face code of a wall struck while moving towards negative y.
pub const WALL_NORTH: u8 = 0;

/// Face code of a wall struck while moving towards positive y.
pub const WALL_SOUTH: u8 = 1;

/// Face code of a wall struck while moving towards negative x.
pub const WALL_WEST: u8 = 2;

/// Face code of a wall struck while moving towards positive x.
pub const WALL_EAST: u8 = 3;

/// What a ray finds in the cell it has just stepped into.
#[derive(PartialEq, Eq, Structural, Clone, Copy, Debug)]
pub enum CellHit {
    /// An open cell, or the exit cell: the ray goes on.
    Open,
    /// A wall: the ray stops here.
    Wall,
    /// Outside the grid without having passed the exit: nothing was hit.
    LeftGrid,
    /// Outside the grid after passing the exit: open sky beyond the opening.
    OpenSky,
}

/// The face code for a hit: crossing an x grid line gives East or West by
/// the sign of the x step, crossing a y grid line gives South or North by
/// the sign of the y step.
pub open spec fn face_for(side_y: bool, step_x: i32, step_y: i32) -> u8 {
    if !side_y {
        if step_x > 0 {
            WALL_EAST
        } else {
            WALL_WEST
        }
    } else {
        if step_y > 0 {
            WALL_SOUTH
        } else {
            WALL_NORTH
        }
    }
}

/// What a ray finds at `cell`: outside the grid it is sky once the exit was
/// passed and nothing otherwise; the exit cell is never a wall; any other
/// cell is what the grid says.
pub open spec fn hit_at(
    g: Seq<Seq<bool>>,
    w: int,
    h: int,
    cell: (int, int),
    exit_cell: Option<(int, int)>,
    passed_exit: bool,
) -> CellHit {
    if !in_bounds(w, h, cell) {
        if passed_exit {
            CellHit::OpenSky
        } else {
            CellHit::LeftGrid
        }
    } else if exit_cell == Some(cell) {
        CellHit::Open
    } else if is_open(g, cell) {
        CellHit::Open
    } else {
        CellHit::Wall
    }
}

/// A cell as a pair of integers.
pub open spec fn cell_of(c: (i32, i32)) -> (int, int) {
    (c.0 as int, c.1 as int)
}

/// An optional cell as an optional pair of integers.
pub open spec fn opt_cell(c: Option<(i32, i32)>) -> Option<(int, int)> {
    match c {
        Some(p) => Some(cell_of(p)),
        None => None,
    }
}

/// The state of one ray's walk through the grid.
pub struct RayWalk {
    /// The cell the ray is in.
    pub map_x: i32,
    pub map_y: i32,
    /// +1 or -1: the direction of travel along each axis.
    pub step_x: i32,
    pub step_y: i32,
    /// Whether the last step crossed a y grid line (else an x grid line).
    pub side_y: bool,
    /// The exit's cell, if the ray looks for it.
    pub exit_cell: Option<(i32, i32)>,
    /// Whether the ray has passed through the exit opening.
    pub passed_exit: bool,
}

impl RayWalk {
    /// Both steps are +1 or -1.
    pub open spec fn wf(&self) -> bool {
        (self.step_x == 1 || self.step_x == -1) && (self.step_y == 1 || self.step_y == -1)
    }

    /// A walk that starts in `(map_x, map_y)` and moves towards positive x
    /// (else negative) and positive y (else negative).
    pub fn new(
        map_x: i32,
        map_y: i32,
        x_positive: bool,
        y_positive: bool,
        exit_cell: Option<(i32, i32)>,
    ) -> (r: RayWalk)
        ensures
            r.wf(),
            r.map_x == map_x,
            r.map_y == map_y,
            r.step_x == (if x_positive { 1i32 } else { -1i32 }),
            r.step_y == (if y_positive { 1i32 } else { -1i32 }),
            !r.side_y,
            r.exit_cell == exit_cell,
            !r.passed_exit,
    {
        RayWalk {
            map_x,
            map_y,
            step_x: if x_positive { 1 } else { -1 },
            step_y: if y_positive { 1 } else { -1 },
            side_y: false,
            exit_cell,
            passed_exit: false,
        }
    }

    /// Steps into the next cell along x (else along y). Returns whether this
    /// step entered the exit cell from another cell.
    pub fn advance(&mut self, along_x: bool) -> (entered_exit: bool)
        requires
            old(self).wf(),
            i32::MIN < old(self).map_x < i32::MAX,
            i32::MIN < old(self).map_y < i32::MAX,
        ensures
            final(self).wf(),
            final(self).step_x == old(self).step_x,
            final(self).step_y == old(self).step_y,
            final(self).exit_cell == old(self).exit_cell,
            final(self).passed_exit == old(self).passed_exit,
            final(self).side_y == !along_x,
            final(self).map_x == old(self).map_x + (if along_x { old(self).step_x as int } else { 0 }),
            final(self).map_y == old(self).map_y + (if along_x { 0 } else { old(self).step_y as int }),
            entered_exit == (old(self).exit_cell == Some((final(self).map_x, final(self).map_y))
                && old(self).exit_cell != Some((old(self).map_x, old(self).map_y))),
    {
        let prev_x = self.map_x;
        let prev_y = self.map_y;
        if along_x {
            self.map_x = self.map_x + self.step_x;
            self.side_y = false;
        } else {
            self.map_y = self.map_y + self.step_y;
            self.side_y = true;
        }
        match self.exit_cell {
            Some((ex, ey)) => (prev_x != ex || prev_y != ey) && (self.map_x == ex && self.map_y
                == ey),
            None => false,
        }
    }

    /// Records that the ray has crossed the exit opening.
    pub fn mark_passed_exit(&mut self)
        ensures
            final(self).passed_exit,
            final(self).map_x == old(self).map_x,
            final(self).map_y == old(self).map_y,
            final(self).step_x == old(self).step_x,
            final(self).step_y == old(self).step_y,
            final(self).side_y == old(self).side_y,
            final(self).exit_cell == old(self).exit_cell,
    {
        self.passed_exit = true;
    }

    /// What the ray finds in the cell it is in.
    pub fn classify(&self, maze: &Maze) -> (r: CellHit)
        requires
            maze.wf(),
        ensures
            r == hit_at(
                maze.grid(),
                maze.width as int,
                maze.height as int,
                (self.map_x as int, self.map_y as int),
                opt_cell(self.exit_cell),
                self.passed_exit,
            ),
    {
        if self.map_x < 0 || self.map_y < 0 || self.map_x as usize >= maze.width
            || self.map_y as usize >= maze.height {
            if self.passed_exit {
                return CellHit::OpenSky;
            } else {
                return CellHit::LeftGrid;
            }
        }
        let is_exit = match self.exit_cell {
            Some((ex, ey)) => self.map_x == ex && self.map_y == ey,
            None => false,
        };
        if !is_exit && maze.is_wall(self.map_x as usize, self.map_y as usize) {
            CellHit::Wall
        } else {
            CellHit::Open
        }
    }

    /// The face code of a wall struck by the last step.
    pub fn wall_type(&self) -> (r: u8)
        ensures
            r == face_for(self.side_y, self.step_x, self.step_y),
    {
        if !self.side_y {
            if self.step_x > 0 {
                WALL_EAST
            } else {
                WALL_WEST
            }
        } else {
            if self.step_y > 0 {
                WALL_SOUTH
            } else {
                WALL_NORTH
            }
        }
    }
}

} // verus!
