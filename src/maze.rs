//! Maze generation by randomized backtracking, with a boundary exit that is
//! always reachable from the start.
use vstd::prelude::*;
use vstd::wrapping::u64_specs;
use crate::grid::{
    Pos, grid_view, has_shape, in_bounds, is_open, adjacent, reachable, opens_more, set_at,
    all_reach_from, all_reach_but, grid_unmarked, lemma_reach_self, lemma_reach_step,
    lemma_reach_mono, lemma_clear_opens, lemma_clear_keeps_reach, lemma_clear_extends,
    lemma_grid_mark, lemma_rows, filled_grid, set_cell, copy_grid,
};

verus! {

/// The smallest width or height that generation accepts.
pub const MIN_SIDE: usize = 5;

/// Multiplier of the linear-congruential generator.
pub const LCG_MUL: u64 = 1103515245;

/// Increment of the linear-congruential generator.
pub const LCG_INC: u64 = 12345;

/// A start draw is kept once this many earlier draws were refused.
pub const START_ATTEMPTS: u64 = 50;

/// A start must lie farther than 3 cells from the exit: 3 squared.
pub const MIN_START_DIST_SQ: u128 = 9;

/// One step of the linear-congruential generator, modulo `2^64`.
#[verifier::opaque]
pub open spec fn lcg(s: u64) -> u64 {
    u64_specs::wrapping_add(u64_specs::wrapping_mul(s, LCG_MUL), LCG_INC)
}

/// The squared Euclidean distance between two cells.
pub open spec fn dist_sq(a: Pos, b: Pos) -> int {
    (a.0 - b.0) * (a.0 - b.0) + (a.1 - b.1) * (a.1 - b.1)
}

/// The exit that `seed` gives: an edge (top, right, bottom, left) from one
/// draw, then a position along it, corners excluded, from the next.
pub open spec fn exit_for(seed: u64, w: int, h: int) -> Pos {
    let s1 = lcg(seed);
    let s2 = lcg(s1);
    let edge = s1 % 4;
    if edge == 0 {
        (1 + s2 as int % (w - 2), 0)
    } else if edge == 1 {
        (w - 1, 1 + s2 as int % (h - 2))
    } else if edge == 2 {
        (1 + s2 as int % (w - 2), h - 1)
    } else {
        (0, 1 + s2 as int % (h - 2))
    }
}

/// The start search from generator state `s` after `attempts` refused draws:
/// draw an interior cell, keep it if it lies farther than 3 cells from `e`
/// or if the attempts are used up, else draw again. Gives the cell and the
/// generator state after it.
pub open spec fn pick_start(s: u64, w: int, h: int, e: Pos, attempts: int) -> (Pos, u64)
    decreases 51 - attempts,
{
    let s1 = lcg(s);
    let s2 = lcg(s1);
    let c = (1 + s1 as int % (w - 2), 1 + s2 as int % (h - 2));
    if dist_sq(c, e) > MIN_START_DIST_SQ || attempts > START_ATTEMPTS || attempts < 0 {
        (c, s2)
    } else {
        pick_start(s2, w, h, e, attempts + 1)
    }
}

/// The start that `seed` gives.
pub open spec fn start_for(seed: u64, w: int, h: int) -> Pos {
    pick_start(lcg(lcg(seed)), w, h, exit_for(seed, w, h), 0).0
}

/// The cell just inside the exit, away from the edge it lies on (edges
/// tried top, right, bottom, left).
pub open spec fn inside_exit(e: Pos, w: int, h: int) -> Pos {
    if e.1 == 0 {
        (e.0, 1)
    } else if e.0 == w - 1 {
        (w - 2, e.1)
    } else if e.1 == h - 1 {
        (e.0, h - 2)
    } else {
        (1, e.1)
    }
}

/// `b` lies two cells from `a` along one axis.
pub open spec fn two_apart(a: Pos, b: Pos) -> bool {
    (a.1 == b.1 && (b.0 == a.0 + 2 || b.0 == a.0 - 2)) || (a.0 == b.0 && (b.1 == a.1 + 2 || b.1
        == a.1 - 2))
}

/// `q` is two steps from `p`, inside the grid, and not yet visited.
pub open spec fn good_neighbor(w: int, h: int, vis: Seq<Seq<bool>>, p: Pos, q: (usize, usize)) -> bool {
    &&& two_apart(p, pos(q))
    &&& in_bounds(w, h, pos(q))
    &&& !vis[q.1 as int][q.0 as int]
}

/// The cell halfway between two cells.
pub open spec fn midpoint(a: Pos, b: Pos) -> Pos {
    ((a.0 + b.0) / 2, (a.1 + b.1) / 2)
}

/// A position as a pair of integers.
pub open spec fn pos(p: (usize, usize)) -> Pos {
    (p.0 as int, p.1 as int)
}

/// The cells two steps away from `p`, in the order west, east, north, south,
/// that lie inside the search bounds and are not yet visited.
pub open spec fn unvisited_neighbors(w: int, h: int, vis: Seq<Seq<bool>>, p: (usize, usize)) -> Seq<
    (usize, usize),
> {
    let x = p.0 as int;
    let y = p.1 as int;
    (if x > 2 && !vis[y][x - 2] {
        seq![((x - 2) as usize, p.1)]
    } else {
        seq![]
    }) + (if x < w - 2 && !vis[y][x + 2] {
        seq![((x + 2) as usize, p.1)]
    } else {
        seq![]
    }) + (if y > 2 && !vis[y - 2][x] {
        seq![(p.0, (y - 2) as usize)]
    } else {
        seq![]
    }) + (if y < h - 2 && !vis[y + 2][x] {
        seq![(p.0, (y + 2) as usize)]
    } else {
        seq![]
    })
}

/// A rectangular grid of cells; `true` marks a wall.
pub struct Maze {
    pub width: usize,
    pub height: usize,
    /// Rows of cells, indexed `cells[y][x]`.
    pub cells: Vec<Vec<bool>>,
    /// Where the player begins.
    pub start: (usize, usize),
    /// The opening in the outer wall.
    pub exit: (usize, usize),
}

impl Maze {
    /// The cells as a sequence of rows.
    pub open spec fn grid(&self) -> Seq<Seq<bool>> {
        grid_view(self.cells@)
    }

    /// `height` rows of `width` cells each.
    pub open spec fn wf(&self) -> bool {
        has_shape(self.grid(), self.width as int, self.height as int)
    }

    pub open spec fn start_pos(&self) -> Pos {
        pos(self.start)
    }

    pub open spec fn exit_pos(&self) -> Pos {
        pos(self.exit)
    }

    /// The exit lies on the outer edge of the grid.
    pub open spec fn exit_on_boundary(&self) -> bool {
        let e = self.exit_pos();
        &&& in_bounds(self.width as int, self.height as int, e)
        &&& (e.0 == 0 || e.0 == self.width - 1 || e.1 == 0 || e.1 == self.height - 1)
    }

    /// The exit is not a corner of the grid.
    pub open spec fn exit_off_corner(&self) -> bool {
        let e = self.exit_pos();
        &&& (e.0 == 0 || e.0 == self.width - 1) ==> 1 <= e.1 <= self.height - 2
        &&& (e.1 == 0 || e.1 == self.height - 1) ==> 1 <= e.0 <= self.width - 2
    }

    /// Start and exit are open, and every open cell, the exit among them,
    /// can be reached from the start.
    pub open spec fn connected(&self) -> bool {
        &&& is_open(self.grid(), self.start_pos())
        &&& is_open(self.grid(), self.exit_pos())
        &&& all_reach_from(self.grid(), self.start_pos())
    }

    /// Generates a maze of `width` x `height` cells from `seed`.
    ///
    /// The exit lies on the outer edge, away from the corners, and the cell
    /// just inside it is open; the start is an interior cell; every open
    /// cell, the exit among them, can be reached from the start.
    pub fn new(width: usize, height: usize, seed: u64) -> (maze: Maze)
        requires
            width >= MIN_SIDE,
            height >= MIN_SIDE,
            width * height <= usize::MAX,
        ensures
            maze.width == width,
            maze.height == height,
            maze.wf(),
            maze.exit_pos() == exit_for(seed, width as int, height as int),
            maze.start_pos() == start_for(seed, width as int, height as int),
            1 <= maze.start.0 <= width - 2,
            1 <= maze.start.1 <= height - 2,
            maze.exit_on_boundary(),
            maze.exit_off_corner(),
            maze.connected(),
            reachable(maze.grid(), maze.start_pos(), maze.exit_pos()),
            is_open(maze.grid(), inside_exit(maze.exit_pos(), width as int, height as int)),
    {
        let mut maze = Maze {
            width,
            height,
            cells: filled_grid(width, height, true),
            start: (1, 1),
            exit: (width - 2, height - 1),
        };
        maze.generate(seed);
        maze
    }

    /// Whether the grid has `height` rows of `width` cells, as every
    /// operation on a maze requires.
    pub fn is_well_formed(&self) -> (r: bool)
        ensures
            r == self.wf(),
    {
        if self.cells.len() != self.height {
            return false;
        }
        let mut y: usize = 0;
        while y < self.cells.len()
            invariant
                y <= self.cells@.len(),
                self.cells@.len() == self.height,
                forall|j: int| 0 <= j < y ==> (#[trigger] self.cells@[j])@.len() == self.width,
            decreases self.cells@.len() - y,
        {
            if self.cells[y].len() != self.width {
                assert(self.grid()[y as int].len() != self.width);
                return false;
            }
            y = y + 1;
        }
        assert forall|j: int| 0 <= j < self.height implies #[trigger] self.grid()[j].len()
            == self.width by {
            assert(self.cells@[j]@.len() == self.width);
        }
        true
    }

    /// Whether `(x, y)` is a wall; every cell outside the grid counts as one.
    pub fn is_wall(&self, x: usize, y: usize) -> (r: bool)
        requires
            self.wf(),
        ensures
            r == !is_open(self.grid(), (x as int, y as int)),
    {
        if x >= self.width || y >= self.height {
            return true;
        }
        assert(self.grid()[y as int] == self.cells@[y as int]@);
        self.cells[y][x]
    }

    /// The unvisited cells two steps from `pos` inside the search bounds.
    fn get_unvisited_neighbors(&self, pos: (usize, usize), visited: &Vec<Vec<bool>>) -> (r: Vec<
        (usize, usize),
    >)
        requires
            self.width >= 3,
            self.height >= 3,
            has_shape(grid_view(visited@), self.width as int, self.height as int),
            in_bounds(self.width as int, self.height as int, crate::maze::pos(pos)),
        ensures
            r@ == unvisited_neighbors(
                self.width as int,
                self.height as int,
                grid_view(visited@),
                pos,
            ),
            forall|k: int|
                0 <= k < r@.len() ==> {
                    good_neighbor(
                        self.width as int,
                        self.height as int,
                        grid_view(visited@),
                        crate::maze::pos(pos),
                        #[trigger] r@[k],
                    )
                },
    {
        let ghost vis = grid_view(visited@);
        let ghost w = self.width as int;
        let ghost h = self.height as int;
        let mut neighbors: Vec<(usize, usize)> = Vec::new();
        let (x, y) = pos;
        proof {
            lemma_rows(visited@, w, h);
        }
        if x > 2 && !visited[y][x - 2] {
            neighbors.push((x - 2, y));
        }
        let ghost n1 = neighbors@;
        if x < self.width - 2 && !visited[y][x + 2] {
            neighbors.push((x + 2, y));
        }
        let ghost n2 = neighbors@;
        if y > 2 && !visited[y - 2][x] {
            proof {
                assert(vis[y - 2].len() == w);
            }
            neighbors.push((x, y - 2));
        }
        let ghost n3 = neighbors@;
        if y < self.height - 2 && !visited[y + 2][x] {
            proof {
                assert(vis[y + 2].len() == w);
            }
            neighbors.push((x, y + 2));
        }
        proof {
            let a = if x > 2 && !vis[y as int][x - 2] {
                seq![((x - 2) as usize, y)]
            } else {
                seq![]
            };
            let b = if x < w - 2 && !vis[y as int][x + 2] {
                seq![((x + 2) as usize, y)]
            } else {
                seq![]
            };
            let c = if y > 2 && !vis[y - 2][x as int] {
                seq![(x, (y - 2) as usize)]
            } else {
                seq![]
            };
            let d = if y < h - 2 && !vis[y + 2][x as int] {
                seq![(x, (y + 2) as usize)]
            } else {
                seq![]
            };
            assert(n1 =~= a);
            assert(n2 =~= a + b);
            assert(n3 =~= a + b + c);
            assert(neighbors@ =~= a + b + c + d);
            assert forall|k: int| 0 <= k < neighbors@.len() implies good_neighbor(
                w,
                h,
                vis,
                crate::maze::pos(pos),
                #[trigger] neighbors@[k],
            ) by {
                let q = neighbors@[k];
                if k < a.len() {
                    assert(q == a[k]);
                } else if k < a.len() + b.len() {
                    assert(q == b[k - a.len()]);
                } else if k < a.len() + b.len() + c.len() {
                    assert(q == c[k - a.len() - b.len()]);
                } else {
                    assert(q == d[k - a.len() - b.len() - c.len()]);
                }
            }
        }
        neighbors
    }

    /// Carves the maze into an all-wall grid: picks exit and start from the
    /// seed, runs a randomized depth-first traversal over cells two steps
    /// apart, joins the exit to the nearest visited cell if the traversal
    /// missed it, and opens the cell inside the exit.
    fn generate(&mut self, seed: u64)
        requires
            old(self).wf(),
            old(self).width >= MIN_SIDE,
            old(self).height >= MIN_SIDE,
            old(self).width * old(self).height <= usize::MAX,
            forall|p: Pos|
                in_bounds(old(self).width as int, old(self).height as int, p) ==> !is_open(
                    old(self).grid(),
                    p,
                ),
        ensures
            final(self).width == old(self).width,
            final(self).height == old(self).height,
            final(self).wf(),
            final(self).exit_pos() == exit_for(seed, old(self).width as int, old(self).height as int),
            final(self).start_pos() == start_for(seed, old(self).width as int, old(self).height as int),
            1 <= final(self).start.0 <= old(self).width - 2,
            1 <= final(self).start.1 <= old(self).height - 2,
            final(self).exit_on_boundary(),
            final(self).exit_off_corner(),
            final(self).connected(),
            is_open(
                final(self).grid(),
                inside_exit(final(self).exit_pos(), old(self).width as int, old(self).height as int),
            ),
    {
        let w = self.width;
        let h = self.height;
        let ghost wi = w as int;
        let ghost hi = h as int;
        assert(w < 0x8000_0000_0000_0000 && h < 0x8000_0000_0000_0000) by (nonlinear_arith)
            requires
                w >= 5,
                h >= 5,
                w * h <= usize::MAX,
        ;
        let (exit, rng) = choose_exit(w, h, seed);
        self.exit = exit;
        let (start, rng) = choose_start(w, h, exit, rng);
        self.start = start;
        let ghost s = pos(start);
        let ghost e = pos(exit);

        let mut visited = filled_grid(w, h, false);
        let ghost g0 = self.grid();
        proof {
            lemma_rows(self.cells@, wi, hi);
            lemma_rows(visited@, wi, hi);
            lemma_clear_opens(g0, wi, hi, s);
        }
        set_cell(&mut self.cells, start.0, start.1, false);
        proof {
            let g1 = self.grid();
            lemma_reach_self(g1, s);
            assert forall|p: Pos| #[trigger] is_open(g1, p) implies reachable(g1, s, p) by {
                if p != s {
                    assert(is_open(g0, p));
                }
            }
            lemma_grid_mark(grid_view(visited@), s);
        }
        set_cell(&mut visited, start.0, start.1, true);
        proof {
            let v = grid_view(visited@);
            lemma_rows(visited@, wi, hi);
            assert forall|p: Pos| in_bounds(wi, hi, p) && #[trigger] v[p.1][p.0] implies is_open(
                self.grid(),
                p,
            ) by {
                if p != s {
                    assert(!v[p.1][p.0]);
                }
            }
        }
        let exit_reached = self.carve_passages(&mut visited, rng);

        // Open the exit, and join it to the traversal if that missed it.
        let ghost g3 = self.grid();
        proof {
            lemma_rows(self.cells@, wi, hi);
            lemma_clear_opens(g3, wi, hi, e);
        }
        set_cell(&mut self.cells, exit.0, exit.1, false);
        let ghost g4 = self.grid();
        proof {
            assert forall|p: Pos| #[trigger] is_open(g4, p) && p != e implies reachable(g4, s, p) by {
                assert(is_open(g3, p));
                lemma_reach_mono(g3, g4, s, p);
            }
            if exit_reached {
                if !is_open(g3, e) {
                    let b = if e.1 > 0 && is_open(g3, (e.0, e.1 - 1)) {
                        (e.0, e.1 - 1)
                    } else {
                        (e.0 - 1, e.1)
                    };
                    lemma_reach_mono(g3, g4, s, b);
                    lemma_reach_step(g4, s, b, e);
                } else {
                    lemma_reach_mono(g3, g4, s, e);
                }
            }
            assert forall|p: Pos| in_bounds(wi, hi, p) && #[trigger] grid_view(visited@)[p.1][p.0] implies is_open(
                g4,
                p,
            ) by {
                assert(is_open(g3, p));
            }
        }
        if !exit_reached {
            let nearest = self.nearest_visited(&visited);
            self.carve_to_exit(nearest);
        }
        proof {
            let g6 = self.grid();
            assert forall|p: Pos| #[trigger] is_open(g6, p) implies reachable(g6, s, p) by {
                if p != e {
                    assert(all_reach_but(g6, s, e));
                }
            }
            assert(is_open(g6, e));
        }

        // Open the cell inside the exit, so the opening can be walked through.
        if exit.1 == 0 {
            if exit.1 + 1 < h {
                self.open_beside(exit, exit.0, exit.1 + 1);
            }
        } else if exit.0 == w - 1 {
            if exit.0 > 0 {
                self.open_beside(exit, exit.0 - 1, exit.1);
            }
        } else if exit.1 == h - 1 {
            if exit.1 > 0 {
                self.open_beside(exit, exit.0, exit.1 - 1);
            }
        } else if exit.0 == 0 {
            if exit.0 + 1 < w {
                self.open_beside(exit, exit.0 + 1, exit.1);
            }
        }
    }

    /// The depth-first traversal: from the start, repeatedly opens the wall
    /// towards a random unvisited cell two steps away, backtracking when
    /// there is none. Reports whether it visited the exit or the cell above
    /// or to the left of it.
    #[verifier::rlimit(60)]
    fn carve_passages(&mut self, visited: &mut Vec<Vec<bool>>, seed: u64) -> (exit_reached: bool)
        requires
            old(self).wf(),
            old(self).width >= MIN_SIDE,
            old(self).height >= MIN_SIDE,
            old(self).width < 0x8000_0000_0000_0000,
            old(self).height < 0x8000_0000_0000_0000,
            in_bounds(old(self).width as int, old(self).height as int, old(self).start_pos()),
            in_bounds(old(self).width as int, old(self).height as int, old(self).exit_pos()),
            has_shape(grid_view(old(visited)@), old(self).width as int, old(self).height as int),
            grid_view(old(visited)@)[old(self).start.1 as int][old(self).start.0 as int],
            forall|p: Pos|
                in_bounds(old(self).width as int, old(self).height as int, p)
                    && #[trigger] grid_view(old(visited)@)[p.1][p.0] ==> is_open(old(self).grid(), p),
            is_open(old(self).grid(), old(self).start_pos()),
            all_reach_from(old(self).grid(), old(self).start_pos()),
        ensures
            final(self).width == old(self).width,
            final(self).height == old(self).height,
            final(self).start == old(self).start,
            final(self).exit == old(self).exit,
            final(self).wf(),
            has_shape(grid_view(final(visited)@), old(self).width as int, old(self).height as int),
            grid_view(final(visited)@)[old(self).start.1 as int][old(self).start.0 as int],
            forall|p: Pos|
                in_bounds(old(self).width as int, old(self).height as int, p)
                    && #[trigger] grid_view(final(visited)@)[p.1][p.0] ==> is_open(final(self).grid(), p),
            is_open(final(self).grid(), final(self).start_pos()),
            all_reach_from(final(self).grid(), final(self).start_pos()),
            exit_reached ==> near_exit(final(self).grid(), final(self).exit_pos()),
    {
        let w = self.width;
        let h = self.height;
        let ghost wi = w as int;
        let ghost hi = h as int;
        let start = self.start;
        let exit = self.exit;
        let ghost s = pos(start);
        let ghost e = pos(exit);
        let mut rng = seed;
        let mut stack: Vec<(usize, usize)> = Vec::new();
        stack.push(start);
        let mut exit_reached = false;
        while stack.len() > 0
            invariant
                self.width == w,
                self.height == h,
                w == wi,
                h == hi,
                w >= MIN_SIDE,
                h >= MIN_SIDE,
                self.start == start,
                self.exit == exit,
                s == pos(start),
                e == pos(exit),
                in_bounds(wi, hi, e),
                in_bounds(wi, hi, s),
                self.wf(),
                has_shape(grid_view(visited@), wi, hi),
                grid_view(visited@)[s.1][s.0],
                forall|i: int|
                    0 <= i < stack@.len() ==> {
                        &&& in_bounds(wi, hi, pos(#[trigger] stack@[i]))
                        &&& grid_view(visited@)[stack@[i].1 as int][stack@[i].0 as int]
                    },
                forall|p: Pos|
                    in_bounds(wi, hi, p) && #[trigger] grid_view(visited@)[p.1][p.0] ==> is_open(
                        self.grid(),
                        p,
                    ),
                is_open(self.grid(), s),
                all_reach_from(self.grid(), s),
                exit_reached ==> near_exit(self.grid(), e),
            decreases 2 * grid_unmarked(grid_view(visited@)) + stack@.len(),
        {
            let current = stack.pop().unwrap();
            let ghost c = pos(current);
            assert(in_bounds(wi, hi, c) && grid_view(visited@)[c.1][c.0]);
            if (current.0 == exit.0 && current.1 == exit.1) || (current.0 == exit.0 && exit.1 > 0
                && current.1 == exit.1 - 1) || (exit.0 > 0 && current.0 == exit.0 - 1 && current.1
                == exit.1) {
                exit_reached = true;
            }
            let neighbors = self.get_unvisited_neighbors(current, visited);
            if neighbors.len() > 0 {
                stack.push(current);
                rng = next_seed(rng);
                let next = neighbors[(rng % (neighbors.len() as u64)) as usize];
                let ghost n = pos(next);
                let ghost m = midpoint(c, n);
                let ghost g0 = self.grid();
                let ghost v0 = grid_view(visited@);
                proof {
                    assert(is_open(g0, c));
                    lemma_clear_keeps_reach(g0, wi, hi, s, c, m);
                }
                self.remove_wall_between(current, next);
                let ghost g1 = self.grid();
                proof {
                    lemma_clear_keeps_reach(g1, wi, hi, s, m, n);
                    lemma_rows(visited@, wi, hi);
                    lemma_rows(self.cells@, wi, hi);
                }
                set_cell(&mut self.cells, next.0, next.1, false);
                let ghost g2 = self.grid();
                proof {
                    lemma_grid_mark(v0, n);
                }
                set_cell(visited, next.0, next.1, true);
                stack.push(next);
                proof {
                    let v1 = grid_view(visited@);
                    lemma_rows(visited@, wi, hi);
                    assert forall|p: Pos| is_open(g0, p) implies #[trigger] is_open(g2, p) by {
                        assert(is_open(g1, p));
                    }
                    assert forall|p: Pos|
                        in_bounds(wi, hi, p) && #[trigger] v1[p.1][p.0] implies is_open(g2, p) by {
                        if p != n {
                            assert(v0[p.1][p.0]);
                        }
                    }
                    assert forall|i: int| 0 <= i < stack@.len() implies {
                        &&& in_bounds(wi, hi, pos(#[trigger] stack@[i]))
                        &&& v1[stack@[i].1 as int][stack@[i].0 as int]
                    } by {
                        if i < stack@.len() - 1 {
                            let q = pos(stack@[i]);
                            if q != n {
                                assert(v0[q.1][q.0]);
                            }
                        }
                    }
                    if exit_reached {
                        assert(near_exit(g0, e));
                    }
                }
            }
        }
        exit_reached
    }

    /// The visited interior cell nearest to the exit, the first in row order
    /// among equals.
    fn nearest_visited(&self, visited: &Vec<Vec<bool>>) -> (nearest: (usize, usize))
        requires
            self.wf(),
            self.width >= MIN_SIDE,
            self.height >= MIN_SIDE,
            self.width < 0x8000_0000_0000_0000,
            self.height < 0x8000_0000_0000_0000,
            self.exit_on_boundary(),
            1 <= self.start.0 <= self.width - 2,
            1 <= self.start.1 <= self.height - 2,
            has_shape(grid_view(visited@), self.width as int, self.height as int),
            grid_view(visited@)[self.start.1 as int][self.start.0 as int],
            is_open(self.grid(), self.start_pos()),
        ensures
            1 <= nearest.0 <= self.width - 2,
            1 <= nearest.1 <= self.height - 2,
            is_open(self.grid(), pos(nearest)),
            pos(nearest) != self.exit_pos(),
    {
        let w = self.width;
        let h = self.height;
        let start = self.start;
        let exit = self.exit;
        let mut found = false;
        let mut best: u128 = 0;
        let mut nearest: (usize, usize) = (1, 1);
        proof {
            lemma_rows(self.cells@, w as int, h as int);
            lemma_rows(visited@, w as int, h as int);
        }
        let mut y: usize = 1;
        while y < h - 1
            invariant
                1 <= y <= h - 1,
                self.width == w,
                self.height == h,
                self.start == start,
                self.exit == exit,
                w < 0x8000_0000_0000_0000,
                h < 0x8000_0000_0000_0000,
                h >= MIN_SIDE,
                w >= MIN_SIDE,
                1 <= start.0 <= w - 2,
                1 <= start.1 <= h - 2,
                forall|j: int| 0 <= j < h ==> (#[trigger] self.cells@[j])@.len() == w,
                forall|j: int| 0 <= j < h ==> (#[trigger] visited@[j])@.len() == w,
                self.cells@.len() == h,
                visited@.len() == h,
                visited@[start.1 as int]@[start.0 as int],
                !self.cells@[start.1 as int]@[start.0 as int],
                found ==> 1 <= nearest.0 <= w - 2 && 1 <= nearest.1 <= h - 2
                    && !self.cells@[nearest.1 as int]@[nearest.0 as int],
                start.1 < y ==> found,
                exit.0 < w,
                exit.1 < h,
            decreases h - y,
        {
            let mut x: usize = 1;
            while x < w - 1
                invariant
                    1 <= x <= w - 1,
                    1 <= y < h - 1,
                    self.width == w,
                    self.height == h,
                    self.start == start,
                    self.exit == exit,
                    w < 0x8000_0000_0000_0000,
                    h < 0x8000_0000_0000_0000,
                    1 <= start.0 <= w - 2,
                    1 <= start.1 <= h - 2,
                    forall|j: int| 0 <= j < h ==> (#[trigger] self.cells@[j])@.len() == w,
                    forall|j: int| 0 <= j < h ==> (#[trigger] visited@[j])@.len() == w,
                    self.cells@.len() == h,
                    visited@.len() == h,
                    visited@[start.1 as int]@[start.0 as int],
                    !self.cells@[start.1 as int]@[start.0 as int],
                    found ==> 1 <= nearest.0 <= w - 2 && 1 <= nearest.1 <= h - 2
                        && !self.cells@[nearest.1 as int]@[nearest.0 as int],
                    start.1 < y || (start.1 == y && start.0 < x) ==> found,
                    exit.0 < w,
                    exit.1 < h,
                decreases w - x,
            {
                assert(self.cells@[y as int]@.len() == w);
                assert(visited@[y as int]@.len() == w);
                if !self.cells[y][x] && visited[y][x] {
                    let d = dist_sq_to(x, y, exit);
                    if !found || d < best {
                        best = d;
                        nearest = (x, y);
                        found = true;
                    }
                }
                x = x + 1;
            }
            y = y + 1;
        }
        assert(self.grid()[nearest.1 as int] == self.cells@[nearest.1 as int]@);
        nearest
    }

    /// Carves a straight path, along x first and then along y, from `from`
    /// to the exit, opening every cell on the way.
    fn carve_to_exit(&mut self, from: (usize, usize))
        requires
            old(self).wf(),
            in_bounds(old(self).width as int, old(self).height as int, pos(from)),
            in_bounds(old(self).width as int, old(self).height as int, old(self).exit_pos()),
            is_open(old(self).grid(), old(self).start_pos()),
            is_open(old(self).grid(), old(self).exit_pos()),
            all_reach_but(old(self).grid(), old(self).start_pos(), old(self).exit_pos()),
            reachable(old(self).grid(), old(self).start_pos(), pos(from)),
        ensures
            final(self).width == old(self).width,
            final(self).height == old(self).height,
            final(self).start == old(self).start,
            final(self).exit == old(self).exit,
            final(self).wf(),
            is_open(final(self).grid(), final(self).start_pos()),
            is_open(final(self).grid(), final(self).exit_pos()),
            all_reach_but(final(self).grid(), final(self).start_pos(), final(self).exit_pos()),
            reachable(final(self).grid(), final(self).start_pos(), final(self).exit_pos()),
    {
        let w = self.width;
        let h = self.height;
        let ghost wi = w as int;
        let ghost hi = h as int;
        let exit = self.exit;
        let ghost s = self.start_pos();
        let ghost e = pos(exit);
        let ghost g0 = self.grid();
        let mut cur = from;
        while !(cur.0 == exit.0 && cur.1 == exit.1)
            invariant
                self.width == w,
                self.height == h,
                w == wi,
                h == hi,
                self.exit == exit,
                self.start_pos() == s,
                e == pos(exit),
                in_bounds(wi, hi, e),
                in_bounds(wi, hi, pos(cur)),
                self.wf(),
                opens_more(g0, self.grid()),
                is_open(g0, s),
                is_open(g0, e),
                all_reach_but(self.grid(), s, e),
                reachable(self.grid(), s, pos(cur)),
            decreases (if cur.0 >= exit.0 {
                cur.0 - exit.0
            } else {
                exit.0 - cur.0
            }) + (if cur.1 >= exit.1 {
                cur.1 - exit.1
            } else {
                exit.1 - cur.1
            }),
        {
            let ghost prev = pos(cur);
            if cur.0 < exit.0 {
                cur = (cur.0 + 1, cur.1);
            } else if cur.0 > exit.0 {
                cur = (cur.0 - 1, cur.1);
            } else if cur.1 < exit.1 {
                cur = (cur.0, cur.1 + 1);
            } else {
                cur = (cur.0, cur.1 - 1);
            }
            let ghost g5 = self.grid();
            proof {
                lemma_rows(self.cells@, wi, hi);
                lemma_clear_extends(g5, wi, hi, s, e, prev, pos(cur));
            }
            set_cell(&mut self.cells, cur.0, cur.1, false);
            proof {
                assert forall|p: Pos| is_open(g0, p) implies #[trigger] is_open(self.grid(), p) by {
                    assert(is_open(g5, p));
                }
            }
        }
    }

    /// Opens `(x, y)`, a cell beside the open cell `b`, keeping every open
    /// cell reachable from the start.
    fn open_beside(&mut self, b: (usize, usize), x: usize, y: usize)
        requires
            old(self).wf(),
            in_bounds(old(self).width as int, old(self).height as int, (x as int, y as int)),
            is_open(old(self).grid(), pos(b)),
            adjacent(pos(b), (x as int, y as int)),
            is_open(old(self).grid(), old(self).start_pos()),
            is_open(old(self).grid(), old(self).exit_pos()),
            all_reach_from(old(self).grid(), old(self).start_pos()),
        ensures
            final(self).width == old(self).width,
            final(self).height == old(self).height,
            final(self).start == old(self).start,
            final(self).exit == old(self).exit,
            final(self).wf(),
            final(self).connected(),
            is_open(final(self).grid(), (x as int, y as int)),
    {
        let ghost g = self.grid();
        proof {
            assert(g[y as int] == self.cells@[y as int]@);
            lemma_clear_keeps_reach(
                g,
                self.width as int,
                self.height as int,
                self.start_pos(),
                pos(b),
                (x as int, y as int),
            );
        }
        set_cell(&mut self.cells, x, y, false);
    }

    /// Opens the cell halfway between `a` and `b`.
    fn remove_wall_between(&mut self, a: (usize, usize), b: (usize, usize))
        requires
            old(self).wf(),
            in_bounds(old(self).width as int, old(self).height as int, pos(a)),
            in_bounds(old(self).width as int, old(self).height as int, pos(b)),
        ensures
            final(self).width == old(self).width,
            final(self).height == old(self).height,
            final(self).start == old(self).start,
            final(self).exit == old(self).exit,
            final(self).grid() == set_at(old(self).grid(), midpoint(pos(a), pos(b)), false),
            final(self).wf(),
    {
        let (ax, ay) = a;
        let (bx, by) = b;
        let mid_x = ax / 2 + bx / 2 + (ax % 2 + bx % 2) / 2;
        let mid_y = ay / 2 + by / 2 + (ay % 2 + by % 2) / 2;
        assert(mid_x == (ax + bx) / 2);
        assert(mid_y == (ay + by) / 2);
        proof {
            assert(self.grid()[mid_y as int] == self.cells@[mid_y as int]@);
            lemma_clear_opens(
                self.grid(),
                self.width as int,
                self.height as int,
                (mid_x as int, mid_y as int),
            );
        }
        set_cell(&mut self.cells, mid_x, mid_y, false);
    }
}

/// A maze's fields as the session layer stores them.
pub struct MazeData {
    pub width: usize,
    pub height: usize,
    pub cells: Vec<Vec<bool>>,
    pub start: (usize, usize),
    pub exit: (usize, usize),
}

impl MazeData {
    /// A copy of the fields of `maze`.
    pub fn of(maze: &Maze) -> (r: MazeData)
        ensures
            r.width == maze.width,
            r.height == maze.height,
            grid_view(r.cells@) == maze.grid(),
            r.start == maze.start,
            r.exit == maze.exit,
    {
        MazeData {
            width: maze.width,
            height: maze.height,
            cells: copy_grid(&maze.cells),
            start: maze.start,
            exit: maze.exit,
        }
    }
}

impl From<&Maze> for MazeData {
    /// A copy of the fields of `maze`; see `MazeData::of` for what holds.
    fn from(maze: &Maze) -> MazeData {
        MazeData::of(maze)
    }
}

impl vstd::std_specs::convert::FromSpecImpl<&Maze> for MazeData {
    /// The copy is a new value, equal to the maze only in its view.
    open spec fn obeys_from_spec() -> bool {
        false
    }

    open spec fn from_spec(maze: &Maze) -> MazeData {
        MazeData {
            width: maze.width,
            height: maze.height,
            cells: maze.cells,
            start: maze.start,
            exit: maze.exit,
        }
    }
}

impl From<MazeData> for Maze {
    /// Takes the fields over as they are.
    fn from(data: MazeData) -> (r: Maze) {
        Maze {
            width: data.width,
            height: data.height,
            cells: data.cells,
            start: data.start,
            exit: data.exit,
        }
    }
}

impl vstd::std_specs::convert::FromSpecImpl<MazeData> for Maze {
    open spec fn obeys_from_spec() -> bool {
        true
    }

    open spec fn from_spec(data: MazeData) -> Maze {
        Maze {
            width: data.width,
            height: data.height,
            cells: data.cells,
            start: data.start,
            exit: data.exit,
        }
    }
}

/// Either the exit, the cell above it or the cell to its left is open.
pub open spec fn near_exit(g: Seq<Seq<bool>>, e: Pos) -> bool {
    is_open(g, e) || (e.1 > 0 && is_open(g, (e.0, e.1 - 1))) || (e.0 > 0 && is_open(
        g,
        (e.0 - 1, e.1),
    ))
}

/// Draws the exit from `seed`; gives it and the generator state after it.
fn choose_exit(w: usize, h: usize, seed: u64) -> (r: ((usize, usize), u64))
    requires
        w >= MIN_SIDE,
        h >= MIN_SIDE,
    ensures
        pos(r.0) == exit_for(seed, w as int, h as int),
        r.1 == lcg(lcg(seed)),
        in_bounds(w as int, h as int, pos(r.0)),
        r.0.0 == 0 || r.0.0 == w - 1 || r.0.1 == 0 || r.0.1 == h - 1,
        (r.0.0 == 0 || r.0.0 == w - 1) ==> 1 <= r.0.1 <= h - 2,
        (r.0.1 == 0 || r.0.1 == h - 1) ==> 1 <= r.0.0 <= w - 2,
{
    let mut rng = next_seed(seed);
    let edge = rng % 4;
    let exit: (usize, usize) = if edge == 0 {
        rng = next_seed(rng);
        (1 + (rng % ((w - 2) as u64)) as usize, 0)
    } else if edge == 1 {
        rng = next_seed(rng);
        (w - 1, 1 + (rng % ((h - 2) as u64)) as usize)
    } else if edge == 2 {
        rng = next_seed(rng);
        (1 + (rng % ((w - 2) as u64)) as usize, h - 1)
    } else {
        rng = next_seed(rng);
        (0, 1 + (rng % ((h - 2) as u64)) as usize)
    };
    (exit, rng)
}

/// Draws interior cells until one lies farther than 3 cells from the exit,
/// keeping the last draw once the attempts are used up; gives it and the
/// generator state after it.
#[verifier::rlimit(50)]
fn choose_start(w: usize, h: usize, exit: (usize, usize), seed: u64) -> (r: ((usize, usize), u64))
    requires
        w >= MIN_SIDE,
        h >= MIN_SIDE,
        w < 0x8000_0000_0000_0000,
        h < 0x8000_0000_0000_0000,
        in_bounds(w as int, h as int, pos(exit)),
    ensures
        (pos(r.0), r.1) == pick_start(seed, w as int, h as int, pos(exit), 0),
        1 <= r.0.0 <= w - 2,
        1 <= r.0.1 <= h - 2,
{
    let ghost target = pick_start(seed, w as int, h as int, pos(exit), 0);
    let mut rng = seed;
    let mut attempts: u64 = 0;
    loop
        invariant
            attempts <= START_ATTEMPTS + 1,
            pick_start(rng, w as int, h as int, pos(exit), attempts as int) == target,
            target == pick_start(seed, w as int, h as int, pos(exit), 0),
            w >= MIN_SIDE,
            h >= MIN_SIDE,
            w < 0x8000_0000_0000_0000,
            h < 0x8000_0000_0000_0000,
            in_bounds(w as int, h as int, pos(exit)),
        decreases START_ATTEMPTS + 1 - attempts,
    {
        let ghost r0 = rng;
        rng = next_seed(rng);
        let x = draw_interior(rng, w);
        rng = next_seed(rng);
        let y = draw_interior(rng, h);
        let d = dist_sq_to(x, y, exit);
        let ghost c = (x as int, y as int);
        assert(c == (1 + lcg(r0) as int % (w - 2), 1 + lcg(lcg(r0)) as int % (h - 2)));
        if d > MIN_START_DIST_SQ || attempts > START_ATTEMPTS {
            assert(pick_start(r0, w as int, h as int, pos(exit), attempts as int) == (c, rng));
            assert(pos((x, y)) == c);
            assert((pos((x, y)), rng) == target);
            return ((x, y), rng);
        }
        assert(pick_start(r0, w as int, h as int, pos(exit), attempts as int) == pick_start(
            rng,
            w as int,
            h as int,
            pos(exit),
            attempts + 1,
        ));
        attempts = attempts + 1;
    }
}

/// An interior coordinate along a side of `n` cells: `1 + s mod (n - 2)`.
fn draw_interior(s: u64, n: usize) -> (r: usize)
    requires
        n >= 3,
    ensures
        r as int == 1 + s as int % (n - 2),
        1 <= r <= n - 2,
{
    1 + (s % ((n - 2) as u64)) as usize
}

/// One step of the linear-congruential generator.
pub fn next_seed(s: u64) -> (r: u64)
    ensures
        r == lcg(s),
{
    proof {
        reveal(lcg);
    }
    s.wrapping_mul(LCG_MUL).wrapping_add(LCG_INC)
}

/// Squared distance between `(x, y)` and `e`.
fn dist_sq_to(x: usize, y: usize, e: (usize, usize)) -> (r: u128)
    requires
        x < 0x8000_0000_0000_0000,
        y < 0x8000_0000_0000_0000,
        e.0 < 0x8000_0000_0000_0000,
        e.1 < 0x8000_0000_0000_0000,
    ensures
        r as int == dist_sq((x as int, y as int), pos(e)),
{
    let dx: u128 = if x >= e.0 {
        (x - e.0) as u128
    } else {
        (e.0 - x) as u128
    };
    let dy: u128 = if y >= e.1 {
        (y - e.1) as u128
    } else {
        (e.1 - y) as u128
    };
    assert(dx * dx <= 0x8000_0000_0000_0000 * 0x8000_0000_0000_0000) by (nonlinear_arith)
        requires
            dx <= 0x8000_0000_0000_0000,
    ;
    assert(dy * dy <= 0x8000_0000_0000_0000 * 0x8000_0000_0000_0000) by (nonlinear_arith)
        requires
            dy <= 0x8000_0000_0000_0000,
    ;
    assert(dx * dx == (x - e.0) * (x - e.0)) by (nonlinear_arith)
        requires
            dx == (if x >= e.0 { x - e.0 } else { e.0 - x }),
    ;
    assert(dy * dy == (y - e.1) * (y - e.1)) by (nonlinear_arith)
        requires
            dy == (if y >= e.1 { y - e.1 } else { e.1 - y }),
    ;
    dx * dx + dy * dy
}

} // verus!
