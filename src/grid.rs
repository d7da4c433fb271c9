//! Boolean grids: open cells, 4-connected paths and reachability.
use vstd::prelude::*;

verus! {

/// A cell position as `(x, y)`.
pub type Pos = (int, int);

/// The mathematical value of a grid of rows.
pub open spec fn grid_view(rows: Seq<Vec<bool>>) -> Seq<Seq<bool>> {
    rows.map_values(|r: Vec<bool>| r@)
}

/// `g` has `h` rows of `w` cells each.
pub open spec fn has_shape(g: Seq<Seq<bool>>, w: int, h: int) -> bool {
    &&& g.len() == h
    &&& forall|y: int| 0 <= y < h ==> #[trigger] g[y].len() == w
}

/// `p` lies inside a grid of `w` columns and `h` rows.
pub open spec fn in_bounds(w: int, h: int, p: Pos) -> bool {
    0 <= p.0 < w && 0 <= p.1 < h
}

/// The cell at `p` exists and is not a wall (`true` marks a wall).
pub open spec fn is_open(g: Seq<Seq<bool>>, p: Pos) -> bool {
    0 <= p.1 < g.len() && 0 <= p.0 < g[p.1].len() && !g[p.1][p.0]
}

/// `a` and `b` share a side.
pub open spec fn adjacent(a: Pos, b: Pos) -> bool {
    (a.0 == b.0 && (a.1 - b.1 == 1 || b.1 - a.1 == 1)) || (a.1 == b.1 && (a.0 - b.0 == 1 || b.0
        - a.0 == 1))
}

/// A non-empty walk over open cells, each step to a cell that shares a side.
pub open spec fn is_path(g: Seq<Seq<bool>>, path: Seq<Pos>) -> bool {
    &&& path.len() >= 1
    &&& forall|i: int| 0 <= i < path.len() ==> is_open(g, #[trigger] path[i])
    &&& forall|i: int| 0 <= i < path.len() - 1 ==> adjacent(#[trigger] path[i], path[i + 1])
}

/// Some walk over open cells leads from `a` to `b`.
pub open spec fn reachable(g: Seq<Seq<bool>>, a: Pos, b: Pos) -> bool {
    exists|path: Seq<Pos>| #[trigger] is_path(g, path) && path[0] == a && path.last() == b
}

/// Every open cell of `g2` that is open in `g1`: `g2` only opens cells.
pub open spec fn opens_more(g1: Seq<Seq<bool>>, g2: Seq<Seq<bool>>) -> bool {
    forall|p: Pos| is_open(g1, p) ==> #[trigger] is_open(g2, p)
}

/// `g` with the cell at `p` set to `v`.
pub open spec fn set_at(g: Seq<Seq<bool>>, p: Pos, v: bool) -> Seq<Seq<bool>> {
    g.update(p.1, g[p.1].update(p.0, v))
}

/// Every open cell can be reached from `s`.
pub open spec fn all_reach_from(g: Seq<Seq<bool>>, s: Pos) -> bool {
    forall|p: Pos| #[trigger] is_open(g, p) ==> reachable(g, s, p)
}

/// An open cell reaches itself.
pub proof fn lemma_reach_self(g: Seq<Seq<bool>>, a: Pos)
    requires
        is_open(g, a),
    ensures
        reachable(g, a, a),
{
    let path = seq![a];
    assert(is_path(g, path));
}

/// A walk to `b` goes on to an open cell beside `b`.
pub proof fn lemma_reach_step(g: Seq<Seq<bool>>, a: Pos, b: Pos, c: Pos)
    requires
        reachable(g, a, b),
        is_open(g, c),
        adjacent(b, c),
    ensures
        reachable(g, a, c),
{
    let path = choose|path: Seq<Pos>| #[trigger] is_path(g, path) && path[0] == a && path.last() == b;
    let p2 = path.push(c);
    assert forall|i: int| 0 <= i < p2.len() implies is_open(g, #[trigger] p2[i]) by {
        if i < path.len() {
            assert(p2[i] == path[i]);
        }
    }
    assert forall|i: int| 0 <= i < p2.len() - 1 implies adjacent(#[trigger] p2[i], p2[i + 1]) by {
        if i < path.len() - 1 {
            assert(p2[i] == path[i] && p2[i + 1] == path[i + 1]);
        }
    }
    assert(is_path(g, p2));
    assert(p2[0] == a);
}

/// Opening cells keeps every walk.
pub proof fn lemma_reach_mono(g1: Seq<Seq<bool>>, g2: Seq<Seq<bool>>, a: Pos, b: Pos)
    requires
        reachable(g1, a, b),
        opens_more(g1, g2),
    ensures
        reachable(g2, a, b),
{
    let path = choose|path: Seq<Pos>| #[trigger] is_path(g1, path) && path[0] == a && path.last() == b;
    assert forall|i: int| 0 <= i < path.len() implies is_open(g2, #[trigger] path[i]) by {
        assert(is_open(g1, path[i]));
    }
    assert(is_path(g2, path));
}

/// Clearing a cell opens it and keeps every other cell as it was.
pub proof fn lemma_clear_opens(g: Seq<Seq<bool>>, w: int, h: int, c: Pos)
    requires
        has_shape(g, w, h),
        in_bounds(w, h, c),
    ensures
        opens_more(g, set_at(g, c, false)),
        is_open(set_at(g, c, false), c),
        has_shape(set_at(g, c, false), w, h),
        forall|p: Pos| p != c ==> (is_open(set_at(g, c, false), p) == #[trigger] is_open(g, p)),
{
    let g2 = set_at(g, c, false);
    assert forall|y: int| 0 <= y < h implies #[trigger] g2[y].len() == w by {
        assert(g[y].len() == w);
    }
}

/// Clearing a cell beside one that `s` reaches keeps every open cell
/// reachable from `s`.
pub proof fn lemma_clear_keeps_reach(g: Seq<Seq<bool>>, w: int, h: int, s: Pos, b: Pos, c: Pos)
    requires
        has_shape(g, w, h),
        in_bounds(w, h, c),
        all_reach_from(g, s),
        is_open(g, b),
        adjacent(b, c),
    ensures
        all_reach_from(set_at(g, c, false), s),
        has_shape(set_at(g, c, false), w, h),
        opens_more(g, set_at(g, c, false)),
{
    let g2 = set_at(g, c, false);
    lemma_clear_opens(g, w, h, c);
    assert forall|p: Pos| #[trigger] is_open(g2, p) implies reachable(g2, s, p) by {
        if p == c {
            lemma_reach_mono(g, g2, s, b);
            lemma_reach_step(g2, s, b, c);
        } else {
            assert(is_open(g, p));
            lemma_reach_mono(g, g2, s, p);
        }
    }
}

/// Every open cell but possibly `e` can be reached from `s`.
pub open spec fn all_reach_but(g: Seq<Seq<bool>>, s: Pos, e: Pos) -> bool {
    forall|p: Pos| #[trigger] is_open(g, p) && p != e ==> reachable(g, s, p)
}

/// Clearing a cell beside one that `s` reaches makes it reachable too, and
/// keeps every other open cell but `e` reachable.
pub proof fn lemma_clear_extends(
    g: Seq<Seq<bool>>,
    w: int,
    h: int,
    s: Pos,
    e: Pos,
    b: Pos,
    c: Pos,
)
    requires
        has_shape(g, w, h),
        in_bounds(w, h, c),
        all_reach_but(g, s, e),
        reachable(g, s, b),
        adjacent(b, c),
    ensures
        all_reach_but(set_at(g, c, false), s, e),
        reachable(set_at(g, c, false), s, c),
        has_shape(set_at(g, c, false), w, h),
        opens_more(g, set_at(g, c, false)),
{
    let g2 = set_at(g, c, false);
    lemma_clear_opens(g, w, h, c);
    lemma_reach_mono(g, g2, s, b);
    lemma_reach_step(g2, s, b, c);
    assert forall|p: Pos| #[trigger] is_open(g2, p) && p != e implies reachable(g2, s, p) by {
        if p != c {
            assert(is_open(g, p));
            lemma_reach_mono(g, g2, s, p);
        }
    }
}

/// Number of unmarked (`false`) entries of a row.
pub open spec fn row_unmarked(r: Seq<bool>) -> nat
    decreases r.len(),
{
    if r.len() == 0 {
        0
    } else {
        row_unmarked(r.drop_last()) + if r.last() {
            0nat
        } else {
            1nat
        }
    }
}

/// Number of unmarked (`false`) entries of a grid.
pub open spec fn grid_unmarked(g: Seq<Seq<bool>>) -> nat
    decreases g.len(),
{
    if g.len() == 0 {
        0
    } else {
        grid_unmarked(g.drop_last()) + row_unmarked(g.last())
    }
}

proof fn lemma_row_mark(r: Seq<bool>, x: int)
    requires
        0 <= x < r.len(),
        !r[x],
    ensures
        row_unmarked(r.update(x, true)) + 1 == row_unmarked(r),
    decreases r.len(),
{
    let r2 = r.update(x, true);
    if x == r.len() - 1 {
        assert(r2.drop_last() =~= r.drop_last());
    } else {
        lemma_row_mark(r.drop_last(), x);
        assert(r2.drop_last() =~= r.drop_last().update(x, true));
    }
}

/// Marking an unmarked entry leaves one fewer.
pub proof fn lemma_grid_mark(g: Seq<Seq<bool>>, p: Pos)
    requires
        0 <= p.1 < g.len(),
        0 <= p.0 < g[p.1].len(),
        !g[p.1][p.0],
    ensures
        grid_unmarked(set_at(g, p, true)) + 1 == grid_unmarked(g),
    decreases g.len(),
{
    let g2 = set_at(g, p, true);
    if p.1 == g.len() - 1 {
        assert(g2.drop_last() =~= g.drop_last());
        lemma_row_mark(g[p.1], p.0);
    } else {
        lemma_grid_mark(g.drop_last(), p);
        assert(g2.drop_last() =~= set_at(g.drop_last(), p, true));
    }
}

/// A grid of `h` rows of `w` copies of `v`.
pub fn filled_grid(w: usize, h: usize, v: bool) -> (rows: Vec<Vec<bool>>)
    ensures
        has_shape(grid_view(rows@), w as int, h as int),
        forall|p: Pos| in_bounds(w as int, h as int, p) ==> #[trigger] grid_view(rows@)[p.1][p.0] == v,
{
    let mut rows: Vec<Vec<bool>> = Vec::new();
    let mut y: usize = 0;
    while y < h
        invariant
            y <= h,
            rows@.len() == y,
            forall|j: int| 0 <= j < y ==> (#[trigger] rows@[j])@ == Seq::new(w as nat, |i: int| v),
        decreases h - y,
    {
        let mut row: Vec<bool> = Vec::new();
        let mut x: usize = 0;
        while x < w
            invariant
                x <= w,
                row@ == Seq::new(x as nat, |i: int| v),
            decreases w - x,
        {
            row.push(v);
            x = x + 1;
            assert(row@ =~= Seq::new(x as nat, |i: int| v));
        }
        rows.push(row);
        y = y + 1;
    }
    proof {
        let g = grid_view(rows@);
        assert forall|j: int| 0 <= j < h implies #[trigger] g[j].len() == w by {
            assert(rows@[j]@ == Seq::new(w as nat, |i: int| v));
        }
        assert forall|p: Pos| in_bounds(w as int, h as int, p) implies #[trigger] g[p.1][p.0] == v by {
            assert(rows@[p.1]@ == Seq::new(w as nat, |i: int| v));
        }
    }
    rows
}

/// Row `y` of the mathematical grid is the value of row `y`.
pub proof fn lemma_rows(rows: Seq<Vec<bool>>, w: int, h: int)
    requires
        has_shape(grid_view(rows), w, h),
    ensures
        rows.len() == h,
        forall|y: int| 0 <= y < h ==> #[trigger] rows[y]@ == grid_view(rows)[y],
        forall|y: int| 0 <= y < h ==> (#[trigger] rows[y])@.len() == w,
{
    assert forall|y: int| 0 <= y < h implies (#[trigger] rows[y])@.len() == w by {
        assert(grid_view(rows)[y].len() == w);
    }
}

/// A copy of a grid of rows.
pub fn copy_grid(rows: &Vec<Vec<bool>>) -> (r: Vec<Vec<bool>>)
    ensures
        grid_view(r@) == grid_view(rows@),
{
    let mut out: Vec<Vec<bool>> = Vec::new();
    let mut y: usize = 0;
    while y < rows.len()
        invariant
            y <= rows@.len(),
            out@.len() == y,
            forall|j: int| 0 <= j < y ==> (#[trigger] out@[j])@ == rows@[j]@,
        decreases rows@.len() - y,
    {
        let src = &rows[y];
        let mut row: Vec<bool> = Vec::new();
        let mut x: usize = 0;
        while x < src.len()
            invariant
                x <= src@.len(),
                row@ == src@.subrange(0, x as int),
            decreases src@.len() - x,
        {
            row.push(src[x]);
            x = x + 1;
            assert(row@ =~= src@.subrange(0, x as int));
        }
        assert(row@ =~= src@);
        out.push(row);
        y = y + 1;
    }
    assert(grid_view(out@) =~= grid_view(rows@));
    out
}

/// Sets one cell of a grid of rows.
pub fn set_cell(rows: &mut Vec<Vec<bool>>, x: usize, y: usize, v: bool)
    requires
        y < old(rows)@.len(),
        x < old(rows)@[y as int]@.len(),
    ensures
        final(rows)@.len() == old(rows)@.len(),
        grid_view(final(rows)@) == set_at(grid_view(old(rows)@), (x as int, y as int), v),
{
    let ghost g = grid_view(rows@);
    let mut row: Vec<bool> = Vec::new();
    std::mem::swap(&mut row, &mut rows[y]);
    row.set(x, v);
    rows.set(y, row);
    assert(grid_view(rows@) =~= set_at(g, (x as int, y as int), v));
}

} // verus!
