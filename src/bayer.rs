//! Fractal Bayer point sets, held exactly.
//!
//! Every point of the finest level lies on a 16 x 16 lattice of the unit
//! tile, so a coordinate is stored as a whole number of sixteenths.
use vstd::prelude::*;

verus! {

/// Number of lattice steps along one side of the unit tile.
pub const TILE_UNITS: u32 = 16;

/// The finest level that the table holds.
pub const MAX_LEVEL: usize = 3;

/// `2^n`.
pub open spec fn pow2(n: nat) -> nat
    decreases n,
{
    if n == 0 {
        1
    } else {
        2 * pow2((n - 1) as nat)
    }
}

/// `4^n`.
pub open spec fn pow4(n: nat) -> nat
    decreases n,
{
    if n == 0 {
        1
    } else {
        4 * pow4((n - 1) as nat)
    }
}

/// The four points of the coarsest pattern, in sixteenths:
/// (0, 0), (1/2, 1/2), (1/2, 0), (0, 1/2).
pub open spec fn base_points() -> Seq<(u32, u32)> {
    seq![(0u32, 0u32), (8u32, 8u32), (8u32, 0u32), (0u32, 8u32)]
}

/// Each point of `p`, moved by `o` scaled by `1 / 2^(r+1)`.
pub open spec fn translated(p: Seq<(u32, u32)>, o: (u32, u32), r: nat) -> Seq<(u32, u32)> {
    p.map_values(
        |q: (u32, u32)|
            ((q.0 as int + o.0 as int / pow2(r + 1) as int) as u32, (q.1 as int + o.1 as int / pow2(r + 1) as int) as u32),
    )
}

/// One round of subdivision: the points so far, followed by three copies of
/// them, moved by the three non-origin base offsets at scale `1 / 2^(r+1)`.
pub open spec fn subdivided(p: Seq<(u32, u32)>, r: nat) -> Seq<(u32, u32)> {
    p + translated(p, p[1], r) + translated(p, p[2], r) + translated(p, p[3], r)
}

/// The point sequence of a level: the base pattern after `level` rounds.
pub open spec fn bayer_points(level: nat) -> Seq<(u32, u32)>
    decreases level,
{
    if level == 0 {
        base_points()
    } else {
        subdivided(bayer_points((level - 1) as nat), (level - 1) as nat)
    }
}

/// Every coordinate of `p` is at most `b`.
pub open spec fn coords_at_most(p: Seq<(u32, u32)>, b: int) -> bool {
    forall|k: int| 0 <= k < p.len() ==> p[k].0 <= b && p[k].1 <= b
}

/// A level holds `4^(level+1)` points, and its first four are the base pattern.
pub proof fn lemma_bayer_len(level: nat)
    ensures
        bayer_points(level).len() == pow4(level + 1),
        pow4(level + 1) >= 4,
        bayer_points(level).subrange(0, 4) == base_points(),
    decreases level,
{
    if level > 0 {
        lemma_bayer_len((level - 1) as nat);
        let p = bayer_points((level - 1) as nat);
        assert(bayer_points(level).subrange(0, 4) =~= p.subrange(0, 4));
        assert(pow4(level + 1) == 4 * pow4(level));
    } else {
        assert(base_points().subrange(0, 4) =~= base_points());
        reveal_with_fuel(pow4, 2);
    }
}

/// Where entry `k` of one subdivision round comes from: an old point, or
/// old point `k % n` moved by base offset `k / n`.
proof fn lemma_subdivided_entry(p: Seq<(u32, u32)>, r: nat, k: int)
    requires
        p.len() >= 4,
        0 <= k < 4 * p.len(),
    ensures
        subdivided(p, r).len() == 4 * p.len(),
        k < p.len() ==> subdivided(p, r)[k] == p[k],
        k >= p.len() ==> {
            let i = k / (p.len() as int);
            let m = k % (p.len() as int);
            &&& 1 <= i <= 3
            &&& 0 <= m < p.len()
            &&& subdivided(p, r)[k] == translated(p, p[i], r)[m]
        },
{
    let n = p.len() as int;
    let q = subdivided(p, r);
    let t1 = translated(p, p[1], r);
    let t2 = translated(p, p[2], r);
    let t3 = translated(p, p[3], r);
    assert(q == p + t1 + t2 + t3);
    if k >= n {
        let i = k / n;
        let m = k % n;
        assert(k == i * n + m && 0 <= m < n) by (nonlinear_arith)
            requires
                n > 0,
                i == k / n,
                m == k % n,
        ;
        assert(1 <= i <= 3) by (nonlinear_arith)
            requires
                n > 0,
                n <= k < 4 * n,
                k == i * n + m,
                0 <= m < n,
        ;
        assert(t1.len() == n && t2.len() == n && t3.len() == n);
        if i == 1 {
            assert(k == n + m) by (nonlinear_arith)
                requires
                    k == i * n + m,
                    i == 1,
            ;
            assert(q[k] == (p + t1)[k]);
        } else if i == 2 {
            assert(k == 2 * n + m) by (nonlinear_arith)
                requires
                    k == i * n + m,
                    i == 2,
            ;
            assert(q[k] == (p + t1 + t2)[k]);
        } else {
            assert(k == 3 * n + m) by (nonlinear_arith)
                requires
                    k == i * n + m,
                    i == 3,
            ;
        }
    }
}

/// Coordinates never exceed `8 * (level + 1)` sixteenths.
proof fn lemma_bayer_bound(level: nat)
    ensures
        coords_at_most(bayer_points(level), 8 * (level + 1) as int),
    decreases level,
{
    if level > 0 {
        let r = (level - 1) as nat;
        lemma_bayer_bound(r);
        lemma_bayer_len(r);
        lemma_pow2_pos(r + 1);
        let p = bayer_points(r);
        let q = bayer_points(level);
        assert forall|k: int| 0 <= k < q.len() implies q[k].0 <= 8 * (level + 1) && q[k].1 <= 8 * (
        level + 1) by {
            lemma_subdivided_entry(p, r, k);
            if k >= p.len() {
                let i = k / (p.len() as int);
                lemma_div_le(p[i].0 as int, pow2(r + 1) as int);
                lemma_div_le(p[i].1 as int, pow2(r + 1) as int);
            }
        }
    }
}

/// Every point lies inside the unit tile: at level `l` both coordinates are
/// at most `16 - 2^(3 - l)` sixteenths, so below 16.
pub proof fn lemma_points_in_tile(level: nat)
    requires
        level <= MAX_LEVEL,
    ensures
        coords_at_most(bayer_points(level), TILE_UNITS - pow2((MAX_LEVEL - level) as nat)),
        coords_at_most(bayer_points(level), TILE_UNITS - 1),
    decreases level,
{
    reveal_with_fuel(pow2, 4);
    if level > 0 {
        let r = (level - 1) as nat;
        lemma_points_in_tile(r);
        lemma_bayer_len(r);
        let p = bayer_points(r);
        let q = bayer_points(level);
        let d = pow2(r + 1) as int;
        let b = TILE_UNITS - pow2((MAX_LEVEL - r) as nat) as int;
        let step: int = if r == 0 {
            4
        } else if r == 1 {
            2
        } else {
            1
        };
        assert(pow2(0) == 1 && pow2(1) == 2 && pow2(2) == 4 && pow2(3) == 8);
        assert(r == 0 || r == 1 || r == 2);
        assert(b + step == TILE_UNITS - pow2((MAX_LEVEL - level) as nat));
        assert(d * step == 8);
        assert forall|k: int| 0 <= k < q.len() implies q[k].0 <= b + step && q[k].1 <= b + step by {
            lemma_subdivided_entry(p, r, k);
            if k >= p.len() {
                let i = k / (p.len() as int);
                assert(p[i] == base_points()[i]);
                lemma_div_exact(p[i].0 as int, d, step);
                lemma_div_exact(p[i].1 as int, d, step);
            }
        }
    }
}

/// `0 / d == 0` and `8 / d == step` when `d * step == 8`.
proof fn lemma_div_exact(a: int, d: int, step: int)
    requires
        a == 0 || a == 8,
        d > 0,
        d * step == 8,
    ensures
        a / d <= step,
{
    assert(a / d <= step) by (nonlinear_arith)
        requires
            a == 0 || a == 8,
            d > 0,
            d * step == 8,
    ;
}

proof fn lemma_pow2_pos(n: nat)
    ensures
        pow2(n) >= 1,
        n >= 1 ==> pow2(n) >= 2,
    decreases n,
{
    if n > 0 {
        lemma_pow2_pos((n - 1) as nat);
    }
}

proof fn lemma_div_le(a: int, d: int)
    requires
        0 <= a <= 8,
        d >= 2,
    ensures
        0 <= a / d <= 4,
{
    assert(a / d <= a / 2) by (nonlinear_arith)
        requires
            0 <= a,
            d >= 2,
    ;
}

/// Appends to `points` each of its first `count` points moved by `o / div`.
fn append_translated(points: &mut Vec<(u32, u32)>, count: usize, o: (u32, u32), div: u32, Ghost(
    r,
): Ghost<nat>)
    requires
        count <= old(points)@.len(),
        old(points)@.len() + count <= usize::MAX,
        div as nat == pow2(r + 1),
        o.0 <= 8,
        o.1 <= 8,
        coords_at_most(old(points)@.subrange(0, count as int), 24),
    ensures
        final(points)@ == old(points)@ + translated(old(points)@.subrange(0, count as int), o, r),
{
    let ghost p = old(points)@.subrange(0, count as int);
    let ghost start = old(points)@;
    proof {
        lemma_pow2_pos(r + 1);
    }
    let mut j: usize = 0;
    while j < count
        invariant
            j <= count,
            count <= start.len(),
            start.len() + count <= usize::MAX,
            p == start.subrange(0, count as int),
            div as nat == pow2(r + 1),
            div >= 2,
            o.0 <= 8,
            o.1 <= 8,
            coords_at_most(p, 24),
            points@ == start + translated(p, o, r).subrange(0, j as int),
        decreases count - j,
    {
        let q = points[j];
        assert(q == p[j as int]);
        proof {
            lemma_div_le(o.0 as int, div as int);
            lemma_div_le(o.1 as int, div as int);
        }
        points.push((q.0 + o.0 / div, q.1 + o.1 / div));
        j = j + 1;
        assert(points@ =~= start + translated(p, o, r).subrange(0, j as int));
    }
    assert(translated(p, o, r).subrange(0, count as int) =~= translated(p, o, r));
}

/// Builds the point sequence of a level, in sixteenths of the tile.
///
/// Level 0 is the four base points; each further level appends three moved
/// copies of everything so far, so a coarser level is a prefix of a finer one.
pub fn generate_bayer_points(recursion: usize) -> (points: Vec<(u32, u32)>)
    requires
        recursion <= MAX_LEVEL,
    ensures
        points@ == bayer_points(recursion as nat),
        points@.len() == pow4(recursion as nat + 1),
{
    let mut points: Vec<(u32, u32)> = vec![(0, 0), (8, 8), (8, 0), (0, 8)];
    assert(points@ =~= base_points());
    let mut r: usize = 0;
    let mut div: u32 = 2;
    assert(pow2(1) == 2) by {
        reveal_with_fuel(pow2, 2);
    }
    while r < recursion
        invariant
            r <= recursion <= MAX_LEVEL,
            points@ == bayer_points(r as nat),
            div as nat == pow2(r as nat + 1),
        decreases recursion - r,
    {
        let ghost p = points@;
        proof {
            lemma_bayer_len(r as nat);
            lemma_bayer_bound(r as nat);
            assert(p.subrange(0, p.len() as int) =~= p);
            assert(p[1] == base_points()[1]);
            assert(p[2] == base_points()[2]);
            assert(p[3] == base_points()[3]);
            assert(pow4(r as nat + 1) <= 64 && pow2(r as nat + 1) <= 8) by {
                reveal_with_fuel(pow4, 4);
                reveal_with_fuel(pow2, 4);
                assert(r == 0 || r == 1 || r == 2);
            }
        }
        let count = points.len();
        let o1 = points[1];
        let o2 = points[2];
        let o3 = points[3];
        append_translated(&mut points, count, o1, div, Ghost(r as nat));
        proof {
            assert(points@.subrange(0, count as int) =~= p);
        }
        append_translated(&mut points, count, o2, div, Ghost(r as nat));
        proof {
            assert(points@.subrange(0, count as int) =~= p);
        }
        append_translated(&mut points, count, o3, div, Ghost(r as nat));
        assert(points@ =~= subdivided(p, r as nat));
        r = r + 1;
        div = div * 2;
    }
    proof {
        lemma_bayer_len(recursion as nat);
    }
    points
}

/// The level that a request for `level` is served from: the finest one for
/// anything past it.
pub open spec fn served_level(level: int) -> nat {
    if 0 <= level <= MAX_LEVEL {
        level as nat
    } else {
        MAX_LEVEL as nat
    }
}

/// The point sets of all four levels, computed once.
pub struct BayerPatterns {
    /// 4 points.
    pub level_0: Vec<(u32, u32)>,
    /// 16 points.
    pub level_1: Vec<(u32, u32)>,
    /// 64 points.
    pub level_2: Vec<(u32, u32)>,
    /// 256 points.
    pub level_3: Vec<(u32, u32)>,
}

impl BayerPatterns {
    /// Each field holds the point sequence of its level.
    pub open spec fn wf(&self) -> bool {
        &&& self.level_0@ == bayer_points(0)
        &&& self.level_1@ == bayer_points(1)
        &&& self.level_2@ == bayer_points(2)
        &&& self.level_3@ == bayer_points(3)
    }

    pub fn new() -> (r: Self)
        ensures
            r.wf(),
    {
        BayerPatterns {
            level_0: generate_bayer_points(0),
            level_1: generate_bayer_points(1),
            level_2: generate_bayer_points(2),
            level_3: generate_bayer_points(3),
        }
    }

    /// The points of a level; a level past the finest is served the finest.
    pub fn get_level(&self, level: usize) -> (r: &[(u32, u32)])
        requires
            self.wf(),
        ensures
            r@ == bayer_points(served_level(level as int)),
    {
        match level {
            0 => self.level_0.as_slice(),
            1 => self.level_1.as_slice(),
            2 => self.level_2.as_slice(),
            3 => self.level_3.as_slice(),
            _ => self.level_3.as_slice(),
        }
    }

    /// Dots along one side of a level's tile: `2^level`, and 8 past the finest.
    pub fn dots_per_side(&self, level: usize) -> (r: usize)
        ensures
            r as nat == pow2(served_level(level as int)),
    {
        proof {
            reveal_with_fuel(pow2, 4);
        }
        match level {
            0 => 1,
            1 => 2,
            2 => 4,
            3 => 8,
            _ => 8,
        }
    }
}

impl Default for BayerPatterns {
    fn default() -> (r: Self)
        ensures
            r.wf(),
    {
        Self::new()
    }
}

/// The levels hold 4, 16, 64 and 256 points.
pub proof fn lemma_level_counts()
    ensures
        bayer_points(0).len() == 4,
        bayer_points(1).len() == 16,
        bayer_points(2).len() == 64,
        bayer_points(3).len() == 256,
{
    lemma_bayer_len(0);
    lemma_bayer_len(1);
    lemma_bayer_len(2);
    lemma_bayer_len(3);
    reveal_with_fuel(pow4, 5);
}

/// Each level is the start of the next: subdivision never moves a point
/// that is already there.
pub proof fn lemma_prefix_stable(level: nat)
    ensures
        bayer_points(level) == bayer_points(level + 1).subrange(0, bayer_points(level).len() as int),
{
    let p = bayer_points(level);
    assert(bayer_points(level + 1).subrange(0, p.len() as int) =~= p);
}

} // verus!
