//! Discrete cell coordinates for the three tilings.
//!
//! Each tiling converts a continuous fixed-point point and a positive scale
//! into a discrete cell, and enumerates the fixed ring of cells geometrically
//! adjacent to a given cell:
//!
//! * [`Euclidean`]: axis-aligned square cells, 8 Moore neighbors;
//! * [`HexAxial`]: hexagonal cells in axial coordinates, 6 neighbors;
//! * [`TriCoord`]: triangular cells, 12 neighbors, with an orientation bit.
//!
//! Every transform is exact integer arithmetic on rationals, so the
//! lattice invariants (the hex `q + r + s == 0` identity, the triangular
//! `s + t + u` in `{1, 2}` invariant) hold outright.

use crate::fixed::{
    ceil_div_spec, floor_div_spec, lemma_floor_div_add, lemma_floor_div_bound,
    lemma_round_div_close, round_div_spec, ceil_div, floor_div, round_div, Fixed,
};
use vstd::prelude::*;

verus! {

/// Bound on the components of any cell produced from a continuous point.
pub const CELL_MAX: i64 = 0x10_0000_0000;

/// Bound on cell components accepted by ring enumeration and canonical keys.
pub const CELL_LIMIT: i64 = 0x1000_0000_0000_0000;

/// Largest numerator magnitude of a well-formed [`Frac`].
pub const FRAC_NUM_MAX: i64 = 0x10_0000_0000_0000;

/// Largest denominator of a well-formed [`Frac`].
pub const FRAC_DEN_MAX: i64 = 0x1_0000_0000_0000;

/// `sqrt(3) / 3` in units of `1 / 65536`, rounded to nearest.
pub const K_SQRT3_THIRD: i64 = 37837;

/// `1 / 3` in units of `1 / 65536`, rounded to nearest.
pub const K_THIRD: i64 = 21845;

/// `2 / 3` in units of `1 / 65536`, rounded to nearest.
pub const K_TWO_THIRDS: i64 = 43691;

/// `2 * sqrt(3) / 3 == 2 / sqrt(3)` in units of `1 / 65536`.
pub const K_TWO_SQRT3_THIRD: i64 = 75674;

/// The canonical 2D integer key of a cell: the injective representation
/// used for exact-match lookup inside a hash bucket.
#[derive(Clone, Copy, PartialEq, Eq, Structural, Debug)]
pub struct Key {
    pub x: i64,
    pub y: i64,
}

/// An exact rational scalar: `num / den` with `den > 0`.
///
/// Fractional cell coordinates are carried as `Frac`s so that rounding
/// decisions compare exact residuals instead of floating-point ones.
#[derive(Clone, Copy, PartialEq, Eq, Structural, Debug)]
pub struct Frac {
    pub num: i64,
    pub den: i64,
}

impl Frac {
    /// Numerator and denominator small enough for every intermediate
    /// product in the rounding routines to fit in 64 bits.
    pub open spec fn wf(self) -> bool {
        &&& 1 <= self.den <= FRAC_DEN_MAX
        &&& -FRAC_NUM_MAX <= self.num <= FRAC_NUM_MAX
    }
}

/// A coordinate on the square (or, over [`Frac`], continuous) plane.
#[derive(Clone, Copy, PartialEq, Eq, Structural, Debug)]
pub struct Euclidean<T> {
    pub x: T,
    pub y: T,
}

/// The square cell containing the continuous point `(x, y)` at scale
/// `side`, all in raw fixed-point units: componentwise floor of `x / side`.
pub open spec fn square_cell_spec(x: int, y: int, side: int) -> (int, int) {
    (floor_div_spec(x, side), floor_div_spec(y, side))
}

/// The eight Moore neighbors of the square cell `(x, y)`, in table order.
pub open spec fn square_ring_spec(x: int, y: int) -> Seq<(int, int)> {
    seq![
        (x - 1, y - 1),
        (x - 1, y),
        (x - 1, y + 1),
        (x, y - 1),
        (x, y + 1),
        (x + 1, y - 1),
        (x + 1, y),
        (x + 1, y + 1),
    ]
}

impl Euclidean<Frac> {
    /// Componentwise floor to the containing square cell.
    pub fn round(&self) -> (c: Euclidean<i64>)
        requires
            self.x.wf(),
            self.y.wf(),
        ensures
            c.x == floor_div_spec(self.x.num as int, self.x.den as int),
            c.y == floor_div_spec(self.y.num as int, self.y.den as int),
            self.x.num >= 0 ==> 0 <= c.x <= self.x.num,
            self.x.num < 0 ==> self.x.num <= c.x <= 0,
            self.y.num >= 0 ==> 0 <= c.y <= self.y.num,
            self.y.num < 0 ==> self.y.num <= c.y <= 0,
    {
        Euclidean {
            x: floor_div(self.x.num, self.x.den),
            y: floor_div(self.y.num, self.y.den),
        }
    }
}

impl Euclidean<i64> {
    /// The square cell containing `(x, y)` when the plane is tiled by
    /// axis-aligned squares of side `side`.
    pub fn from_continuous(x: Fixed, y: Fixed, side: Fixed) -> (c: Euclidean<i64>)
        requires
            side.raw >= 1,
        ensures
            (c.x as int, c.y as int) == square_cell_spec(x.raw as int, y.raw as int, side.raw as int),
            -CELL_MAX <= c.x <= CELL_MAX,
            -CELL_MAX <= c.y <= CELL_MAX,
    {
        let fx = Frac { num: x.raw as i64, den: side.raw as i64 };
        let fy = Frac { num: y.raw as i64, den: side.raw as i64 };
        Euclidean { x: fx, y: fy }.round()
    }

    /// The cell displaced by `(dx, dy)`.
    pub fn offset(self, dx: i64, dy: i64) -> (c: Euclidean<i64>)
        requires
            -CELL_LIMIT <= self.x + dx <= CELL_LIMIT,
            -CELL_LIMIT <= self.y + dy <= CELL_LIMIT,
            -CELL_LIMIT <= self.x <= CELL_LIMIT,
            -CELL_LIMIT <= self.y <= CELL_LIMIT,
            -CELL_LIMIT <= dx <= CELL_LIMIT,
            -CELL_LIMIT <= dy <= CELL_LIMIT,
        ensures
            c.x == self.x + dx,
            c.y == self.y + dy,
    {
        Euclidean { x: self.x + dx, y: self.y + dy }
    }

    /// The Moore-neighborhood offset table.
    pub fn neighbor_indices() -> (t: Vec<(i64, i64)>)
        ensures
            t@.len() == 8,
            forall|i: int|
                0 <= i < 8 ==> (#[trigger] t@[i]).0 == square_ring_spec(0, 0)[i].0
                    && t@[i].1 == square_ring_spec(0, 0)[i].1,
    {
        let mut t: Vec<(i64, i64)> = Vec::new();
        t.push((-1, -1));
        t.push((-1, 0));
        t.push((-1, 1));
        t.push((0, -1));
        t.push((0, 1));
        t.push((1, -1));
        t.push((1, 0));
        t.push((1, 1));
        t
    }

    /// The eight cells adjacent to this cell, in table order.
    pub fn one_ring(&self) -> (r: Vec<Euclidean<i64>>)
        requires
            -CELL_LIMIT <= self.x <= CELL_LIMIT,
            -CELL_LIMIT <= self.y <= CELL_LIMIT,
        ensures
            r@.len() == 8,
            forall|i: int|
                0 <= i < 8 ==> (#[trigger] r@[i]).x == square_ring_spec(
                    self.x as int,
                    self.y as int,
                )[i].0 && r@[i].y == square_ring_spec(self.x as int, self.y as int)[i].1,
    {
        let x = self.x;
        let y = self.y;
        let mut r: Vec<Euclidean<i64>> = Vec::new();
        r.push(Euclidean { x: x - 1, y: y - 1 });
        r.push(Euclidean { x: x - 1, y: y });
        r.push(Euclidean { x: x - 1, y: y + 1 });
        r.push(Euclidean { x: x, y: y - 1 });
        r.push(Euclidean { x: x, y: y + 1 });
        r.push(Euclidean { x: x + 1, y: y - 1 });
        r.push(Euclidean { x: x + 1, y: y });
        r.push(Euclidean { x: x + 1, y: y + 1 });
        r
    }
}

/// A hexagonal cell in axial coordinates `(q, r)`; the derived third
/// component `s == -q - r` keeps the cube identity `q + r + s == 0`.
#[derive(Clone, Copy, PartialEq, Eq, Structural, Debug)]
pub struct HexAxial<T> {
    pub q: T,
    pub r: T,
}

/// Magnitude of an integer.
pub open spec fn iabs(x: int) -> int {
    if x >= 0 {
        x
    } else {
        -x
    }
}

/// Minimum-total-error rounding of the fractional axial coordinate
/// `(nq / d, nr / d)` to a lattice point: round `q`, `r` and `s = -q - r`
/// independently to the nearest integers, then discard whichever had the
/// largest rounding residual, recomputing it from the other two so that the
/// triple sums to zero.  Only `(q, r)` is returned; `s` stays derived.
pub open spec fn hex_round_spec(nq: int, nr: int, d: int) -> (int, int) {
    let ns = -nq - nr;
    let rq = round_div_spec(nq, d);
    let rr = round_div_spec(nr, d);
    let rs = round_div_spec(ns, d);
    let dq = iabs(rq * d - nq);
    let dr = iabs(rr * d - nr);
    let ds = iabs(rs * d - ns);
    if dq > dr && dq > ds {
        (-rr - rs, rr)
    } else if dr > ds {
        (rq, -rq - rs)
    } else {
        (rq, rr)
    }
}

/// The hexagonal cell containing the continuous point `(x, y)` for
/// circumradius `cr`, all in raw fixed-point units: the standard axial
/// transform `q = (x * sqrt(3)/3 - y/3) / cr`, `r = (2y/3) / cr`, followed
/// by minimum-error rounding.
pub open spec fn hex_cell_spec(x: int, y: int, cr: int) -> (int, int) {
    hex_round_spec(x * K_SQRT3_THIRD - y * K_THIRD, y * K_TWO_THIRDS, cr * 65536)
}

/// The six axial neighbors of the hexagonal cell `(q, r)`, in table order.
pub open spec fn hex_ring_spec(q: int, r: int) -> Seq<(int, int)> {
    seq![(q + 1, r), (q + 1, r - 1), (q, r - 1), (q - 1, r), (q - 1, r + 1), (q, r + 1)]
}

impl HexAxial<Frac> {
    /// Round the fractional axial coordinate to the nearest lattice point
    /// under minimum-total-error rounding.
    pub fn round(&self) -> (c: HexAxial<i64>)
        requires
            self.q.wf(),
            self.r.wf(),
            self.q.den == self.r.den,
        ensures
            (c.q as int, c.r as int) == hex_round_spec(
                self.q.num as int,
                self.r.num as int,
                self.q.den as int,
            ),
    {
        let d = self.q.den;
        let nq = self.q.num;
        let nr = self.r.num;
        let ns = -nq - nr;
        let rq = round_div(nq, d);
        let rr = round_div(nr, d);
        let rs = round_div(ns, d);
        proof {
            lemma_round_div_close(nq as int, d as int);
            lemma_round_div_close(nr as int, d as int);
            lemma_round_div_close(ns as int, d as int);
        }
        let tq = rq * d - nq;
        let tr = rr * d - nr;
        let ts = rs * d - ns;
        let dq = if tq >= 0 { tq } else { -tq };
        let dr = if tr >= 0 { tr } else { -tr };
        let ds = if ts >= 0 { ts } else { -ts };
        if dq > dr && dq > ds {
            HexAxial { q: -rr - rs, r: rr }
        } else if dr > ds {
            HexAxial { q: rq, r: -rq - rs }
        } else {
            HexAxial { q: rq, r: rr }
        }
    }
}

impl HexAxial<i64> {
    /// The hexagonal cell containing `(x, y)` when the plane is tiled by
    /// hexagons of circumradius `circumradius`.
    pub fn from_continuous(x: Fixed, y: Fixed, circumradius: Fixed) -> (c: HexAxial<i64>)
        requires
            circumradius.raw >= 1,
        ensures
            (c.q as int, c.r as int) == hex_cell_spec(
                x.raw as int,
                y.raw as int,
                circumradius.raw as int,
            ),
            -CELL_MAX <= c.q <= CELL_MAX,
            -CELL_MAX <= c.r <= CELL_MAX,
    {
        let nq = (x.raw as i64) * K_SQRT3_THIRD - (y.raw as i64) * K_THIRD;
        let nr = (y.raw as i64) * K_TWO_THIRDS;
        let d = (circumradius.raw as i64) * 65536;
        let c = HexAxial {
            q: Frac { num: nq, den: d },
            r: Frac { num: nr, den: d },
        }.round();
        proof {
            let b: int = 0x2_0000_0000;
            assert((b - 2) * (d as int) >= b - 2 && -((b - 2) * (d as int)) <= -(b - 2))
                by (nonlinear_arith)
                requires
                    d as int >= 1,
                    b == 0x2_0000_0000int,
            {}
            assert((b - 2) * (d as int) >= (b - 2) * 65536) by (nonlinear_arith)
                requires
                    d as int >= 65536,
                    b == 0x2_0000_0000int,
            {}
            lemma_hex_round_bounded(nq as int, nr as int, d as int, b);
        }
        c
    }

    /// The derived cube component `s == -q - r`.
    pub fn s(&self) -> (s: i64)
        requires
            -CELL_LIMIT <= self.q <= CELL_LIMIT,
            -CELL_LIMIT <= self.r <= CELL_LIMIT,
        ensures
            s == -self.q - self.r,
            self.q + self.r + s == 0,
    {
        -self.q - self.r
    }

    /// The axial neighbor offset table.
    pub fn neighbor_indices() -> (t: Vec<(i64, i64)>)
        ensures
            t@.len() == 6,
            forall|i: int|
                0 <= i < 6 ==> (#[trigger] t@[i]).0 == hex_ring_spec(0, 0)[i].0 && t@[i].1
                    == hex_ring_spec(0, 0)[i].1,
    {
        let mut t: Vec<(i64, i64)> = Vec::new();
        t.push((1, 0));
        t.push((1, -1));
        t.push((0, -1));
        t.push((-1, 0));
        t.push((-1, 1));
        t.push((0, 1));
        t
    }

    /// The cell displaced by `(dq, dr)`.
    pub fn offset(self, dq: i64, dr: i64) -> (c: HexAxial<i64>)
        requires
            -CELL_LIMIT <= self.q + dq <= CELL_LIMIT,
            -CELL_LIMIT <= self.r + dr <= CELL_LIMIT,
            -CELL_LIMIT <= self.q <= CELL_LIMIT,
            -CELL_LIMIT <= self.r <= CELL_LIMIT,
            -CELL_LIMIT <= dq <= CELL_LIMIT,
            -CELL_LIMIT <= dr <= CELL_LIMIT,
        ensures
            c.q == self.q + dq,
            c.r == self.r + dr,
    {
        HexAxial { q: self.q + dq, r: self.r + dr }
    }

    /// The six cells adjacent to this cell, in table order.
    pub fn one_ring(&self) -> (r: Vec<HexAxial<i64>>)
        requires
            -CELL_LIMIT <= self.q <= CELL_LIMIT,
            -CELL_LIMIT <= self.r <= CELL_LIMIT,
        ensures
            r@.len() == 6,
            forall|i: int|
                0 <= i < 6 ==> (#[trigger] r@[i]).q == hex_ring_spec(self.q as int, self.r as int)[i].0
                    && r@[i].r == hex_ring_spec(self.q as int, self.r as int)[i].1,
    {
        let q = self.q;
        let r = self.r;
        let mut v: Vec<HexAxial<i64>> = Vec::new();
        v.push(HexAxial { q: q + 1, r: r });
        v.push(HexAxial { q: q + 1, r: r - 1 });
        v.push(HexAxial { q: q, r: r - 1 });
        v.push(HexAxial { q: q - 1, r: r });
        v.push(HexAxial { q: q - 1, r: r + 1 });
        v.push(HexAxial { q: q, r: r + 1 });
        v
    }
}

/// The rounded axial coordinate stays within any bound `b` that covers the
/// true quotients by one: with `|nq|, |nr| <= (b - 2) * d`, both returned
/// components lie in `[-b, b]`.
pub proof fn lemma_hex_round_bounded(nq: int, nr: int, d: int, b: int)
    requires
        1 <= d,
        4 <= b,
        -((b - 2) * d) <= nq <= (b - 2) * d,
        -((b - 2) * d) <= nr <= (b - 2) * d,
    ensures
        -b <= hex_round_spec(nq, nr, d).0 <= b,
        -b <= hex_round_spec(nq, nr, d).1 <= b,
{
    let ns = -nq - nr;
    let rq = round_div_spec(nq, d);
    let rr = round_div_spec(nr, d);
    let rs = round_div_spec(ns, d);
    lemma_round_div_close(nq, d);
    lemma_round_div_close(nr, d);
    lemma_round_div_close(ns, d);
    let t = (b - 2) * d;
    assert(-(b - 1) <= rq <= b - 1) by (nonlinear_arith)
        requires
            1 <= d,
            4 <= b,
            t == (b - 2) * d,
            -t <= nq <= t,
            nq - d <= rq * d <= nq + d,
    {}
    assert(-(b - 1) <= rr <= b - 1) by (nonlinear_arith)
        requires
            1 <= d,
            4 <= b,
            t == (b - 2) * d,
            -t <= nr <= t,
            nr - d <= rr * d <= nr + d,
    {}
    // The recomputed candidates -rr - rs and -rq - rs track nq / d and
    // nr / d respectively, up to two rounding residuals.
    assert(-b <= -rr - rs <= b) by (nonlinear_arith)
        requires
            1 <= d,
            4 <= b,
            t == (b - 2) * d,
            -t <= nq <= t,
            ns == -nq - nr,
            nr - d <= rr * d <= nr + d,
            ns - d <= rs * d <= ns + d,
    {}
    assert(-b <= -rq - rs <= b) by (nonlinear_arith)
        requires
            1 <= d,
            4 <= b,
            t == (b - 2) * d,
            -t <= nr <= t,
            ns == -nq - nr,
            nq - d <= rq * d <= nq + d,
            ns - d <= rs * d <= ns + d,
    {}
}

/// Hex rounding optimality (lattice membership): for every fractional axial
/// coordinate, the rounded result together with its derived third component
/// satisfies `q + r + s == 0`.
pub proof fn lemma_hex_round_lattice(nq: int, nr: int, d: int)
    requires
        1 <= d,
    ensures
        hex_round_spec(nq, nr, d).0 + hex_round_spec(nq, nr, d).1 + (-hex_round_spec(
            nq,
            nr,
            d,
        ).0 - hex_round_spec(nq, nr, d).1) == 0,
{
}

/// When the independently rounded `q` and `r` components are kept (the
/// residual of `s` was largest), the derived `s` is exactly the recomputed
/// third component; in every other case the kept rounded component pair
/// reproduces the retained rounded `s`.  Together with
/// [`lemma_hex_round_lattice`] this pins the rounding down to the algorithm.
pub proof fn lemma_hex_round_components(nq: int, nr: int, d: int)
    requires
        1 <= d,
    ensures
        ({
            let ns = -nq - nr;
            let rq = round_div_spec(nq, d);
            let rr = round_div_spec(nr, d);
            let rs = round_div_spec(ns, d);
            let res = hex_round_spec(nq, nr, d);
            res == (rq, rr) || -res.0 - res.1 == rs
        }),
{
}

/// Ring shape for hexagonal cells: the six neighbors are pairwise distinct
/// and none of them is the cell itself.
pub proof fn lemma_hex_ring_distinct(q: int, r: int)
    ensures
        hex_ring_spec(q, r).len() == 6,
        forall|i: int, j: int|
            0 <= i < j < 6 ==> hex_ring_spec(q, r)[i] != hex_ring_spec(q, r)[j],
        forall|i: int| 0 <= i < 6 ==> hex_ring_spec(q, r)[i] != (q, r),
{
}

/// Adjacency symmetry for hexagonal cells: whenever `n` is in the ring of
/// `c`, then `c` is in the ring of `n`.
pub proof fn lemma_hex_ring_symmetric(q: int, r: int, nq: int, nr: int)
    requires
        hex_ring_spec(q, r).contains((nq, nr)),
    ensures
        hex_ring_spec(nq, nr).contains((q, r)),
{
    let ring = hex_ring_spec(q, r);
    let back = hex_ring_spec(nq, nr);
    let i = choose|i: int| 0 <= i < ring.len() && ring[i] == (nq, nr);
    // The offset table is arranged so that entry i and entry (i + 3) mod 6
    // are opposite displacements.
    if i < 3 {
        assert(back[i + 3] == (q, r));
    } else {
        assert(back[i - 3] == (q, r));
    }
}

/// Whether the point `(px, py)` lies within `side` of the corner
/// `(cornerx, cornery)`, by squared distances (all in raw fixed-point
/// units).
pub open spec fn near_corner(cornerx: int, cornery: int, px: int, py: int, side: int) -> bool {
    (cornerx - px) * (cornerx - px) + (cornery - py) * (cornery - py) < side * side
}

/// The Moore neighbors of the square cell `(cx, cy)` that a query at the
/// continuous point `(px, py)` can reach: a diagonal neighbor is kept only
/// when the cell corner between them is within `side` of the point; the
/// four edge neighbors are always kept.
pub open spec fn square_clipped_ring_spec(
    cx: int,
    cy: int,
    px: int,
    py: int,
    side: int,
) -> Seq<(int, int)> {
    let sx = cx * side;
    let sy = cy * side;
    (if near_corner(sx, sy + side, px, py, side) {
        seq![(cx - 1, cy - 1)]
    } else {
        Seq::empty()
    }) + seq![(cx - 1, cy)] + (if near_corner(sx, sy, px, py, side) {
        seq![(cx - 1, cy + 1)]
    } else {
        Seq::empty()
    }) + seq![(cx, cy - 1), (cx, cy + 1)] + (if near_corner(
        sx + side,
        sy + side,
        px,
        py,
        side,
    ) {
        seq![(cx + 1, cy - 1)]
    } else {
        Seq::empty()
    }) + seq![(cx + 1, cy)] + (if near_corner(sx + side, sy, px, py, side) {
        seq![(cx + 1, cy + 1)]
    } else {
        Seq::empty()
    })
}

impl Euclidean<i64> {
    /// The ring neighbors worth checking for a query at `(x, y)`: skips a
    /// diagonal neighbor when the corner shared with it lies farther than
    /// one cell side from the query point, so no stored value there could
    /// be within the query radius.
    pub fn one_ring_clipped(&self, x: Fixed, y: Fixed, side: Fixed) -> (r: Vec<Euclidean<i64>>)
        requires
            side.raw >= 1,
            -0x8000_0000 <= self.x <= 0x8000_0000,
            -0x8000_0000 <= self.y <= 0x8000_0000,
        ensures
            r@.map_values(|c: Euclidean<i64>| (c.x as int, c.y as int))
                == square_clipped_ring_spec(
                self.x as int,
                self.y as int,
                x.raw as int,
                y.raw as int,
                side.raw as int,
            ),
    {
        let sidel: i128 = side.raw as i128;
        proof {
            assert(-0x4000_0000_0000_0000 <= (self.x as int) * (sidel as int)
                <= 0x4000_0000_0000_0000 && -0x4000_0000_0000_0000 <= (self.y as int) * (
            sidel as int) <= 0x4000_0000_0000_0000 && 0 <= (sidel as int) * (sidel as int)
                <= 0x4000_0000_0000_0000) by (nonlinear_arith)
                requires
                    -0x8000_0000 <= self.x as int <= 0x8000_0000,
                    1 <= sidel as int <= 0x8000_0000,
                    -0x8000_0000 <= self.y as int <= 0x8000_0000,
            {}
        }
        let sx: i128 = (self.x as i128) * sidel;
        let sy: i128 = (self.y as i128) * sidel;
        let px: i128 = x.raw as i128;
        let py: i128 = y.raw as i128;
        let s2: i128 = sidel * sidel;
        let cx = self.x;
        let cy = self.y;
        let near_bl = Self::corner_close(sx, sy + sidel, px, py, s2);
        let near_tl = Self::corner_close(sx, sy, px, py, s2);
        let near_br = Self::corner_close(sx + sidel, sy + sidel, px, py, s2);
        let near_tr = Self::corner_close(sx + sidel, sy, px, py, s2);
        let mut r: Vec<Euclidean<i64>> = Vec::new();
        if near_bl {
            r.push(Euclidean { x: cx - 1, y: cy - 1 });
        }
        r.push(Euclidean { x: cx - 1, y: cy });
        if near_tl {
            r.push(Euclidean { x: cx - 1, y: cy + 1 });
        }
        r.push(Euclidean { x: cx, y: cy - 1 });
        r.push(Euclidean { x: cx, y: cy + 1 });
        if near_br {
            r.push(Euclidean { x: cx + 1, y: cy - 1 });
        }
        r.push(Euclidean { x: cx + 1, y: cy });
        if near_tr {
            r.push(Euclidean { x: cx + 1, y: cy + 1 });
        }
        proof {
            assert(r@.map_values(|c: Euclidean<i64>| (c.x as int, c.y as int))
                =~= square_clipped_ring_spec(
                self.x as int,
                self.y as int,
                x.raw as int,
                y.raw as int,
                side.raw as int,
            ));
        }
        r
    }

    /// Whether a corner is strictly within the squared radius `s2` of the
    /// point `(px, py)`.
    fn corner_close(cornerx: i128, cornery: i128, px: i128, py: i128, s2: i128) -> (r: bool)
        requires
            -0x4100_0000_0000_0000 <= cornerx as int <= 0x4100_0000_0000_0000,
            -0x4100_0000_0000_0000 <= cornery as int <= 0x4100_0000_0000_0000,
            -0x8000_0000 <= px as int <= 0x8000_0000,
            -0x8000_0000 <= py as int <= 0x8000_0000,
            0 <= s2 as int <= 0x4000_0000_0000_0000,
        ensures
            r == ((cornerx - px) * (cornerx - px) + (cornery - py) * (cornery - py) < s2),
    {
        let dx = cornerx - px;
        let dy = cornery - py;
        proof {
            assert(0 <= dx as int * dx as int <= 0x2000_0000_0000_0000_0000_0000_0000_0000
                && 0 <= dy as int * dy as int <= 0x2000_0000_0000_0000_0000_0000_0000_0000)
                by (nonlinear_arith)
                requires
                    -0x4200_0000_0000_0000 <= dx as int <= 0x4200_0000_0000_0000,
                    -0x4200_0000_0000_0000 <= dy as int <= 0x4200_0000_0000_0000,
            {}
        }
        dx * dx + dy * dy < s2
    }
}

/// Ring shape for square cells: the eight neighbors are pairwise distinct
/// and none of them is the cell itself.
pub proof fn lemma_square_ring_distinct(x: int, y: int)
    ensures
        square_ring_spec(x, y).len() == 8,
        forall|i: int, j: int|
            0 <= i < j < 8 ==> square_ring_spec(x, y)[i] != square_ring_spec(x, y)[j],
        forall|i: int| 0 <= i < 8 ==> square_ring_spec(x, y)[i] != (x, y),
{
}

/// Adjacency symmetry for square cells: whenever `n` is in the ring of
/// `c`, then `c` is in the ring of `n`.
pub proof fn lemma_square_ring_symmetric(x: int, y: int, nx: int, ny: int)
    requires
        square_ring_spec(x, y).contains((nx, ny)),
    ensures
        square_ring_spec(nx, ny).contains((x, y)),
{
    let r = square_ring_spec(x, y);
    let back = square_ring_spec(nx, ny);
    let i = choose|i: int| 0 <= i < r.len() && r[i] == (nx, ny);
    assert(back[7 - i] == (x, y));
}

/// A triangular cell in barycentric-like coordinates `(s, t, u)`.
///
/// A valid cell satisfies `s + t + u` in `{1, 2}`; the sum decides the
/// orientation: 1 points down, 2 points up, and the orientation decides
/// which of two neighbor-offset tables applies.
#[derive(Clone, Copy, PartialEq, Eq, Structural, Debug)]
pub struct TriCoord<T> {
    pub s: T,
    pub t: T,
    pub u: T,
}

/// The triangular cell containing the continuous point `(x, y)` at side
/// length `side`, all in raw fixed-point units:
/// `s = ceil((x - y*sqrt(3)/3) / side)`,
/// `t = floor((y*2*sqrt(3)/3) / side) + 1`,
/// `u = ceil((-x - y*sqrt(3)/3) / side)`.
pub open spec fn tri_cell_spec(x: int, y: int, side: int) -> (int, int, int) {
    let nb = y * K_SQRT3_THIRD;
    let d = side * 65536;
    (
        ceil_div_spec(x * 65536 - nb, d),
        floor_div_spec(2 * nb, d) + 1,
        ceil_div_spec(-(x * 65536) - nb, d),
    )
}

/// Whether a cell's coordinate sum says it points up.
pub open spec fn tri_points_up_spec(s: int, t: int, u: int) -> bool {
    s + t + u == 2
}

/// The canonical 2D key of a triangular cell: `(2s + orientation bit, t)`,
/// which collapses the redundant third component while remaining injective.
pub open spec fn tri_canon_spec(s: int, t: int, u: int) -> (int, int) {
    (2 * s + if s + t + u == 1 { 0int } else { 1int }, t)
}

/// The twelve neighbors of the triangular cell `(s, t, u)`, in table
/// order: 3 face-adjacent cells, then 6 same-orientation cells around it,
/// then 3 opposite-orientation cells touching only at the corners.
pub open spec fn tri_ring_spec(s: int, t: int, u: int) -> Seq<(int, int, int)> {
    if s + t + u == 2 {
        seq![
            (s - 1, t, u),
            (s, t - 1, u),
            (s, t, u - 1),
            (s - 1, t + 1, u),
            (s, t - 1, u + 1),
            (s + 1, t, u - 1),
            (s + 1, t - 1, u),
            (s, t + 1, u - 1),
            (s - 1, t, u + 1),
            (s + 1, t - 1, u - 1),
            (s - 1, t + 1, u - 1),
            (s - 1, t - 1, u + 1),
        ]
    } else {
        seq![
            (s + 1, t, u),
            (s, t + 1, u),
            (s, t, u + 1),
            (s - 1, t + 1, u),
            (s, t - 1, u + 1),
            (s + 1, t, u - 1),
            (s + 1, t - 1, u),
            (s, t + 1, u - 1),
            (s - 1, t, u + 1),
            (s - 1, t + 1, u + 1),
            (s + 1, t - 1, u + 1),
            (s + 1, t + 1, u - 1),
        ]
    }
}

impl TriCoord<i64> {
    /// The side length of the triangle whose height is `h`:
    /// `h * 2 / sqrt(3)`, rounded down to the fixed-point grid.
    pub fn height_to_side_len(h: Fixed) -> (side: Fixed)
        requires
            1 <= h.raw <= 1_500_000_000,
        ensures
            side.raw == floor_div_spec(h.raw * K_TWO_SQRT3_THIRD, 65536),
            side.raw >= 1,
    {
        let n = (h.raw as i64) * K_TWO_SQRT3_THIRD;
        let raw64 = floor_div(n, 65536);
        proof {
            lemma_floor_div_bound(n as int, 65536, 1_800_000_000);
        }
        Fixed { raw: raw64 as i32 }
    }

    /// The triangular cell containing `(x, y)` when the plane is tiled by
    /// equilateral triangles of side `side`.
    ///
    /// With exact rational arithmetic the coordinate sum always lands in
    /// `{1, 2}`: the degenerate sum that floating-point round-off can
    /// produce on a triangle edge cannot occur here.
    pub fn from_continuous(x: Fixed, y: Fixed, side: Fixed) -> (c: TriCoord<i64>)
        requires
            side.raw >= 1,
        ensures
            (c.s as int, c.t as int, c.u as int) == tri_cell_spec(
                x.raw as int,
                y.raw as int,
                side.raw as int,
            ),
            c.s + c.t + c.u == 1 || c.s + c.t + c.u == 2,
            -CELL_MAX <= c.s <= CELL_MAX,
            -CELL_MAX <= c.t <= CELL_MAX,
            -CELL_MAX <= c.u <= CELL_MAX,
    {
        let nb = (y.raw as i64) * K_SQRT3_THIRD;
        let nx = (x.raw as i64) * 65536;
        let d = (side.raw as i64) * 65536;
        let s = ceil_div(nx - nb, d);
        let t = floor_div(2 * nb, d) + 1;
        let u = ceil_div(-nx - nb, d);
        proof {
            // s + u == -(floor((nb - nx) / d) + floor((nb + nx) / d)), and
            // the two floors add up to floor(2 * nb / d) minus at most one.
            lemma_floor_div_add(nb as int - nx as int, nb as int + nx as int, d as int);
            // Cell component bounds: numerators stay below 2^33 * d.
            let b: int = 0x2_0000_0000;
            assert(b * (d as int) >= b * 65536) by (nonlinear_arith)
                requires
                    d as int >= 65536,
                    b == 0x2_0000_0000int,
            {}
            lemma_floor_div_bound(nb as int - nx as int, d as int, b);
            lemma_floor_div_bound(nb as int + nx as int, d as int, b);
            lemma_floor_div_bound(2 * nb as int, d as int, b);
        }
        TriCoord { s, t, u }
    }

    /// Whether this cell points up (coordinate sum 2) rather than down
    /// (coordinate sum 1).
    pub fn points_up(&self) -> (r: bool)
        requires
            -CELL_LIMIT <= self.s <= CELL_LIMIT,
            -CELL_LIMIT <= self.t <= CELL_LIMIT,
            -CELL_LIMIT <= self.u <= CELL_LIMIT,
        ensures
            r == tri_points_up_spec(self.s as int, self.t as int, self.u as int),
    {
        self.s + self.t + self.u == 2
    }

    /// The canonical 2D key of this cell.
    pub fn canon2d(&self) -> (k: Key)
        requires
            self.s + self.t + self.u == 1 || self.s + self.t + self.u == 2,
            -CELL_LIMIT <= self.s <= CELL_LIMIT,
            -CELL_LIMIT <= self.t <= CELL_LIMIT,
            -CELL_LIMIT <= self.u <= CELL_LIMIT,
        ensures
            (k.x as int, k.y as int) == tri_canon_spec(
                self.s as int,
                self.t as int,
                self.u as int,
            ),
    {
        let sum = self.s + self.t + self.u;
        let x = 2 * self.s + if sum == 1 { 0 } else { 1 };
        Key { x, y: self.t }
    }

    /// The neighbor offset table for the given orientation.
    pub fn neighbor_indices(up: bool) -> (v: Vec<(i64, i64, i64)>)
        ensures
            v@.len() == 12,
            forall|i: int|
                0 <= i < 12 ==> {
                    let base = if up { tri_ring_spec(0, 0, 2) } else { tri_ring_spec(0, 0, 1) };
                    (#[trigger] v@[i]).0 == base[i].0 && v@[i].1 == base[i].1 && v@[i].2
                        == base[i].2 - if up { 2int } else { 1int }
                },
    {
        let mut v: Vec<(i64, i64, i64)> = Vec::new();
        if up {
            v.push((-1, 0, 0));
            v.push((0, -1, 0));
            v.push((0, 0, -1));
        } else {
            v.push((1, 0, 0));
            v.push((0, 1, 0));
            v.push((0, 0, 1));
        }
        v.push((-1, 1, 0));
        v.push((0, -1, 1));
        v.push((1, 0, -1));
        v.push((1, -1, 0));
        v.push((0, 1, -1));
        v.push((-1, 0, 1));
        if up {
            v.push((1, -1, -1));
            v.push((-1, 1, -1));
            v.push((-1, -1, 1));
        } else {
            v.push((-1, 1, 1));
            v.push((1, -1, 1));
            v.push((1, 1, -1));
        }
        v
    }

    /// The twelve cells adjacent to this cell, in table order.
    pub fn one_ring(&self) -> (r: Vec<TriCoord<i64>>)
        requires
            self.s + self.t + self.u == 1 || self.s + self.t + self.u == 2,
            -CELL_LIMIT <= self.s <= CELL_LIMIT,
            -CELL_LIMIT <= self.t <= CELL_LIMIT,
            -CELL_LIMIT <= self.u <= CELL_LIMIT,
        ensures
            r@.len() == 12,
            forall|i: int|
                0 <= i < 12 ==> {
                    let ring = tri_ring_spec(self.s as int, self.t as int, self.u as int);
                    (#[trigger] r@[i]).s == ring[i].0 && r@[i].t == ring[i].1 && r@[i].u
                        == ring[i].2
                },
    {
        let s = self.s;
        let t = self.t;
        let u = self.u;
        let mut r: Vec<TriCoord<i64>> = Vec::new();
        if s + t + u == 2 {
            r.push(TriCoord { s: s - 1, t, u });
            r.push(TriCoord { s, t: t - 1, u });
            r.push(TriCoord { s, t, u: u - 1 });
            r.push(TriCoord { s: s - 1, t: t + 1, u });
            r.push(TriCoord { s, t: t - 1, u: u + 1 });
            r.push(TriCoord { s: s + 1, t, u: u - 1 });
            r.push(TriCoord { s: s + 1, t: t - 1, u });
            r.push(TriCoord { s, t: t + 1, u: u - 1 });
            r.push(TriCoord { s: s - 1, t, u: u + 1 });
            r.push(TriCoord { s: s + 1, t: t - 1, u: u - 1 });
            r.push(TriCoord { s: s - 1, t: t + 1, u: u - 1 });
            r.push(TriCoord { s: s - 1, t: t - 1, u: u + 1 });
        } else {
            r.push(TriCoord { s: s + 1, t, u });
            r.push(TriCoord { s, t: t + 1, u });
            r.push(TriCoord { s, t, u: u + 1 });
            r.push(TriCoord { s: s - 1, t: t + 1, u });
            r.push(TriCoord { s, t: t - 1, u: u + 1 });
            r.push(TriCoord { s: s + 1, t, u: u - 1 });
            r.push(TriCoord { s: s + 1, t: t - 1, u });
            r.push(TriCoord { s, t: t + 1, u: u - 1 });
            r.push(TriCoord { s: s - 1, t, u: u + 1 });
            r.push(TriCoord { s: s - 1, t: t + 1, u: u + 1 });
            r.push(TriCoord { s: s + 1, t: t - 1, u: u + 1 });
            r.push(TriCoord { s: s + 1, t: t + 1, u: u - 1 });
        }
        r
    }
}

/// Triangular invariant: for every continuous point and positive side
/// length, the coordinate sum of the resulting cell is 1 or 2.  With exact
/// rational arithmetic the two ceilings and the floor always interlock.
pub proof fn lemma_tri_cell_valid(x: int, y: int, side: int)
    requires
        side >= 1,
    ensures
        ({
            let c = tri_cell_spec(x, y, side);
            c.0 + c.1 + c.2 == 1 || c.0 + c.1 + c.2 == 2
        }),
{
    let nb = y * K_SQRT3_THIRD;
    let d = side * 65536;
    lemma_floor_div_add(nb - x * 65536, nb + x * 65536, d);
}

/// Ring shape for triangular cells: the twelve neighbors are pairwise
/// distinct, none of them is the cell itself, and each is itself a valid
/// triangular cell.
pub proof fn lemma_tri_ring_distinct(s: int, t: int, u: int)
    requires
        s + t + u == 1 || s + t + u == 2,
    ensures
        tri_ring_spec(s, t, u).len() == 12,
        forall|i: int, j: int|
            0 <= i < j < 12 ==> tri_ring_spec(s, t, u)[i] != tri_ring_spec(s, t, u)[j],
        forall|i: int| 0 <= i < 12 ==> tri_ring_spec(s, t, u)[i] != (s, t, u),
        forall|i: int|
            0 <= i < 12 ==> {
                let n = #[trigger] tri_ring_spec(s, t, u)[i];
                n.0 + n.1 + n.2 == 1 || n.0 + n.1 + n.2 == 2
            },
{
}

/// Adjacency symmetry for triangular cells: whenever `n` is in the ring of
/// `c`, then `c` is in the ring of `n`, even where the orientation changes
/// which offset table applies.
pub proof fn lemma_tri_ring_symmetric(s: int, t: int, u: int, ns: int, nt: int, nu: int)
    requires
        s + t + u == 1 || s + t + u == 2,
        tri_ring_spec(s, t, u).contains((ns, nt, nu)),
    ensures
        tri_ring_spec(ns, nt, nu).contains((s, t, u)),
{
    let ring = tri_ring_spec(s, t, u);
    let back = tri_ring_spec(ns, nt, nu);
    let i = choose|i: int| 0 <= i < ring.len() && ring[i] == (ns, nt, nu);
    // Face and corner neighbors flip orientation and reuse the same table
    // slot; the six same-orientation offsets pair up three slots apart.
    if 3 <= i && i < 6 {
        assert(back[i + 3] == (s, t, u));
    } else if 6 <= i && i < 9 {
        assert(back[i - 3] == (s, t, u));
    } else {
        assert(back[i] == (s, t, u));
    }
}

/// The canonical key is injective on valid triangular cells: two valid
/// cells with the same key are equal.
pub proof fn lemma_tri_canon_injective(
    s1: int,
    t1: int,
    u1: int,
    s2: int,
    t2: int,
    u2: int,
)
    requires
        s1 + t1 + u1 == 1 || s1 + t1 + u1 == 2,
        s2 + t2 + u2 == 1 || s2 + t2 + u2 == 2,
        tri_canon_spec(s1, t1, u1) == tri_canon_spec(s2, t2, u2),
    ensures
        s1 == s2 && t1 == t2 && u1 == u2,
{
}

} // verus!
