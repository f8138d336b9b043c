//! Line rasterization: the grid cells a segment passes through.
//!
//! The integer midpoint (Bresenham) walk produces the finite sequence of
//! cells from one endpoint toward the other, 4- or 8-connected depending on
//! slope, bounded by `max(|dx|, |dy|) + 1` steps so that it terminates on
//! every input.

use crate::coordinates::{iabs, Key};
use crate::fixed::Fixed;
use vstd::prelude::*;

verus! {

/// Bound on endpoint components accepted by the rasterizers: wide enough
/// for every canonical key a container produces.
pub const LINE_COORD_MAX: i64 = 0x100_0000_0000;

/// One walk of the midpoint loop from `(cx, cy)` toward `(x1, y1)`: each
/// step first decides whether it would overshoot (and stops), then moves
/// one cell in x and/or y by the accumulated error, and emits the cell it
/// arrives at.  `fuel` bounds the number of emitted cells.
pub open spec fn bres_steps_spec(
    cx: int,
    cy: int,
    x1: int,
    y1: int,
    dx: int,
    dy: int,
    sx: int,
    sy: int,
    error: int,
    fuel: nat,
) -> Seq<(int, int)>
    decreases fuel,
{
    if fuel == 0 {
        Seq::empty()
    } else if cx == x1 && cy == y1 {
        Seq::empty()
    } else {
        let e2 = 2 * error;
        if e2 >= dy && cx == x1 {
            Seq::empty()
        } else {
            let error1 = if e2 >= dy {
                error + dy
            } else {
                error
            };
            let cx1 = if e2 >= dy {
                cx + sx
            } else {
                cx
            };
            if e2 <= dx && cy == y1 {
                Seq::empty()
            } else {
                let error2 = if e2 <= dx {
                    error1 + dx
                } else {
                    error1
                };
                let cy1 = if e2 <= dx {
                    cy + sy
                } else {
                    cy
                };
                seq![(cx1, cy1)] + bres_steps_spec(
                    cx1,
                    cy1,
                    x1,
                    y1,
                    dx,
                    dy,
                    sx,
                    sy,
                    error2,
                    (fuel - 1) as nat,
                )
            }
        }
    }
}

/// The cells the midpoint walk emits for the segment from `(x0, y0)` to
/// `(x1, y1)`: the start cell, then one cell per step of the walk.
pub open spec fn bresenham_spec(x0: int, y0: int, x1: int, y1: int) -> Seq<(int, int)> {
    let dx = iabs(x1 - x0);
    let dy = -iabs(y1 - y0);
    let sx: int = if x0 < x1 {
        1
    } else {
        -1
    };
    let sy: int = if y0 < y1 {
        1
    } else {
        -1
    };
    seq![(x0, y0)] + bres_steps_spec(
        x0,
        y0,
        x1,
        y1,
        dx,
        dy,
        sx,
        sy,
        dx + dy,
        ((if iabs(x1 - x0) >= iabs(y1 - y0) {
            iabs(x1 - x0)
        } else {
            iabs(y1 - y0)
        }) + 1) as nat,
    )
}

/// The integer cells of a sequence of keys, as mathematical pairs.
pub open spec fn keys_to_pairs(s: Seq<Key>) -> Seq<(int, int)> {
    s.map_values(|k: Key| (k.x as int, k.y as int))
}

/// The cells a segment crosses, by the classic integer midpoint walk:
/// starts at `p0`, ends at `p1`, visits exactly `max(|dx|, |dy|) + 1`
/// cells, and moves at most one cell per axis per step.
pub fn bresenham(p0: Key, p1: Key) -> (r: Vec<Key>)
    requires
        -LINE_COORD_MAX <= p0.x <= LINE_COORD_MAX,
        -LINE_COORD_MAX <= p0.y <= LINE_COORD_MAX,
        -LINE_COORD_MAX <= p1.x <= LINE_COORD_MAX,
        -LINE_COORD_MAX <= p1.y <= LINE_COORD_MAX,
    ensures
        keys_to_pairs(r@) == bresenham_spec(p0.x as int, p0.y as int, p1.x as int, p1.y as int),
        r@.len() >= 1,
        r@[0] == p0,
        r@[r@.len() - 1] == p1,
        r@.len() == (if iabs(p1.x as int - p0.x as int) >= iabs(p1.y as int - p0.y as int) {
            iabs(p1.x as int - p0.x as int)
        } else {
            iabs(p1.y as int - p0.y as int)
        }) + 1,
        forall|i: int|
            0 <= i < r@.len() - 1 ==> -1 <= (#[trigger] r@[i + 1]).x - r@[i].x <= 1 && -1 <= r@[
                i + 1
            ].y - r@[i].y <= 1,
{
    let x0 = p0.x;
    let y0 = p0.y;
    let x1 = p1.x;
    let y1 = p1.y;
    let dx = if x1 >= x0 {
        x1 - x0
    } else {
        x0 - x1
    };
    let dy = if y1 >= y0 {
        -(y1 - y0)
    } else {
        -(y0 - y1)
    };
    let sx: i64 = if x0 < x1 {
        1
    } else {
        -1
    };
    let sy: i64 = if y0 < y1 {
        1
    } else {
        -1
    };
    let mut error = dx + dy;
    let mut cx = x0;
    let mut cy = y0;
    let max_len = if dx >= -dy {
        dx
    } else {
        -dy
    };
    let mut fuel = max_len + 1;
    // Progress counters: how many steps each axis has taken.
    let ghost mut ax: int = 0;
    let ghost mut ay: int = 0;
    let mut r: Vec<Key> = Vec::new();
    r.push(p0);
    proof {
        assert(keys_to_pairs(r@) =~= seq![(x0 as int, y0 as int)]);
    }
    let ghost full = bresenham_spec(x0 as int, y0 as int, x1 as int, y1 as int);
    while fuel > 0
        invariant
            dx == iabs(x1 as int - x0 as int),
            dy == -iabs(y1 as int - y0 as int),
            sx as int == (if x0 < x1 {
                1int
            } else {
                -1int
            }),
            sy as int == (if y0 < y1 {
                1int
            } else {
                -1int
            }),
            -LINE_COORD_MAX <= x0 <= LINE_COORD_MAX,
            -LINE_COORD_MAX <= y0 <= LINE_COORD_MAX,
            -LINE_COORD_MAX <= x1 <= LINE_COORD_MAX,
            -LINE_COORD_MAX <= y1 <= LINE_COORD_MAX,
            0 <= ax <= dx,
            0 <= ay <= -dy,
            cx as int == x0 as int + sx as int * ax,
            cy as int == y0 as int + sy as int * ay,
            x1 as int == x0 as int + sx as int * (dx as int),
            y1 as int == y0 as int + sy as int * (-dy as int),
            // The error term is an affine function of the progress
            // counters; it decides which axis steps next.
            error as int == dx + dy + ax * dy + ay * dx,
            2 * dy <= error <= 2 * dx,
            // The driving axis steps on every iteration, so its progress
            // plus the remaining fuel is constant.
            dx >= -dy ==> 2 * error >= dy && ax + fuel == dx + 1,
            dx < -dy ==> 2 * error <= dx && ay + fuel == -dy + 1,
            max_len as int == (if iabs(x1 as int - x0 as int) >= iabs(y1 as int - y0 as int) {
                iabs(x1 as int - x0 as int)
            } else {
                iabs(y1 as int - y0 as int)
            }),
            1 <= fuel <= max_len + 1,
            full == bresenham_spec(x0 as int, y0 as int, x1 as int, y1 as int),
            keys_to_pairs(r@) + bres_steps_spec(
                cx as int,
                cy as int,
                x1 as int,
                y1 as int,
                dx as int,
                dy as int,
                sx as int,
                sy as int,
                error as int,
                fuel as nat,
            ) == full,
            r@.len() >= 1,
            r@[0] == p0,
            r@[r@.len() - 1].x == cx && r@[r@.len() - 1].y == cy,
            r@.len() + fuel == max_len + 2,
            forall|i: int|
                0 <= i < r@.len() - 1 ==> -1 <= (#[trigger] r@[i + 1]).x - r@[i].x <= 1 && -1
                    <= r@[i + 1].y - r@[i].y <= 1,
        ensures
            keys_to_pairs(r@) == full,
            r@.len() == max_len + 1,
            r@[0] == p0,
            r@[r@.len() - 1].x == x1 && r@[r@.len() - 1].y == y1,
            forall|i: int|
                0 <= i < r@.len() - 1 ==> -1 <= (#[trigger] r@[i + 1]).x - r@[i].x <= 1 && -1
                    <= r@[i + 1].y - r@[i].y <= 1,
        decreases fuel,
    {
        if cx == x1 && cy == y1 {
            proof {
                // All progress is spent on both axes, so only one unit of
                // fuel remains and the emitted walk is complete.
                assert(ax == dx) by (nonlinear_arith)
                    requires
                        cx as int == x0 as int + sx as int * ax,
                        x1 as int == x0 as int + sx as int * (dx as int),
                        cx == x1,
                        sx as int == 1 || sx as int == -1,
                {}
                assert(ay == -dy) by (nonlinear_arith)
                    requires
                        cy as int == y0 as int + sy as int * ay,
                        y1 as int == y0 as int + sy as int * (-dy as int),
                        cy == y1,
                        sy as int == 1 || sy as int == -1,
                {}
            }
            break;
        }
        let e2 = 2 * error;
        let step_x = e2 >= dy;
        if step_x && cx == x1 {
            proof {
                // Unreachable: with the x progress spent but the walk not
                // finished, the error term forbids another x step.
                assert(ax == dx) by (nonlinear_arith)
                    requires
                        cx as int == x0 as int + sx as int * ax,
                        x1 as int == x0 as int + sx as int * (dx as int),
                        cx == x1,
                        sx as int == 1 || sx as int == -1,
                {}
                assert(ay < -dy) by (nonlinear_arith)
                    requires
                        cy as int == y0 as int + sy as int * ay,
                        y1 as int == y0 as int + sy as int * (-dy as int),
                        cy != y1,
                        ay <= -dy,
                        sy as int == 1 || sy as int == -1,
                {}
                assert(2 * (error as int) < dy) by (nonlinear_arith)
                    requires
                        error as int == dx + dy + ax * dy + ay * dx,
                        ax == dx,
                        0 <= ay <= -dy - 1,
                        dy <= -1,
                        dx >= 0,
                {}
                assert(false);
            }
            break;
        }
        let step_y = e2 <= dx;
        if step_y && cy == y1 {
            proof {
                // Unreachable for the same reason on the y axis.
                assert(ay == -dy) by (nonlinear_arith)
                    requires
                        cy as int == y0 as int + sy as int * ay,
                        y1 as int == y0 as int + sy as int * (-dy as int),
                        cy == y1,
                        sy as int == 1 || sy as int == -1,
                {}
                assert(ax < dx) by (nonlinear_arith)
                    requires
                        cx as int == x0 as int + sx as int * ax,
                        x1 as int == x0 as int + sx as int * (dx as int),
                        cx != x1,
                        ax <= dx,
                        sx as int == 1 || sx as int == -1,
                {}
                assert(2 * (error as int) > dx) by (nonlinear_arith)
                    requires
                        error as int == dx + dy + ax * dy + ay * dx,
                        ay == -(dy as int),
                        0 <= ax <= dx - 1,
                        dy <= 0,
                        dx >= 1,
                {}
                assert(false);
            }
            break;
        }
        proof {
            assert(bres_steps_spec(
                cx as int,
                cy as int,
                x1 as int,
                y1 as int,
                dx as int,
                dy as int,
                sx as int,
                sy as int,
                error as int,
                fuel as nat,
            ) == seq![
                (
                    if step_x {
                        cx + sx
                    } else {
                        cx as int
                    },
                    if step_y {
                        cy + sy
                    } else {
                        cy as int
                    },
                ),
            ] + bres_steps_spec(
                if step_x {
                    cx + sx
                } else {
                    cx as int
                },
                if step_y {
                    cy + sy
                } else {
                    cy as int
                },
                x1 as int,
                y1 as int,
                dx as int,
                dy as int,
                sx as int,
                sy as int,
                (if step_y {
                    (if step_x {
                        error + dy
                    } else {
                        error as int
                    }) + dx
                } else {
                    if step_x {
                        error + dy
                    } else {
                        error as int
                    }
                }),
                (fuel - 1) as nat,
            ));
        }
        let ghost ax0 = ax;
        let ghost ay0 = ay;
        let ghost er0 = error as int;
        if step_x {
            proof {
                assert(ax0 < dx) by (nonlinear_arith)
                    requires
                        cx as int == x0 as int + sx as int * ax0,
                        x1 as int == x0 as int + sx as int * (dx as int),
                        cx != x1,
                        ax0 <= dx,
                        sx as int == 1 || sx as int == -1,
                {}
            }
            proof {
                assert(-2 * LINE_COORD_MAX <= cx as int + sx as int <= 2 * LINE_COORD_MAX)
                    by (nonlinear_arith)
                    requires
                        cx as int == x0 as int + sx as int * ax0,
                        0 <= ax0 <= dx,
                        dx <= 2 * LINE_COORD_MAX,
                        -LINE_COORD_MAX <= x0 as int <= LINE_COORD_MAX,
                        -LINE_COORD_MAX <= x1 as int <= LINE_COORD_MAX,
                        x1 as int == x0 as int + sx as int * (dx as int),
                        sx as int == 1 || sx as int == -1,
                {}
            }
            error = error + dy;
            cx = cx + sx;
            proof {
                ax = ax + 1;
            }
        }
        if step_y {
            proof {
                assert(ay0 < -dy) by (nonlinear_arith)
                    requires
                        cy as int == y0 as int + sy as int * ay0,
                        y1 as int == y0 as int + sy as int * (-dy as int),
                        cy != y1,
                        ay0 <= -dy,
                        sy as int == 1 || sy as int == -1,
                {}
                assert(-2 * LINE_COORD_MAX <= cy as int + sy as int <= 2 * LINE_COORD_MAX)
                    by (nonlinear_arith)
                    requires
                        cy as int == y0 as int + sy as int * ay0,
                        0 <= ay0 <= -dy,
                        -dy <= 2 * LINE_COORD_MAX,
                        -LINE_COORD_MAX <= y0 as int <= LINE_COORD_MAX,
                        -LINE_COORD_MAX <= y1 as int <= LINE_COORD_MAX,
                        y1 as int == y0 as int + sy as int * (-dy as int),
                        sy as int == 1 || sy as int == -1,
                {}
            }
            error = error + dx;
            cy = cy + sy;
            proof {
                ay = ay + 1;
            }
        }
        proof {
            assert(cx as int == x0 as int + sx as int * ax && cy as int == y0 as int + sy as int
                * ay) by (nonlinear_arith)
                requires
                    ax == ax0 + (if step_x {
                        1int
                    } else {
                        0int
                    }),
                    ay == ay0 + (if step_y {
                        1int
                    } else {
                        0int
                    }),
                    cx as int == x0 as int + sx as int * ax0 + (if step_x {
                        sx as int
                    } else {
                        0int
                    }),
                    cy as int == y0 as int + sy as int * ay0 + (if step_y {
                        sy as int
                    } else {
                        0int
                    }),
            {}
            assert(error as int == dx + dy + ax * dy + ay * dx) by (nonlinear_arith)
                requires
                    er0 == dx + dy + ax0 * dy + ay0 * dx,
                    error as int == er0 + (if step_x {
                        dy as int
                    } else {
                        0int
                    }) + (if step_y {
                        dx as int
                    } else {
                        0int
                    }),
                    ax == ax0 + (if step_x {
                        1int
                    } else {
                        0int
                    }),
                    ay == ay0 + (if step_y {
                        1int
                    } else {
                        0int
                    }),
            {}
        }
        let ghost r_old = r@;
        r.push(Key { x: cx, y: cy });
        fuel = fuel - 1;
        proof {
            assert(keys_to_pairs(r@) =~= keys_to_pairs(r_old) + seq![(cx as int, cy as int)]);
        }
    }
    proof {
        assert(keys_to_pairs(r@).len() == r@.len());
    }
    r
}

/// The inner cells of the anti-aliased walk: for each column `x`, the two
/// cells bracketing the ideal line at `ncur / den` (axes swapped when the
/// line is steep), stepping the intercept by `gstep / den` per column.
pub open spec fn wu_inner_spec(
    x: int,
    remaining: nat,
    ncur: int,
    gstep: int,
    den: int,
    steep: bool,
) -> Seq<(int, int)>
    decreases remaining,
{
    if remaining == 0 {
        Seq::empty()
    } else {
        let iy = crate::fixed::floor_div_spec(ncur, den);
        let two = if steep {
            seq![(iy, x), (iy + 1, x)]
        } else {
            seq![(x, iy), (x, iy + 1)]
        };
        two + wu_inner_spec(x + 1, (remaining - 1) as nat, ncur + gstep, gstep, den, steep)
    }
}

/// The cells the anti-aliased (Wu-style) walk emits for the segment from
/// `(x0r, y0r)` to `(x1r, y1r)`, in raw fixed-point units: two cells for
/// each endpoint and two per inner column.  Steep lines swap axes; a
/// nearly vertical working delta falls back to a gradient of one instead
/// of dividing by a near-zero difference.  Note the second endpoint's
/// intercept: it multiplies the rounded column by the endpoint rather than
/// subtracting it, so the pair emitted there can sit off the ideal line;
/// the formula is kept as is rather than silently corrected.
pub open spec fn wu_spec(x0r: int, y0r: int, x1r: int, y1r: int) -> Seq<(int, int)> {
    let steep = iabs(y1r - y0r) > iabs(x1r - x0r);
    let a0 = if steep {
        y0r
    } else {
        x0r
    };
    let b0 = if steep {
        x0r
    } else {
        y0r
    };
    let a1 = if steep {
        y1r
    } else {
        x1r
    };
    let b1 = if steep {
        x1r
    } else {
        y1r
    };
    let c0 = if a0 > a1 {
        a1
    } else {
        a0
    };
    let d0 = if a0 > a1 {
        b1
    } else {
        b0
    };
    let c1 = if a0 > a1 {
        a0
    } else {
        a1
    };
    let d1 = if a0 > a1 {
        b0
    } else {
        b1
    };
    let dxr = c1 - c0;
    let dyr = d1 - d0;
    let gn = if dxr <= 6 {
        1int
    } else {
        dyr
    };
    let gd = if dxr <= 6 {
        1int
    } else {
        dxr
    };
    wu_core_spec(c0, d0, c1, d1, gn, gd, steep)
}

/// The cells of the anti-aliased walk after axis and direction
/// normalization, for an exact rational gradient `gn / gd`.
pub open spec fn wu_core_spec(
    c0: int,
    d0: int,
    c1: int,
    d1: int,
    gn: int,
    gd: int,
    steep: bool,
) -> Seq<(int, int)> {
    let den = gd * 65536;
    let re = crate::fixed::round_div_spec(c0, 65536);
    let nyend = d0 * gd + gn * (re * 65536 - c0);
    let xp1 = crate::fixed::trunc_div_spec(c0, 65536);
    let yp1 = crate::fixed::floor_div_spec(nyend, den);
    let first = if steep {
        seq![(yp1, xp1), (yp1 + 1, xp1)]
    } else {
        seq![(xp1, yp1), (xp1, yp1 + 1)]
    };
    let ninter = nyend + gn * 65536;
    let re2 = crate::fixed::round_div_spec(c1, 65536);
    let nyend2 = d1 * gd + gn * re2 * c1;
    let xp2 = re2;
    let yp2 = crate::fixed::floor_div_spec(nyend2, den);
    let second = if steep {
        seq![(yp2, xp2), (yp2 + 1, xp2)]
    } else {
        seq![(xp2, yp2), (xp2, yp2 + 1)]
    };
    let remaining = if xp2 > xp1 + 1 {
        (xp2 - xp1 - 1) as nat
    } else {
        0nat
    };
    first + second + wu_inner_spec(xp1 + 1, remaining, ninter, gn * 65536, den, steep)
}

/// The cells the anti-aliased walk emits for a segment: pairs of adjacent
/// cells bracketing the ideal line, endpoints first, then the inner
/// columns.
#[verifier::spinoff_prover]
pub fn wu(p0: (Fixed, Fixed), p1: (Fixed, Fixed)) -> (r: Vec<Key>)
    ensures
        keys_to_pairs(r@) == wu_spec(
            p0.0.raw as int,
            p0.1.raw as int,
            p1.0.raw as int,
            p1.1.raw as int,
        ),
{
    let x0r = p0.0.raw as i64;
    let y0r = p0.1.raw as i64;
    let x1r = p1.0.raw as i64;
    let y1r = p1.1.raw as i64;
    let adx = if x1r >= x0r {
        x1r - x0r
    } else {
        x0r - x1r
    };
    let ady = if y1r >= y0r {
        y1r - y0r
    } else {
        y0r - y1r
    };
    let steep = ady > adx;
    let (a0, b0, a1, b1) = if steep {
        (y0r, x0r, y1r, x1r)
    } else {
        (x0r, y0r, x1r, y1r)
    };
    let (c0, d0, c1, d1) = if a0 > a1 {
        (a1, b1, a0, b0)
    } else {
        (a0, b0, a1, b1)
    };
    let dxr = c1 - c0;
    let dyr = d1 - d0;
    let (gn, gd) = if dxr <= 6 {
        (1i64, 1i64)
    } else {
        (dyr, dxr)
    };
    wu_core(c0, d0, c1, d1, gn, gd, steep)
}

/// The anti-aliased walk after normalization.
#[verifier::rlimit(100)]
#[verifier::spinoff_prover]
fn wu_core(c0: i64, d0: i64, c1: i64, d1: i64, gn: i64, gd: i64, steep: bool) -> (r: Vec<Key>)
    requires
        -0x1_0000_0000 <= c0 <= 0x1_0000_0000,
        -0x1_0000_0000 <= d0 <= 0x1_0000_0000,
        -0x1_0000_0000 <= c1 <= 0x1_0000_0000,
        -0x1_0000_0000 <= d1 <= 0x1_0000_0000,
        1 <= gd <= 0x2_0000_0000,
        -gd <= gn <= gd,
    ensures
        keys_to_pairs(r@) == wu_core_spec(
            c0 as int,
            d0 as int,
            c1 as int,
            d1 as int,
            gn as int,
            gd as int,
            steep,
        ),
{
    let den: i128 = (gd as i128) * 65536;
    let re = crate::fixed::round_div(c0, 65536);
    proof {
        crate::fixed::lemma_round_div_close(c0 as int, 65536);
        assert(1 <= den as int <= 0x2_0000_0000_0000) by (nonlinear_arith)
            requires
                den as int == (gd as int) * 65536,
                1 <= gd as int <= 0x2_0000_0000,
        {}
    }
    let rterm = re * 65536 - c0;
    proof {
        assert(-0x4_0000_0000_0000_0000 <= (d0 as int) * (gd as int) <= 0x4_0000_0000_0000_0000
            && -0x4_0000_0000_0000_0000 <= (gn as int) * (rterm as int)
            <= 0x4_0000_0000_0000_0000) by (nonlinear_arith)
            requires
                -0x1_0000_0000 <= d0 as int <= 0x1_0000_0000,
                1 <= gd as int <= 0x2_0000_0000,
                -0x2_0000_0000 <= gn as int <= 0x2_0000_0000,
                -65536 <= rterm as int <= 65536,
        {}
    }
    let nyend: i128 = (d0 as i128) * (gd as i128) + (gn as i128) * (rterm as i128);
    let xp1 = crate::fixed::trunc_div(c0, 65536);
    proof {
        crate::fixed::lemma_floor_div_bound(c0 as int, 65536, 0x10000);
        crate::fixed::lemma_floor_div_bound(-(c0 as int), 65536, 0x10000);
    }
    let yp1w = crate::fixed::floor_div_wide(nyend, den);
    proof {
        assert(-((0x8000_0000_0000int) * (den as int)) <= nyend as int <= (0x8000_0000_0000int)
            * (den as int)) by (nonlinear_arith)
            requires
                nyend as int == (d0 as int) * (gd as int) + (gn as int) * (rterm as int),
                den as int == (gd as int) * 65536,
                -0x1_0000_0000 <= d0 as int <= 0x1_0000_0000,
                1 <= gd as int <= 0x2_0000_0000,
                -(gd as int) <= gn as int <= gd as int,
                -65536 <= rterm as int <= 65536,
        {}
        crate::fixed::lemma_floor_div_bound(nyend as int, den as int, 0x8000_0000_0000);
    }
    let yp1 = yp1w as i64;
    let mut r: Vec<Key> = Vec::new();
    if steep {
        r.push(Key { x: yp1, y: xp1 });
        r.push(Key { x: yp1 + 1, y: xp1 });
    } else {
        r.push(Key { x: xp1, y: yp1 });
        r.push(Key { x: xp1, y: yp1 + 1 });
    }
    let ninter: i128 = nyend + (gn as i128) * 65536;
    let re2 = crate::fixed::round_div(c1, 65536);
    proof {
        crate::fixed::lemma_round_div_close(c1 as int, 65536);
        assert(-0x4_0000_0000_0000_0000 <= (d1 as int) * (gd as int) <= 0x4_0000_0000_0000_0000
            && -0x10_0000_0000_0000_0000_0000 <= (gn as int) * (re2 as int) * (c1 as int)
            <= 0x10_0000_0000_0000_0000_0000 && -0x8_0000_0000_0000 <= (gn as int) * (
        re2 as int) <= 0x8_0000_0000_0000) by (nonlinear_arith)
            requires
                -0x1_0000_0000 <= d1 as int <= 0x1_0000_0000,
                1 <= gd as int <= 0x2_0000_0000,
                -0x2_0000_0000 <= gn as int <= 0x2_0000_0000,
                -0x10001 <= re2 as int <= 0x10001,
                -0x1_0000_0000 <= c1 as int <= 0x1_0000_0000,
        {}
    }
    let nyend2: i128 = (d1 as i128) * (gd as i128) + (gn as i128) * (re2 as i128) * (
    c1 as i128);
    let xp2 = re2;
    let yp2w = crate::fixed::floor_div_wide(nyend2, den);
    proof {
        assert(-((0x8000_0000_0000int) * (den as int)) <= nyend2 as int <= (0x8000_0000_0000int)
            * (den as int)) by (nonlinear_arith)
            requires
                nyend2 as int == (d1 as int) * (gd as int) + (gn as int) * (re2 as int) * (
                c1 as int),
                den as int == (gd as int) * 65536,
                -0x1_0000_0000 <= d1 as int <= 0x1_0000_0000,
                1 <= gd as int <= 0x2_0000_0000,
                -(gd as int) <= gn as int <= gd as int,
                -0x10000 <= re2 as int <= 0x10000,
                -0x1_0000_0000 <= c1 as int <= 0x1_0000_0000,
        {}
        crate::fixed::lemma_floor_div_bound(nyend2 as int, den as int, 0x8000_0000_0000);
    }
    let yp2 = yp2w as i64;
    if steep {
        r.push(Key { x: yp2, y: xp2 });
        r.push(Key { x: yp2 + 1, y: xp2 });
    } else {
        r.push(Key { x: xp2, y: yp2 });
        r.push(Key { x: xp2, y: yp2 + 1 });
    }
    let ghost full = wu_core_spec(
        c0 as int,
        d0 as int,
        c1 as int,
        d1 as int,
        gn as int,
        gd as int,
        steep,
    );
    let gstep: i128 = (gn as i128) * 65536;
    let mut ncur: i128 = ninter;
    let mut x = xp1 + 1;
    proof {
        assert((x as int - xp1 as int - 1) * (gstep as int) == 0) by (nonlinear_arith)
            requires
                x as int == xp1 as int + 1,
        {}
        assert(keys_to_pairs(r@) =~= full.subrange(0, 4));
        assert(full =~= full.subrange(0, 4) + wu_inner_spec(
            xp1 as int + 1,
            (if xp2 as int > xp1 as int + 1 {
                (xp2 as int - xp1 as int - 1) as nat
            } else {
                0nat
            }),
            ninter as int,
            gstep as int,
            den as int,
            steep,
        ));
    }
    while x < xp2
        invariant
            1 <= den as int <= 0x2_0000_0000_0000,
            den as int == (gd as int) * 65536,
            1 <= gd as int <= 0x2_0000_0000,
            -(gd as int) <= gn as int <= gd as int,
            gstep as int == (gn as int) * 65536,
            -0x10001 <= xp1 <= 0x10001,
            -0x10000 <= xp2 <= 0x10000,
            xp1 + 1 <= x,
            x <= xp2 || x == xp1 + 1,
            ncur as int == ninter as int + (x as int - xp1 as int - 1) * (gstep as int),
            ninter as int == (d0 as int) * (gd as int) + (gn as int) * (rterm as int) + (
            gn as int) * 65536,
            -0x1_0000_0000 <= d0 as int <= 0x1_0000_0000,
            -65536 <= rterm as int <= 65536,
            -0x1_0000_0000_0000_0000_0000 <= ninter as int <= 0x1_0000_0000_0000_0000_0000,
            full == wu_core_spec(
                c0 as int,
                d0 as int,
                c1 as int,
                d1 as int,
                gn as int,
                gd as int,
                steep,
            ),
            keys_to_pairs(r@) + wu_inner_spec(
                x as int,
                (if xp2 as int > x as int {
                    (xp2 as int - x as int) as nat
                } else {
                    0nat
                }),
                ncur as int,
                gstep as int,
                den as int,
                steep,
            ) == full,
        decreases xp2 - x,
    {
        proof {
            assert(-0x2_0000_0000_0000_0000_0000 <= ncur as int <= 0x2_0000_0000_0000_0000_0000)
                by (nonlinear_arith)
                requires
                    ncur as int == ninter as int + (x as int - xp1 as int - 1) * (gstep as int),
                    -0x1_0000_0000_0000_0000_0000 <= ninter as int
                        <= 0x1_0000_0000_0000_0000_0000,
                    -0x2_0000_0000_0000 <= gstep as int <= 0x2_0000_0000_0000,
                    0 <= x as int - xp1 as int - 1 <= 0x40000,
            {}
        }
        let iyw = crate::fixed::floor_div_wide(ncur, den);
        proof {
            assert(-((0x8000_0000_0000int) * (den as int)) <= ncur as int <= (0x8000_0000_0000int)
                * (den as int)) by (nonlinear_arith)
                requires
                    ncur as int == ninter as int + (x as int - xp1 as int - 1) * (gstep as int),
                    ninter as int == (d0 as int) * (gd as int) + (gn as int) * (rterm as int) + (
                    gn as int) * 65536,
                    den as int == (gd as int) * 65536,
                    -0x1_0000_0000 <= d0 as int <= 0x1_0000_0000,
                    1 <= gd as int <= 0x2_0000_0000,
                    -(gd as int) <= gn as int <= gd as int,
                    -65536 <= rterm as int <= 65536,
                    gstep as int == (gn as int) * 65536,
                    0 <= x as int - xp1 as int - 1 <= 0x40000,
            {}
            crate::fixed::lemma_floor_div_bound(ncur as int, den as int, 0x8000_0000_0000);
        }
        let iy = iyw as i64;
        let ghost r_old = r@;
        if steep {
            r.push(Key { x: iy, y: x });
            r.push(Key { x: iy + 1, y: x });
        } else {
            r.push(Key { x: x, y: iy });
            r.push(Key { x: x, y: iy + 1 });
        }
        proof {
            assert(keys_to_pairs(r@) =~= keys_to_pairs(r_old) + (if steep {
                seq![(iy as int, x as int), (iy as int + 1, x as int)]
            } else {
                seq![(x as int, iy as int), (x as int, iy as int + 1)]
            }));
        }
        proof {
            assert((x as int - xp1 as int) * (gstep as int) == (x as int - xp1 as int - 1) * (
            gstep as int) + gstep as int) by (nonlinear_arith)
            {}
        }
        ncur = ncur + gstep;
        x = x + 1;
    }
    r
}

} // verus!
