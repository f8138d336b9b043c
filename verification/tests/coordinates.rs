use spatial_hash::coordinates::{Euclidean, HexAxial, Key, TriCoord};
use spatial_hash::fixed::Fixed;

fn fx(raw: i32) -> Fixed {
    Fixed::from_raw(raw)
}

const HALF: i32 = 32768;
const ONE: i32 = 65536;

#[test]
fn square_from_continuous_floors() {
    let c = Euclidean::<i64>::from_continuous(fx(HALF), fx(-HALF), fx(ONE));
    assert_eq!((c.x, c.y), (0, -1));
    let c = Euclidean::<i64>::from_continuous(fx(2 * ONE + HALF), fx(3 * ONE), fx(ONE));
    assert_eq!((c.x, c.y), (2, 3));
}

#[test]
fn from_continuous_is_referentially_stable() {
    for &(x, y) in &[(0, 0), (HALF, -HALF), (12345, 67), (-99999, 54321)] {
        let a = Euclidean::<i64>::from_continuous(fx(x), fx(y), fx(6554));
        let b = Euclidean::<i64>::from_continuous(fx(x), fx(y), fx(6554));
        assert_eq!(a, b);
        let a = HexAxial::<i64>::from_continuous(fx(x), fx(y), fx(6554));
        let b = HexAxial::<i64>::from_continuous(fx(x), fx(y), fx(6554));
        assert_eq!(a, b);
        let a = TriCoord::<i64>::from_continuous(fx(x), fx(y), fx(6554));
        let b = TriCoord::<i64>::from_continuous(fx(x), fx(y), fx(6554));
        assert_eq!(a, b);
    }
}

#[test]
fn square_ring_has_eight_distinct_neighbors() {
    let c = Euclidean { x: 4i64, y: -7i64 };
    let ring = c.one_ring();
    assert_eq!(ring.len(), 8);
    for i in 0..ring.len() {
        assert_ne!(ring[i], c);
        for j in 0..i {
            assert_ne!(ring[j], ring[i]);
        }
    }
}

#[test]
fn square_ring_is_symmetric() {
    let c = Euclidean { x: 2i64, y: 3i64 };
    for n in c.one_ring() {
        assert!(n.one_ring().contains(&c));
    }
}

#[test]
fn hex_ring_has_six_distinct_neighbors() {
    let c = HexAxial { q: -2i64, r: 5i64 };
    let ring = c.one_ring();
    assert_eq!(ring.len(), 6);
    for i in 0..ring.len() {
        assert_ne!(ring[i], c);
        for j in 0..i {
            assert_ne!(ring[j], ring[i]);
        }
    }
}

#[test]
fn hex_ring_is_symmetric() {
    let c = HexAxial { q: 1i64, r: -4i64 };
    for n in c.one_ring() {
        assert!(n.one_ring().contains(&c));
    }
}

#[test]
fn hex_rounding_keeps_cube_identity() {
    // For a sweep of continuous points, the rounded axial coordinate
    // always satisfies q + r + s == 0 with s derived.
    for i in -20..20 {
        for j in -20..20 {
            let c = HexAxial::<i64>::from_continuous(fx(i * 7919), fx(j * 6553), fx(6554));
            assert_eq!(c.q + c.r + c.s(), 0);
        }
    }
}

#[test]
fn hex_origin_rounds_to_origin() {
    let c = HexAxial::<i64>::from_continuous(fx(0), fx(0), fx(ONE));
    assert_eq!((c.q, c.r), (0, 0));
}

#[test]
fn tri_sum_invariant_holds_everywhere() {
    // Triangular invariant: the coordinate sum is always 1 or 2, including
    // for points exactly on cell boundaries.
    for i in -16..16 {
        for j in -16..16 {
            let c = TriCoord::<i64>::from_continuous(fx(i * 4096), fx(j * 4096), fx(ONE));
            let sum = c.s + c.t + c.u;
            assert!(sum == 1 || sum == 2, "bad sum {} at {} {}", sum, i, j);
        }
    }
}

#[test]
fn tri_ring_has_twelve_distinct_neighbors() {
    let c = TriCoord::<i64>::from_continuous(fx(HALF), fx(HALF), fx(ONE));
    let ring = c.one_ring();
    assert_eq!(ring.len(), 12);
    for i in 0..ring.len() {
        assert_ne!(ring[i], c);
        let sum = ring[i].s + ring[i].t + ring[i].u;
        assert!(sum == 1 || sum == 2);
        for j in 0..i {
            assert_ne!(ring[j], ring[i]);
        }
    }
}

#[test]
fn tri_ring_is_symmetric() {
    let up = TriCoord { s: 1i64, t: 1i64, u: 0i64 };
    for n in up.one_ring() {
        assert!(n.one_ring().contains(&up));
    }
    let down = TriCoord { s: 1i64, t: 0i64, u: 0i64 };
    for n in down.one_ring() {
        assert!(n.one_ring().contains(&down));
    }
}

#[test]
fn tri_canon_collapses_injectively() {
    let down = TriCoord { s: 3i64, t: -1i64, u: -1i64 };
    assert_eq!(down.canon2d(), Key { x: 6, y: -1 });
    let up = TriCoord { s: 3i64, t: -1i64, u: 0i64 };
    assert_eq!(up.canon2d(), Key { x: 7, y: -1 });
    assert_ne!(down.canon2d(), up.canon2d());
}

#[test]
fn tri_points_up_reads_the_sum() {
    assert!(TriCoord { s: 1i64, t: 1i64, u: 0i64 }.points_up());
    assert!(!TriCoord { s: 1i64, t: 0i64, u: 0i64 }.points_up());
}

#[test]
fn height_to_side_len_scales_by_two_over_sqrt3() {
    assert_eq!(TriCoord::<i64>::height_to_side_len(fx(ONE)).raw, 75674);
    assert_eq!(TriCoord::<i64>::height_to_side_len(fx(HALF)).raw, 37837);
}

#[test]
fn offsets_displace_componentwise() {
    let e = Euclidean { x: 10i64, y: 20i64 }.offset(-1, 2);
    assert_eq!((e.x, e.y), (9, 22));
    let h = HexAxial { q: 3i64, r: -3i64 }.offset(1, -1);
    assert_eq!((h.q, h.r), (4, -4));
}

#[test]
fn neighbor_tables_have_expected_shapes() {
    assert_eq!(Euclidean::<i64>::neighbor_indices().len(), 8);
    assert_eq!(HexAxial::<i64>::neighbor_indices().len(), 6);
    assert_eq!(TriCoord::<i64>::neighbor_indices(true).len(), 12);
    assert_eq!(TriCoord::<i64>::neighbor_indices(false).len(), 12);
    assert_eq!(HexAxial::<i64>::neighbor_indices()[0], (1, 0));
    assert_eq!(TriCoord::<i64>::neighbor_indices(true)[0], (-1, 0, 0));
    assert_eq!(TriCoord::<i64>::neighbor_indices(false)[0], (1, 0, 0));
}

#[test]
fn clipped_ring_drops_far_corners() {
    let c = Euclidean { x: 0i64, y: 0i64 };
    // From the cell center every corner is within one side length.
    let all = c.one_ring_clipped(fx(HALF), fx(HALF), fx(ONE));
    assert_eq!(all.len(), 8);
    // From a point near the low corner, the far corner is out of reach, so
    // the neighbor behind it is skipped.
    let clipped = c.one_ring_clipped(fx(6554), fx(6554), fx(ONE));
    assert_eq!(clipped.len(), 7);
    assert!(!clipped.contains(&Euclidean { x: 1, y: -1 }));
}
