use spatial_hash::coordinates::Key;
use spatial_hash::fixed::Fixed;
use spatial_hash::hash::HashStrategy;
use spatial_hash::{CoordinateKind, SpatialHash};

fn fx(raw: i32) -> Fixed {
    Fixed::from_raw(raw)
}

/// 0.5 in fixed-point units.
const HALF: i32 = 32768;
/// 1.0 in fixed-point units.
const ONE: i32 = 65536;

#[test]
fn cube_add_query_round_trip() {
    // Scenario: cube(1.0); add(0.5, 0.5, "a"); query(0.5, 0.5) == ["a"];
    // query(2.5, 2.5) == [].
    let mut sh: SpatialHash<&str> = SpatialHash::cube(fx(ONE));
    sh.add(fx(HALF), fx(HALF), "a");
    assert_eq!(sh.query(fx(HALF), fx(HALF)), Some(&vec!["a"]));
    assert_eq!(sh.query(fx(2 * ONE + HALF), fx(2 * ONE + HALF)), None);
}

#[test]
fn add_appends_in_order() {
    let mut sh: SpatialHash<i32> = SpatialHash::cube(fx(ONE));
    sh.add(fx(HALF), fx(HALF), 1);
    sh.add(fx(HALF + 100), fx(HALF - 100), 2);
    sh.add(fx(ONE + HALF), fx(HALF), 3);
    assert_eq!(sh.query(fx(HALF), fx(HALF)), Some(&vec![1, 2]));
    assert_eq!(sh.query(fx(ONE + HALF), fx(HALF)), Some(&vec![3]));
}

#[test]
fn hex_dense_ring_query_is_local() {
    // Scenario: hex(0.1); insert a dense 128 x 128 grid filling [0,1] x [0,1];
    // a ring query near the middle is non-empty but far smaller than the
    // full data set.
    let mut sh: SpatialHash<()> = SpatialHash::hex(fx(6554));
    let freq = 128;
    for i in 0..freq {
        for j in 0..freq {
            sh.add(fx(i * 512), fx(j * 512), ());
        }
    }
    let cells = sh.query_one_ring(fx(HALF), fx(HALF));
    let total: usize = cells.iter().map(|v| v.len()).sum();
    assert!(total > 0);
    assert!(total < (freq * freq) as usize);
}

#[test]
fn adjacent_test() {
    let mut sh_cube: SpatialHash<()> = SpatialHash::new(CoordinateKind::Cube {
        side_len: fx(6554),
    });
    let mut sh_tri: SpatialHash<()> = SpatialHash::tri_h(fx(6554));
    let mut sh_hex: SpatialHash<()> = SpatialHash::new(CoordinateKind::Hex {
        circumradius: fx(6554),
    });

    let freq = 128;
    for i in 0..freq {
        for j in 0..freq {
            sh_cube.add(fx(i * 512), fx(j * 512), ());
            sh_tri.add(fx(i * 512), fx(j * 512), ());
            sh_hex.add(fx(i * 512), fx(j * 512), ());
        }
    }

    assert!(!sh_cube.query(fx(HALF), fx(HALF)).unwrap().is_empty());
    assert!(!sh_tri.query(fx(HALF), fx(HALF)).unwrap().is_empty());
    assert!(!sh_hex.query(fx(HALF), fx(HALF)).unwrap().is_empty());
}

#[test]
fn conflict_resolution_keeps_maximum() {
    // Scenario: two conflicting inserts at one cell resolved by max leave
    // exactly one value, the larger one.
    let mut sh: SpatialHash<i64> = SpatialHash::cube(fx(ONE));
    let max = |a: i64, b: i64| if a > b { a } else { b };
    assert!(sh.add_with_conflict_resolution(fx(HALF), fx(HALF), 3, max));
    assert!(sh.add_with_conflict_resolution(fx(HALF), fx(HALF), 7, max));
    assert_eq!(sh.query(fx(HALF), fx(HALF)), Some(&vec![7]));
    assert!(sh.add_with_conflict_resolution(fx(HALF), fx(HALF), 5, max));
    assert_eq!(sh.query(fx(HALF), fx(HALF)), Some(&vec![7]));
}

#[test]
fn conflict_resolution_rejects_crowded_cell() {
    let mut sh: SpatialHash<i64> = SpatialHash::cube(fx(ONE));
    sh.add(fx(HALF), fx(HALF), 1);
    sh.add(fx(HALF), fx(HALF), 2);
    let max = |a: i64, b: i64| if a > b { a } else { b };
    assert!(!sh.add_with_conflict_resolution(fx(HALF), fx(HALF), 9, max));
    assert_eq!(sh.query(fx(HALF), fx(HALF)), Some(&vec![1, 2]));
}

#[test]
fn add_one_ring_replicates_to_neighbors() {
    let mut sh: SpatialHash<u8> = SpatialHash::cube(fx(ONE));
    let calls = std::cell::Cell::new(0usize);
    sh.add_one_ring(fx(HALF), fx(HALF), 9, |v: Vec<u8>| {
        assert_eq!(v, vec![9]);
        calls.set(calls.get() + 1);
    });
    // 8 neighbors plus the cell itself.
    assert_eq!(calls.get(), 9);
    // A query from an adjacent cell still finds the value.
    assert_eq!(sh.query(fx(ONE + HALF), fx(HALF)), Some(&vec![9]));
    assert_eq!(sh.query(fx(-HALF), fx(-HALF)), Some(&vec![9]));
    // Two cells away finds nothing.
    assert_eq!(sh.query(fx(2 * ONE + HALF), fx(HALF)), None);
}

#[test]
fn query_one_ring_collects_center_and_neighbors() {
    let mut sh: SpatialHash<i32> = SpatialHash::cube(fx(ONE));
    sh.add(fx(HALF), fx(HALF), 1);
    sh.add(fx(ONE + HALF), fx(HALF), 2);
    sh.add(fx(5 * ONE), fx(5 * ONE), 3);
    let cells = sh.query_one_ring(fx(HALF), fx(HALF));
    // The ring finds the neighbor cell and the center cell, nothing else.
    assert_eq!(cells, vec![vec![2], vec![1]]);
}

#[test]
fn add_line_bresenham_stamps_every_cell() {
    let mut sh: SpatialHash<char> = SpatialHash::cube(fx(ONE));
    sh.add_line_bresenham((fx(HALF), fx(HALF)), (fx(3 * ONE + HALF), fx(HALF)), 'x');
    for cx in 0..4 {
        assert_eq!(
            sh.query(fx(cx * ONE + HALF), fx(HALF)),
            Some(&vec!['x']),
            "cell {} missing",
            cx
        );
    }
    assert_eq!(sh.query(fx(4 * ONE + HALF), fx(HALF)), None);
}

#[test]
fn same_bin_matches_cell_assignment() {
    let sh: SpatialHash<u8> = SpatialHash::cube(fx(ONE));
    assert!(sh.same_bin(fx(HALF), fx(HALF), fx(HALF + 1000), fx(HALF - 1000)));
    assert!(!sh.same_bin(fx(HALF), fx(HALF), fx(ONE + HALF), fx(HALF)));
}

#[test]
fn clear_empties_but_keeps_kind() {
    let mut sh: SpatialHash<i32> = SpatialHash::cube(fx(ONE));
    sh.add(fx(HALF), fx(HALF), 1);
    sh.clear();
    assert_eq!(sh.query(fx(HALF), fx(HALF)), None);
    assert_eq!(sh.kind, CoordinateKind::Cube { side_len: fx(ONE) });
    sh.add(fx(HALF), fx(HALF), 2);
    assert_eq!(sh.query(fx(HALF), fx(HALF)), Some(&vec![2]));
}

#[test]
fn with_hasher_substitutes_strategy() {
    let sh: SpatialHash<i32> = SpatialHash::cube(fx(ONE));
    let mut sh = sh.with_hasher(HashStrategy::Simple);
    sh.add(fx(HALF), fx(HALF), 5);
    assert_eq!(sh.query(fx(HALF), fx(HALF)), Some(&vec![5]));
}

#[test]
fn iter_lists_every_stored_cell() {
    let mut sh: SpatialHash<i32> = SpatialHash::cube(fx(ONE));
    sh.add(fx(HALF), fx(HALF), 1);
    sh.add(fx(HALF), fx(HALF), 2);
    sh.add(fx(ONE + HALF), fx(5 * ONE + HALF), 3);
    let mut entries = sh.iter();
    entries.sort_by_key(|(k, _)| (k.x, k.y));
    assert_eq!(
        entries,
        vec![
            (Key { x: 0, y: 0 }, vec![1, 2]),
            (Key { x: 1, y: 5 }, vec![3]),
        ]
    );
}

#[test]
fn default_is_empty_triangular() {
    let sh: SpatialHash<i32> = Default::default();
    assert_eq!(
        sh.kind,
        CoordinateKind::Tri { side_len: fx(ONE) }
    );
    assert_eq!(sh.query(fx(HALF), fx(HALF)), None);
}

#[test]
fn tri_h_converts_height_to_side_length() {
    let sh: SpatialHash<i32> = SpatialHash::tri_h(fx(ONE));
    // side = height * 2 / sqrt(3), in fixed point 65536 * 75674 / 65536.
    assert_eq!(sh.kind, CoordinateKind::Tri { side_len: fx(75674) });
}

#[test]
fn tri_container_round_trip() {
    let mut sh: SpatialHash<i32> = SpatialHash::tri_h(fx(6554));
    sh.add(fx(HALF), fx(HALF), 42);
    assert_eq!(sh.query(fx(HALF), fx(HALF)), Some(&vec![42]));
}

#[test]
fn idx_is_deterministic() {
    let sh: SpatialHash<u8> = SpatialHash::hex(fx(6554));
    let a = sh.idx(fx(12345), fx(-6789));
    let b = sh.idx(fx(12345), fx(-6789));
    assert_eq!(a, b);
    assert!(a.0 < 256);
}
