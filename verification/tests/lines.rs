use spatial_hash::coordinates::Key;
use spatial_hash::fixed::Fixed;
use spatial_hash::lines::{bresenham, wu};

fn fx(raw: i32) -> Fixed {
    Fixed::from_raw(raw)
}

fn key(x: i64, y: i64) -> Key {
    Key { x, y }
}

#[test]
fn bresenham_shallow_path() {
    // Scenario: from (0,0) to (5,2) the path starts at the start cell,
    // ends at the end cell, takes at most max(|dx|,|dy|) + 1 cells, and
    // moves at most one cell per axis per step.
    let path = bresenham(key(0, 0), key(5, 2));
    assert_eq!(path[0], key(0, 0));
    assert_eq!(*path.last().unwrap(), key(5, 2));
    assert!(path.len() <= 6);
    for w in path.windows(2) {
        assert!((w[1].x - w[0].x).abs() <= 1);
        assert!((w[1].y - w[0].y).abs() <= 1);
    }
}

#[test]
fn bresenham_single_cell() {
    let path = bresenham(key(3, 3), key(3, 3));
    assert_eq!(path, vec![key(3, 3)]);
}

#[test]
fn bresenham_axis_aligned() {
    let path = bresenham(key(0, 0), key(4, 0));
    assert_eq!(
        path,
        vec![key(0, 0), key(1, 0), key(2, 0), key(3, 0), key(4, 0)]
    );
    let path = bresenham(key(0, 0), key(0, -3));
    assert_eq!(path, vec![key(0, 0), key(0, -1), key(0, -2), key(0, -3)]);
}

#[test]
fn bresenham_diagonal_descending() {
    let path = bresenham(key(2, 2), key(-1, -1));
    assert_eq!(path, vec![key(2, 2), key(1, 1), key(0, 0), key(-1, -1)]);
}

#[test]
fn bresenham_steep_path_reaches_endpoint() {
    let path = bresenham(key(0, 0), key(2, 5));
    assert_eq!(path[0], key(0, 0));
    assert_eq!(*path.last().unwrap(), key(2, 5));
    assert!(path.len() <= 6);
    for w in path.windows(2) {
        assert!((w[1].x - w[0].x).abs() <= 1);
        assert!((w[1].y - w[0].y).abs() <= 1);
    }
}

#[test]
fn wu_emits_bracketing_cell_pairs() {
    // A shallow segment from (0.0, 0.0) to (3.0, 1.0): two cells for each
    // endpoint, then two per inner column.  The second endpoint's
    // intercept comes from the multiplied (not subtracted) column, which
    // is why its pair sits at y = 4.
    let cells = wu((fx(0), fx(0)), (fx(3 * 65536), fx(65536)));
    assert_eq!(
        cells,
        vec![
            key(0, 0),
            key(0, 1),
            key(3, 4),
            key(3, 5),
            key(1, 0),
            key(1, 1),
            key(2, 0),
            key(2, 1),
        ]
    );
}

#[test]
fn wu_steep_segment_swaps_axes() {
    // A steep segment swaps the driving axis; the emitted pairs bracket
    // columns of the y axis instead.
    let cells = wu((fx(0), fx(0)), (fx(65536), fx(3 * 65536)));
    assert_eq!(cells.len(), 8);
    assert_eq!(cells[0], key(0, 0));
    assert_eq!(cells[1], key(1, 0));
    // Every emitted pair differs by one in the non-driving axis.
    for p in cells.chunks(2) {
        assert_eq!(p[1].x, p[0].x + 1);
        assert_eq!(p[1].y, p[0].y);
    }
}

#[test]
fn wu_is_deterministic() {
    let a = wu((fx(123), fx(-456)), (fx(78901), fx(23456)));
    let b = wu((fx(123), fx(-456)), (fx(78901), fx(23456)));
    assert_eq!(a, b);
}
