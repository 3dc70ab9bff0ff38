use netsim::geom::{distance_between, hits_node, isqrt, Pos};

#[test]
fn distance_of_a_right_triangle_is_exact() {
    let a = Pos { x: 0, y: 0 };
    let b = Pos { x: 3, y: 4 };
    assert_eq!(distance_between((a, b)), 5);
    assert_eq!(distance_between((b, a)), 5);
}

#[test]
fn distance_truncates_toward_zero() {
    let a = Pos { x: 0, y: 0 };
    let b = Pos { x: 1, y: 1 };
    assert_eq!(distance_between((a, b)), 1);
    let c = Pos { x: 0, y: 7 };
    let d = Pos { x: 7, y: 0 };
    // sqrt(98) = 9.899...
    assert_eq!(distance_between((c, d)), 9);
}

#[test]
fn distance_of_coincident_points_is_zero() {
    let a = Pos { x: 5, y: -5 };
    assert_eq!(distance_between((a, a)), 0);
}

#[test]
fn distance_handles_extreme_coordinates() {
    let a = Pos { x: i32::MIN, y: i32::MIN };
    let b = Pos { x: i32::MAX, y: i32::MAX };
    // each axis difference is 2^32 - 1; the diagonal is (2^32 - 1) * sqrt(2)
    assert_eq!(distance_between((a, b)), 6074000998);
}

#[test]
fn isqrt_exact_values() {
    assert_eq!(isqrt(0), 0);
    assert_eq!(isqrt(1), 1);
    assert_eq!(isqrt(2), 1);
    assert_eq!(isqrt(3), 1);
    assert_eq!(isqrt(4), 2);
    assert_eq!(isqrt(99), 9);
    assert_eq!(isqrt(100), 10);
    assert_eq!(isqrt(10_000_000_000), 100_000);
}

#[test]
fn node_radius_is_strictly_under_thirty_five() {
    let node = Pos { x: 0, y: 0 };
    assert!(hits_node(node, Pos { x: 34, y: 0 }));
    assert!(!hits_node(node, Pos { x: 35, y: 0 }));
    assert!(hits_node(node, Pos { x: 24, y: 24 }));
    assert!(!hits_node(node, Pos { x: 25, y: 25 }));
}
