use stealth_ai::bounds::Bounds;
use stealth_ai::level::grid_from_rows;
use stealth_ai::motion::{isqrt, step_to};
use stealth_ai::perception::{can_see, can_see_ignoring_walls, within_cone, within_radius};
use stealth_ai::tile::Grid;

fn open_grid() -> Grid {
    grid_from_rows(&vec![".........."; 10])
}

fn walled_grid() -> Grid {
    let mut rows = vec![".........."; 10];
    rows[5] = "....#.....";
    grid_from_rows(&rows)
}

#[test]
fn unseen_beyond_radius() {
    let g = open_grid();
    assert!(!can_see(&g, 16000, 16000, 1, 0, 16000 + 16001, 16000));
    assert!(!can_see_ignoring_walls(16000, 16000, 1, 0, 16000 + 16001, 16000));
    assert!(!can_see(&g, 16000, 16000, 0, 1, 16000, 16000 + 20000));
}

#[test]
fn seen_straight_ahead_within_radius() {
    let g = open_grid();
    assert!(can_see(&g, 16000, 16000, 1, 0, 16000 + 15000, 16000));
    assert!(can_see(&g, 16000, 16000, 1, 0, 16000 + 16000, 16000));
    assert!(can_see(&g, 16000, 16000, -3, -4, 16000 - 6000, 16000 - 8000));
}

#[test]
fn cone_is_thirty_degrees_each_side() {
    let g = open_grid();
    // atan(0.55) is about 28.8 degrees; atan(0.58) about 30.1.
    assert!(can_see(&g, 8000, 8000, 1, 0, 8000 + 10000, 8000 + 5500));
    assert!(!can_see(&g, 8000, 8000, 1, 0, 8000 + 10000, 8000 + 5800));
    assert!(!can_see(&g, 16000, 16000, 1, 0, 16000 - 5000, 16000));
    assert!(within_cone(1, 0, 10000, 5500));
    assert!(!within_cone(1, 0, 10000, 5800));
    assert!(within_cone(5, 5, 0, 0));
}

#[test]
fn radius_is_inclusive() {
    assert!(within_radius(16000, 0));
    assert!(!within_radius(16000, 1));
    assert!(within_radius(-9600, 12800));
}

#[test]
fn wall_between_occludes() {
    let g = walled_grid();
    let (ex, ey, tx, ty) = (8000, 17600, 20800, 17600);
    assert!(!can_see(&g, ex, ey, 1, 0, tx, ty));
    assert!(can_see_ignoring_walls(ex, ey, 1, 0, tx, ty));
    assert!(can_see(&open_grid(), ex, ey, 1, 0, tx, ty));
}

#[test]
fn watcher_inside_wall_sees_nothing() {
    let g = walled_grid();
    assert!(!can_see(&g, 14400, 17600, 1, 0, 20800, 17600));
}

#[test]
fn bounds_overlap_with_edges() {
    let a = Bounds::new(0, 0, 10, 10);
    assert!(a.intersects(&Bounds::new(10, 10, 5, 5)));
    assert!(!a.intersects(&Bounds::new(11, 0, 5, 5)));
    assert!(a.intersects(&Bounds::new(-5, -5, 6, 6)));
    let b = a.position(20, 30);
    assert_eq!(b, Bounds::new(20, 30, 10, 10));
}

#[test]
fn integer_square_roots() {
    assert_eq!(isqrt(0), 0);
    assert_eq!(isqrt(15), 3);
    assert_eq!(isqrt(16), 4);
    assert_eq!(isqrt(1 << 60), 1 << 30);
}

#[test]
fn steps_towards_a_point() {
    assert_eq!(step_to(300, 400, 100), (60, 80));
    assert_eq!(step_to(-300, 400, 100), (-60, 80));
    assert_eq!(step_to(0, 0, 5), (0, 0));
    assert_eq!(step_to(1000, 0, 160), (160, 0));
    // Length of (-7, -7) rounds up to 10; -420 / 10 is -42.
    assert_eq!(step_to(-7, -7, 60), (-42, -42));
    // A short diagonal heading never yields more than 0.6 pixels.
    let (sx, sy) = step_to(1, 1, 60);
    assert_eq!((sx, sy), (30, 30));
    assert!(sx * sx + sy * sy <= 60 * 60);
    for (dx, dy) in [(1, 2), (3, 3), (-5, 7), (1000, 999), (-2, 1)] {
        let (sx, sy) = step_to(dx, dy, 160);
        assert!(sx * sx + sy * sy <= 160 * 160);
    }
}

#[test]
fn wall_occludes_in_every_axis_direction() {
    let g = walled_grid();
    // Wall at tile (4, 5); its centre is (14400, 17600).
    assert!(!can_see(&g, 20800, 17600, -1, 0, 8000, 17600));
    let mut rows = vec![".........."; 10];
    rows[4] = "....#.....";
    let v = grid_from_rows(&rows);
    // Wall at tile (4, 4); looking down and up along column 4.
    assert!(!can_see(&v, 14400, 8000, 0, 1, 14400, 20800));
    assert!(!can_see(&v, 14400, 20800, 0, -1, 14400, 8000));
    assert!(can_see_ignoring_walls(14400, 20800, 0, -1, 14400, 8000));
}
