use adroitly::{circle_fits, circle_points, RADIUS};

#[test]
fn zero_radius_is_the_centre_eight_times() {
    assert_eq!(circle_points(5, -7, 0), vec![(5, -7); 8]);
}

#[test]
fn radius_three_outline() {
    let want = vec![
        (3, 0), (-3, 0), (3, 0), (-3, 0), (0, 3), (0, 3), (0, -3), (0, -3),
        (3, 1), (-3, 1), (3, -1), (-3, -1), (1, 3), (-1, 3), (1, -3), (-1, -3),
        (2, 2), (-2, 2), (2, -2), (-2, -2), (2, 2), (-2, 2), (2, -2), (-2, -2),
    ];
    assert_eq!(circle_points(0, 0, 3), want);
}

#[test]
fn bullet_outline_around_a_point() {
    let pts = circle_points(100, 50, RADIUS);
    assert_eq!(pts.len(), 64);
    assert_eq!(&pts[..8], &[(110, 50), (90, 50), (110, 50), (90, 50), (100, 60), (100, 60), (100, 40), (100, 40)]);
    assert_eq!(&pts[56..], &[(107, 57), (93, 57), (107, 43), (93, 43), (107, 57), (93, 57), (107, 43), (93, 43)]);
    for (x, y) in pts {
        assert!((x - 100).abs() <= 10 && (y - 50).abs() <= 10);
    }
}

#[test]
fn radius_past_i32_draws_nothing() {
    assert!(circle_points(0, 0, u32::MAX).is_empty());
    assert!(circle_points(0, 0, 0x8000_0000).is_empty());
}

#[test]
fn outline_near_the_edge_of_i32() {
    let pts = circle_points(i32::MAX - 10, i32::MIN + 10, 10);
    assert_eq!(pts[0], (i32::MAX, i32::MIN + 10));
    assert_eq!(pts[3], (i32::MAX - 20, i32::MIN + 10));
}

#[test]
fn circle_fits_bounds_the_error_term() {
    assert!(circle_fits(0));
    assert!(circle_fits(RADIUS));
    assert!(circle_fits(u32::MAX));
    assert!(circle_fits(0x8000_0000));
    assert!(circle_fits(1000));
}

#[test]
fn outline_groups_are_octants() {
    let pts = circle_points(3, -4, 25);
    assert_eq!(pts.len() % 8, 0);
    assert!(pts.len() <= 8 * 26);
    for g in pts.chunks(8) {
        let (a, b) = (g[0].0 - 3, g[0].1 + 4);
        assert!(25 >= a && a >= b && b >= 0);
        assert_eq!(g[1], (-a + 3, b - 4));
        assert_eq!(g[4], (b + 3, a - 4));
        assert_eq!(g[7], (-b + 3, -a - 4));
    }
}
