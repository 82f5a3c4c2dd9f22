//! Tests of the geometry kernel and the event ordering.

use voronoi_sweep::event::{initial_queue, Event};
use voronoi_sweep::geom::{circum, cmp_heights, cmp_shift_sqrt, BuildError, Circum, Point};
use voronoi_sweep::num::Rel;
use voronoi_sweep::state::GlobalState;

fn pt(x: i64, y: i64) -> Point {
    Point { x, y }
}

#[test]
fn circumcircle_of_canonical_triangle() {
    // Circumcenter of (0,0), (10,0), (5,10) is (5, 15/4), circumradius
    // squared is 25 + 225/16.  In homogeneous form with the denominator
    // normalised positive: d = 200, center (1000/200, 750/200),
    // n = 1000^2 + 750^2.
    let c = circum(pt(0, 0), pt(10, 0), pt(5, 10)).expect("not degenerate");
    assert_eq!(
        c,
        Circum { ux: 1000, uy: 750, d: 200, n: 1_562_500 }
    );
}

#[test]
fn circumcircle_rejects_collinear_sites() {
    assert_eq!(
        circum(pt(0, 0), pt(1, 0), pt(2, 0)),
        Err(BuildError::DegenerateInput)
    );
}

#[test]
fn circumcircle_rejects_coincident_sites() {
    assert_eq!(
        circum(pt(3, 4), pt(3, 4), pt(7, 1)),
        Err(BuildError::DegenerateInput)
    );
}

#[test]
fn shift_sqrt_comparison_is_exact() {
    // 1 + sqrt(4) == sqrt(9)
    assert_eq!(cmp_shift_sqrt(1, 4, 9), Some(Rel::Eq));
    // 2 + sqrt(4) > sqrt(9)
    assert_eq!(cmp_shift_sqrt(2, 4, 9), Some(Rel::Gt));
    // 0 + sqrt(1) < sqrt(9)
    assert_eq!(cmp_shift_sqrt(0, 1, 9), Some(Rel::Lt));
    // -1 + sqrt(9) < sqrt(9)
    assert_eq!(cmp_shift_sqrt(-1, 9, 9), Some(Rel::Lt));
    // -2 + sqrt(16) == sqrt(4)
    assert_eq!(cmp_shift_sqrt(-2, 16, 4), Some(Rel::Eq));
    // -1 + sqrt(16) > sqrt(4)
    assert_eq!(cmp_shift_sqrt(-1, 16, 4), Some(Rel::Gt));
}

#[test]
fn sites_queue_in_decreasing_y_then_decreasing_x() {
    let sites = vec![pt(0, 5), pt(10, 5), pt(3, 7)];
    let q = initial_queue(&sites);
    assert_eq!(
        q,
        vec![
            Event::Site(pt(3, 7)),
            Event::Site(pt(10, 5)),
            Event::Site(pt(0, 5)),
        ]
    );
}

#[test]
fn global_state_tick_tracks_delta() {
    let mut s = GlobalState::new(1_000);
    assert_eq!(s.prev_time, 1_000);
    assert_eq!(s.delta, 0);
    s.tick(1_750);
    assert_eq!(s.prev_time, 1_750);
    assert_eq!(s.delta, 750);
    // A backwards clock reading yields a zero delta, never an underflow.
    s.tick(500);
    assert_eq!(s.prev_time, 500);
    assert_eq!(s.delta, 0);
}

#[test]
fn parabola_heights_compare_exactly() {
    // Above x = 4 with the sweep at y = -8: the parabola of (0,6) sits at
    // (64 + 36 + 16)/28 = 29/7, below the parabola of (5,10) at
    // (64 + 100 + 1)/36 = 55/12.
    let a = pt(0, 6);
    let b = pt(5, 10);
    let s = pt(4, -8);
    assert_eq!(cmp_heights(a, b, s), Some(Rel::Lt));
    assert_eq!(cmp_heights(b, a, s), Some(Rel::Gt));
    assert_eq!(cmp_heights(a, a, s), Some(Rel::Eq));
}
