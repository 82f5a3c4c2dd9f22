//! End-to-end tests of the Voronoi build.

use voronoi_sweep::driver::voronoi;
use voronoi_sweep::geom::{BuildError, Point};
use voronoi_sweep::graph::{Frac, Graph, Node};

fn pt(x: i64, y: i64) -> Point {
    Point { x, y }
}

#[test]
fn empty_input_gives_empty_graph() {
    let sites: Vec<Point> = vec![];
    let g = voronoi(&sites).expect("empty input must build");
    assert_eq!(g.num_vertices(), 0);
    assert_eq!(g.edges().len(), 0);
}

#[test]
fn single_site_gives_empty_graph() {
    let sites = vec![pt(42, -17)];
    let g = voronoi(&sites).expect("one site must build");
    assert_eq!(g.num_vertices(), 0);
    assert_eq!(g.edges().len(), 0);
}

#[test]
fn three_sites_give_one_vertex_at_circumcenter() {
    let sites = vec![pt(0, 0), pt(10, 0), pt(5, 10)];
    let g = voronoi(&sites).expect("a non-degenerate triangle must build");
    assert_eq!(g.num_vertices(), 1);
    let v = &g.nodes[0];
    // The circumcenter of the triangle is (5, 15/4); positions are exact
    // rationals, so check the ratios.
    assert!(v.x.den > 0);
    assert!(v.y.den > 0);
    assert_eq!(v.x.num, 5 * v.x.den);
    assert_eq!(4 * v.y.num, 15 * v.y.den);
    // No earlier vertex existed to link to.
    assert!(v.neighbours.is_empty());
    assert_eq!(g.edges().len(), 0);
}

#[test]
fn same_input_twice_is_deterministic() {
    let sites = vec![pt(0, 0), pt(10, 0), pt(5, 10), pt(7, 3)];
    let r1 = voronoi(&sites);
    let r2 = voronoi(&sites);
    assert_eq!(r1, r2);
}

#[test]
fn square_input_is_deterministic() {
    let sites = vec![pt(0, 0), pt(10, 0), pt(0, 10), pt(10, 10)];
    let r1 = voronoi(&sites);
    let r2 = voronoi(&sites);
    assert_eq!(r1, r2);
    // The two highest sites share a sweep height, so the second one finds
    // no arc strictly above it: the square is rejected as degenerate.
    assert_eq!(r1, Err(BuildError::DegenerateInput));
}

#[test]
fn collinear_sites_are_rejected() {
    let sites = vec![pt(0, 0), pt(1, 0), pt(2, 0)];
    assert_eq!(voronoi(&sites), Err(BuildError::DegenerateInput));
}

#[test]
fn duplicate_sites_are_rejected() {
    let sites = vec![pt(3, 4), pt(3, 4)];
    assert_eq!(voronoi(&sites), Err(BuildError::DegenerateInput));
}

#[test]
fn huge_coordinates_overflow_exactly() {
    let big: i64 = 1 << 61;
    let sites = vec![pt(0, big), pt(1, big / 2), pt(2, big / 4)];
    assert_eq!(voronoi(&sites), Err(BuildError::ArithmeticOverflow));
}

#[test]
fn graph_edges_list_lower_endpoints_once() {
    // A hand-built symmetric graph: 0-1 and 0-2.
    let g = Graph {
        nodes: vec![
            Node {
                x: Frac { num: 0, den: 1 },
                y: Frac { num: 0, den: 1 },
                neighbours: vec![1, 2],
            },
            Node {
                x: Frac { num: 1, den: 1 },
                y: Frac { num: 0, den: 1 },
                neighbours: vec![0],
            },
            Node {
                x: Frac { num: 2, den: 1 },
                y: Frac { num: 0, den: 1 },
                neighbours: vec![0],
            },
        ],
    };
    assert_eq!(g.num_vertices(), 3);
    assert_eq!(g.edges(), vec![(0, 1), (0, 2)]);
}

#[test]
fn four_sites_can_build_two_vertices() {
    // The canonical triangle plus a fourth site far below it.  The sweep
    // emits the triangle's circumcenter first, then one more vertex; the
    // second circle event captures no vertex references, so the graph has
    // no finite edges.
    let sites = vec![pt(0, 0), pt(10, 0), pt(5, 10), pt(5, -100)];
    let g = voronoi(&sites).expect("must build");
    assert_eq!(g.num_vertices(), 2);
    let v0 = &g.nodes[0];
    assert_eq!(v0.x, Frac { num: 1000, den: 200 });
    assert_eq!(v0.y, Frac { num: 750, den: 200 });
    assert!(v0.neighbours.is_empty());
    let v1 = &g.nodes[1];
    assert_eq!(v1.x, Frac { num: 112750, den: 1100 });
    assert_eq!(v1.y, Frac { num: -49500, den: 1100 });
    assert!(v1.neighbours.is_empty());
    assert_eq!(g.edges(), vec![]);
}

#[test]
fn coincident_triple_during_sweep_is_rejected() {
    // Four sites at strictly distinct heights: several vertices are formed,
    // but a later removal leaves two clones of one site adjacent around a
    // vanishing arc, and the circumcircle solve of that triple reports the
    // coincidence as degenerate, aborting the whole build.
    let sites = vec![pt(5, 10), pt(0, 6), pt(10, 5), pt(4, -8)];
    assert_eq!(voronoi(&sites), Err(BuildError::DegenerateInput));
}
