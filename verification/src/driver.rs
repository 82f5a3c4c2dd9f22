//! The sweep driver: pops events, mutates the beachline, emits vertices.
//!
//! The whole build is specified by a functional model: `voronoi_spec` maps
//! the input site sequence to the finished vertex list (or to the error that
//! aborts the build), and the executable `voronoi` returns exactly that
//! value.  Determinism of the build is therefore a consequence of the
//! contract, not a separate mechanism.
//!
//! One step pops the queue head.  A site event splits the arc below the new
//! site into three freshly numbered arcs and runs circle-event detection on
//! the two new outer triples.  A circle event whose arc id is gone is stale
//! and discarded without effect; a live one becomes a new graph vertex at
//! the circumcircle center, linked symmetrically to the vertices its arc
//! was drawing edges from, and detection re-runs on the two triples around
//! the freshly joined neighbours.  The run ends when the queue empties; it
//! aborts on the first degenerate triple or overflowing comparison.

use vstd::prelude::*;

use crate::beach::{
    find_arc, find_arc_below, find_arc_below_spec, find_id_spec, first_candidate_spec,
    lemma_find_arc_below_bounds, lemma_find_id_bounds, Arc,
};
use crate::event::{
    cmp_keys, cmp_keys_spec, initial_queue, initial_queue_spec, insert_event, insert_event_spec,
    lemma_ins_pos_bounds, lemma_site_count_insert, lemma_site_ins_pos_bounds, ins_pos_spec,
    site_count, site_ins_pos_spec, sort_sites_spec, to_site_events, CircleEvent, Event,
};
use crate::geom::{circum, circum_spec, BuildError, Point};
use crate::graph::{adj_symmetric, nodes_view, Frac, Graph, Node, SNode};
use crate::num::Rel;

verus! {

/// The complete working state of one sweep.
pub ghost struct SState {
    pub queue: Seq<Event>,
    pub beach: Seq<Arc>,
    pub nodes: Seq<SNode>,
    pub next_id: u64,
}

/// Assembles a state value.
pub open spec fn mk_state(queue: Seq<Event>, beach: Seq<Arc>, nodes: Seq<SNode>, next_id: u64) -> SState {
    SState { queue: queue, beach: beach, nodes: nodes, next_id: next_id }
}

/// Circle-event detection for the consecutive arc triple `(l, m, r)`: the
/// circumcircle of the three sites, referencing the middle arc.  The event
/// is emitted only if its key lies strictly ahead of the key of the event
/// being processed, that is, the circle's lowest point has not yet been
/// reached by the sweep.  A degenerate triple (coincident or collinear
/// sites) aborts the build.
#[verifier::opaque]
pub open spec fn detect_spec(l: Arc, m: Arc, r: Arc, cur: Event) -> Result<
    Option<CircleEvent>,
    BuildError,
> {
    match circum_spec(l.site, m.site, r.site) {
        Err(e) => Err(e),
        Ok(c) => {
            let ev = CircleEvent { circ: c, arc_id: m.id };
            match cmp_keys_spec(Event::Circle(ev), cur) {
                None => Err(BuildError::ArithmeticOverflow),
                Some(Rel::Lt) => Ok(Some(ev)),
                Some(_) => Ok(None),
            }
        },
    }
}

/// The queue after acting on a detection outcome: unchanged for no event,
/// ordered insertion for an event, the error otherwise.
pub open spec fn queue_after_detect(
    q: Seq<Event>,
    det: Result<Option<CircleEvent>, BuildError>,
) -> Result<Seq<Event>, BuildError> {
    match det {
        Err(e) => Err(e),
        Ok(None) => Ok(q),
        Ok(Some(ev)) => insert_event_spec(q, Event::Circle(ev)),
    }
}

/// Acting on a detection keeps every queued site and adds at most one event.
proof fn lemma_queue_after_detect(q: Seq<Event>, det: Result<Option<CircleEvent>, BuildError>)
    ensures
        queue_after_detect(q, det) matches Ok(q2) ==> q.len() <= q2.len() <= q.len() + 1
            && site_count(q2) == site_count(q),
{
    match det {
        Err(_) => {},
        Ok(None) => {},
        Ok(Some(ev)) => {
            lemma_ins_pos_bounds(q, Event::Circle(ev));
            match ins_pos_spec(q, Event::Circle(ev)) {
                Ok(i) => {
                    lemma_site_count_insert(q, i, Event::Circle(ev));
                },
                Err(_) => {},
            }
        },
    }
}

/// One site event, after the pop: with an empty beachline the first arc is
/// simply laid down; otherwise the arc below the site is split in place
/// into a left clone, the new arc, and a right clone, each with a fresh id.
/// The clones keep the original's outward vertex references; the sides
/// facing the new arc become unresolved.  Detection then runs on the left
/// and right outer triples, in that order.
pub open spec fn site_step_spec(st: SState, p: Point) -> Result<SState, BuildError> {
    if st.beach.len() == 0 {
        if st.next_id == u64::MAX {
            Err(BuildError::ArithmeticOverflow)
        } else {
            Ok(
                mk_state(
                    st.queue,
                    seq![Arc { id: st.next_id, site: p, l_vert: None, r_vert: None }],
                    st.nodes,
                    (st.next_id + 1) as u64,
                ),
            )
        }
    } else {
        match find_arc_below_spec(st.beach, p) {
            Err(e) => Err(e),
            Ok(i) => if st.next_id > u64::MAX - 3 {
                Err(BuildError::ArithmeticOverflow)
            } else {
                let a = st.beach[i];
                let left = Arc { id: st.next_id, site: a.site, l_vert: a.l_vert, r_vert: None };
                let mid = Arc {
                    id: (st.next_id + 1) as u64,
                    site: p,
                    l_vert: None,
                    r_vert: None,
                };
                let right = Arc {
                    id: (st.next_id + 2) as u64,
                    site: a.site,
                    l_vert: None,
                    r_vert: a.r_vert,
                };
                let beach2 = st.beach.subrange(0, i) + seq![left, mid, right]
                    + st.beach.subrange(i + 1, st.beach.len() as int);
                let det_l = if i >= 1 {
                    detect_spec(st.beach[i - 1], left, mid, Event::Site(p))
                } else {
                    Ok(None)
                };
                match queue_after_detect(st.queue, det_l) {
                    Err(e) => Err(e),
                    Ok(q1) => {
                        let det_r = if i + 1 < st.beach.len() {
                            detect_spec(mid, right, st.beach[i + 1], Event::Site(p))
                        } else {
                            Ok(None)
                        };
                        match queue_after_detect(q1, det_r) {
                            Err(e) => Err(e),
                            Ok(q2) => Ok(
                                mk_state(q2, beach2, st.nodes, (st.next_id + 3) as u64),
                            ),
                        }
                    },
                }
            },
        }
    }
}

/// An arc with its right vertex reference patched.
pub open spec fn with_r_vert(a: Arc, v: usize) -> Arc {
    Arc { id: a.id, site: a.site, l_vert: a.l_vert, r_vert: Some(v) }
}

/// An arc with its left vertex reference patched.
pub open spec fn with_l_vert(a: Arc, v: usize) -> Arc {
    Arc { id: a.id, site: a.site, l_vert: Some(v), r_vert: a.r_vert }
}

/// A vertex with one more neighbour.
pub open spec fn add_neighbour(n: SNode, v: usize) -> SNode {
    SNode { x: n.x, y: n.y, nbrs: n.nbrs.push(v) }
}

/// The neighbour links a vanishing arc hands to its new vertex: its left
/// and right vertex references, each at most once.
pub open spec fn captured_neighbours(lv: Option<usize>, rv: Option<usize>) -> Seq<usize> {
    let s0 = match lv {
        Some(v) => seq![v],
        None => Seq::empty(),
    };
    match rv {
        Some(w) => if lv == Some(w) {
            s0
        } else {
            s0.push(w)
        },
        None => s0,
    }
}

/// Adds the new vertex to the neighbour list of each captured vertex, in
/// capture order, making every new edge symmetric.
pub open spec fn linked_nodes(nodes: Seq<SNode>, caps: Seq<usize>, new_ix: usize) -> Seq<SNode>
    decreases caps.len(),
{
    if caps.len() == 0 {
        nodes
    } else {
        let v = caps[0];
        let nodes1 = if (v as int) < nodes.len() {
            nodes.update(v as int, add_neighbour(nodes[v as int], new_ix))
        } else {
            nodes
        };
        linked_nodes(nodes1, caps.drop_first(), new_ix)
    }
}

/// One circle event, after the pop.  An event whose arc id is no longer on
/// the beachline is stale and is discarded without any effect.  Otherwise a
/// vertex is created at the circumcircle center, linked both ways to the
/// vertices the arc was drawing from; the left neighbour's right reference
/// and the right neighbour's left reference are patched to the new vertex;
/// the arc is removed; and detection re-runs on the two triples around the
/// freshly joined pair, left one first.
pub open spec fn circle_step_spec(st: SState, ce: CircleEvent, cur: Event) -> Result<
    SState,
    BuildError,
> {
    match find_id_spec(st.beach, ce.arc_id) {
        None => Ok(st),
        Some(i) => {
            let arc = st.beach[i];
            let new_ix = st.nodes.len() as usize;
            let caps = captured_neighbours(arc.l_vert, arc.r_vert);
            let nodes1 = linked_nodes(st.nodes, caps, new_ix);
            let node_new = SNode {
                x: Frac { num: ce.circ.ux, den: ce.circ.d },
                y: Frac { num: ce.circ.uy, den: ce.circ.d },
                nbrs: caps,
            };
            let nodes2 = nodes1.push(node_new);
            let b1 = if i >= 1 {
                st.beach.update(i - 1, with_r_vert(st.beach[i - 1], new_ix))
            } else {
                st.beach
            };
            let b2 = if i + 1 < st.beach.len() {
                b1.update(i + 1, with_l_vert(b1[i + 1], new_ix))
            } else {
                b1
            };
            let beach2 = b2.remove(i);
            let det_a = if i >= 2 && i + 1 < st.beach.len() {
                detect_spec(beach2[i - 2], beach2[i - 1], beach2[i], cur)
            } else {
                Ok(None)
            };
            match queue_after_detect(st.queue, det_a) {
                Err(e) => Err(e),
                Ok(q1) => {
                    let det_b = if i >= 1 && i + 2 < st.beach.len() {
                        detect_spec(beach2[i - 1], beach2[i], beach2[i + 1], cur)
                    } else {
                        Ok(None)
                    };
                    match queue_after_detect(q1, det_b) {
                        Err(e) => Err(e),
                        Ok(q2) => Ok(mk_state(q2, beach2, nodes2, st.next_id)),
                    }
                },
            }
        },
    }
}

/// One step of the driver: pop the queue head and dispatch.
pub open spec fn step_spec(st: SState) -> Result<SState, BuildError>
    recommends
        st.queue.len() > 0,
{
    let ev = st.queue[0];
    let st1 = mk_state(st.queue.drop_first(), st.beach, st.nodes, st.next_id);
    match ev {
        Event::Site(p) => site_step_spec(st1, p),
        Event::Circle(ce) => circle_step_spec(st1, ce, ev),
    }
}

/// Termination measure of the sweep: every step strictly lowers it.  A site
/// pop trades its weight of seven for at most two new arcs and two queued
/// circle events; a live circle pop trades one queue slot and one arc for
/// at most two queued circle events; a stale pop just shortens the queue.
pub open spec fn measure(st: SState) -> int {
    st.queue.len() + 6 * site_count(st.queue) + 2 * st.beach.len() as int
}

/// A successful step strictly decreases the measure.
#[verifier::rlimit(100)]
pub proof fn lemma_step_measure(st: SState)
    requires
        st.queue.len() > 0,
    ensures
        step_spec(st) matches Ok(st2) ==> measure(st2) < measure(st),
{
    let ev = st.queue[0];
    let st1 = mk_state(st.queue.drop_first(), st.beach, st.nodes, st.next_id);
    assert(site_count(st.queue) == (match ev {
        Event::Site(_) => 1nat,
        Event::Circle(_) => 0nat,
    }) + site_count(st.queue.drop_first()));
    match ev {
        Event::Site(p) => {
            if st.beach.len() != 0 {
                match find_arc_below_spec(st.beach, p) {
                    Err(_) => {},
                    Ok(i) => {
                        lemma_find_arc_below_bounds(st.beach, p);
                        let det_l = if i >= 1 {
                            detect_spec(
                                st.beach[i - 1],
                                Arc {
                                    id: st.next_id,
                                    site: st.beach[i].site,
                                    l_vert: st.beach[i].l_vert,
                                    r_vert: None,
                                },
                                Arc {
                                    id: (st.next_id + 1) as u64,
                                    site: p,
                                    l_vert: None,
                                    r_vert: None,
                                },
                                Event::Site(p),
                            )
                        } else {
                            Ok(None)
                        };
                        lemma_queue_after_detect(st1.queue, det_l);
                        match queue_after_detect(st1.queue, det_l) {
                            Err(_) => {},
                            Ok(q1) => {
                                let det_r = if i + 1 < st.beach.len() {
                                    detect_spec(
                                        Arc {
                                            id: (st.next_id + 1) as u64,
                                            site: p,
                                            l_vert: None,
                                            r_vert: None,
                                        },
                                        Arc {
                                            id: (st.next_id + 2) as u64,
                                            site: st.beach[i].site,
                                            l_vert: None,
                                            r_vert: st.beach[i].r_vert,
                                        },
                                        st.beach[i + 1],
                                        Event::Site(p),
                                    )
                                } else {
                                    Ok(None)
                                };
                                lemma_queue_after_detect(q1, det_r);
                            },
                        }
                    },
                }
            }
        },
        Event::Circle(ce) => {
            match find_id_spec(st1.beach, ce.arc_id) {
                None => {},
                Some(i) => {
                    lemma_find_id_bounds(st1.beach, ce.arc_id);
                    let st2_parts = circle_step_spec(st1, ce, ev);
                    let arc = st1.beach[i];
                    let b1 = if i >= 1 {
                        st1.beach.update(i - 1, with_r_vert(st1.beach[i - 1], st1.nodes.len() as usize))
                    } else {
                        st1.beach
                    };
                    let b2 = if i + 1 < st1.beach.len() {
                        b1.update(i + 1, with_l_vert(b1[i + 1], st1.nodes.len() as usize))
                    } else {
                        b1
                    };
                    let beach2 = b2.remove(i);
                    assert(beach2.len() == st1.beach.len() - 1);
                    let det_a = if i >= 2 && i + 1 < st1.beach.len() {
                        detect_spec(beach2[i - 2], beach2[i - 1], beach2[i], ev)
                    } else {
                        Ok(None)
                    };
                    lemma_queue_after_detect(st1.queue, det_a);
                    match queue_after_detect(st1.queue, det_a) {
                        Err(_) => {},
                        Ok(q1) => {
                            let det_b = if i >= 1 && i + 2 < st1.beach.len() {
                                detect_spec(beach2[i - 1], beach2[i], beach2[i + 1], ev)
                            } else {
                                Ok(None)
                            };
                            lemma_queue_after_detect(q1, det_b);
                        },
                    }
                },
            }
        },
    }
}

/// The rest of the sweep from a state: the finished vertex list once the
/// queue is empty, otherwise one step and recurse.
pub open spec fn run_spec(st: SState) -> Result<Seq<SNode>, BuildError>
    decreases measure(st),
{
    if st.queue.len() == 0 {
        Ok(st.nodes)
    } else {
        match step_spec(st) {
            Err(e) => Err(e),
            Ok(st2) => {
                proof {
                    lemma_step_measure(st);
                }
                run_spec(st2)
            },
        }
    }
}

/// The state every build starts from: the ordered site events, an empty
/// beachline, no vertices.
pub open spec fn init_state(sites: Seq<Point>) -> SState {
    mk_state(initial_queue_spec(sites), Seq::empty(), Seq::empty(), 0)
}

/// The whole build as a function of the input sequence.
pub open spec fn voronoi_spec(sites: Seq<Point>) -> Result<Seq<SNode>, BuildError> {
    run_spec(init_state(sites))
}

/// Executable circle-event detection for a consecutive triple.
fn detect(l: Arc, m: Arc, r: Arc, cur: Event) -> (res: Result<Option<CircleEvent>, BuildError>)
    ensures
        res == detect_spec(l, m, r, cur),
{
    proof {
        reveal(detect_spec);
    }
    match circum(l.site, m.site, r.site) {
        Err(e) => Err(e),
        Ok(c) => {
            let ev = CircleEvent { circ: c, arc_id: m.id };
            match cmp_keys(&Event::Circle(ev), &cur) {
                None => Err(BuildError::ArithmeticOverflow),
                Some(Rel::Lt) => Ok(Some(ev)),
                Some(_) => Ok(None),
            }
        },
    }
}

/// Runs detection on a triple and queues the event it may yield.
fn detect_insert(q: &mut Vec<Event>, l: Arc, m: Arc, r: Arc, cur: Event) -> (res: Result<
    (),
    BuildError,
>)
    ensures
        (match res {
            Ok(_) => queue_after_detect(old(q)@, detect_spec(l, m, r, cur)) == Ok::<
                Seq<Event>,
                BuildError,
            >(final(q)@),
            Err(e) => queue_after_detect(old(q)@, detect_spec(l, m, r, cur)) == Err::<
                Seq<Event>,
                BuildError,
            >(e),
        }),
{
    match detect(l, m, r, cur) {
        Err(e) => Err(e),
        Ok(None) => Ok(()),
        Ok(Some(ev)) => insert_event(q, Event::Circle(ev)),
    }
}

/// Processes one popped site event against the live state.
#[verifier::rlimit(100)]
fn process_site(
    queue: &mut Vec<Event>,
    beach: &mut Vec<Arc>,
    next_id: &mut u64,
    p: Point,
    Ghost(nodes): Ghost<Seq<SNode>>,
) -> (r: Result<(), BuildError>)
    ensures
        (match r {
            Ok(_) => site_step_spec(mk_state(old(queue)@, old(beach)@, nodes, *old(next_id)), p)
                == Ok::<SState, BuildError>(
                mk_state(final(queue)@, final(beach)@, nodes, *final(next_id)),
            ),
            Err(e) => site_step_spec(mk_state(old(queue)@, old(beach)@, nodes, *old(next_id)), p)
                == Err::<SState, BuildError>(e),
        }),
        r is Ok ==> final(beach)@.len() as int == (if old(beach)@.len() == 0 {
            1int
        } else {
            old(beach)@.len() as int + 2
        }),
{
    let ghost b0 = beach@;
    if beach.len() == 0 {
        if *next_id == u64::MAX {
            return Err(BuildError::ArithmeticOverflow);
        }
        let id = *next_id;
        beach.push(Arc { id: id, site: p, l_vert: None, r_vert: None });
        *next_id = id + 1;
        proof {
            assert(beach@ =~= seq![Arc { id: id, site: p, l_vert: None, r_vert: None }]);
        }
        return Ok(());
    }
    let i = match find_arc_below(beach, p) {
        Err(e) => {
            return Err(e);
        },
        Ok(i) => i,
    };
    proof {
        lemma_find_arc_below_bounds(b0, p);
    }
    if *next_id > u64::MAX - 3 {
        return Err(BuildError::ArithmeticOverflow);
    }
    let id = *next_id;
    let a = beach[i];
    let left = Arc { id: id, site: a.site, l_vert: a.l_vert, r_vert: None };
    let mid = Arc { id: id + 1, site: p, l_vert: None, r_vert: None };
    let right = Arc { id: id + 2, site: a.site, l_vert: None, r_vert: a.r_vert };
    *next_id = id + 3;
    let n0 = beach.len();
    beach[i] = left;
    beach.insert(i + 1, mid);
    let n1 = beach.len();
    proof {
        assert(i + 2 <= n1);
    }
    beach.insert(i + 2, right);
    proof {
        assert(beach@ =~= b0.subrange(0, i as int) + seq![left, mid, right] + b0.subrange(
            i as int + 1,
            b0.len() as int,
        ));
    }
    let cur = Event::Site(p);
    if i >= 1 {
        let ln = beach[i - 1];
        proof {
            assert(ln == b0[i as int - 1]);
        }
        match detect_insert(queue, ln, left, mid, cur) {
            Err(e) => {
                return Err(e);
            },
            Ok(_) => {},
        }
    }
    if i + 1 < n0 {
        let n2 = beach.len();
        proof {
            assert(i + 3 < n2);
        }
        let rn = beach[i + 3];
        proof {
            assert(rn == b0[i as int + 1]);
        }
        match detect_insert(queue, mid, right, rn, cur) {
            Err(e) => {
                return Err(e);
            },
            Ok(_) => {},
        }
    }
    Ok(())
}

/// Processes one popped circle event against the live state.
#[verifier::rlimit(100)]
fn process_circle(
    queue: &mut Vec<Event>,
    beach: &mut Vec<Arc>,
    nodes: &mut Vec<Node>,
    ce: CircleEvent,
    Ghost(id0): Ghost<u64>,
) -> (r: Result<(), BuildError>)
    ensures
        (match r {
            Ok(_) => circle_step_spec(
                mk_state(old(queue)@, old(beach)@, nodes_view(old(nodes)@), id0),
                ce,
                Event::Circle(ce),
            ) == Ok::<SState, BuildError>(
                mk_state(final(queue)@, final(beach)@, nodes_view(final(nodes)@), id0),
            ),
            Err(e) => circle_step_spec(
                mk_state(old(queue)@, old(beach)@, nodes_view(old(nodes)@), id0),
                ce,
                Event::Circle(ce),
            ) == Err::<SState, BuildError>(e),
        }),
        r is Ok && find_id_spec(old(beach)@, ce.arc_id) is Some ==> final(beach)@.len() == old(
            beach,
        )@.len() - 1,
        r is Ok && find_id_spec(old(beach)@, ce.arc_id) is None ==> final(beach)@ == old(beach)@,
{
    let ghost b0 = beach@;
    let ghost ns0 = nodes_view(nodes@);
    let i = match find_arc(beach, ce.arc_id) {
        None => {
            return Ok(());
        },
        Some(i) => i,
    };
    proof {
        lemma_find_id_bounds(b0, ce.arc_id);
    }
    proof {
        assert(i < beach@.len());
    }
    let arc = beach[i];
    let new_ix = nodes.len();
    let ghost caps = captured_neighbours(arc.l_vert, arc.r_vert);
    let mut nbrs0: Vec<usize> = Vec::new();
    match (arc.l_vert, arc.r_vert) {
        (None, None) => {},
        (Some(v), None) => {
            if v < nodes.len() {
                nodes[v].neighbours.push(new_ix);
            }
            nbrs0.push(v);
        },
        (None, Some(w)) => {
            if w < nodes.len() {
                nodes[w].neighbours.push(new_ix);
            }
            nbrs0.push(w);
        },
        (Some(v), Some(w)) => {
            if v < nodes.len() {
                nodes[v].neighbours.push(new_ix);
            }
            nbrs0.push(v);
            if w != v {
                if w < nodes.len() {
                    nodes[w].neighbours.push(new_ix);
                }
                nbrs0.push(w);
            }
        },
    }
    proof {
        reveal_with_fuel(linked_nodes, 3);
        assert(nbrs0@ =~= caps);
        assert(nodes_view(nodes@) =~~= linked_nodes(ns0, caps, new_ix));
    }
    let node_new = Node {
        x: Frac { num: ce.circ.ux, den: ce.circ.d },
        y: Frac { num: ce.circ.uy, den: ce.circ.d },
        neighbours: nbrs0,
    };
    nodes.push(node_new);
    proof {
        assert(nodes_view(nodes@) =~~= linked_nodes(ns0, caps, new_ix).push(
            SNode {
                x: Frac { num: ce.circ.ux, den: ce.circ.d },
                y: Frac { num: ce.circ.uy, den: ce.circ.d },
                nbrs: caps,
            },
        ));
    }
    if i >= 1 {
        let mut a2 = beach[i - 1];
        a2.r_vert = Some(new_ix);
        beach[i - 1] = a2;
    }
    let m1 = beach.len();
    proof {
        assert(i < m1);
    }
    if i + 1 < m1 {
        let mut a3 = beach[i + 1];
        a3.l_vert = Some(new_ix);
        beach[i + 1] = a3;
    }
    beach.remove(i);
    proof {
        let b1 = if i as int >= 1 {
            b0.update(i as int - 1, with_r_vert(b0[i as int - 1], new_ix))
        } else {
            b0
        };
        let b2 = if i as int + 1 < b0.len() {
            b1.update(i as int + 1, with_l_vert(b1[i as int + 1], new_ix))
        } else {
            b1
        };
        assert(beach@ =~= b2.remove(i as int));
    }
    let n2 = beach.len();
    let cur = Event::Circle(ce);
    if i >= 2 && i < n2 {
        match detect_insert(queue, beach[i - 2], beach[i - 1], beach[i], cur) {
            Err(e) => {
                return Err(e);
            },
            Ok(_) => {},
        }
    }
    if i >= 1 && i + 1 < n2 {
        match detect_insert(queue, beach[i - 1], beach[i], beach[i + 1], cur) {
            Err(e) => {
                return Err(e);
            },
            Ok(_) => {},
        }
    }
    Ok(())
}

/// Builds the Voronoi vertex graph of the given sites.
///
/// The result is exactly `voronoi_spec` of the input sequence: the graph of
/// all circle events the sweep produces, or the error that aborted the
/// build.  Two runs on equal inputs therefore return equal results.
pub fn voronoi(sites: &Vec<Point>) -> (r: Result<Graph, BuildError>)
    ensures
        (match r {
            Ok(g) => voronoi_spec(sites@) == Ok::<Seq<SNode>, BuildError>(g@),
            Err(e) => voronoi_spec(sites@) == Err::<Seq<SNode>, BuildError>(e),
        }),
        r matches Ok(g) ==> adj_symmetric(g@) && nodes_dens_ok(g@) && g@.len() <= usize::MAX,
        sites@.len() <= 1 ==> (r matches Ok(g) && g@ == Seq::<SNode>::empty()),
{
    let mut queue = initial_queue(sites);
    let mut beach: Vec<Arc> = Vec::new();
    let mut nodes: Vec<Node> = Vec::new();
    let mut next_id: u64 = 0;
    proof {
        assert(nodes_view(nodes@) =~= Seq::<SNode>::empty());
        assert(beach@ =~= Seq::<Arc>::empty());
        assert(mk_state(queue@, beach@, nodes_view(nodes@), next_id) == init_state(sites@));
    }
    while queue.len() != 0
        invariant
            run_spec(mk_state(queue@, beach@, nodes_view(nodes@), next_id)) == voronoi_spec(
                sites@,
            ),
            adj_symmetric(nodes_view(nodes@)),
            beach_refs_ok(beach@, nodes_view(nodes@).len() as int),
            queue_circles_ok(queue@),
            nodes_dens_ok(nodes_view(nodes@)),
        decreases measure(mk_state(queue@, beach@, nodes_view(nodes@), next_id)),
    {
        let ghost st_pre = mk_state(queue@, beach@, nodes_view(nodes@), next_id);
        let ghost nodes_len = nodes.len();
        let ev = queue.remove(0);
        proof {
            assert(queue@ =~= st_pre.queue.drop_first());
            assert(ev == st_pre.queue[0]);
            assert(st_pre.nodes.len() == nodes_len);
            lemma_step_measure(st_pre);
            lemma_step_wf(st_pre);
            lemma_step_nums(st_pre);
        }
        match ev {
            Event::Site(p) => {
                match process_site(
                    &mut queue,
                    &mut beach,
                    &mut next_id,
                    p,
                    Ghost(nodes_view(nodes@)),
                ) {
                    Err(e) => {
                        proof {
                            assert(step_spec(st_pre) == Err::<SState, BuildError>(e));
                            if sites@.len() <= 1 {
                                lemma_small_input_empty(sites@);
                            }
                        }
                        return Err(e);
                    },
                    Ok(_) => {
                        proof {
                            let st2 = mk_state(queue@, beach@, nodes_view(nodes@), next_id);
                            assert(step_spec(st_pre) == Ok::<SState, BuildError>(st2));
                        }
                    },
                }
            },
            Event::Circle(ce) => {
                match process_circle(&mut queue, &mut beach, &mut nodes, ce, Ghost(next_id)) {
                    Err(e) => {
                        proof {
                            assert(step_spec(st_pre) == Err::<SState, BuildError>(e));
                            if sites@.len() <= 1 {
                                lemma_small_input_empty(sites@);
                            }
                        }
                        return Err(e);
                    },
                    Ok(_) => {
                        proof {
                            let st2 = mk_state(queue@, beach@, nodes_view(nodes@), next_id);
                            assert(step_spec(st_pre) == Ok::<SState, BuildError>(st2));
                        }
                    },
                }
            },
        }
    }
    let n_final = nodes.len();
    proof {
        assert(nodes_view(nodes@).len() == n_final);
        if sites@.len() <= 1 {
            lemma_small_input_empty(sites@);
        }
    }
    Ok(Graph { nodes })
}

/// A vertex reference is in range for a vertex arena of size `n`.
pub open spec fn ref_ok(o: Option<usize>, n: int) -> bool {
    match o {
        Some(v) => (v as int) < n,
        None => true,
    }
}

/// Both vertex references of an arc are in range.
pub open spec fn arc_refs_ok(a: Arc, n: int) -> bool {
    ref_ok(a.l_vert, n) && ref_ok(a.r_vert, n)
}

/// Every arc on the beachline references only existing vertices.
pub open spec fn beach_refs_ok(beach: Seq<Arc>, n: int) -> bool {
    forall|k: int| 0 <= k < beach.len() ==> arc_refs_ok(#[trigger] beach[k], n)
}

/// Membership in a non-empty sequence splits into its head and tail.
proof fn lemma_contains_head(s: Seq<usize>, x: usize)
    requires
        s.len() > 0,
    ensures
        s.contains(x) <==> (s[0] == x || s.drop_first().contains(x)),
{
    if s.contains(x) {
        let i = choose|i: int| 0 <= i < s.len() && s[i] == x;
        if i > 0 {
            assert(s.drop_first()[i - 1] == x);
        }
    }
    if s.drop_first().contains(x) {
        let i = choose|i: int| 0 <= i < s.drop_first().len() && s.drop_first()[i] == x;
        assert(s[i + 1] == x);
    }
    if s[0] == x {
        assert(s.contains(x));
    }
}

/// What the captured neighbour list holds: exactly the arc's references.
proof fn lemma_caps_contains(lv: Option<usize>, rv: Option<usize>, x: usize)
    ensures
        captured_neighbours(lv, rv).contains(x) <==> (lv == Some(x) || rv == Some(x)),
{
    let caps = captured_neighbours(lv, rv);
    match (lv, rv) {
        (None, None) => {
            assert(!caps.contains(x));
        },
        (Some(v), None) => {
            assert(caps =~= seq![v]);
            if x == v {
                assert(caps[0] == x);
            }
            if caps.contains(x) {
                let i = choose|i: int| 0 <= i < caps.len() && caps[i] == x;
                assert(i == 0);
            }
        },
        (None, Some(w)) => {
            assert(caps =~= seq![w]);
            if x == w {
                assert(caps[0] == x);
            }
            if caps.contains(x) {
                let i = choose|i: int| 0 <= i < caps.len() && caps[i] == x;
                assert(i == 0);
            }
        },
        (Some(v), Some(w)) => {
            if v == w {
                assert(caps =~= seq![v]);
                if x == v {
                    assert(caps[0] == x);
                }
                if caps.contains(x) {
                    let i = choose|i: int| 0 <= i < caps.len() && caps[i] == x;
                    assert(i == 0);
                }
            } else {
                assert(caps =~= seq![v, w]);
                if x == v {
                    assert(caps[0] == x);
                }
                if x == w {
                    assert(caps[1] == x);
                }
                if caps.contains(x) {
                    let i = choose|i: int| 0 <= i < caps.len() && caps[i] == x;
                    assert(i == 0 || i == 1);
                }
            }
        },
    }
}

/// Linking the new vertex into the captured vertices' lists changes exactly
/// those lists, by appending the new index; positions are untouched.
proof fn lemma_linked_nodes(ns: Seq<SNode>, caps: Seq<usize>, ix: usize)
    requires
        ns.len() <= usize::MAX,
        forall|t: int| 0 <= t < caps.len() ==> ((#[trigger] caps[t]) as int) < ns.len(),
    ensures
        linked_nodes(ns, caps, ix).len() == ns.len(),
        forall|k: int| #![trigger linked_nodes(ns, caps, ix)[k]]
            0 <= k < ns.len() ==> linked_nodes(ns, caps, ix)[k].x == ns[k].x && linked_nodes(
                ns,
                caps,
                ix,
            )[k].y == ns[k].y,
        forall|k: int, w: usize| #![trigger linked_nodes(ns, caps, ix)[k].nbrs.contains(w)]
            0 <= k < ns.len() ==> (linked_nodes(ns, caps, ix)[k].nbrs.contains(w) <==> (
            ns[k].nbrs.contains(w) || (w == ix && caps.contains(k as usize)))),
    decreases caps.len(),
{
    if caps.len() == 0 {
        assert(forall|k: int|
            0 <= k < ns.len() ==> !caps.contains(#[trigger] (k as usize)));
    } else {
        let v = caps[0];
        let ns1 = ns.update(v as int, add_neighbour(ns[v as int], ix));
        assert(linked_nodes(ns, caps, ix) == linked_nodes(ns1, caps.drop_first(), ix));
        lemma_linked_nodes(ns1, caps.drop_first(), ix);
        assert forall|k: int, w: usize|
            0 <= k < ns.len() implies (#[trigger] linked_nodes(ns, caps, ix)[k].nbrs.contains(w)
            <==> (ns[k].nbrs.contains(w) || (w == ix && caps.contains(k as usize)))) by {
            lemma_contains_head(caps, k as usize);
            assert(linked_nodes(ns1, caps.drop_first(), ix)[k].nbrs.contains(w) <==> (
            ns1[k].nbrs.contains(w) || (w == ix && caps.drop_first().contains(k as usize))));
            if k == v as int {
                assert(ns1[k].nbrs == ns[k].nbrs.push(ix));
                if ns1[k].nbrs.contains(w) {
                    let t = choose|t: int| 0 <= t < ns1[k].nbrs.len() && ns1[k].nbrs[t] == w;
                    if t < ns[k].nbrs.len() {
                        assert(ns[k].nbrs[t] == w);
                    }
                }
                if ns[k].nbrs.contains(w) {
                    let t = choose|t: int| 0 <= t < ns[k].nbrs.len() && ns[k].nbrs[t] == w;
                    assert(ns1[k].nbrs[t] == w);
                }
                if w == ix {
                    assert(ns1[k].nbrs[ns[k].nbrs.len() as int] == ix);
                }
                assert(caps.contains(k as usize)) by {
                    assert(caps[0] == k as usize);
                }
            } else {
                assert(ns1[k] == ns[k]);
            }
        }
    }
}

/// Creating a vertex and linking it to the vanishing arc's references keeps
/// the adjacency symmetric: every link is added in both directions at once.
proof fn lemma_circle_nodes_symmetric(
    ns: Seq<SNode>,
    lv: Option<usize>,
    rv: Option<usize>,
    ix: usize,
    node_new: SNode,
)
    requires
        adj_symmetric(ns),
        ix as int == ns.len(),
        ref_ok(lv, ns.len() as int),
        ref_ok(rv, ns.len() as int),
        node_new.nbrs == captured_neighbours(lv, rv),
    ensures
        adj_symmetric(linked_nodes(ns, captured_neighbours(lv, rv), ix).push(node_new)),
{
    let caps = captured_neighbours(lv, rv);
    assert forall|t: int| 0 <= t < caps.len() implies ((#[trigger] caps[t]) as int) < ns.len() by {
        assert(caps.contains(caps[t]));
        lemma_caps_contains(lv, rv, caps[t]);
    }
    lemma_linked_nodes(ns, caps, ix);
    let linked = linked_nodes(ns, caps, ix);
    let ns2 = linked.push(node_new);
    assert forall|i: int, v: usize|
        0 <= i < ns2.len() && #[trigger] ns2[i].nbrs.contains(v) implies (v as int) < ns2.len()
        && ns2[v as int].nbrs.contains(i as usize) by {
        if i < ns.len() {
            assert(ns2[i] == linked[i]);
            if ns[i].nbrs.contains(v) {
                assert((v as int) < ns.len() && ns[v as int].nbrs.contains(i as usize));
                assert(ns2[v as int] == linked[v as int]);
                assert(linked[v as int].nbrs.contains(i as usize));
            } else {
                assert(v == ix && caps.contains(i as usize));
                assert(ns2[v as int] == node_new);
                assert(node_new.nbrs.contains(i as usize));
            }
        } else {
            assert(i == ns.len());
            assert(ns2[i] == node_new);
            assert(caps.contains(v));
            lemma_caps_contains(lv, rv, v);
            assert((v as int) < ns.len());
            assert(ns2[v as int] == linked[v as int]);
            assert(linked[v as int].nbrs.contains(ix));
            assert(i as usize == ix);
        }
    }
}

/// One step preserves the graph's symmetric adjacency and the beachline's
/// reference validity.
#[verifier::rlimit(100)]
pub proof fn lemma_step_wf(st: SState)
    requires
        st.queue.len() > 0,
        st.nodes.len() <= usize::MAX,
        adj_symmetric(st.nodes),
        beach_refs_ok(st.beach, st.nodes.len() as int),
    ensures
        step_spec(st) matches Ok(st2) ==> adj_symmetric(st2.nodes) && beach_refs_ok(
            st2.beach,
            st2.nodes.len() as int,
        ),
{
    let ev = st.queue[0];
    let st1 = mk_state(st.queue.drop_first(), st.beach, st.nodes, st.next_id);
    let n = st.nodes.len() as int;
    match ev {
        Event::Site(p) => {
            match step_spec(st) {
                Err(_) => {},
                Ok(st2) => {
                    assert(st2.nodes == st.nodes);
                    if st.beach.len() == 0 {
                        assert(beach_refs_ok(st2.beach, n));
                    } else {
                        let i = find_arc_below_spec(st.beach, p)->Ok_0;
                        lemma_find_arc_below_bounds(st.beach, p);
                        assert(arc_refs_ok(st.beach[i], n));
                        assert forall|k: int| 0 <= k < st2.beach.len() implies arc_refs_ok(
                            #[trigger] st2.beach[k],
                            n,
                        ) by {
                            if k < i {
                                assert(st2.beach[k] == st.beach[k]);
                            } else if k > i + 2 {
                                assert(st2.beach[k] == st.beach[k - 2]);
                            }
                        }
                    }
                },
            }
        },
        Event::Circle(ce) => {
            match find_id_spec(st1.beach, ce.arc_id) {
                None => {},
                Some(i) => {
                    lemma_find_id_bounds(st1.beach, ce.arc_id);
                    match step_spec(st) {
                        Err(_) => {},
                        Ok(st2) => {
                            let arc = st.beach[i];
                            let new_ix = st.nodes.len() as usize;
                            let caps = captured_neighbours(arc.l_vert, arc.r_vert);
                            let node_new = SNode {
                                x: Frac { num: ce.circ.ux, den: ce.circ.d },
                                y: Frac { num: ce.circ.uy, den: ce.circ.d },
                                nbrs: caps,
                            };
                            assert(arc_refs_ok(arc, n));
                            lemma_circle_nodes_symmetric(
                                st.nodes,
                                arc.l_vert,
                                arc.r_vert,
                                new_ix,
                                node_new,
                            );
                            assert(st2.nodes == linked_nodes(st.nodes, caps, new_ix).push(
                                node_new,
                            ));
                            assert(adj_symmetric(st2.nodes));
                            lemma_linked_nodes(st.nodes, caps, new_ix);
                            assert forall|t: int| 0 <= t < caps.len() implies ((
                            #[trigger] caps[t]) as int) < st.nodes.len() by {
                                assert(caps.contains(caps[t]));
                                lemma_caps_contains(arc.l_vert, arc.r_vert, caps[t]);
                            }
                            assert(st2.nodes.len() == n + 1);
                            let b1 = if i >= 1 {
                                st.beach.update(i - 1, with_r_vert(st.beach[i - 1], new_ix))
                            } else {
                                st.beach
                            };
                            let b2 = if i + 1 < st.beach.len() {
                                b1.update(i + 1, with_l_vert(b1[i + 1], new_ix))
                            } else {
                                b1
                            };
                            assert(st2.beach == b2.remove(i));
                            assert forall|k: int| 0 <= k < st2.beach.len() implies arc_refs_ok(
                                #[trigger] st2.beach[k],
                                n + 1,
                            ) by {
                                if k < i {
                                    assert(st2.beach[k] == b2[k]);
                                } else {
                                    assert(st2.beach[k] == b2[k + 1]);
                                }
                                assert(forall|t: int|
                                    0 <= t < st.beach.len() ==> arc_refs_ok(
                                        #[trigger] st.beach[t],
                                        n + 1,
                                    ));
                            }
                        },
                    }
                },
            }
        },
    }
}

/// Arc-count law for site events: the first site lays down one arc; every
/// later successful site event replaces one arc by three, growing the
/// beachline by exactly two.
pub proof fn lemma_site_step_arc_count(st: SState, p: Point)
    ensures
        site_step_spec(st, p) matches Ok(st2) ==> st2.beach.len() as int == (
        if st.beach.len() == 0 {
            1int
        } else {
            st.beach.len() as int + 2
        }),
{
    if st.beach.len() != 0 {
        lemma_find_arc_below_bounds(st.beach, p);
    }
}

/// Arc-count law for circle events: a live circle event removes exactly one
/// arc; a stale one (arc id no longer present) changes nothing at all.
pub proof fn lemma_circle_step_arc_count(st: SState, ce: CircleEvent, cur: Event)
    ensures
        (circle_step_spec(st, ce, cur) matches Ok(st2) && find_id_spec(st.beach, ce.arc_id)
            is Some) ==> circle_step_spec(st, ce, cur)->Ok_0.beach.len() as int == st.beach.len()
            - 1,
        find_id_spec(st.beach, ce.arc_id) is None ==> circle_step_spec(st, ce, cur) == Ok::<
            SState,
            BuildError,
        >(st),
{
    match find_id_spec(st.beach, ce.arc_id) {
        None => {},
        Some(i) => {
            lemma_find_id_bounds(st.beach, ce.arc_id);
        },
    }
}

/// Determinism law: the build is a function of the input sequence, so two
/// runs on equal inputs give equal graphs (or the same error).
pub proof fn lemma_deterministic(s1: Seq<Point>, s2: Seq<Point>)
    requires
        s1 == s2,
    ensures
        voronoi_spec(s1) == voronoi_spec(s2),
{
}

/// Empty-input law: zero or one site never produces a vertex, because no
/// circle event can ever be detected.
pub proof fn lemma_small_input_empty(sites: Seq<Point>)
    requires
        sites.len() <= 1,
    ensures
        voronoi_spec(sites) == Ok::<Seq<SNode>, BuildError>(Seq::<SNode>::empty()),
{
    if sites.len() == 0 {
        assert(sort_sites_spec(sites) =~= Seq::<Point>::empty());
        assert(initial_queue_spec(sites) =~= Seq::<Event>::empty());
        assert(init_state(sites).queue.len() == 0);
    } else {
        let p = sites[0];
        assert(sites.drop_last() =~= Seq::<Point>::empty());
        assert(sort_sites_spec(sites.drop_last()) =~= Seq::<Point>::empty());
        assert(sort_sites_spec(sites) =~= seq![p]);
        assert(initial_queue_spec(sites) =~= seq![Event::Site(p)]);
        let st0 = init_state(sites);
        assert(st0.queue[0] == Event::Site(p));
        let st1 = mk_state(st0.queue.drop_first(), st0.beach, st0.nodes, st0.next_id);
        assert(st1.beach.len() == 0);
        match step_spec(st0) {
            Err(_) => {
                assert(false);
            },
            Ok(st2) => {
                assert(st2.queue =~= Seq::<Event>::empty());
                assert(run_spec(st2) == Ok::<Seq<SNode>, BuildError>(st2.nodes));
                assert(st2.nodes =~= Seq::<SNode>::empty());
            },
        }
    }
}

/// Duplicate-site law: an input of two identical points is rejected as
/// degenerate.  When the second copy pops, the only arc on the beachline
/// sits at the sweep height itself, so the site has no arc strictly above
/// it to attach to.
pub proof fn lemma_duplicate_pair_rejected(p: Point)
    ensures
        voronoi_spec(seq![p, p]) == Err::<Seq<SNode>, BuildError>(BuildError::DegenerateInput),
{
    let sites = seq![p, p];
    assert(sites.drop_last() =~= seq![p]);
    assert(seq![p].drop_last() =~= Seq::<Point>::empty());
    assert(sort_sites_spec(seq![p].drop_last()) =~= Seq::<Point>::empty());
    assert(site_ins_pos_spec(Seq::<Point>::empty(), p) == 0);
    assert(sort_sites_spec(seq![p]) =~= seq![p]);
    assert(site_ins_pos_spec(seq![p], p) == 1) by {
        assert(!crate::geom::site_before(p, p));
        assert(seq![p].drop_first() =~= Seq::<Point>::empty());
        assert(site_ins_pos_spec(seq![p].drop_first(), p) == 0);
    }
    assert(sort_sites_spec(sites) =~= seq![p, p]);
    assert(initial_queue_spec(sites) =~= seq![Event::Site(p), Event::Site(p)]);
    let st0 = init_state(sites);
    assert(st0.queue[0] == Event::Site(p));
    match step_spec(st0) {
        Err(_) => {
            assert(false);
        },
        Ok(st1) => {
            assert(st1.queue =~= seq![Event::Site(p)]);
            assert(st1.beach =~= seq![Arc { id: 0, site: p, l_vert: None, r_vert: None }]);
            let st1p = mk_state(st1.queue.drop_first(), st1.beach, st1.nodes, st1.next_id);
            assert(first_candidate_spec(st1.beach, p) is None) by {
                assert(!crate::beach::is_candidate(st1.beach[0], p));
                assert(st1.beach.drop_first() =~= Seq::<Arc>::empty());
                assert(first_candidate_spec(st1.beach.drop_first(), p) is None);
            }
            assert(find_arc_below_spec(st1.beach, p) == Err::<int, BuildError>(
                BuildError::DegenerateInput,
            ));
            assert(site_step_spec(st1p, p) == Err::<SState, BuildError>(
                BuildError::DegenerateInput,
            ));
            assert(run_spec(st1) == Err::<Seq<SNode>, BuildError>(BuildError::DegenerateInput));
        },
    }
}

/// Ordering the sites keeps their number and, for an input whose sites all
/// share one sweep height, that height.
proof fn lemma_sort_sites_same_y(sites: Seq<Point>, y0: i64)
    requires
        forall|i: int| 0 <= i < sites.len() ==> (#[trigger] sites[i]).y == y0,
    ensures
        sort_sites_spec(sites).len() == sites.len(),
        forall|i: int|
            0 <= i < sites.len() ==> (#[trigger] sort_sites_spec(sites)[i]).y == y0,
    decreases sites.len(),
{
    if sites.len() > 0 {
        assert(forall|i: int|
            0 <= i < sites.drop_last().len() ==> (#[trigger] sites.drop_last()[i]).y == y0);
        lemma_sort_sites_same_y(sites.drop_last(), y0);
        let prev = sort_sites_spec(sites.drop_last());
        let pos = site_ins_pos_spec(prev, sites.last());
        lemma_site_ins_pos_bounds(prev, sites.last());
        assert(forall|i: int|
            0 <= i < prev.insert(pos, sites.last()).len() ==> (#[trigger] prev.insert(
                pos,
                sites.last(),
            )[i]).y == y0);
    }
}

/// Equal-height law: two or more sites that all lie at one sweep height
/// are rejected as degenerate.  Every arc the first site lays down sits at
/// the sweep height when the second site pops, so its parabola is
/// degenerate and the site has no arc strictly above it.  A collinear
/// horizontal triple is the simplest instance.
pub proof fn lemma_equal_height_rejected(sites: Seq<Point>)
    requires
        sites.len() >= 2,
        forall|i: int| 0 <= i < sites.len() ==> (#[trigger] sites[i]).y == sites[0].y,
    ensures
        voronoi_spec(sites) == Err::<Seq<SNode>, BuildError>(BuildError::DegenerateInput),
{
    let y0 = sites[0].y;
    lemma_sort_sites_same_y(sites, y0);
    let sorted = sort_sites_spec(sites);
    let st0 = init_state(sites);
    assert(st0.queue =~= to_site_events(sorted));
    assert(st0.queue[0] == Event::Site(sorted[0]));
    match step_spec(st0) {
        Err(_) => {
            assert(false);
        },
        Ok(st1) => {
            assert(st1.beach =~= seq![
                Arc { id: 0, site: sorted[0], l_vert: None, r_vert: None },
            ]);
            assert(st1.queue.len() >= 1);
            assert(st1.queue[0] == Event::Site(sorted[1]));
            let p1 = sorted[1];
            let st1p = mk_state(st1.queue.drop_first(), st1.beach, st1.nodes, st1.next_id);
            assert(first_candidate_spec(st1.beach, p1) is None) by {
                assert(!crate::beach::is_candidate(st1.beach[0], p1));
                assert(st1.beach.drop_first() =~= Seq::<Arc>::empty());
                assert(first_candidate_spec(st1.beach.drop_first(), p1) is None);
            }
            assert(find_arc_below_spec(st1.beach, p1) == Err::<int, BuildError>(
                BuildError::DegenerateInput,
            ));
            assert(site_step_spec(st1p, p1) == Err::<SState, BuildError>(
                BuildError::DegenerateInput,
            ));
            assert(run_spec(st1) == Err::<Seq<SNode>, BuildError>(BuildError::DegenerateInput));
        },
    }
}

/// A circle event is numerically well-formed: positive denominator,
/// non-negative radicand.
pub open spec fn circle_ok(ce: CircleEvent) -> bool {
    ce.circ.d > 0 && ce.circ.n >= 0
}

/// Every circle event waiting in the queue is numerically well-formed.
pub open spec fn queue_circles_ok(q: Seq<Event>) -> bool {
    forall|k: int|
        0 <= k < q.len() ==> (match #[trigger] q[k] {
            Event::Circle(ce) => circle_ok(ce),
            Event::Site(_) => true,
        })
}

/// Every vertex position has positive denominators, so no position is
/// undefined or non-finite.
pub open spec fn nodes_dens_ok(ns: Seq<SNode>) -> bool {
    forall|k: int|
        0 <= k < ns.len() ==> (#[trigger] ns[k]).x.den > 0 && ns[k].y.den > 0
}

/// A detected circle event is numerically well-formed.
proof fn lemma_detect_ok(l: Arc, m: Arc, r: Arc, cur: Event)
    ensures
        detect_spec(l, m, r, cur) matches Ok(Some(ev)) ==> circle_ok(ev),
{
    reveal(detect_spec);
    crate::geom::lemma_circum_wf(l.site, m.site, r.site);
}

/// Inserting a well-formed circle event keeps the queue well-formed.
proof fn lemma_queue_after_detect_ok(q: Seq<Event>, det: Result<Option<CircleEvent>, BuildError>)
    requires
        queue_circles_ok(q),
        det matches Ok(Some(ev)) ==> circle_ok(ev),
    ensures
        queue_after_detect(q, det) matches Ok(q2) ==> queue_circles_ok(q2),
{
    match det {
        Err(_) => {},
        Ok(None) => {},
        Ok(Some(ev)) => {
            lemma_ins_pos_bounds(q, Event::Circle(ev));
            match ins_pos_spec(q, Event::Circle(ev)) {
                Err(_) => {},
                Ok(p) => {
                    let q2 = q.insert(p, Event::Circle(ev));
                    assert forall|k: int| 0 <= k < q2.len() implies (match #[trigger] q2[k] {
                        Event::Circle(ce) => circle_ok(ce),
                        Event::Site(_) => true,
                    }) by {
                        if k < p {
                            assert(q2[k] == q[k]);
                        } else if k > p {
                            assert(q2[k] == q[k - 1]);
                        }
                    }
                },
            }
        },
    }
}

/// Linking a new vertex never touches any position.
proof fn lemma_linked_dens(ns: Seq<SNode>, caps: Seq<usize>, ix: usize)
    requires
        nodes_dens_ok(ns),
    ensures
        nodes_dens_ok(linked_nodes(ns, caps, ix)),
    decreases caps.len(),
{
    if caps.len() > 0 {
        let v = caps[0];
        let ns1 = if (v as int) < ns.len() {
            ns.update(v as int, add_neighbour(ns[v as int], ix))
        } else {
            ns
        };
        assert(nodes_dens_ok(ns1));
        lemma_linked_dens(ns1, caps.drop_first(), ix);
    }
}

/// One step keeps the queue's circle events and the vertex positions
/// numerically well-formed.
#[verifier::rlimit(100)]
pub proof fn lemma_step_nums(st: SState)
    requires
        st.queue.len() > 0,
        queue_circles_ok(st.queue),
        nodes_dens_ok(st.nodes),
    ensures
        step_spec(st) matches Ok(st2) ==> queue_circles_ok(st2.queue) && nodes_dens_ok(st2.nodes),
{
    let ev = st.queue[0];
    let st1 = mk_state(st.queue.drop_first(), st.beach, st.nodes, st.next_id);
    assert(queue_circles_ok(st1.queue)) by {
        assert forall|k: int| 0 <= k < st1.queue.len() implies (match #[trigger] st1.queue[k] {
            Event::Circle(ce) => circle_ok(ce),
            Event::Site(_) => true,
        }) by {
            assert(st1.queue[k] == st.queue[k + 1]);
        }
    }
    match ev {
        Event::Site(p) => {
            if st.beach.len() != 0 {
                match find_arc_below_spec(st.beach, p) {
                    Err(_) => {},
                    Ok(i) => {
                        lemma_find_arc_below_bounds(st.beach, p);
                        let a = st.beach[i];
                        let left = Arc {
                            id: st.next_id,
                            site: a.site,
                            l_vert: a.l_vert,
                            r_vert: None,
                        };
                        let mid = Arc {
                            id: (st.next_id + 1) as u64,
                            site: p,
                            l_vert: None,
                            r_vert: None,
                        };
                        let right = Arc {
                            id: (st.next_id + 2) as u64,
                            site: a.site,
                            l_vert: None,
                            r_vert: a.r_vert,
                        };
                        let det_l = if i >= 1 {
                            detect_spec(st.beach[i - 1], left, mid, Event::Site(p))
                        } else {
                            Ok(None)
                        };
                        if i >= 1 {
                            lemma_detect_ok(st.beach[i - 1], left, mid, Event::Site(p));
                        }
                        lemma_queue_after_detect_ok(st1.queue, det_l);
                        match queue_after_detect(st1.queue, det_l) {
                            Err(_) => {},
                            Ok(q1) => {
                                let det_r = if i + 1 < st.beach.len() {
                                    detect_spec(mid, right, st.beach[i + 1], Event::Site(p))
                                } else {
                                    Ok(None)
                                };
                                if i + 1 < st.beach.len() {
                                    lemma_detect_ok(mid, right, st.beach[i + 1], Event::Site(p));
                                }
                                lemma_queue_after_detect_ok(q1, det_r);
                            },
                        }
                    },
                }
            }
        },
        Event::Circle(ce) => {
            match find_id_spec(st1.beach, ce.arc_id) {
                None => {},
                Some(i) => {
                    lemma_find_id_bounds(st1.beach, ce.arc_id);
                    assert(circle_ok(ce));
                    let arc = st1.beach[i];
                    let new_ix = st1.nodes.len() as usize;
                    let caps = captured_neighbours(arc.l_vert, arc.r_vert);
                    lemma_linked_dens(st1.nodes, caps, new_ix);
                    let node_new = SNode {
                        x: Frac { num: ce.circ.ux, den: ce.circ.d },
                        y: Frac { num: ce.circ.uy, den: ce.circ.d },
                        nbrs: caps,
                    };
                    let nodes2 = linked_nodes(st1.nodes, caps, new_ix).push(node_new);
                    assert(nodes_dens_ok(nodes2)) by {
                        assert forall|k: int| 0 <= k < nodes2.len() implies (
                        #[trigger] nodes2[k]).x.den > 0 && nodes2[k].y.den > 0 by {
                            if k < nodes2.len() - 1 {
                                assert(nodes2[k] == linked_nodes(st1.nodes, caps, new_ix)[k]);
                            } else {
                                assert(nodes2[k] == node_new);
                            }
                        }
                    }
                    let b1 = if i >= 1 {
                        st1.beach.update(i - 1, with_r_vert(st1.beach[i - 1], new_ix))
                    } else {
                        st1.beach
                    };
                    let b2 = if i + 1 < st1.beach.len() {
                        b1.update(i + 1, with_l_vert(b1[i + 1], new_ix))
                    } else {
                        b1
                    };
                    let beach2 = b2.remove(i);
                    let det_a = if i >= 2 && i + 1 < st1.beach.len() {
                        detect_spec(beach2[i - 2], beach2[i - 1], beach2[i], ev)
                    } else {
                        Ok(None)
                    };
                    if i >= 2 && i + 1 < st1.beach.len() {
                        lemma_detect_ok(beach2[i - 2], beach2[i - 1], beach2[i], ev);
                    }
                    lemma_queue_after_detect_ok(st1.queue, det_a);
                    match queue_after_detect(st1.queue, det_a) {
                        Err(_) => {},
                        Ok(q1) => {
                            let det_b = if i >= 1 && i + 2 < st1.beach.len() {
                                detect_spec(beach2[i - 1], beach2[i], beach2[i + 1], ev)
                            } else {
                                Ok(None)
                            };
                            if i >= 1 && i + 2 < st1.beach.len() {
                                lemma_detect_ok(beach2[i - 1], beach2[i], beach2[i + 1], ev);
                            }
                            lemma_queue_after_detect_ok(q1, det_b);
                        },
                    }
                },
            }
        },
    }
}

} // verus!
