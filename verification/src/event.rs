//! The event queue: pending site and circle events ordered by sweep key.
//!
//! The sweep runs from the highest `y` downward, so events leave the queue
//! in non-increasing key order.  A site event's key is the site's `y`; a
//! circle event's key is the lowest point of its circumcircle,
//! `(uy - sqrt(n))/d`.  The queue is a plain ordered sequence: sites are
//! placed by repeated ordered insertion before the run starts, and each
//! circle event is inserted before the first queued event whose key is
//! strictly smaller, so events with equal keys keep their insertion order.

use vstd::prelude::*;

use crate::geom::{
    cmp_circle_circle, cmp_circle_circle_spec, cmp_site_circle, cmp_site_circle_spec, site_before,
    site_precedes, BuildError, Circum, Point,
};
use crate::num::{rel_flip, Rel};

verus! {

/// A pending circle event: the circumcircle that triggered it and the id of
/// the beachline arc that will vanish when it is processed.
#[derive(Clone, Copy, PartialEq, Eq, Structural, Debug)]
pub struct CircleEvent {
    pub circ: Circum,
    pub arc_id: u64,
}

/// An event of the sweep, owned by the queue until popped.
#[derive(Clone, Copy, PartialEq, Eq, Structural, Debug)]
pub enum Event {
    Site(Point),
    Circle(CircleEvent),
}

/// Compares the sweep keys of two events; `None` when the exact comparison
/// overflows 128-bit arithmetic.
pub open spec fn cmp_keys_spec(e1: Event, e2: Event) -> Option<Rel> {
    match (e1, e2) {
        (Event::Site(p), Event::Site(q)) => Some(
            if p.y < q.y {
                Rel::Lt
            } else if p.y == q.y {
                Rel::Eq
            } else {
                Rel::Gt
            },
        ),
        (Event::Site(p), Event::Circle(c)) => cmp_site_circle_spec(p.y, c.circ),
        (Event::Circle(c), Event::Site(q)) => match cmp_site_circle_spec(q.y, c.circ) {
            Some(r) => Some(rel_flip(r)),
            None => None,
        },
        (Event::Circle(c1), Event::Circle(c2)) => cmp_circle_circle_spec(c1.circ, c2.circ),
    }
}

/// Executable form of `cmp_keys_spec`.
pub fn cmp_keys(e1: &Event, e2: &Event) -> (r: Option<Rel>)
    ensures
        r == cmp_keys_spec(*e1, *e2),
{
    match (e1, e2) {
        (Event::Site(p), Event::Site(q)) => Some(
            if p.y < q.y {
                Rel::Lt
            } else if p.y == q.y {
                Rel::Eq
            } else {
                Rel::Gt
            },
        ),
        (Event::Site(p), Event::Circle(c)) => cmp_site_circle(p.y, &c.circ),
        (Event::Circle(c), Event::Site(q)) => match cmp_site_circle(q.y, &c.circ) {
            Some(r) => Some(rel_flip(r)),
            None => None,
        },
        (Event::Circle(c1), Event::Circle(c2)) => cmp_circle_circle(&c1.circ, &c2.circ),
    }
}

/// Where a new event lands in the queue: the index of the first queued event
/// whose key is strictly smaller, or the back of the queue if there is none.
/// The scan runs from the front, and the first comparison that overflows
/// stops the build.
pub open spec fn ins_pos_spec(q: Seq<Event>, ev: Event) -> Result<int, BuildError>
    decreases q.len(),
{
    if q.len() == 0 {
        Ok(0)
    } else {
        match cmp_keys_spec(q[0], ev) {
            None => Err(BuildError::ArithmeticOverflow),
            Some(Rel::Lt) => Ok(0),
            Some(_) => match ins_pos_spec(q.drop_first(), ev) {
                Ok(i) => Ok(i + 1),
                Err(e) => Err(e),
            },
        }
    }
}

/// The queue after inserting `ev` at its position.
pub open spec fn insert_event_spec(q: Seq<Event>, ev: Event) -> Result<Seq<Event>, BuildError> {
    match ins_pos_spec(q, ev) {
        Ok(i) => Ok(q.insert(i, ev)),
        Err(e) => Err(e),
    }
}

/// An insertion position is always within the queue.
pub proof fn lemma_ins_pos_bounds(q: Seq<Event>, ev: Event)
    ensures
        ins_pos_spec(q, ev) matches Ok(i) ==> 0 <= i <= q.len(),
    decreases q.len(),
{
    if q.len() > 0 {
        lemma_ins_pos_bounds(q.drop_first(), ev);
    }
}

/// Scanning past a prefix of events whose keys are not smaller than `ev`'s
/// leaves the insertion position of the remaining queue, shifted.
pub proof fn lemma_ins_pos_skip(q: Seq<Event>, ev: Event, i: int)
    requires
        0 <= i <= q.len(),
        forall|j: int|
            0 <= j < i ==> ((#[trigger] cmp_keys_spec(q[j], ev)) matches Some(r) && r != Rel::Lt),
    ensures
        ins_pos_spec(q, ev) == (match ins_pos_spec(q.skip(i), ev) {
            Ok(p) => Ok::<int, BuildError>(p + i),
            Err(e) => Err::<int, BuildError>(e),
        }),
    decreases i,
{
    if i == 0 {
        assert(q.skip(0) =~= q);
    } else {
        assert(cmp_keys_spec(q[0], ev) matches Some(r) && r != Rel::Lt);
        lemma_ins_pos_skip(q.drop_first(), ev, i - 1);
        assert(q.drop_first().skip(i - 1) =~= q.skip(i));
    }
}

/// Finds the insertion position of `ev` in `q`, scanning from the front.
fn find_ins_pos(q: &Vec<Event>, ev: &Event) -> (r: Result<usize, BuildError>)
    ensures
        (match r {
            Ok(p) => ins_pos_spec(q@, *ev) == Ok::<int, BuildError>(p as int),
            Err(e) => ins_pos_spec(q@, *ev) == Err::<int, BuildError>(e),
        }),
{
    let mut i: usize = 0;
    while i < q.len()
        invariant
            0 <= i <= q@.len(),
            forall|j: int|
                0 <= j < i ==> ((#[trigger] cmp_keys_spec(q@[j], *ev)) matches Some(r) && r
                    != Rel::Lt),
        decreases q@.len() - i,
    {
        proof {
            assert(q@.skip(i as int)[0] == q@[i as int]);
        }
        match cmp_keys(&q[i], ev) {
            None => {
                proof {
                    lemma_ins_pos_skip(q@, *ev, i as int);
                }
                return Err(BuildError::ArithmeticOverflow);
            },
            Some(Rel::Lt) => {
                proof {
                    lemma_ins_pos_skip(q@, *ev, i as int);
                }
                return Ok(i);
            },
            Some(_) => {
                i = i + 1;
            },
        }
    }
    proof {
        lemma_ins_pos_skip(q@, *ev, i as int);
        assert(q@.skip(i as int).len() == 0);
    }
    Ok(i)
}

/// Inserts a circle event into the queue, keeping the sort order: it lands
/// before the first queued event whose key is strictly smaller, or at the
/// back.  On an overflowing comparison the queue is left unchanged and the
/// error is returned.
pub fn insert_event(q: &mut Vec<Event>, ev: Event) -> (r: Result<(), BuildError>)
    ensures
        (match r {
            Ok(_) => insert_event_spec(old(q)@, ev) == Ok::<Seq<Event>, BuildError>(final(q)@),
            Err(e) => insert_event_spec(old(q)@, ev) == Err::<Seq<Event>, BuildError>(e)
                && final(q)@ == old(q)@,
        }),
{
    match find_ins_pos(q, &ev) {
        Ok(p) => {
            proof {
                lemma_ins_pos_bounds(q@, ev);
            }
            q.insert(p, ev);
            Ok(())
        },
        Err(e) => Err(e),
    }
}

/// The number of site events still queued; used by the termination measure.
pub open spec fn site_count(q: Seq<Event>) -> nat
    decreases q.len(),
{
    if q.len() == 0 {
        0
    } else {
        (match q[0] {
            Event::Site(_) => 1nat,
            Event::Circle(_) => 0nat,
        }) + site_count(q.drop_first())
    }
}

/// Inserting an event changes the site count by one site exactly when the
/// event is a site event.
pub proof fn lemma_site_count_insert(q: Seq<Event>, i: int, ev: Event)
    requires
        0 <= i <= q.len(),
    ensures
        site_count(q.insert(i, ev)) == site_count(q) + (match ev {
            Event::Site(_) => 1nat,
            Event::Circle(_) => 0nat,
        }),
    decreases q.len(),
{
    if i == 0 {
        assert(q.insert(0, ev)[0] == ev);
        assert(q.insert(0, ev).drop_first() =~= q);
    } else {
        assert(q.insert(i, ev)[0] == q[0]);
        assert(q.insert(i, ev).drop_first() =~= q.drop_first().insert(i - 1, ev));
        lemma_site_count_insert(q.drop_first(), i - 1, ev);
    }
}

/// Position of a new site among already ordered sites: before the first one
/// it strictly precedes, after all its ties.
pub open spec fn site_ins_pos_spec(q: Seq<Point>, p: Point) -> int
    decreases q.len(),
{
    if q.len() == 0 {
        0
    } else if site_before(p, q[0]) {
        0
    } else {
        1 + site_ins_pos_spec(q.drop_first(), p)
    }
}

/// The ordered sequence of sites, built by inserting each input site in
/// turn: strictly decreasing `y`, ties by strictly decreasing `x`, equal
/// points in input order.
pub open spec fn sort_sites_spec(sites: Seq<Point>) -> Seq<Point>
    decreases sites.len(),
{
    if sites.len() == 0 {
        Seq::empty()
    } else {
        let prev = sort_sites_spec(sites.drop_last());
        prev.insert(site_ins_pos_spec(prev, sites.last()), sites.last())
    }
}

/// A site insertion position is always within the sequence.
pub proof fn lemma_site_ins_pos_bounds(q: Seq<Point>, p: Point)
    ensures
        0 <= site_ins_pos_spec(q, p) <= q.len(),
    decreases q.len(),
{
    if q.len() > 0 {
        lemma_site_ins_pos_bounds(q.drop_first(), p);
    }
}

/// Scanning past sites that `p` does not strictly precede shifts the
/// insertion position.
proof fn lemma_site_ins_pos_skip(q: Seq<Point>, p: Point, i: int)
    requires
        0 <= i <= q.len(),
        forall|j: int| 0 <= j < i ==> !site_before(p, #[trigger] q[j]),
    ensures
        site_ins_pos_spec(q, p) == i + site_ins_pos_spec(q.skip(i), p),
    decreases i,
{
    if i == 0 {
        assert(q.skip(0) =~= q);
    } else {
        lemma_site_ins_pos_skip(q.drop_first(), p, i - 1);
        assert(q.drop_first().skip(i - 1) =~= q.skip(i));
    }
}

/// Finds the ordered insertion position of a site.
fn find_site_pos(q: &Vec<Point>, p: Point) -> (r: usize)
    ensures
        r as int == site_ins_pos_spec(q@, p),
{
    let mut i: usize = 0;
    while i < q.len()
        invariant
            0 <= i <= q@.len(),
            forall|j: int| 0 <= j < i ==> !site_before(p, #[trigger] q@[j]),
        decreases q@.len() - i,
    {
        proof {
            assert(q@.skip(i as int)[0] == q@[i as int]);
        }
        if site_precedes(p, q[i]) {
            proof {
                lemma_site_ins_pos_skip(q@, p, i as int);
            }
            return i;
        }
        i = i + 1;
    }
    proof {
        lemma_site_ins_pos_skip(q@, p, i as int);
        assert(q@.skip(i as int).len() == 0);
    }
    i
}

/// Orders the input sites for the initial queue population.
pub fn sorted_sites(sites: &Vec<Point>) -> (r: Vec<Point>)
    ensures
        r@ == sort_sites_spec(sites@),
{
    let mut out: Vec<Point> = Vec::new();
    let mut k: usize = 0;
    while k < sites.len()
        invariant
            0 <= k <= sites@.len(),
            out@ == sort_sites_spec(sites@.take(k as int)),
        decreases sites@.len() - k,
    {
        let p = sites[k];
        let pos = find_site_pos(&out, p);
        proof {
            lemma_site_ins_pos_bounds(out@, p);
        }
        out.insert(pos, p);
        proof {
            assert(sites@.take(k + 1).drop_last() =~= sites@.take(k as int));
            assert(sites@.take(k + 1).last() == sites@[k as int]);
        }
        k = k + 1;
    }
    proof {
        assert(sites@.take(sites@.len() as int) =~= sites@);
    }
    out
}

/// The ordered sites wrapped as queue events.
pub open spec fn to_site_events(ps: Seq<Point>) -> Seq<Event> {
    Seq::new(ps.len(), |i: int| Event::Site(ps[i]))
}

/// The fully populated initial queue for an input sequence.
pub open spec fn initial_queue_spec(sites: Seq<Point>) -> Seq<Event> {
    to_site_events(sort_sites_spec(sites))
}

/// Builds the initial queue: all input sites, ordered.
pub fn initial_queue(sites: &Vec<Point>) -> (q: Vec<Event>)
    ensures
        q@ == initial_queue_spec(sites@),
{
    let sorted = sorted_sites(sites);
    let mut q: Vec<Event> = Vec::new();
    let mut k: usize = 0;
    while k < sorted.len()
        invariant
            0 <= k <= sorted@.len(),
            sorted@ == sort_sites_spec(sites@),
            q@ =~= to_site_events(sorted@.take(k as int)),
        decreases sorted@.len() - k,
    {
        q.push(Event::Site(sorted[k]));
        proof {
            assert(q@ =~= to_site_events(sorted@.take(k + 1)));
        }
        k = k + 1;
    }
    proof {
        assert(sorted@.take(sorted@.len() as int) =~= sorted@);
        assert(q@ =~= to_site_events(sorted@));
    }
    q
}

/// A site sequence is ordered for the sweep: no later site strictly
/// precedes an earlier one, so `y` is non-increasing with ties ordered by
/// non-increasing `x`.
pub open spec fn sites_ordered(s: Seq<Point>) -> bool {
    forall|i: int, j: int| 0 <= i < j < s.len() ==> !site_before(#[trigger] s[j], #[trigger] s[i])
}

/// Everything before a site's insertion position is not strictly preceded
/// by it, and the element at the position (if any) is.
proof fn lemma_site_ins_pos_props(q: Seq<Point>, p: Point)
    ensures
        forall|k: int| 0 <= k < site_ins_pos_spec(q, p) ==> !site_before(p, #[trigger] q[k]),
        site_ins_pos_spec(q, p) < q.len() ==> site_before(p, q[site_ins_pos_spec(q, p)]),
    decreases q.len(),
{
    lemma_site_ins_pos_bounds(q, p);
    if q.len() > 0 && !site_before(p, q[0]) {
        lemma_site_ins_pos_props(q.drop_first(), p);
        lemma_site_ins_pos_bounds(q.drop_first(), p);
        assert forall|k: int| 0 <= k < site_ins_pos_spec(q, p) implies !site_before(
            p,
            #[trigger] q[k],
        ) by {
            if k > 0 {
                assert(q.drop_first()[k - 1] == q[k]);
            }
        }
    }
}

/// Ordering the sites really orders them: the built sequence satisfies
/// `sites_ordered`, so the initial queue hands sites out in non-increasing
/// `y`, ties in non-increasing `x`.
pub proof fn lemma_sort_sites_ordered(sites: Seq<Point>)
    ensures
        sites_ordered(sort_sites_spec(sites)),
    decreases sites.len(),
{
    if sites.len() > 0 {
        lemma_sort_sites_ordered(sites.drop_last());
        let prev = sort_sites_spec(sites.drop_last());
        let p = sites.last();
        let pos = site_ins_pos_spec(prev, p);
        lemma_site_ins_pos_bounds(prev, p);
        lemma_site_ins_pos_props(prev, p);
        let t = prev.insert(pos, p);
        assert forall|i: int, j: int| 0 <= i < j < t.len() implies !site_before(
            #[trigger] t[j],
            #[trigger] t[i],
        ) by {
            if i < pos {
                assert(t[i] == prev[i]);
            } else if i > pos {
                assert(t[i] == prev[i - 1]);
            }
            if j < pos {
                assert(t[j] == prev[j]);
            } else if j > pos {
                assert(t[j] == prev[j - 1]);
            }
            if j > pos && i == pos {
                // A site at or past the insertion position is preceded by
                // the new site, and order among the old sites carries over.
                assert(site_before(p, prev[pos]));
                assert(!site_before(prev[j - 1], prev[pos]) || j - 1 == pos);
            }
        }
    }
}

} // verus!
