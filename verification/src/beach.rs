//! The beachline: an ordered sequence of parabolic arcs.
//!
//! Positions in the sequence shift on every split and removal, so circle
//! events refer to arcs by a stable id assigned at creation and never
//! reused; ids are resolved to positions by a front-to-back scan.
//!
//! A site event must find the arc governing the beachline directly above
//! the new site.  Candidates are the arcs whose site lies strictly above
//! the sweep line (`arc.site.y > s.y`; an arc at the sweep height has a
//! degenerate vertical parabola and is never chosen).  Among the
//! candidates, the arc with the lowest parabola height above the new
//! site's `x` wins, the earliest such arc onture ties.  A site event with
//! no candidate at all has nowhere to attach and makes the input
//! degenerate.

use vstd::prelude::*;

use crate::geom::{cmp_heights, cmp_heights_spec, BuildError, Point};
use crate::num::Rel;

verus! {

/// One parabolic arc of the beachline.
#[derive(Clone, Copy, PartialEq, Eq, Structural, Debug)]
pub struct Arc {
    /// Stable identity, unique for the whole run.
    pub id: u64,
    /// The site whose parabola this arc belongs to.
    pub site: Point,
    /// The graph vertex the left edge of this arc is drawing from, if any.
    pub l_vert: Option<usize>,
    /// The graph vertex the right edge of this arc is drawing from, if any.
    pub r_vert: Option<usize>,
}

/// Index of the first arc carrying `id`, if any.
pub open spec fn find_id_spec(beach: Seq<Arc>, id: u64) -> Option<int>
    decreases beach.len(),
{
    if beach.len() == 0 {
        None
    } else if beach[0].id == id {
        Some(0)
    } else {
        match find_id_spec(beach.drop_first(), id) {
            Some(i) => Some(i + 1),
            None => None,
        }
    }
}

/// A found index is in range and carries the id.
pub proof fn lemma_find_id_bounds(beach: Seq<Arc>, id: u64)
    ensures
        find_id_spec(beach, id) matches Some(i) ==> 0 <= i < beach.len() && beach[i].id == id,
    decreases beach.len(),
{
    if beach.len() > 0 {
        lemma_find_id_bounds(beach.drop_first(), id);
    }
}

/// Scanning past a prefix without the id shifts the found index.
proof fn lemma_find_id_skip(beach: Seq<Arc>, id: u64, i: int)
    requires
        0 <= i <= beach.len(),
        forall|j: int| 0 <= j < i ==> (#[trigger] beach[j].id) != id,
    ensures
        find_id_spec(beach, id) == (match find_id_spec(beach.skip(i), id) {
            Some(p) => Some(p + i),
            None => None,
        }),
    decreases i,
{
    if i == 0 {
        assert(beach.skip(0) =~= beach);
    } else {
        lemma_find_id_skip(beach.drop_first(), id, i - 1);
        assert(beach.drop_first().skip(i - 1) =~= beach.skip(i));
    }
}

/// Resolves an arc id to its current position.
pub fn find_arc(beach: &Vec<Arc>, id: u64) -> (r: Option<usize>)
    ensures
        (match r {
            Some(i) => find_id_spec(beach@, id) == Some(i as int),
            None => find_id_spec(beach@, id) is None,
        }),
{
    let mut i: usize = 0;
    while i < beach.len()
        invariant
            0 <= i <= beach@.len(),
            forall|j: int| 0 <= j < i ==> (#[trigger] beach@[j].id) != id,
        decreases beach@.len() - i,
    {
        proof {
            assert(beach@.skip(i as int)[0] == beach@[i as int]);
        }
        if beach[i].id == id {
            proof {
                lemma_find_id_skip(beach@, id, i as int);
            }
            return Some(i);
        }
        i = i + 1;
    }
    proof {
        lemma_find_id_skip(beach@, id, i as int);
        assert(beach@.skip(i as int).len() == 0);
    }
    None
}

/// Whether an arc can stand above site `s`: its parabola is non-degenerate
/// at sweep height `s.y` exactly when its site is strictly higher.
pub open spec fn is_candidate(a: Arc, s: Point) -> bool {
    a.site.y > s.y
}

/// Index of the first candidate arc, if any.
pub open spec fn first_candidate_spec(beach: Seq<Arc>, s: Point) -> Option<int>
    decreases beach.len(),
{
    if beach.len() == 0 {
        None
    } else if is_candidate(beach[0], s) {
        Some(0)
    } else {
        match first_candidate_spec(beach.drop_first(), s) {
            Some(i) => Some(i + 1),
            None => None,
        }
    }
}

/// A first candidate is in range and is a candidate.
pub proof fn lemma_first_candidate_bounds(beach: Seq<Arc>, s: Point)
    ensures
        first_candidate_spec(beach, s) matches Some(i) ==> 0 <= i < beach.len() && is_candidate(
            beach[i],
            s,
        ),
    decreases beach.len(),
{
    if beach.len() > 0 {
        lemma_first_candidate_bounds(beach.drop_first(), s);
    }
}

/// Scanning past non-candidates shifts the first-candidate index.
proof fn lemma_first_candidate_skip(beach: Seq<Arc>, s: Point, i: int)
    requires
        0 <= i <= beach.len(),
        forall|j: int| 0 <= j < i ==> !is_candidate(#[trigger] beach[j], s),
    ensures
        first_candidate_spec(beach, s) == (match first_candidate_spec(beach.skip(i), s) {
            Some(p) => Some(p + i),
            None => None,
        }),
    decreases i,
{
    if i == 0 {
        assert(beach.skip(0) =~= beach);
    } else {
        lemma_first_candidate_skip(beach.drop_first(), s, i - 1);
        assert(beach.drop_first().skip(i - 1) =~= beach.skip(i));
    }
}

/// Continues the search for the lowest candidate from position `i`, with
/// `best` the earliest lowest candidate seen so far.  Only a strictly lower
/// parabola replaces `best`, so the earliest arc wins ties.
pub open spec fn best_from_spec(beach: Seq<Arc>, s: Point, i: int, best: int) -> Result<
    int,
    BuildError,
>
    recommends
        0 <= best < i,
        i <= beach.len(),
    decreases beach.len() - i,
{
    if i < 0 || i >= beach.len() {
        Ok(best)
    } else if !is_candidate(beach[i], s) {
        best_from_spec(beach, s, i + 1, best)
    } else {
        match cmp_heights_spec(beach[i].site, beach[best].site, s) {
            None => Err(BuildError::ArithmeticOverflow),
            Some(Rel::Lt) => best_from_spec(beach, s, i + 1, i),
            Some(_) => best_from_spec(beach, s, i + 1, best),
        }
    }
}

/// The chosen index stays in range and is the index of a candidate.
pub proof fn lemma_best_from_bounds(beach: Seq<Arc>, s: Point, i: int, best: int)
    requires
        0 <= best < beach.len(),
        is_candidate(beach[best], s),
    ensures
        best_from_spec(beach, s, i, best) matches Ok(b) ==> 0 <= b < beach.len() && is_candidate(
            beach[b],
            s,
        ),
    decreases beach.len() - i,
{
    if 0 <= i < beach.len() {
        if !is_candidate(beach[i], s) {
            lemma_best_from_bounds(beach, s, i + 1, best);
        } else {
            match cmp_heights_spec(beach[i].site, beach[best].site, s) {
                None => {},
                Some(Rel::Lt) => {
                    lemma_best_from_bounds(beach, s, i + 1, i);
                },
                Some(_) => {
                    lemma_best_from_bounds(beach, s, i + 1, best);
                },
            }
        }
    }
}

/// The arc a new site splits: the candidate with the lowest parabola height
/// above the site, ties to the earliest.  `DegenerateInput` when no arc is
/// a candidate (so every arc's site is at the sweep height, as with a
/// duplicate of the site just popped); the degenerate parabolas leave the
/// site nowhere to attach.
pub open spec fn find_arc_below_spec(beach: Seq<Arc>, s: Point) -> Result<int, BuildError> {
    match first_candidate_spec(beach, s) {
        None => Err(BuildError::DegenerateInput),
        Some(j) => best_from_spec(beach, s, j + 1, j),
    }
}

/// The chosen arc is in range and is a candidate.
pub proof fn lemma_find_arc_below_bounds(beach: Seq<Arc>, s: Point)
    ensures
        find_arc_below_spec(beach, s) matches Ok(b) ==> 0 <= b < beach.len() && is_candidate(
            beach[b],
            s,
        ),
{
    lemma_first_candidate_bounds(beach, s);
    match first_candidate_spec(beach, s) {
        None => {},
        Some(j) => {
            lemma_best_from_bounds(beach, s, j + 1, j);
        },
    }
}

/// Executable search for the arc below a new site.
pub fn find_arc_below(beach: &Vec<Arc>, s: Point) -> (r: Result<usize, BuildError>)
    ensures
        (match r {
            Ok(i) => find_arc_below_spec(beach@, s) == Ok::<int, BuildError>(i as int),
            Err(e) => find_arc_below_spec(beach@, s) == Err::<int, BuildError>(e),
        }),
{
    // Find the first candidate.
    let mut j: usize = 0;
    let mut found = false;
    while j < beach.len() && !found
        invariant
            0 <= j <= beach@.len(),
            !found ==> forall|k: int| 0 <= k < j ==> !is_candidate(#[trigger] beach@[k], s),
            found ==> 0 < j <= beach@.len() && is_candidate(beach@[j - 1], s) && forall|k: int|
                0 <= k < j - 1 ==> !is_candidate(#[trigger] beach@[k], s),
        decreases beach@.len() - j + (if found { 0int } else { 1int }),
    {
        if beach[j].site.y > s.y {
            found = true;
        }
        j = j + 1;
    }
    if !found {
        proof {
            lemma_first_candidate_skip(beach@, s, j as int);
            assert(beach@.skip(j as int).len() == 0);
        }
        return Err(BuildError::DegenerateInput);
    }
    let best0: usize = j - 1;
    proof {
        lemma_first_candidate_skip(beach@, s, best0 as int);
        assert(beach@.skip(best0 as int)[0] == beach@[best0 as int]);
        assert(first_candidate_spec(beach@, s) == Some(best0 as int));
    }
    // Scan the rest for a strictly lower candidate.
    let mut best: usize = best0;
    let mut i: usize = j;
    while i < beach.len()
        invariant
            0 <= best < i <= beach@.len(),
            is_candidate(beach@[best as int], s),
            find_arc_below_spec(beach@, s) == best_from_spec(beach@, s, i as int, best as int),
        decreases beach@.len() - i,
    {
        if beach[i].site.y > s.y {
            match cmp_heights(beach[i].site, beach[best].site, s) {
                None => {
                    return Err(BuildError::ArithmeticOverflow);
                },
                Some(Rel::Lt) => {
                    best = i;
                },
                Some(_) => {},
            }
        }
        i = i + 1;
    }
    Ok(best)
}

} // verus!
