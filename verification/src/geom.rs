//! Geometry kernel: sites, circumcircles, and exact key comparisons.
//!
//! A site is a point with 64-bit integer coordinates.  The circumcircle of
//! three sites is kept as integers `(ux, uy, d, n)` with `d > 0`: the center
//! is the rational point `(ux/d, uy/d)` and the circumradius is `sqrt(n)/d`
//! (`n` is a sum of two integer squares, so it is non-negative).  The sweep
//! proceeds from the highest `y` downward, so the sweep key of a circle
//! event is the lowest point of its circumcircle, `(uy - sqrt(n))/d`, and
//! the key of a site event is the site's own `y`.
//!
//! Comparing keys therefore means comparing expressions of the form
//! `s + sqrt(p)` against `sqrt(q)` for integers `s`, `p >= 0`, `q >= 0`.
//! Both sides are squared twice, tracking signs so that each squaring step
//! preserves the order; every product is checked, and an overflowing
//! comparison reports `None` rather than an inexact answer.

use vstd::prelude::*;

use crate::num::{cadd, cmp_i128, cmp_opt, cmul, cneg, csub, wide, Rel};

verus! {

/// An input site: an immutable 2D point with integer coordinates.
#[derive(Clone, Copy, PartialEq, Eq, Structural, Debug)]
pub struct Point {
    pub x: i64,
    pub y: i64,
}

/// Why a build gave no graph.
#[derive(Clone, Copy, PartialEq, Eq, Structural, Debug)]
pub enum BuildError {
    /// Coincident or collinear sites reached the circumcircle solve, or a
    /// site event found no arc strictly above its sweep position.
    DegenerateInput,
    /// An exact intermediate value left the `i128` range.
    ArithmeticOverflow,
}

/// A circumcircle in exact rational form: center `(ux/d, uy/d)` with
/// `d > 0`, squared radius `n/d^2` with `n >= 0`.
#[derive(Clone, Copy, PartialEq, Eq, Structural, Debug)]
pub struct Circum {
    pub ux: i128,
    pub uy: i128,
    pub d: i128,
    pub n: i128,
}

/// The circumcircle of sites `a`, `b`, `c`, by perpendicular-bisector
/// intersection in homogeneous integer form.  `DegenerateInput` exactly when
/// the doubled signed area `d` is zero, which covers both collinear and
/// coincident sites; this is decided before any further arithmetic, so a
/// degenerate triple is never reported as an overflow of the later products.
#[verifier::opaque]
pub open spec fn circum_spec(a: Point, b: Point, c: Point) -> Result<Circum, BuildError> {
    let qa = cadd(cmul(wide(a.x), wide(a.x)), cmul(wide(a.y), wide(a.y)));
    let qb = cadd(cmul(wide(b.x), wide(b.x)), cmul(wide(b.y), wide(b.y)));
    let qc = cadd(cmul(wide(c.x), wide(c.x)), cmul(wide(c.y), wide(c.y)));
    let bc_y = csub(wide(b.y), wide(c.y));
    let ca_y = csub(wide(c.y), wide(a.y));
    let ab_y = csub(wide(a.y), wide(b.y));
    let cb_x = csub(wide(c.x), wide(b.x));
    let ac_x = csub(wide(a.x), wide(c.x));
    let ba_x = csub(wide(b.x), wide(a.x));
    let d = cmul(
        Some(2),
        cadd(cadd(cmul(wide(a.x), bc_y), cmul(wide(b.x), ca_y)), cmul(wide(c.x), ab_y)),
    );
    match d {
        None => Err(BuildError::ArithmeticOverflow),
        Some(dv) => if dv == 0 {
            Err(BuildError::DegenerateInput)
        } else {
            let ux = cadd(cadd(cmul(qa, bc_y), cmul(qb, ca_y)), cmul(qc, ab_y));
            let uy = cadd(cadd(cmul(qa, cb_x), cmul(qb, ac_x)), cmul(qc, ba_x));
            let d1 = if dv < 0 {
                cneg(Some(dv))
            } else {
                Some(dv)
            };
            let ux1 = if dv < 0 {
                cneg(ux)
            } else {
                ux
            };
            let uy1 = if dv < 0 {
                cneg(uy)
            } else {
                uy
            };
            let ex = csub(ux1, cmul(wide(a.x), d1));
            let ey = csub(uy1, cmul(wide(a.y), d1));
            let n = cadd(cmul(ex, ex), cmul(ey, ey));
            match (d1, ux1, uy1, n) {
                (Some(dw), Some(uxw), Some(uyw), Some(nw)) => Ok(
                    Circum { ux: uxw, uy: uyw, d: dw, n: nw },
                ),
                _ => Err(BuildError::ArithmeticOverflow),
            }
        },
    }
}

/// Executable circumcircle; computes exactly `circum_spec`.
pub fn circum(a: Point, b: Point, c: Point) -> (r: Result<Circum, BuildError>)
    ensures
        r == circum_spec(a, b, c),
{
    proof {
        reveal(circum_spec);
    }
    let qa = cadd(cmul(wide(a.x), wide(a.x)), cmul(wide(a.y), wide(a.y)));
    let qb = cadd(cmul(wide(b.x), wide(b.x)), cmul(wide(b.y), wide(b.y)));
    let qc = cadd(cmul(wide(c.x), wide(c.x)), cmul(wide(c.y), wide(c.y)));
    let bc_y = csub(wide(b.y), wide(c.y));
    let ca_y = csub(wide(c.y), wide(a.y));
    let ab_y = csub(wide(a.y), wide(b.y));
    let cb_x = csub(wide(c.x), wide(b.x));
    let ac_x = csub(wide(a.x), wide(c.x));
    let ba_x = csub(wide(b.x), wide(a.x));
    let d = cmul(
        Some(2),
        cadd(cadd(cmul(wide(a.x), bc_y), cmul(wide(b.x), ca_y)), cmul(wide(c.x), ab_y)),
    );
    match d {
        None => Err(BuildError::ArithmeticOverflow),
        Some(dv) => if dv == 0 {
            Err(BuildError::DegenerateInput)
        } else {
            let ux = cadd(cadd(cmul(qa, bc_y), cmul(qb, ca_y)), cmul(qc, ab_y));
            let uy = cadd(cadd(cmul(qa, cb_x), cmul(qb, ac_x)), cmul(qc, ba_x));
            let d1 = if dv < 0 {
                cneg(Some(dv))
            } else {
                Some(dv)
            };
            let ux1 = if dv < 0 {
                cneg(ux)
            } else {
                ux
            };
            let uy1 = if dv < 0 {
                cneg(uy)
            } else {
                uy
            };
            let ex = csub(ux1, cmul(wide(a.x), d1));
            let ey = csub(uy1, cmul(wide(a.y), d1));
            let n = cadd(cmul(ex, ex), cmul(ey, ey));
            match (d1, ux1, uy1, n) {
                (Some(dw), Some(uxw), Some(uyw), Some(nw)) => Ok(
                    Circum { ux: uxw, uy: uyw, d: dw, n: nw },
                ),
                _ => Err(BuildError::ArithmeticOverflow),
            }
        },
    }
}

/// Sign of `s + sqrt(p) - sqrt(q)` for `p >= 0`, `q >= 0`, decided exactly.
///
/// For `s >= 0` both `s + sqrt(p)` and `sqrt(q)` are non-negative, so
/// squaring preserves the order and the question becomes the sign of
/// `2*s*sqrt(p) - (q - s^2 - p)`; a negative right-hand side settles it,
/// otherwise both sides are non-negative and are squared once more.  For
/// `s < 0` the comparison is rearranged to `sqrt(p)` against
/// `sqrt(q) + (-s)`, whose sides are again non-negative.
#[verifier::opaque]
pub open spec fn cmp_shift_sqrt_spec(s: i128, p: i128, q: i128) -> Option<Rel>
    recommends
        p >= 0,
        q >= 0,
{
    let s2 = cmul(Some(s), Some(s));
    if s >= 0 {
        match csub(csub(Some(q), s2), Some(p)) {
            None => None,
            Some(m) => if m < 0 {
                Some(Rel::Gt)
            } else {
                cmp_opt(cmul(cmul(Some(4), s2), Some(p)), cmul(Some(m), Some(m)))
            },
        }
    } else {
        match csub(csub(Some(p), Some(q)), s2) {
            None => None,
            Some(m) => if m < 0 {
                Some(Rel::Lt)
            } else {
                cmp_opt(cmul(Some(m), Some(m)), cmul(cmul(Some(4), s2), Some(q)))
            },
        }
    }
}

/// Executable form of `cmp_shift_sqrt_spec`.
pub fn cmp_shift_sqrt(s: i128, p: i128, q: i128) -> (r: Option<Rel>)
    ensures
        r == cmp_shift_sqrt_spec(s, p, q),
{
    proof {
        reveal(cmp_shift_sqrt_spec);
    }
    let s2 = cmul(Some(s), Some(s));
    if s >= 0 {
        match csub(csub(Some(q), s2), Some(p)) {
            None => None,
            Some(m) => if m < 0 {
                Some(Rel::Gt)
            } else {
                cmp_opt(cmul(cmul(Some(4), s2), Some(p)), cmul(Some(m), Some(m)))
            },
        }
    } else {
        match csub(csub(Some(p), Some(q)), s2) {
            None => None,
            Some(m) => if m < 0 {
                Some(Rel::Lt)
            } else {
                cmp_opt(cmul(Some(m), Some(m)), cmul(cmul(Some(4), s2), Some(q)))
            },
        }
    }
}

/// Compares a site key `y` with a circle key `(uy - sqrt(n))/d`: the sign of
/// `y*d - uy + sqrt(n)`, since `d > 0`.
#[verifier::opaque]
pub open spec fn cmp_site_circle_spec(y: i64, c: Circum) -> Option<Rel> {
    match csub(cmul(wide(y), Some(c.d)), Some(c.uy)) {
        None => None,
        Some(t) => cmp_shift_sqrt_spec(t, c.n, 0),
    }
}

/// Executable form of `cmp_site_circle_spec`.
pub fn cmp_site_circle(y: i64, c: &Circum) -> (r: Option<Rel>)
    ensures
        r == cmp_site_circle_spec(y, *c),
{
    proof {
        reveal(cmp_site_circle_spec);
    }
    match csub(cmul(wide(y), Some(c.d)), Some(c.uy)) {
        None => None,
        Some(t) => cmp_shift_sqrt(t, c.n, 0),
    }
}

/// Compares two circle keys `(uy - sqrt(n))/d`.  Cross-multiplying by the
/// positive denominators leaves the sign of
/// `(uy1*d2 - uy2*d1) + sqrt(n2*d1^2) - sqrt(n1*d2^2)`.
#[verifier::opaque]
pub open spec fn cmp_circle_circle_spec(c1: Circum, c2: Circum) -> Option<Rel> {
    let x = csub(cmul(Some(c1.uy), Some(c2.d)), cmul(Some(c2.uy), Some(c1.d)));
    let p = cmul(Some(c2.n), cmul(Some(c1.d), Some(c1.d)));
    let q = cmul(Some(c1.n), cmul(Some(c2.d), Some(c2.d)));
    match (x, p, q) {
        (Some(xv), Some(pv), Some(qv)) => cmp_shift_sqrt_spec(xv, pv, qv),
        _ => None,
    }
}

/// Executable form of `cmp_circle_circle_spec`.
pub fn cmp_circle_circle(c1: &Circum, c2: &Circum) -> (r: Option<Rel>)
    ensures
        r == cmp_circle_circle_spec(*c1, *c2),
{
    proof {
        reveal(cmp_circle_circle_spec);
    }
    let x = csub(cmul(Some(c1.uy), Some(c2.d)), cmul(Some(c2.uy), Some(c1.d)));
    let p = cmul(Some(c2.n), cmul(Some(c1.d), Some(c1.d)));
    let q = cmul(Some(c1.n), cmul(Some(c2.d), Some(c2.d)));
    match (x, p, q) {
        (Some(xv), Some(pv), Some(qv)) => cmp_shift_sqrt(xv, pv, qv),
        _ => None,
    }
}

/// Numerator of the height at which the parabola of arc site `a` crosses the
/// vertical line through site `s`, with the sweep line at `s.y`:
/// `(s.y^2 + a.y^2 + (a.x - s.x)^2) / (2*(a.y - s.y))`.
pub open spec fn height_num_spec(a: Point, s: Point) -> Option<i128> {
    let dx = csub(wide(a.x), wide(s.x));
    cadd(cadd(cmul(wide(s.y), wide(s.y)), cmul(wide(a.y), wide(a.y))), cmul(dx, dx))
}

/// Denominator of the parabola height; positive exactly when `a.y > s.y`.
pub open spec fn height_den_spec(a: Point, s: Point) -> Option<i128> {
    cmul(Some(2), csub(wide(a.y), wide(s.y)))
}

/// Compares the parabola heights of arc sites `a` and `b` above site `s`,
/// by cross-multiplying with the positive denominators.  Meaningful only
/// when both arcs are candidates, that is `a.y > s.y` and `b.y > s.y`.
#[verifier::opaque]
pub open spec fn cmp_heights_spec(a: Point, b: Point, s: Point) -> Option<Rel> {
    cmp_opt(
        cmul(height_num_spec(a, s), height_den_spec(b, s)),
        cmul(height_num_spec(b, s), height_den_spec(a, s)),
    )
}

/// Executable form of `cmp_heights_spec`.
pub fn cmp_heights(a: Point, b: Point, s: Point) -> (r: Option<Rel>)
    ensures
        r == cmp_heights_spec(a, b, s),
{
    proof {
        reveal(cmp_heights_spec);
    }
    let dxa = csub(wide(a.x), wide(s.x));
    let na = cadd(cadd(cmul(wide(s.y), wide(s.y)), cmul(wide(a.y), wide(a.y))), cmul(dxa, dxa));
    let da = cmul(Some(2), csub(wide(a.y), wide(s.y)));
    let dxb = csub(wide(b.x), wide(s.x));
    let nb = cadd(cadd(cmul(wide(s.y), wide(s.y)), cmul(wide(b.y), wide(b.y))), cmul(dxb, dxb));
    let db = cmul(Some(2), csub(wide(b.y), wide(s.y)));
    cmp_opt(cmul(na, db), cmul(nb, da))
}

/// The order in which sites enter the event queue: strictly decreasing `y`,
/// ties broken by strictly decreasing `x`, remaining ties kept in input
/// order.  `true` when `a` must come strictly before `b`.
pub open spec fn site_before(a: Point, b: Point) -> bool {
    a.y > b.y || (a.y == b.y && a.x > b.x)
}

/// Executable form of `site_before`.
pub fn site_precedes(a: Point, b: Point) -> (r: bool)
    ensures
        r == site_before(a, b),
{
    a.y > b.y || (a.y == b.y && a.x > b.x)
}

/// On perfect squares the comparator agrees with plain integer order:
/// whenever `p == a*a` and `q == b*b` with `a, b >= 0`, a decided
/// comparison of `s + sqrt(p)` against `sqrt(q)` is exactly the order of
/// `s + a` and `b`.
pub proof fn lemma_cmp_shift_sqrt_exact(s: i128, p: i128, q: i128, a: i128, b: i128)
    requires
        a >= 0,
        b >= 0,
        p == a * a,
        q == b * b,
    ensures
        cmp_shift_sqrt_spec(s, p, q) matches Some(r) ==> r == (if s + a < b {
            Rel::Lt
        } else if s + a == b {
            Rel::Eq
        } else {
            Rel::Gt
        }),
{
    reveal(cmp_shift_sqrt_spec);
    let si = s as int;
    let ai = a as int;
    let bi = b as int;
    match cmp_shift_sqrt_spec(s, p, q) {
        None => {},
        Some(r) => {
            if s >= 0 {
                match csub(csub(Some(q), cmul(Some(s), Some(s))), Some(p)) {
                    None => {},
                    Some(m) => {
                        assert(m == bi * bi - si * si - ai * ai);
                        if m < 0 {
                            // b^2 < s^2 + a^2 <= (s + a)^2, so b < s + a.
                            assert(si * si + ai * ai <= (si + ai) * (si + ai))
                                by (nonlinear_arith)
                                requires si >= 0 && ai >= 0;
                            assert(bi < si + ai) by (nonlinear_arith)
                                requires bi >= 0 && si + ai >= 0 && bi * bi < (si + ai) * (si
                                    + ai);
                            assert(r == Rel::Gt);
                        } else {
                            // Both 2*s*a and m are non-negative, and
                            // (s + a) vs b matches 2*s*a vs m after squaring.
                            match cmul(cmul(Some(4), cmul(Some(s), Some(s))), Some(p)) {
                                None => {},
                                Some(l) => {
                                    match cmul(Some(m), Some(m)) {
                                        None => {},
                                        Some(mm) => {
                                            assert(l == 4 * (si * si) * (ai * ai));
                                            assert(mm == m * m);
                                            assert((si + ai < bi <==> l < mm) && (si + ai == bi
                                                <==> l == mm)) by (nonlinear_arith)
                                                requires si >= 0 && ai >= 0 && bi >= 0 && m == bi
                                                    * bi - si * si - ai * ai && m >= 0 && l == 4 * (
                                                si * si) * (ai * ai) && mm == m * m;
                                            assert(r == cmp_i128(l, mm));
                                        },
                                    }
                                },
                            }
                        }
                    },
                }
            } else {
                match csub(csub(Some(p), Some(q)), cmul(Some(s), Some(s))) {
                    None => {},
                    Some(m) => {
                        assert(m == ai * ai - bi * bi - si * si);
                        if m < 0 {
                            // a^2 < b^2 + s^2 <= (b - s)^2, so a < b - s.
                            assert(bi * bi + si * si <= (bi - si) * (bi - si))
                                by (nonlinear_arith)
                                requires bi >= 0 && si < 0;
                            assert(ai < bi - si) by (nonlinear_arith)
                                requires ai >= 0 && bi - si >= 0 && ai * ai < (bi - si) * (bi
                                    - si);
                            assert(si + ai < bi);
                            assert(r == Rel::Lt);
                        } else {
                            // a vs b - s matches m vs 2*(-s)*b after squaring.
                            match cmul(Some(m), Some(m)) {
                                None => {},
                                Some(mm) => {
                                    match cmul(cmul(Some(4), cmul(Some(s), Some(s))), Some(q)) {
                                        None => {},
                                        Some(l) => {
                                            assert(mm == m * m);
                                            assert(l == 4 * (si * si) * (bi * bi));
                                            let t = bi - si;
                                            assert((ai < t <==> ai * ai < t * t) && (ai == t
                                                <==> ai * ai == t * t)) by (nonlinear_arith)
                                                requires ai >= 0 && t >= 0;
                                            assert(t * t == bi * bi - 2 * si * bi + si * si)
                                                by (nonlinear_arith)
                                                requires t == bi - si;
                                            let y = -2 * si * bi;
                                            assert(y >= 0) by (nonlinear_arith)
                                                requires si < 0 && bi >= 0 && y == -2 * si * bi;
                                            assert((m < y <==> mm < l) && (m == y <==> mm == l))
                                                by (nonlinear_arith)
                                                requires m >= 0 && y >= 0 && y == -2 * si * bi
                                                    && mm == m * m && l == 4 * (si * si) * (bi
                                                    * bi);
                                            assert((ai * ai < t * t <==> m < y) && (ai * ai == t
                                                * t <==> m == y)) by (nonlinear_arith)
                                                requires t == bi - si && m == ai * ai - bi * bi
                                                    - si * si && y == -2 * si * bi;
                                            assert(si + ai < bi <==> mm < l);
                                            assert(si + ai == bi <==> mm == l);
                                            assert(r == cmp_i128(mm, l));
                                        },
                                    }
                                },
                            }
                        }
                    },
                }
            }
        },
    }
}

/// A computed circumcircle is well-formed: the normalised denominator is
/// positive and the radicand, a sum of two squares, is non-negative.  So a
/// circumcircle never carries an undefined or non-finite position.
pub proof fn lemma_circum_wf(a: Point, b: Point, c: Point)
    ensures
        circum_spec(a, b, c) matches Ok(cc) ==> cc.d > 0 && cc.n >= 0,
{
    reveal(circum_spec);
    match circum_spec(a, b, c) {
        Err(_) => {},
        Ok(cc) => {
            let d = cmul(
                Some(2),
                cadd(
                    cadd(cmul(wide(a.x), csub(wide(b.y), wide(c.y))), cmul(wide(b.x), csub(wide(c.y), wide(a.y)))),
                    cmul(wide(c.x), csub(wide(a.y), wide(b.y))),
                ),
            );
            match d {
                None => {},
                Some(dv) => {
                    assert(cc.n >= 0) by {
                        let d1 = if dv < 0 {
                            cneg(Some(dv))
                        } else {
                            Some(dv)
                        };
                        match d1 {
                            None => {},
                            Some(d1v) => {
                                let qa = cadd(cmul(wide(a.x), wide(a.x)), cmul(wide(a.y), wide(a.y)));
                                let qb = cadd(cmul(wide(b.x), wide(b.x)), cmul(wide(b.y), wide(b.y)));
                                let qc = cadd(cmul(wide(c.x), wide(c.x)), cmul(wide(c.y), wide(c.y)));
                                let bc_y = csub(wide(b.y), wide(c.y));
                                let ca_y = csub(wide(c.y), wide(a.y));
                                let ab_y = csub(wide(a.y), wide(b.y));
                                let cb_x = csub(wide(c.x), wide(b.x));
                                let ac_x = csub(wide(a.x), wide(c.x));
                                let ba_x = csub(wide(b.x), wide(a.x));
                                let ux = cadd(cadd(cmul(qa, bc_y), cmul(qb, ca_y)), cmul(qc, ab_y));
                                let uy = cadd(cadd(cmul(qa, cb_x), cmul(qb, ac_x)), cmul(qc, ba_x));
                                let ux1 = if dv < 0 {
                                    cneg(ux)
                                } else {
                                    ux
                                };
                                let uy1 = if dv < 0 {
                                    cneg(uy)
                                } else {
                                    uy
                                };
                                let ex = csub(ux1, cmul(wide(a.x), d1));
                                let ey = csub(uy1, cmul(wide(a.y), d1));
                                match (ex, ey) {
                                    (Some(exv), Some(eyv)) => {
                                        assert(exv * exv >= 0) by (nonlinear_arith);
                                        assert(eyv * eyv >= 0) by (nonlinear_arith);
                                    },
                                    _ => {},
                                }
                            },
                        }
                    }
                },
            }
        },
    }
}

} // verus!
