//! Point queries on shapes: projection of a point onto a tetrahedron, with
//! the Voronoï region of the nearest feature.
//!
//! All tests are exact sign tests on integer polynomials of the inputs; the
//! projected point itself is rational and is returned as homogeneous
//! coordinates (three numerators over one positive denominator).

use vstd::prelude::*;
use crate::math::{Vect, Isometry, bounded, spec_dot, spec_cross, cross3, MAX_COORD, DIFF_BOUND, CROSS_BOUND};
use crate::shape::Tetrahedron;

verus! {

/// The projection of a point onto a shape: whether the point was inside, and
/// the projected point in homogeneous world coordinates `(nx, ny, nz) / den`.
#[derive(Clone, Copy, PartialEq, Eq, Structural, Debug)]
pub struct PointProjection {
    /// Whether the query point lay inside the shape.
    pub is_inside: bool,
    /// Numerator of the world `x` coordinate.
    pub nx: i128,
    /// Numerator of the world `y` coordinate.
    pub ny: i128,
    /// Numerator of the world `z` coordinate.
    pub nz: i128,
    /// The common positive denominator.
    pub den: i128,
}

/// The feature of a tetrahedron a projected point lies on.
///
/// Faces are numbered `0: abc`, `1: abd`, `2: acd`, `3: bcd`; edges
/// `0: ab`, `1: ac`, `2: ad`, `3: bc`, `4: bd`, `5: cd`.
#[derive(Clone, Copy, PartialEq, Eq, Debug)]
pub enum TetrahedronPointLocation {
    /// The point projects onto a vertex.
    OnVertex(u32),
    /// The point projects onto the interior of an edge; the pair holds the
    /// barycentric coordinate of the second endpoint as a fraction.
    OnEdge(u32, (i128, i128)),
    /// The point projects onto the interior of a face; the triple holds the
    /// unnormalized barycentric weights of the face's three vertices, whose
    /// sum is the projection's denominator.
    OnFace(u32, (i128, i128, i128)),
    /// The point lies inside the tetrahedron.
    OnSolid,
}

impl TetrahedronPointLocation {
    /// Returns `true` if both `self` and `other` correspond to points on the
    /// same feature of a tetrahedron, whatever their barycentric data.
    pub fn same_feature_as(&self, other: &TetrahedronPointLocation) -> (r: bool)
        ensures
            r == match (*self, *other) {
                (
                    TetrahedronPointLocation::OnVertex(i),
                    TetrahedronPointLocation::OnVertex(j),
                ) => i == j,
                (
                    TetrahedronPointLocation::OnEdge(i, _),
                    TetrahedronPointLocation::OnEdge(j, _),
                ) => i == j,
                (
                    TetrahedronPointLocation::OnFace(i, _),
                    TetrahedronPointLocation::OnFace(j, _),
                ) => i == j,
                (TetrahedronPointLocation::OnSolid, TetrahedronPointLocation::OnSolid) => true,
                _ => false,
            },
    {
        match (self, other) {
            (TetrahedronPointLocation::OnVertex(i), TetrahedronPointLocation::OnVertex(j)) => i
                == j,
            (TetrahedronPointLocation::OnEdge(i, _), TetrahedronPointLocation::OnEdge(j, _)) => i
                == j,
            (TetrahedronPointLocation::OnFace(i, _), TetrahedronPointLocation::OnFace(j, _)) => i
                == j,
            (TetrahedronPointLocation::OnSolid, TetrahedronPointLocation::OnSolid) => true,
            _ => false,
        }
    }
}

/// The query point expressed in the tetrahedron's local frame.
pub open spec fn local_point(pt: Vect, m: Isometry) -> Vect {
    Vect {
        x: (pt.x - m.translation.x) as i64,
        y: (pt.y - m.translation.y) as i64,
        z: (pt.z - m.translation.z) as i64,
    }
}

/// The difference `b - a` of two local vectors.
pub open spec fn vdiff(b: Vect, a: Vect) -> Vect {
    Vect { x: (b.x - a.x) as i64, y: (b.y - a.y) as i64, z: (b.z - a.z) as i64 }
}

/// The homogeneous world point `(v * den + t * den) / den` standing for the
/// exact vertex `v` translated by `t`.
pub open spec fn world_vertex_projection(v: Vect, t: Vect, inside: bool) -> PointProjection {
    PointProjection {
        is_inside: inside,
        nx: (v.x + t.x) as i128,
        ny: (v.y + t.y) as i128,
        nz: (v.z + t.z) as i128,
        den: 1,
    }
}

/// The returned location names a feature of the tetrahedron and its
/// barycentric data is well formed: edge fractions lie in `[0, 1]` with a
/// positive denominator, face weights sum to the projection's denominator.
pub open spec fn location_wf(loc: TetrahedronPointLocation) -> bool {
    match loc {
        TetrahedronPointLocation::OnVertex(i) => i < 4,
        TetrahedronPointLocation::OnEdge(i, uv) => i < 6 && uv.1 > 0 && 0 <= uv.0 <= uv.1,
        TetrahedronPointLocation::OnFace(i, w) => i < 4 && w.0 + w.1 + w.2 > 0,
        TetrahedronPointLocation::OnSolid => true,
    }
}

/// How a returned projection and location relate to the tetrahedron `t`
/// placed at `m` and the query point `pt`, all in exact arithmetic:
///
/// - a vertex location carries that vertex, and the query point lies in the
///   vertex's Voronoï region (the adjacent edge directions all point away);
/// - an edge location carries the fraction `uv.0 / uv.1` along the edge, the
///   denominator is the edge's squared length, and the projected point is
///   the corresponding combination of the edge's endpoints;
/// - a face location carries positive-sum weights and the projected point is
///   their combination of the face's vertices;
/// - the solid location returns the query point itself, marked inside.
pub open spec fn projection_sound(
    t: Tetrahedron,
    m: Isometry,
    pt: Vect,
    proj: PointProjection,
    loc: TetrahedronPointLocation,
) -> bool {
    let p = local_point(pt, m);
    let tr = m.translation;
    let ab = vdiff(t.pb, t.pa);
    let ac = vdiff(t.pc, t.pa);
    let ad = vdiff(t.pd, t.pa);
    let bc = vdiff(t.pc, t.pb);
    let bd = vdiff(t.pd, t.pb);
    let cd = vdiff(t.pd, t.pc);
    let ap = vdiff(p, t.pa);
    let bp = vdiff(p, t.pb);
    let cp = vdiff(p, t.pc);
    let dp = vdiff(p, t.pd);
    &&& location_wf(loc)
    &&& proj.den > 0
    &&& (proj.is_inside <==> loc is OnSolid)
    &&& match loc {
        TetrahedronPointLocation::OnVertex(i) => {
            &&& proj == world_vertex_projection(
                if i == 0 {
                    t.pa
                } else if i == 1 {
                    t.pb
                } else if i == 2 {
                    t.pc
                } else {
                    t.pd
                },
                tr,
                false,
            )
            &&& (i == 0 ==> spec_dot(ap, ab) <= 0 && spec_dot(ap, ac) <= 0 && spec_dot(ap, ad)
                <= 0)
            &&& (i == 1 ==> spec_dot(bp, bc) <= 0 && spec_dot(bp, bd) <= 0 && spec_dot(bp, ab)
                >= 0)
            &&& (i == 2 ==> spec_dot(cp, cd) <= 0 && spec_dot(cp, bc) >= 0 && spec_dot(cp, ac)
                >= 0)
            &&& (i == 3 ==> spec_dot(dp, ad) >= 0 && spec_dot(dp, bd) >= 0 && spec_dot(dp, cd)
                >= 0)
        },
        TetrahedronPointLocation::OnEdge(i, uv) => {
            let (ea, eb) = if i == 0 {
                (t.pa, t.pb)
            } else if i == 1 {
                (t.pa, t.pc)
            } else if i == 2 {
                (t.pa, t.pd)
            } else if i == 3 {
                (t.pb, t.pc)
            } else if i == 4 {
                (t.pb, t.pd)
            } else {
                (t.pc, t.pd)
            };
            let e = vdiff(eb, ea);
            &&& uv.1 == spec_dot(e, e)
            &&& uv.0 == spec_dot(vdiff(p, ea), e)
            &&& edge_region(t, p, i)
            &&& proj.den == uv.1
            &&& proj.nx == (uv.1 - uv.0) * ea.x + uv.0 * eb.x + uv.1 * tr.x
            &&& proj.ny == (uv.1 - uv.0) * ea.y + uv.0 * eb.y + uv.1 * tr.y
            &&& proj.nz == (uv.1 - uv.0) * ea.z + uv.0 * eb.z + uv.1 * tr.z
        },
        TetrahedronPointLocation::OnFace(i, w) => {
            let (fa, fb, fc) = if i == 0 {
                (t.pa, t.pb, t.pc)
            } else if i == 1 {
                (t.pa, t.pb, t.pd)
            } else if i == 2 {
                (t.pa, t.pc, t.pd)
            } else {
                (t.pb, t.pc, t.pd)
            };
            &&& face_plane_separates(t, p, i)
            &&& ((face_gates(t, p, i) && w.0 > 0 && w.1 > 0 && w.2 > 0) || !weakly_inside(t, p))
            &&& proj.den == w.0 + w.1 + w.2
            &&& proj.nx == w.0 * fa.x + w.1 * fb.x + w.2 * fc.x + proj.den * tr.x
            &&& proj.ny == w.0 * fa.y + w.1 * fb.y + w.2 * fc.y + proj.den * tr.y
            &&& proj.nz == w.0 * fa.z + w.1 * fb.z + w.2 * fc.z + proj.den * tr.z
        },
        TetrahedronPointLocation::OnSolid => {
            &&& weakly_inside(t, p)
            &&& proj.nx == pt.x
            &&& proj.ny == pt.y
            &&& proj.nz == pt.z
            &&& proj.den == 1
        },
    }
}

/// The tetrahedron is non-degenerate: no face has collinear vertices.
pub open spec fn tetrahedron_nondegenerate(t: Tetrahedron) -> bool {
    &&& spec_cross(vdiff(t.pb, t.pa), vdiff(t.pc, t.pa)) != ((0int, 0int, 0int))
    &&& spec_cross(vdiff(t.pb, t.pa), vdiff(t.pd, t.pa)) != ((0int, 0int, 0int))
    &&& spec_cross(vdiff(t.pc, t.pa), vdiff(t.pd, t.pa)) != ((0int, 0int, 0int))
    &&& spec_cross(vdiff(t.pc, t.pb), vdiff(t.pd, t.pb)) != ((0int, 0int, 0int))
}


/// Bound on a dot product of two difference vectors.
pub const EDGE_DOT_BOUND: i128 = 0x3000_0000_0000;

/// The endpoints of the tetrahedron's `i`-th edge.
pub open spec fn spec_edge(t: Tetrahedron, i: u32) -> (Vect, Vect) {
    if i == 0 {
        (t.pa, t.pb)
    } else if i == 1 {
        (t.pa, t.pc)
    } else if i == 2 {
        (t.pa, t.pd)
    } else if i == 3 {
        (t.pb, t.pc)
    } else if i == 4 {
        (t.pb, t.pd)
    } else {
        (t.pc, t.pd)
    }
}

/// The vertices of the tetrahedron's `i`-th face.
pub open spec fn spec_face(t: Tetrahedron, i: u32) -> (Vect, Vect, Vect) {
    if i == 0 {
        (t.pa, t.pb, t.pc)
    } else if i == 1 {
        (t.pa, t.pb, t.pd)
    } else if i == 2 {
        (t.pa, t.pc, t.pd)
    } else {
        (t.pb, t.pc, t.pd)
    }
}

/// The negation of an exact integer triple.
pub open spec fn neg3(a: (int, int, int)) -> (int, int, int) {
    (-a.0, -a.1, -a.2)
}

/// The dot product of two exact integer triples.
pub open spec fn dot3t(a: (int, int, int), b: (int, int, int)) -> int {
    a.0 * b.0 + a.1 * b.1 + a.2 * b.2
}

/// The (unnormalized) normal of the tetrahedron's `i`-th face.
pub open spec fn face_normal(t: Tetrahedron, i: u32) -> (int, int, int) {
    let (fa, fb, fc) = spec_face(t, i);
    spec_cross(vdiff(fb, fa), vdiff(fc, fa))
}

/// The direction from the `i`-th face's first vertex toward the vertex
/// opposite the face.
pub open spec fn face_opp(t: Tetrahedron, i: u32) -> Vect {
    if i == 0 {
        vdiff(t.pd, t.pa)
    } else if i == 1 {
        vdiff(t.pc, t.pa)
    } else if i == 2 {
        vdiff(t.pb, t.pa)
    } else {
        vdiff(t.pa, t.pb)
    }
}

/// The plane of the `i`-th face strictly separates the local point `p` from
/// the opposite vertex.
pub open spec fn face_plane_separates(t: Tetrahedron, p: Vect, i: u32) -> bool {
    let n = face_normal(t, i);
    let (fa, fb, fc) = spec_face(t, i);
    dot3(n, face_opp(t, i)) * dot3(n, vdiff(p, fa)) < 0
}

/// The local point lies weakly on the inner side of all four face planes:
/// it belongs to the closed tetrahedron.
pub open spec fn weakly_inside(t: Tetrahedron, p: Vect) -> bool {
    forall|i: u32| i < 4 ==> !(#[trigger] face_plane_separates(t, p, i))
}

/// The two (possibly negated) adjacent-face normals the `i`-th edge's
/// Voronoï test consults.
pub open spec fn edge_normals(t: Tetrahedron, i: u32) -> ((int, int, int), (int, int, int)) {
    let nabc = face_normal(t, 0);
    let nabd = face_normal(t, 1);
    let nacd = face_normal(t, 2);
    let nbcd = face_normal(t, 3);
    if i == 0 {
        (nabc, nabd)
    } else if i == 1 {
        (nacd, neg3(nabc))
    } else if i == 2 {
        (neg3(nabd), neg3(nacd))
    } else if i == 3 {
        (nabc, nbcd)
    } else if i == 4 {
        (neg3(nbcd), nabd)
    } else {
        (nacd, nbcd)
    }
}

/// The sign conditions of the `i`-th edge's Voronoï region: the point's
/// offset, crossed with the edge, points outward past both adjacent faces.
pub open spec fn edge_region(t: Tetrahedron, p: Vect, i: u32) -> bool {
    let (ea, eb) = spec_edge(t, i);
    let e = vdiff(eb, ea);
    let x = spec_cross(vdiff(p, ea), e);
    let nn = edge_normals(t, i);
    dot3t(x, nn.0) >= 0 && dot3t(x, nn.1) >= 0
}

/// The sign conditions admitting the `i`-th face's Voronoï region: the point
/// lies inward of all three of the face's edge regions.
pub open spec fn face_gates(t: Tetrahedron, p: Vect, i: u32) -> bool {
    let (fa, fb, fc) = spec_face(t, i);
    let n = face_normal(t, i);
    &&& dot3t(spec_cross(vdiff(p, fa), vdiff(fb, fa)), n) < 0
    &&& dot3t(spec_cross(vdiff(p, fb), vdiff(fc, fb)), n) < 0
    &&& dot3t(spec_cross(vdiff(p, fa), vdiff(fc, fa)), neg3(n)) < 0
}

/// Decides the Voronoï region of the edge `i`: when the query point projects
/// into the edge's slab and lies on the outer side of both adjacent faces,
/// returns the projection onto the edge; the two returned signs feed the
/// adjacent face tests.
fn check_edge(
    t: &Tetrahedron,
    m: &Isometry,
    pt: &Vect,
    i: u32,
    ea: &Vect,
    eb: &Vect,
    n1: &Vect,
    n2: &Vect,
    ap: &Vect,
    e: &Vect,
    ap_e: i128,
    e_e: i128,
) -> (r: (i128, i128, Option<(PointProjection, TetrahedronPointLocation)>))
    requires
        i < 6,
        (*ea, *eb) == spec_edge(*t, i),
        bounded(*ea, MAX_COORD as int),
        bounded(*eb, MAX_COORD as int),
        bounded(m.translation, MAX_COORD as int),
        bounded(*ap, DIFF_BOUND as int),
        bounded(*e, DIFF_BOUND as int),
        bounded(*n1, CROSS_BOUND as int),
        bounded(*n2, CROSS_BOUND as int),
        *e == vdiff(*eb, *ea),
        *ap == vdiff(local_point(*pt, *m), *ea),
        (n1.x as int, n1.y as int, n1.z as int) == edge_normals(*t, i).0,
        (n2.x as int, n2.y as int, n2.z as int) == edge_normals(*t, i).1,
        ap_e == spec_dot(*ap, *e),
        e_e == spec_dot(*e, *e),
        0 < e_e <= EDGE_DOT_BOUND,
        -EDGE_DOT_BOUND <= ap_e <= EDGE_DOT_BOUND,
    ensures
        r.0 == dot3t(spec_cross(*ap, *e), edge_normals(*t, i).0),
        r.1 == dot3t(spec_cross(*ap, *e), edge_normals(*t, i).1),
        match r.2 {
            Some(pl) => projection_sound(*t, *m, *pt, pl.0, pl.1) && pl.1 is OnEdge,
            None => true,
        },
{
    let apxe: Vect = cross3(ap, e);
    let d1: i128 = apxe.dot(n1);
    let d2: i128 = apxe.dot(n2);
    proof {
        let nn0 = edge_normals(*t, i).0;
        let nn1 = edge_normals(*t, i).1;
        assert(d1 == spec_dot(apxe, *n1));
        assert(d1 == dot3t((apxe.x as int, apxe.y as int, apxe.z as int), nn0))
            by (nonlinear_arith)
            requires
                d1 == spec_dot(apxe, *n1),
                (n1.x as int, n1.y as int, n1.z as int) == nn0,
        ;
        assert(d1 == dot3t(spec_cross(*ap, *e), nn0));
        assert(d2 == spec_dot(apxe, *n2));
        assert(d2 == dot3t((apxe.x as int, apxe.y as int, apxe.z as int), nn1))
            by (nonlinear_arith)
            requires
                d2 == spec_dot(apxe, *n2),
                (n2.x as int, n2.y as int, n2.z as int) == nn1,
        ;
        assert(d2 == dot3t(spec_cross(*ap, *e), nn1));
    }
    if d1 >= 0 && d2 >= 0 && ap_e >= 0 && ap_e <= e_e {
        proof {
            assert(edge_region(*t, local_point(*pt, *m), i));
        }
        proof {
            crate::math::lemma_mul_bound(
                (e_e - ap_e) as int,
                ea.x as int,
                EDGE_DOT_BOUND as int,
                MAX_COORD as int,
            );
            crate::math::lemma_mul_bound(
                (e_e - ap_e) as int,
                ea.y as int,
                EDGE_DOT_BOUND as int,
                MAX_COORD as int,
            );
            crate::math::lemma_mul_bound(
                (e_e - ap_e) as int,
                ea.z as int,
                EDGE_DOT_BOUND as int,
                MAX_COORD as int,
            );
            crate::math::lemma_mul_bound(
                ap_e as int,
                eb.x as int,
                EDGE_DOT_BOUND as int,
                MAX_COORD as int,
            );
            crate::math::lemma_mul_bound(
                ap_e as int,
                eb.y as int,
                EDGE_DOT_BOUND as int,
                MAX_COORD as int,
            );
            crate::math::lemma_mul_bound(
                ap_e as int,
                eb.z as int,
                EDGE_DOT_BOUND as int,
                MAX_COORD as int,
            );
            crate::math::lemma_mul_bound(
                e_e as int,
                m.translation.x as int,
                EDGE_DOT_BOUND as int,
                MAX_COORD as int,
            );
            crate::math::lemma_mul_bound(
                e_e as int,
                m.translation.y as int,
                EDGE_DOT_BOUND as int,
                MAX_COORD as int,
            );
            crate::math::lemma_mul_bound(
                e_e as int,
                m.translation.z as int,
                EDGE_DOT_BOUND as int,
                MAX_COORD as int,
            );
        }
        let u: i128 = ap_e;
        let w: i128 = e_e - ap_e;
        let nx: i128 = w * (ea.x as i128) + u * (eb.x as i128) + e_e * (m.translation.x as i128);
        let ny: i128 = w * (ea.y as i128) + u * (eb.y as i128) + e_e * (m.translation.y as i128);
        let nz: i128 = w * (ea.z as i128) + u * (eb.z as i128) + e_e * (m.translation.z as i128);
        let proj = PointProjection { is_inside: false, nx, ny, nz, den: e_e };
        let loc = TetrahedronPointLocation::OnEdge(i, (ap_e, e_e));
        (d1, d2, Some((proj, loc)))
    } else {
        (d1, d2, None)
    }
}

/// Decides the Voronoï region of the face `i`: when the face's three edge
/// signs admit it and the query point lies strictly on the outer side of the
/// face's plane, returns the projection onto the face, with positive
/// unnormalized barycentric weights summing to the squared length of the
/// face's normal.
fn check_face(
    t: &Tetrahedron,
    m: &Isometry,
    pt: &Vect,
    i: u32,
    fa: &Vect,
    fb: &Vect,
    fc: &Vect,
    n: &Vect,
    opp: &Vect,
    ap: &Vect,
    bp: &Vect,
    cp: &Vect,
    g_ab: i128,
    g_bc: i128,
    g_ac: i128,
) -> (r: Option<(PointProjection, TetrahedronPointLocation)>)
    requires
        i < 4,
        (*fa, *fb, *fc) == spec_face(*t, i),
        bounded(*fa, MAX_COORD as int),
        bounded(*fb, MAX_COORD as int),
        bounded(*fc, MAX_COORD as int),
        bounded(m.translation, MAX_COORD as int),
        bounded(*pt, MAX_COORD as int),
        bounded(*ap, DIFF_BOUND as int),
        bounded(*bp, DIFF_BOUND as int),
        bounded(*cp, DIFF_BOUND as int),
        bounded(*opp, DIFF_BOUND as int),
        bounded(*n, CROSS_BOUND as int),
        (n.x as int, n.y as int, n.z as int) == face_normal(*t, i),
        face_normal(*t, i) != ((0int, 0int, 0int)),
        *opp == face_opp(*t, i),
        *ap == vdiff(local_point(*pt, *m), *fa),
        *bp == vdiff(local_point(*pt, *m), *fb),
        *cp == vdiff(local_point(*pt, *m), *fc),
        g_ab == dot3t(
            spec_cross(vdiff(local_point(*pt, *m), *fa), vdiff(*fb, *fa)),
            face_normal(*t, i),
        ),
        g_bc == dot3t(
            spec_cross(vdiff(local_point(*pt, *m), *fb), vdiff(*fc, *fb)),
            face_normal(*t, i),
        ),
        g_ac == dot3t(
            spec_cross(vdiff(local_point(*pt, *m), *fa), vdiff(*fc, *fa)),
            neg3(face_normal(*t, i)),
        ),
    ensures
        match r {
            Some(pl) => projection_sound(*t, *m, *pt, pl.0, pl.1) && pl.1 is OnFace,
            None => true,
        },
{
    if !(g_ab < 0 && g_bc < 0 && g_ac < 0) {
        return None;
    }
    let n_opp: i128 = n.dot(opp);
    let n_ap: i128 = n.dot(ap);
    if (n_opp < 0 && n_ap > 0) || (n_opp > 0 && n_ap < 0) {
        let cr1: Vect = cross3(bp, cp);
        let cr2: Vect = cross3(cp, ap);
        let cr3: Vect = cross3(ap, bp);
        let va: i128 = n.dot(&cr1);
        let vb: i128 = n.dot(&cr2);
        let vc: i128 = n.dot(&cr3);
        let den: i128 = va + vb + vc;
        proof {
            let lp = local_point(*pt, *m);
            let ntup = face_normal(*t, i);
            lemma_face_weights_sum(*fa, *fb, *fc, lp, *n);
            assert(va == spec_dot(*n, cr1));
            assert(va == dot3(spec_cross(*bp, *cp), *n)) by (nonlinear_arith)
                requires
                    va == spec_dot(*n, cr1),
                    (cr1.x as int, cr1.y as int, cr1.z as int) == spec_cross(*bp, *cp),
            ;
            assert(vb == spec_dot(*n, cr2));
            assert(vb == dot3(spec_cross(*cp, *ap), *n)) by (nonlinear_arith)
                requires
                    vb == spec_dot(*n, cr2),
                    (cr2.x as int, cr2.y as int, cr2.z as int) == spec_cross(*cp, *ap),
            ;
            assert(vc == spec_dot(*n, cr3));
            assert(vc == dot3(spec_cross(*ap, *bp), *n)) by (nonlinear_arith)
                requires
                    vc == spec_dot(*n, cr3),
                    (cr3.x as int, cr3.y as int, cr3.z as int) == spec_cross(*ap, *bp),
            ;
            assert(den == spec_dot(*n, *n));
            lemma_nonzero_dot_self_positive(*n);
            // The weights are the negated edge signs of the face, hence
            // positive inside the gates.
            let fab = vdiff(*fb, *fa);
            let fbc = vdiff(*fc, *fb);
            let fac = vdiff(*fc, *fa);
            assert(vc == -g_ab) by (nonlinear_arith)
                requires
                    vc == dot3(spec_cross(*ap, *bp), *n),
                    g_ab == dot3t(spec_cross(*ap, fab), (n.x as int, n.y as int, n.z as int)),
                    bp.x == ap.x - fab.x,
                    bp.y == ap.y - fab.y,
                    bp.z == ap.z - fab.z,
            ;
            assert(va == -g_bc) by (nonlinear_arith)
                requires
                    va == dot3(spec_cross(*bp, *cp), *n),
                    g_bc == dot3t(spec_cross(*bp, fbc), (n.x as int, n.y as int, n.z as int)),
                    cp.x == bp.x - fbc.x,
                    cp.y == bp.y - fbc.y,
                    cp.z == bp.z - fbc.z,
            ;
            assert(vb == -g_ac) by (nonlinear_arith)
                requires
                    vb == dot3(spec_cross(*cp, *ap), *n),
                    g_ac == dot3t(
                        spec_cross(*ap, fac),
                        (-(n.x as int), -(n.y as int), -(n.z as int)),
                    ),
                    cp.x == ap.x - fac.x,
                    cp.y == ap.y - fac.y,
                    cp.z == ap.z - fac.z,
            ;
            assert(va > 0 && vb > 0 && vc > 0);
            assert(face_gates(*t, lp, i));
            // The plane strictly separates the point from the opposite vertex.
            assert(n_opp == spec_dot(*n, *opp) && n_ap == spec_dot(*n, *ap));
            assert(dot3(ntup, face_opp(*t, i)) * dot3(ntup, vdiff(lp, *fa)) < 0)
                by (nonlinear_arith)
                requires
                    n_opp == spec_dot(*n, *opp),
                    n_ap == spec_dot(*n, *ap),
                    (n.x as int, n.y as int, n.z as int) == ntup,
                    *opp == face_opp(*t, i),
                    *ap == vdiff(lp, *fa),
                    (n_opp < 0 && n_ap > 0) || (n_opp > 0 && n_ap < 0),
            ;
            assert(face_plane_separates(*t, lp, i));
            let big = 3 * (CROSS_BOUND as int) * (CROSS_BOUND as int);
            crate::math::lemma_mul_bound(va as int, fa.x as int, big, MAX_COORD as int);
            crate::math::lemma_mul_bound(va as int, fa.y as int, big, MAX_COORD as int);
            crate::math::lemma_mul_bound(va as int, fa.z as int, big, MAX_COORD as int);
            crate::math::lemma_mul_bound(vb as int, fb.x as int, big, MAX_COORD as int);
            crate::math::lemma_mul_bound(vb as int, fb.y as int, big, MAX_COORD as int);
            crate::math::lemma_mul_bound(vb as int, fb.z as int, big, MAX_COORD as int);
            crate::math::lemma_mul_bound(vc as int, fc.x as int, big, MAX_COORD as int);
            crate::math::lemma_mul_bound(vc as int, fc.y as int, big, MAX_COORD as int);
            crate::math::lemma_mul_bound(vc as int, fc.z as int, big, MAX_COORD as int);
            crate::math::lemma_mul_bound(den as int, m.translation.x as int, 3 * big, MAX_COORD as int);
            crate::math::lemma_mul_bound(den as int, m.translation.y as int, 3 * big, MAX_COORD as int);
            crate::math::lemma_mul_bound(den as int, m.translation.z as int, 3 * big, MAX_COORD as int);
        }
        let nx: i128 = va * (fa.x as i128) + vb * (fb.x as i128) + vc * (fc.x as i128) + den * (
        m.translation.x as i128);
        let ny: i128 = va * (fa.y as i128) + vb * (fb.y as i128) + vc * (fc.y as i128) + den * (
        m.translation.y as i128);
        let nz: i128 = va * (fa.z as i128) + vb * (fb.z as i128) + vc * (fc.z as i128) + den * (
        m.translation.z as i128);
        let proj = PointProjection { is_inside: false, nx, ny, nz, den };
        let loc = TetrahedronPointLocation::OnFace(i, (va, vb, vc));
        Some((proj, loc))
    } else {
        None
    }
}

/// The projection onto the plane of the face `i`, in unnormalized
/// barycentric form; the fallback when the point lies strictly beyond the
/// face's plane but no catalogued region claimed it.
fn face_plane_projection(
    t: &Tetrahedron,
    m: &Isometry,
    pt: &Vect,
    i: u32,
    fa: &Vect,
    fb: &Vect,
    fc: &Vect,
    n: &Vect,
    ap: &Vect,
    bp: &Vect,
    cp: &Vect,
) -> (r: (PointProjection, TetrahedronPointLocation))
    requires
        i < 4,
        (*fa, *fb, *fc) == spec_face(*t, i),
        bounded(*fa, MAX_COORD as int),
        bounded(*fb, MAX_COORD as int),
        bounded(*fc, MAX_COORD as int),
        bounded(m.translation, MAX_COORD as int),
        bounded(*pt, MAX_COORD as int),
        bounded(*ap, DIFF_BOUND as int),
        bounded(*bp, DIFF_BOUND as int),
        bounded(*cp, DIFF_BOUND as int),
        bounded(*n, CROSS_BOUND as int),
        (n.x as int, n.y as int, n.z as int) == face_normal(*t, i),
        face_normal(*t, i) != ((0int, 0int, 0int)),
        *ap == vdiff(local_point(*pt, *m), *fa),
        *bp == vdiff(local_point(*pt, *m), *fb),
        *cp == vdiff(local_point(*pt, *m), *fc),
        face_plane_separates(*t, local_point(*pt, *m), i),
        !weakly_inside(*t, local_point(*pt, *m)),
    ensures
        projection_sound(*t, *m, *pt, r.0, r.1),
        r.1 is OnFace,
{
    let cr1: Vect = cross3(bp, cp);
    let cr2: Vect = cross3(cp, ap);
    let cr3: Vect = cross3(ap, bp);
    let va: i128 = n.dot(&cr1);
    let vb: i128 = n.dot(&cr2);
    let vc: i128 = n.dot(&cr3);
    let den: i128 = va + vb + vc;
    proof {
        let lp = local_point(*pt, *m);
        lemma_face_weights_sum(*fa, *fb, *fc, lp, *n);
        assert(va == spec_dot(*n, cr1));
        assert(va == dot3(spec_cross(*bp, *cp), *n)) by (nonlinear_arith)
            requires
                va == spec_dot(*n, cr1),
                (cr1.x as int, cr1.y as int, cr1.z as int) == spec_cross(*bp, *cp),
        ;
        assert(vb == spec_dot(*n, cr2));
        assert(vb == dot3(spec_cross(*cp, *ap), *n)) by (nonlinear_arith)
            requires
                vb == spec_dot(*n, cr2),
                (cr2.x as int, cr2.y as int, cr2.z as int) == spec_cross(*cp, *ap),
        ;
        assert(vc == spec_dot(*n, cr3));
        assert(vc == dot3(spec_cross(*ap, *bp), *n)) by (nonlinear_arith)
            requires
                vc == spec_dot(*n, cr3),
                (cr3.x as int, cr3.y as int, cr3.z as int) == spec_cross(*ap, *bp),
        ;
        assert(den == spec_dot(*n, *n));
        lemma_nonzero_dot_self_positive(*n);
        let big = 3 * (CROSS_BOUND as int) * (CROSS_BOUND as int);
        crate::math::lemma_mul_bound(va as int, fa.x as int, big, MAX_COORD as int);
        crate::math::lemma_mul_bound(va as int, fa.y as int, big, MAX_COORD as int);
        crate::math::lemma_mul_bound(va as int, fa.z as int, big, MAX_COORD as int);
        crate::math::lemma_mul_bound(vb as int, fb.x as int, big, MAX_COORD as int);
        crate::math::lemma_mul_bound(vb as int, fb.y as int, big, MAX_COORD as int);
        crate::math::lemma_mul_bound(vb as int, fb.z as int, big, MAX_COORD as int);
        crate::math::lemma_mul_bound(vc as int, fc.x as int, big, MAX_COORD as int);
        crate::math::lemma_mul_bound(vc as int, fc.y as int, big, MAX_COORD as int);
        crate::math::lemma_mul_bound(vc as int, fc.z as int, big, MAX_COORD as int);
        crate::math::lemma_mul_bound(den as int, m.translation.x as int, 3 * big, MAX_COORD as int);
        crate::math::lemma_mul_bound(den as int, m.translation.y as int, 3 * big, MAX_COORD as int);
        crate::math::lemma_mul_bound(den as int, m.translation.z as int, 3 * big, MAX_COORD as int);
    }
    let nx: i128 = va * (fa.x as i128) + vb * (fb.x as i128) + vc * (fc.x as i128) + den * (
    m.translation.x as i128);
    let ny: i128 = va * (fa.y as i128) + vb * (fb.y as i128) + vc * (fc.y as i128) + den * (
    m.translation.y as i128);
    let nz: i128 = va * (fa.z as i128) + vb * (fb.z as i128) + vc * (fc.z as i128) + den * (
    m.translation.z as i128);
    let proj = PointProjection { is_inside: false, nx, ny, nz, den };
    let loc = TetrahedronPointLocation::OnFace(i, (va, vb, vc));
    (proj, loc)
}

/// The dot product of an exact integer triple with a vector.
pub open spec fn dot3(a: (int, int, int), n: Vect) -> int {
    a.0 * n.x + a.1 * n.y + a.2 * n.z
}

/// The three unnormalized barycentric weights of a point against a triangle
/// sum to the squared length of the triangle's normal: the cross products of
/// the point's offsets telescope back to the normal itself.
proof fn lemma_face_weights_sum(fa: Vect, fb: Vect, fc: Vect, p: Vect, n: Vect)
    requires
        (n.x as int, n.y as int, n.z as int) == spec_cross(vdiff(fb, fa), vdiff(fc, fa)),
        bounded(fa, MAX_COORD as int),
        bounded(fb, MAX_COORD as int),
        bounded(fc, MAX_COORD as int),
        bounded(p, 2 * MAX_COORD as int),
    ensures
        dot3(spec_cross(vdiff(p, fb), vdiff(p, fc)), n) + dot3(
            spec_cross(vdiff(p, fc), vdiff(p, fa)),
            n,
        ) + dot3(spec_cross(vdiff(p, fa), vdiff(p, fb)), n) == spec_dot(n, n),
{
    let bp = vdiff(p, fb);
    let cp = vdiff(p, fc);
    let ap = vdiff(p, fa);
    let s1 = spec_cross(bp, cp);
    let s2 = spec_cross(cp, ap);
    let s3 = spec_cross(ap, bp);
    lemma_telescope(p.y as int, p.z as int, fa.y as int, fa.z as int, fb.y as int, fb.z as int,
        fc.y as int, fc.z as int);
    lemma_telescope(p.z as int, p.x as int, fa.z as int, fa.x as int, fb.z as int, fb.x as int,
        fc.z as int, fc.x as int);
    lemma_telescope(p.x as int, p.y as int, fa.x as int, fa.y as int, fb.x as int, fb.y as int,
        fc.x as int, fc.y as int);
    assert(s1.0 + s2.0 + s3.0 == n.x);
    assert(s1.1 + s2.1 + s3.1 == n.y);
    assert(s1.2 + s2.2 + s3.2 == n.z);
    assert(dot3(s1, n) + dot3(s2, n) + dot3(s3, n) == spec_dot(n, n)) by (nonlinear_arith)
        requires
            s1.0 + s2.0 + s3.0 == n.x,
            s1.1 + s2.1 + s3.1 == n.y,
            s1.2 + s2.2 + s3.2 == n.z,
    ;
}

/// In each coordinate plane the three offset cross terms telescope to the
/// triangle's own cross term.
proof fn lemma_telescope(pu: int, pv: int, au: int, av: int, bu: int, bv: int, cu: int, cv: int)
    ensures
        (pu - bu) * (pv - cv) - (pv - bv) * (pu - cu) + (pu - cu) * (pv - av) - (pv - cv) * (pu
            - au) + (pu - au) * (pv - bv) - (pv - av) * (pu - bu) == (bu - au) * (cv - av) - (bv
            - av) * (cu - au),
{
    assert((pu - bu) * (pv - cv) - (pv - bv) * (pu - cu) + (pu - cu) * (pv - av) - (pv - cv) * (pu
            - au) + (pu - au) * (pv - bv) - (pv - av) * (pu - bu) == (bu - au) * (cv - av) - (bv
            - av) * (cu - au)) by (nonlinear_arith);
}

/// A nonzero integer vector has a positive dot product with itself.
proof fn lemma_nonzero_dot_self_positive(n: Vect)
    requires
        !(n.x == 0 && n.y == 0 && n.z == 0),
    ensures
        spec_dot(n, n) > 0,
{
    assert(spec_dot(n, n) > 0) by (nonlinear_arith)
        requires
            !(n.x == 0 && n.y == 0 && n.z == 0),
    ;
}


/// A cross product can only be nonzero when both arguments are.
proof fn lemma_cross_nonzero_args(a: Vect, b: Vect)
    requires
        spec_cross(a, b) != ((0int, 0int, 0int)),
    ensures
        !(a.x == 0 && a.y == 0 && a.z == 0),
        !(b.x == 0 && b.y == 0 && b.z == 0),
{
    if a.x == 0 && a.y == 0 && a.z == 0 {
        assert(spec_cross(a, b) == ((0int, 0int, 0int))) by (nonlinear_arith)
            requires
                a.x == 0 && a.y == 0 && a.z == 0,
        ;
    }
    if b.x == 0 && b.y == 0 && b.z == 0 {
        assert(spec_cross(a, b) == ((0int, 0int, 0int))) by (nonlinear_arith)
            requires
                b.x == 0 && b.y == 0 && b.z == 0,
        ;
    }
}

impl Tetrahedron {
    /// For each face in order, whether the query point lies weakly on the
    /// same side of the face's plane as the opposite vertex.
    fn plane_sides(&self, m: &Isometry, pt: &Vect) -> (r: (bool, bool, bool, bool))
        requires
            crate::shape::tetrahedron_wf(*self),
            bounded(m.translation, MAX_COORD as int),
            bounded(*pt, MAX_COORD as int),
        ensures
            r.0 == !face_plane_separates(*self, local_point(*pt, *m), 0),
            r.1 == !face_plane_separates(*self, local_point(*pt, *m), 1),
            r.2 == !face_plane_separates(*self, local_point(*pt, *m), 2),
            r.3 == !face_plane_separates(*self, local_point(*pt, *m), 3),
    {
        let tr: Vect = m.translation;
        let p: Vect = pt.minus(&tr);
        let a: Vect = self.pa;
        let b: Vect = self.pb;
        let c: Vect = self.pc;
        let d: Vect = self.pd;
        let ab: Vect = b.minus(&a);
        let ac: Vect = c.minus(&a);
        let ad: Vect = d.minus(&a);
        let bc: Vect = c.minus(&b);
        let bd: Vect = d.minus(&b);
        let ap: Vect = p.minus(&a);
        let bp: Vect = p.minus(&b);
        let nabc: Vect = cross3(&ab, &ac);
        let nabd: Vect = cross3(&ab, &ad);
        let nacd: Vect = cross3(&ac, &ad);
        let nbcd: Vect = cross3(&bc, &bd);
        let ab_neg: Vect = ab.neg();
        let o1: i128 = nabc.dot(&ad);
        let q1: i128 = nabc.dot(&ap);
        let o2: i128 = nabd.dot(&ac);
        let q2: i128 = nabd.dot(&ap);
        let o3: i128 = nacd.dot(&ab);
        let q3: i128 = nacd.dot(&ap);
        let o4: i128 = nbcd.dot(&ab_neg);
        let q4: i128 = nbcd.dot(&bp);
        let s1: bool = (o1 >= 0 && q1 >= 0) || (o1 <= 0 && q1 <= 0);
        let s2: bool = (o2 >= 0 && q2 >= 0) || (o2 <= 0 && q2 <= 0);
        let s3: bool = (o3 >= 0 && q3 >= 0) || (o3 <= 0 && q3 <= 0);
        let s4: bool = (o4 >= 0 && q4 >= 0) || (o4 <= 0 && q4 <= 0);
        proof {
            lemma_plane_side(*self, p, 0, o1, q1, nabc, ad, ap);
            lemma_plane_side(*self, p, 1, o2, q2, nabd, ac, ap);
            lemma_plane_side(*self, p, 2, o3, q3, nacd, ab, ap);
            lemma_plane_side(*self, p, 3, o4, q4, nbcd, ab_neg, bp);
            assert(s1 <==> !face_plane_separates(*self, p, 0)) by (nonlinear_arith)
                requires
                    o1 * q1 == dot3(face_normal(*self, 0), face_opp(*self, 0)) * dot3(
                        face_normal(*self, 0),
                        vdiff(p, spec_face(*self, 0).0),
                    ),
                    s1 == ((o1 >= 0 && q1 >= 0) || (o1 <= 0 && q1 <= 0)),
            ;
            assert(s2 <==> !face_plane_separates(*self, p, 1)) by (nonlinear_arith)
                requires
                    o2 * q2 == dot3(face_normal(*self, 1), face_opp(*self, 1)) * dot3(
                        face_normal(*self, 1),
                        vdiff(p, spec_face(*self, 1).0),
                    ),
                    s2 == ((o2 >= 0 && q2 >= 0) || (o2 <= 0 && q2 <= 0)),
            ;
            assert(s3 <==> !face_plane_separates(*self, p, 2)) by (nonlinear_arith)
                requires
                    o3 * q3 == dot3(face_normal(*self, 2), face_opp(*self, 2)) * dot3(
                        face_normal(*self, 2),
                        vdiff(p, spec_face(*self, 2).0),
                    ),
                    s3 == ((o3 >= 0 && q3 >= 0) || (o3 <= 0 && q3 <= 0)),
            ;
            assert(s4 <==> !face_plane_separates(*self, p, 3)) by (nonlinear_arith)
                requires
                    o4 * q4 == dot3(face_normal(*self, 3), face_opp(*self, 3)) * dot3(
                        face_normal(*self, 3),
                        vdiff(p, spec_face(*self, 3).0),
                    ),
                    s4 == ((o4 >= 0 && q4 >= 0) || (o4 <= 0 && q4 <= 0)),
            ;
        }
        (s1, s2, s3, s4)
    }

    /// Whether the point lies in the closed tetrahedron placed at `m`:
    /// weakly on the inner side of all four face planes.  Callers of the
    /// non-solid projection discharge its precondition with this test.
    pub fn contains_point(&self, m: &Isometry, pt: &Vect) -> (r: bool)
        requires
            crate::shape::tetrahedron_wf(*self),
            bounded(m.translation, MAX_COORD as int),
            bounded(*pt, MAX_COORD as int),
        ensures
            r == weakly_inside(*self, local_point(*pt, *m)),
    {
        let (s1, s2, s3, s4) = self.plane_sides(m, pt);
        proof {
            if s1 && s2 && s3 && s4 {
                assert forall|i: u32| i < 4 implies !(#[trigger] face_plane_separates(
                    *self,
                    local_point(*pt, *m),
                    i,
                )) by {
                    if i == 0 {
                    } else if i == 1 {
                    } else if i == 2 {
                    } else {
                        assert(i == 3);
                    }
                }
            } else {
                if !s1 {
                    assert(face_plane_separates(*self, local_point(*pt, *m), 0));
                } else if !s2 {
                    assert(face_plane_separates(*self, local_point(*pt, *m), 1));
                } else if !s3 {
                    assert(face_plane_separates(*self, local_point(*pt, *m), 2));
                } else {
                    assert(face_plane_separates(*self, local_point(*pt, *m), 3));
                }
            }
        }
        s1 && s2 && s3 && s4
    }

    /// Projects a point onto this tetrahedron placed at `m`, reporting the
    /// Voronoï region of the nearest feature.  A point of the closed
    /// tetrahedron — weakly inside all four face planes — is reported
    /// `OnSolid` and returned unchanged (exactly there, and only there);
    /// every other point is classified against the vertex, edge and face
    /// regions in a fixed order, each returned tag carrying its region's
    /// defining sign conditions.
    ///
    /// The returned projection is exact, in homogeneous world coordinates.
    #[verifier::rlimit(100)]
    pub fn project_point_with_location(&self, m: &Isometry, pt: &Vect, solid: bool) -> (r: (
        PointProjection,
        TetrahedronPointLocation,
    ))
        requires
            crate::shape::tetrahedron_wf(*self),
            tetrahedron_nondegenerate(*self),
            bounded(m.translation, MAX_COORD as int),
            bounded(*pt, MAX_COORD as int),
            solid || !weakly_inside(*self, local_point(*pt, *m)),
        ensures
            projection_sound(*self, *m, *pt, r.0, r.1),
            r.1 is OnSolid <==> weakly_inside(*self, local_point(*pt, *m)),
    {
        let tr: Vect = m.translation;
        let p: Vect = pt.minus(&tr);
        let a: Vect = self.pa;
        let b: Vect = self.pb;
        let c: Vect = self.pc;
        let d: Vect = self.pd;
        let ab: Vect = b.minus(&a);
        let ac: Vect = c.minus(&a);
        let ad: Vect = d.minus(&a);
        let bc: Vect = c.minus(&b);
        let bd: Vect = d.minus(&b);
        let cd: Vect = d.minus(&c);
        let ap: Vect = p.minus(&a);
        let bp: Vect = p.minus(&b);
        let cp: Vect = p.minus(&c);
        let dp: Vect = p.minus(&d);
        let nabc: Vect = cross3(&ab, &ac);
        let nabd: Vect = cross3(&ab, &ad);
        let nacd: Vect = cross3(&ac, &ad);
        let nbcd: Vect = cross3(&bc, &bd);
        let ab_neg: Vect = ab.neg();
        // Is the point weakly inside all four face planes?
        let (s1, s2, s3, s4) = self.plane_sides(m, pt);
        if s1 && s2 && s3 && s4 {
            proof {
                assert forall|i: u32| i < 4 implies !(#[trigger] face_plane_separates(
                    *self,
                    p,
                    i,
                )) by {
                    if i == 0 {
                    } else if i == 1 {
                    } else if i == 2 {
                    } else {
                        assert(i == 3);
                    }
                }
            }
            let proj = PointProjection {
                is_inside: true,
                nx: pt.x as i128,
                ny: pt.y as i128,
                nz: pt.z as i128,
                den: 1,
            };
            return (proj, TetrahedronPointLocation::OnSolid);
        }
        proof {
            assert(!weakly_inside(*self, p)) by {
                if !s1 {
                    assert(face_plane_separates(*self, p, 0));
                } else if !s2 {
                    assert(face_plane_separates(*self, p, 1));
                } else if !s3 {
                    assert(face_plane_separates(*self, p, 2));
                } else {
                    assert(face_plane_separates(*self, p, 3));
                }
            }
        }
        // Voronoi regions of the vertices.
        let ap_ab: i128 = ap.dot(&ab);
        let ap_ac: i128 = ap.dot(&ac);
        let ap_ad: i128 = ap.dot(&ad);
        if ap_ab <= 0 && ap_ac <= 0 && ap_ad <= 0 {
            let proj = PointProjection {
                is_inside: false,
                nx: (a.x + tr.x) as i128,
                ny: (a.y + tr.y) as i128,
                nz: (a.z + tr.z) as i128,
                den: 1,
            };
            return (proj, TetrahedronPointLocation::OnVertex(0));
        }
        let bp_bc: i128 = bp.dot(&bc);
        let bp_bd: i128 = bp.dot(&bd);
        let bp_ab: i128 = bp.dot(&ab);
        if bp_bc <= 0 && bp_bd <= 0 && bp_ab >= 0 {
            let proj = PointProjection {
                is_inside: false,
                nx: (b.x + tr.x) as i128,
                ny: (b.y + tr.y) as i128,
                nz: (b.z + tr.z) as i128,
                den: 1,
            };
            return (proj, TetrahedronPointLocation::OnVertex(1));
        }
        let cp_ac: i128 = cp.dot(&ac);
        let cp_bc: i128 = cp.dot(&bc);
        let cp_cd: i128 = cp.dot(&cd);
        if cp_cd <= 0 && cp_bc >= 0 && cp_ac >= 0 {
            let proj = PointProjection {
                is_inside: false,
                nx: (c.x + tr.x) as i128,
                ny: (c.y + tr.y) as i128,
                nz: (c.z + tr.z) as i128,
                den: 1,
            };
            return (proj, TetrahedronPointLocation::OnVertex(2));
        }
        let dp_cd: i128 = dp.dot(&cd);
        let dp_bd: i128 = dp.dot(&bd);
        let dp_ad: i128 = dp.dot(&ad);
        if dp_ad >= 0 && dp_bd >= 0 && dp_cd >= 0 {
            let proj = PointProjection {
                is_inside: false,
                nx: (d.x + tr.x) as i128,
                ny: (d.y + tr.y) as i128,
                nz: (d.z + tr.z) as i128,
                den: 1,
            };
            return (proj, TetrahedronPointLocation::OnVertex(3));
        }
        // Voronoi regions of the edges.
        proof {
            lemma_cross_nonzero_args(ab, ac);
            lemma_cross_nonzero_args(ab, ad);
            lemma_cross_nonzero_args(ac, ad);
            lemma_cross_nonzero_args(bc, bd);
            lemma_nonzero_dot_self_positive(ab);
            lemma_nonzero_dot_self_positive(ac);
            lemma_nonzero_dot_self_positive(ad);
            lemma_nonzero_dot_self_positive(bc);
            lemma_nonzero_dot_self_positive(bd);
            assert(!(cd.x == 0 && cd.y == 0 && cd.z == 0)) by {
                if cd.x == 0 && cd.y == 0 && cd.z == 0 {
                    assert(ad.x == ac.x + cd.x && ad.y == ac.y + cd.y && ad.z == ac.z + cd.z);
                    assert(spec_cross(ac, ad) == ((0int, 0int, 0int))) by (nonlinear_arith)
                        requires
                            ad.x == ac.x,
                            ad.y == ac.y,
                            ad.z == ac.z,
                    ;
                }
            }
            lemma_nonzero_dot_self_positive(cd);
            crate::math::lemma_dot_bound(ap, ab, 0x30_0000, 0x20_0000);
            crate::math::lemma_dot_bound(ab, ab, 0x20_0000, 0x20_0000);
            crate::math::lemma_dot_bound(ap, ac, 0x30_0000, 0x20_0000);
            crate::math::lemma_dot_bound(ac, ac, 0x20_0000, 0x20_0000);
            crate::math::lemma_dot_bound(ap, ad, 0x30_0000, 0x20_0000);
            crate::math::lemma_dot_bound(ad, ad, 0x20_0000, 0x20_0000);
            crate::math::lemma_dot_bound(bp, bc, 0x30_0000, 0x20_0000);
            crate::math::lemma_dot_bound(bc, bc, 0x20_0000, 0x20_0000);
            crate::math::lemma_dot_bound(bp, bd, 0x30_0000, 0x20_0000);
            crate::math::lemma_dot_bound(bd, bd, 0x20_0000, 0x20_0000);
            crate::math::lemma_dot_bound(cp, cd, 0x30_0000, 0x20_0000);
            crate::math::lemma_dot_bound(cd, cd, 0x20_0000, 0x20_0000);
        }
        let ab_ab: i128 = ab.dot(&ab);
        let ac_ac: i128 = ac.dot(&ac);
        let ad_ad: i128 = ad.dot(&ad);
        let bc_bc: i128 = bc.dot(&bc);
        let bd_bd: i128 = bd.dot(&bd);
        let cd_cd: i128 = cd.dot(&cd);
        let nabc_neg: Vect = nabc.neg();
        let nabd_neg: Vect = nabd.neg();
        let nacd_neg: Vect = nacd.neg();
        let nbcd_neg: Vect = nbcd.neg();
        // Edge ab.
        let (dabc, dabd, res) = check_edge(self, m, pt, 0, &a, &b, &nabc, &nabd, &ap, &ab, ap_ab, ab_ab);
        if let Some(pl) = res {
            return pl;
        }
        // Edge ac.
        let (dacd, dacb, res) = check_edge(
            self,
            m,
            pt,
            1,
            &a,
            &c,
            &nacd,
            &nabc_neg,
            &ap,
            &ac,
            ap_ac,
            ac_ac,
        );
        if let Some(pl) = res {
            return pl;
        }
        // Edge ad.
        let (dadb, dadc, res) = check_edge(
            self,
            m,
            pt,
            2,
            &a,
            &d,
            &nabd_neg,
            &nacd_neg,
            &ap,
            &ad,
            ap_ad,
            ad_ad,
        );
        if let Some(pl) = res {
            return pl;
        }
        // Edge bc.
        let (dbca, dbcd, res) = check_edge(self, m, pt, 3, &b, &c, &nabc, &nbcd, &bp, &bc, bp_bc, bc_bc);
        if let Some(pl) = res {
            return pl;
        }
        // Edge bd.
        let (dbdc, dbda, res) = check_edge(
            self,
            m,
            pt,
            4,
            &b,
            &d,
            &nbcd_neg,
            &nabd,
            &bp,
            &bd,
            bp_bd,
            bd_bd,
        );
        if let Some(pl) = res {
            return pl;
        }
        // Edge cd.
        let (dcda, dcdb, res) = check_edge(self, m, pt, 5, &c, &d, &nacd, &nbcd, &cp, &cd, cp_cd, cd_cd);
        if let Some(pl) = res {
            return pl;
        }
        // Voronoi regions of the faces; the edge signs above are the gates.
        let res = check_face(self, m, pt, 0, &a, &b, &c, &nabc, &ad, &ap, &bp, &cp, dabc, dbca, dacb);
        if let Some(pl) = res {
            return pl;
        }
        let res = check_face(self, m, pt, 1, &a, &b, &d, &nabd, &ac, &ap, &bp, &dp, dabd, dbda, dadb);
        if let Some(pl) = res {
            return pl;
        }
        let res = check_face(self, m, pt, 2, &a, &c, &d, &nacd, &ab, &ap, &cp, &dp, dacd, dcda, dadc);
        if let Some(pl) = res {
            return pl;
        }
        let res = check_face(
            self,
            m,
            pt,
            3,
            &b,
            &c,
            &d,
            &nbcd,
            &ab_neg,
            &bp,
            &cp,
            &dp,
            dbcd,
            dcdb,
            dbdc,
        );
        if let Some(pl) = res {
            return pl;
        }
        // No catalogued region claimed the outside point (exact-arithmetic
        // analysis leaves this unreachable): fall back to the projection
        // onto the plane of a strictly separating face.
        if !s1 {
            face_plane_projection(self, m, pt, 0, &a, &b, &c, &nabc, &ap, &bp, &cp)
        } else if !s2 {
            face_plane_projection(self, m, pt, 1, &a, &b, &d, &nabd, &ap, &bp, &dp)
        } else if !s3 {
            face_plane_projection(self, m, pt, 2, &a, &c, &d, &nacd, &ap, &cp, &dp)
        } else if !s4 {
            face_plane_projection(self, m, pt, 3, &b, &c, &d, &nbcd, &bp, &cp, &dp)
        } else {
            proof {
                assert(false);
            }
            unreached()
        }
    }

    /// Projects a point onto this tetrahedron placed at `m`: the first
    /// component of `project_point_with_location`, with the feature dropped.
    pub fn project_point(&self, m: &Isometry, pt: &Vect, solid: bool) -> (r: PointProjection)
        requires
            crate::shape::tetrahedron_wf(*self),
            tetrahedron_nondegenerate(*self),
            bounded(m.translation, MAX_COORD as int),
            bounded(*pt, MAX_COORD as int),
            solid || !weakly_inside(*self, local_point(*pt, *m)),
        ensures
            exists|loc: TetrahedronPointLocation|
                #[trigger] projection_sound(*self, *m, *pt, r, loc) && (loc is OnSolid
                    <==> weakly_inside(*self, local_point(*pt, *m))),
            r.is_inside <==> weakly_inside(*self, local_point(*pt, *m)),
    {
        let (projection, loc) = self.project_point_with_location(m, pt, solid);
        proof {
            assert(projection_sound(*self, *m, *pt, projection, loc));
        }
        projection
    }
}

/// Relates the exec plane-side dot products of the face `i` to their exact
/// spec counterparts, so a sign test decides `face_plane_separates`.
proof fn lemma_plane_side(
    t: Tetrahedron,
    p: Vect,
    i: u32,
    o: i128,
    q: i128,
    n: Vect,
    opp: Vect,
    off: Vect,
)
    requires
        i < 4,
        (n.x as int, n.y as int, n.z as int) == face_normal(t, i),
        opp == face_opp(t, i),
        off == vdiff(p, spec_face(t, i).0),
        o == spec_dot(n, opp),
        q == spec_dot(n, off),
    ensures
        o * q == dot3(face_normal(t, i), face_opp(t, i)) * dot3(
            face_normal(t, i),
            vdiff(p, spec_face(t, i).0),
        ),
{
    let ntup = face_normal(t, i);
    assert(o == dot3(ntup, opp)) by (nonlinear_arith)
        requires
            o == spec_dot(n, opp),
            (n.x as int, n.y as int, n.z as int) == ntup,
    ;
    assert(q == dot3(ntup, off)) by (nonlinear_arith)
        requires
            q == spec_dot(n, off),
            (n.x as int, n.y as int, n.z as int) == ntup,
    ;
}

} // verus!
