//! Point projection on a tetrahedron: a battery of points covering each of
//! the fifteen Voronoï regions of a unit tetrahedron (scaled by one
//! thousand), checking the reported feature and the exact squared distance
//! against an independently computed reference.

use ncollide::inspection::{Repr, ShapeTag, SHAPE_REPR_ID};
use ncollide::math::{Isometry, Vect};
use ncollide::query::TetrahedronPointLocation;
use ncollide::shape::{Ball, Cuboid, Cylinder, Shape, Tetrahedron, BALL_TYPE_ID};

fn tetra() -> Tetrahedron {
    Tetrahedron::new(
        Vect::new(0, 0, 0),
        Vect::new(1000, 0, 0),
        Vect::new(0, 1000, 0),
        Vect::new(0, 0, 1000),
    )
}

fn ident() -> Isometry {
    Isometry::new(Vect::new(0, 0, 0))
}

/// Squared distance between the query point and the rational projection, in
/// floating point, for comparison with the reference.
fn dist_sq_to(pt: (f64, f64, f64), nx: i128, ny: i128, nz: i128, den: i128) -> f64 {
    let d = den as f64;
    let px = nx as f64 / d;
    let py = ny as f64 / d;
    let pz = nz as f64 / d;
    let dx = pt.0 - px;
    let dy = pt.1 - py;
    let dz = pt.2 - pz;
    dx * dx + dy * dy + dz * dz
}

fn check(
    pt: (i64, i64, i64),
    expected_dist_sq: f64,
    classify: impl Fn(&TetrahedronPointLocation) -> bool,
) {
    let t = tetra();
    let m = ident();
    let p = Vect::new(pt.0, pt.1, pt.2);
    let (proj, loc) = t.project_point_with_location(&m, &p, true);
    assert!(classify(&loc), "unexpected location {:?} for {:?}", loc, pt);
    let got = dist_sq_to(
        (pt.0 as f64, pt.1 as f64, pt.2 as f64),
        proj.nx,
        proj.ny,
        proj.nz,
        proj.den,
    );
    // The reference distances are given in scene units (one unit = 1000
    // fixed-point steps), so scale before comparing.
    let got_units = got / 1.0e6;
    assert!(
        (got_units - expected_dist_sq).abs() < 1e-6,
        "distance {} differs from reference {} at {:?} ({:?})",
        got_units,
        expected_dist_sq,
        pt,
        loc
    );
    assert_eq!(proj.is_inside, matches!(loc, TetrahedronPointLocation::OnSolid));
}

#[test]
fn tetrahedron_vertex_regions() {
    check((-1000, -1000, -1000), 3.0, |l| {
        matches!(l, TetrahedronPointLocation::OnVertex(0))
    });
    check((3000, -1000, -1000), 6.0, |l| {
        matches!(l, TetrahedronPointLocation::OnVertex(1))
    });
    check((-1000, 3000, -1000), 6.0, |l| {
        matches!(l, TetrahedronPointLocation::OnVertex(2))
    });
    check((-1000, -1000, 3000), 6.0, |l| {
        matches!(l, TetrahedronPointLocation::OnVertex(3))
    });
}

#[test]
fn tetrahedron_edge_regions() {
    // Edge ab, its interior point (0.5, 0, 0).
    check((500, -1000, 0), 1.0, |l| {
        matches!(l, TetrahedronPointLocation::OnEdge(0, _))
    });
    // Edge ac, its interior point (0, 0.5, 0).
    check((-1000, 500, 0), 1.0, |l| {
        matches!(l, TetrahedronPointLocation::OnEdge(1, _))
    });
    // Edge ad, its interior point (0, 0, 0.5).
    check((-700, -700, 500), 0.98, |l| {
        matches!(l, TetrahedronPointLocation::OnEdge(2, _))
    });
    // Edge bc, its interior point (0.5, 0.5, 0).
    check((1000, 1000, -1000), 1.5, |l| {
        matches!(l, TetrahedronPointLocation::OnEdge(3, _))
    });
    // Edge bd, its interior point (0.5, 0, 0.5).
    check((700, -700, 700), 0.57, |l| {
        matches!(l, TetrahedronPointLocation::OnEdge(4, _))
    });
    // Edge cd, its interior point (0, 0.5, 0.5).
    check((-700, 700, 700), 0.57, |l| {
        matches!(l, TetrahedronPointLocation::OnEdge(5, _))
    });
}

#[test]
fn tetrahedron_face_regions() {
    // Face abc lies in the plane z = 0.
    check((200, 200, -500), 0.25, |l| {
        matches!(l, TetrahedronPointLocation::OnFace(0, _))
    });
    // Face abd lies in the plane y = 0.
    check((200, -500, 200), 0.25, |l| {
        matches!(l, TetrahedronPointLocation::OnFace(1, _))
    });
    // Face acd lies in the plane x = 0.
    check((-500, 200, 200), 0.25, |l| {
        matches!(l, TetrahedronPointLocation::OnFace(2, _))
    });
    // Face bcd lies in the plane x + y + z = 1.
    let off: f64 = 0.8 / 3.0;
    check((600, 600, 600), 3.0 * off * off, |l| {
        matches!(l, TetrahedronPointLocation::OnFace(3, _))
    });
}

#[test]
fn tetrahedron_interior() {
    check((200, 200, 200), 0.0, |l| matches!(l, TetrahedronPointLocation::OnSolid));
    let t = tetra();
    let (proj, loc) = t.project_point_with_location(&ident(), &Vect::new(200, 200, 200), true);
    assert!(proj.is_inside);
    assert_eq!(proj.nx, 200);
    assert_eq!(proj.ny, 200);
    assert_eq!(proj.nz, 200);
    assert_eq!(proj.den, 1);
    assert!(loc.same_feature_as(&TetrahedronPointLocation::OnSolid));
}

#[test]
fn same_feature_compares_tags_only() {
    let va = TetrahedronPointLocation::OnVertex(1);
    let vb = TetrahedronPointLocation::OnVertex(1);
    let vc = TetrahedronPointLocation::OnVertex(2);
    assert!(va.same_feature_as(&vb));
    assert!(!va.same_feature_as(&vc));
    let e1 = TetrahedronPointLocation::OnEdge(3, (1, 2));
    let e2 = TetrahedronPointLocation::OnEdge(3, (7, 9));
    let e3 = TetrahedronPointLocation::OnEdge(4, (1, 2));
    assert!(e1.same_feature_as(&e2));
    assert!(!e1.same_feature_as(&e3));
    assert!(!va.same_feature_as(&e1));
    let f1 = TetrahedronPointLocation::OnFace(0, (1, 1, 1));
    let f2 = TetrahedronPointLocation::OnFace(0, (2, 1, 1));
    assert!(f1.same_feature_as(&f2));
    assert!(!f1.same_feature_as(&TetrahedronPointLocation::OnSolid));
}

#[test]
fn cylinder_bounding_sphere_is_exact() {
    let c = Cylinder::new(300, 400);
    let m = Isometry::new(Vect::new(7, -9, 11));
    let bs = c.bounding_volume(&m);
    assert_eq!(bs.center(), Vect::new(7, -9, 11));
    assert_eq!(bs.radius_sq(), 400 * 400 + 300 * 300);
}

#[test]
fn shape_tags_and_repr() {
    let s = Shape::Ball(Ball::new(500));
    let desc = s.repr();
    assert_eq!(desc.type_id(), BALL_TYPE_ID);
    assert_eq!(desc.repr_id(), SHAPE_REPR_ID);
    assert!(matches!(desc.repr(), ShapeTag::Ball));
    assert!(s.as_ball().is_some());
    let c = Shape::Cuboid(Cuboid::new(Vect::new(1, 2, 3)));
    assert!(c.as_ball().is_none());
}

#[test]
fn non_solid_projection_outside() {
    // With `solid == false` an outside point projects exactly as the solid
    // query does; the membership test discharges the precondition.
    let t = tetra();
    let m = ident();
    let outside = Vect::new(500, -1000, 0);
    assert!(!t.contains_point(&m, &outside));
    let (proj, loc) = t.project_point_with_location(&m, &outside, false);
    assert!(matches!(loc, TetrahedronPointLocation::OnEdge(0, _)));
    assert!(!proj.is_inside);

    let inside = Vect::new(200, 200, 200);
    assert!(t.contains_point(&m, &inside));
    assert!(t.project_point(&m, &inside, true).is_inside);
}
