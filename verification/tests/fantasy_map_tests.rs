use fantasy_map::dcel::{Dcel, HalfEdge, Ref};
use fantasy_map::node_map::NodeMap;
use fantasy_map::render_config::CircleConfig;
use fantasy_map::GlibcRand;

type Point = (f64, f64);

#[test]
fn rand_test_glibc_rand_sequence() {
    // srand(42), skip 1000 outputs, then the next five values of glibc's rand().
    let mut rng = GlibcRand::new(42);
    for _ in 0..1000 {
        rng.rand();
    }
    assert_eq!(rng.rand(), 1963050744, "rand()[1000] mismatch");
    assert_eq!(rng.rand(), 30553106, "rand()[1001] mismatch");
    assert_eq!(rng.rand(), 957990501, "rand()[1002] mismatch");
    assert_eq!(rng.rand(), 953383689, "rand()[1003] mismatch");
    assert_eq!(rng.rand(), 348269264, "rand()[1004] mismatch");

    let mut rng = GlibcRand::new(42);
    for _ in 0..1000 {
        rng.rand();
    }
    let v = rng.rand();
    assert!(v >= 0 && v <= 0x7fffffff, "rand out of range: {}", v);
    let mut rng0 = GlibcRand::new(0);
    let v0 = rng0.rand();
    assert_ne!(v0, 0, "seed=0 should not produce zero rand values");
}

#[test]
fn test_glibc_rand_seed_zero_treated_as_one() {
    let mut rng0 = GlibcRand::new(0);
    let mut rng1 = GlibcRand::new(1);
    assert_eq!(rng0.rand(), rng1.rand(), "seed=0 should equal seed=1");
}

#[test]
fn ref_valid_and_invalid() {
    let valid = Ref::new(5);
    assert!(valid.is_valid());
    assert_eq!(valid.id, 5);

    let invalid = Ref::invalid();
    assert!(!invalid.is_valid());
    assert_eq!(invalid.id, -1);

    let zero = Ref::new(0);
    assert!(zero.is_valid());
}

#[test]
fn dcel_create_vertex() {
    let mut dcel: Dcel<Point> = Dcel::new();
    let v = dcel.create_vertex((1.0, 2.0));
    assert_eq!(v.id.id, 0);
    assert_eq!(v.position.0, 1.0);
    assert_eq!(v.position.1, 2.0);
    assert_eq!(dcel.vertices.len(), 1);
}

#[test]
fn dcel_create_multiple_vertices() {
    let mut dcel: Dcel<Point> = Dcel::new();
    let v0 = dcel.create_vertex((0.0, 0.0));
    let v1 = dcel.create_vertex((1.0, 0.0));
    let v2 = dcel.create_vertex((0.0, 1.0));
    assert_eq!(v0.id.id, 0);
    assert_eq!(v1.id.id, 1);
    assert_eq!(v2.id.id, 2);
    assert_eq!(dcel.vertices.len(), 3);
}

#[test]
fn dcel_create_half_edge_pairs() {
    let mut dcel: Dcel<Point> = Dcel::new();
    let e0 = dcel.create_half_edge();
    let e1 = dcel.create_half_edge();
    assert_eq!(e0.id.id, 0);
    assert_eq!(e1.id.id, 1);
    assert_eq!(dcel.edges.len(), 2);
}

#[test]
fn dcel_create_face() {
    let mut dcel: Dcel<Point> = Dcel::new();
    let f = dcel.create_face();
    assert_eq!(f.id.id, 0);
    assert_eq!(dcel.faces.len(), 1);
}

#[test]
fn dcel_lookup_by_ref() {
    let mut dcel: Dcel<Point> = Dcel::new();
    let v = dcel.create_vertex((5.0, 7.0));
    let looked_up = dcel.vertex(v.id);
    assert_eq!(looked_up.position.0, 5.0);
    assert_eq!(looked_up.position.1, 7.0);
}

#[test]
fn dcel_update_vertex() {
    let mut dcel: Dcel<Point> = Dcel::new();
    let mut v = dcel.create_vertex((0.0, 0.0));
    v.position = (10.0, 20.0);
    dcel.update_vertex(v);
    let updated = dcel.vertex(v.id);
    assert_eq!(updated.position.0, 10.0);
    assert_eq!(updated.position.1, 20.0);
}

#[test]
fn dcel_update_edge_twin_linkage() {
    let mut dcel: Dcel<Point> = Dcel::new();
    let mut e0 = dcel.create_half_edge();
    let mut e1 = dcel.create_half_edge();
    e0.twin = e1.id;
    e1.twin = e0.id;
    dcel.update_edge(e0);
    dcel.update_edge(e1);

    let twin_of_0 = dcel.twin(dcel.edge(e0.id));
    assert_eq!(twin_of_0.id, e1.id);
    let twin_of_1 = dcel.twin(dcel.edge(e1.id));
    assert_eq!(twin_of_1.id, e0.id);
}

#[test]
fn dcel_boundary_edge_detection() {
    let mut dcel: Dcel<Point> = Dcel::new();
    let mut e = dcel.create_half_edge();
    assert!(dcel.is_boundary(e));

    let f = dcel.create_face();
    e.incident_face = f.id;
    dcel.update_edge(e);
    assert!(!dcel.is_boundary(dcel.edge(e.id)));
}

/// A single triangle with its inner half-edges on face 0 and its outer
/// half-edges on the boundary.
fn build_triangle_dcel() -> Dcel<Point> {
    let mut d: Dcel<Point> = Dcel::new();
    let v0 = d.create_vertex((0.0, 0.0));
    let v1 = d.create_vertex((1.0, 0.0));
    let v2 = d.create_vertex((0.5, 1.0));

    let mut e01 = d.create_half_edge();
    let mut e12 = d.create_half_edge();
    let mut e20 = d.create_half_edge();

    let mut e10 = d.create_half_edge();
    let mut e21 = d.create_half_edge();
    let mut e02 = d.create_half_edge();

    let f = d.create_face();

    e01.origin = v0.id;
    e12.origin = v1.id;
    e20.origin = v2.id;
    e10.origin = v1.id;
    e21.origin = v2.id;
    e02.origin = v0.id;

    e01.twin = e10.id;
    e10.twin = e01.id;
    e12.twin = e21.id;
    e21.twin = e12.id;
    e20.twin = e02.id;
    e02.twin = e20.id;

    e01.next = e12.id;
    e12.next = e20.id;
    e20.next = e01.id;
    e01.prev = e20.id;
    e12.prev = e01.id;
    e20.prev = e12.id;

    e10.next = e02.id;
    e02.next = e21.id;
    e21.next = e10.id;
    e10.prev = e21.id;
    e02.prev = e10.id;
    e21.prev = e02.id;

    e01.incident_face = f.id;
    e12.incident_face = f.id;
    e20.incident_face = f.id;

    let mut f_up = f;
    f_up.outer_component = e01.id;
    d.update_face(f_up);

    let mut v0_up = v0;
    v0_up.incident_edge = e01.id;
    let mut v1_up = v1;
    v1_up.incident_edge = e12.id;
    let mut v2_up = v2;
    v2_up.incident_edge = e20.id;
    d.update_vertex(v0_up);
    d.update_vertex(v1_up);
    d.update_vertex(v2_up);

    d.update_edge(e01);
    d.update_edge(e12);
    d.update_edge(e20);
    d.update_edge(e10);
    d.update_edge(e21);
    d.update_edge(e02);

    d
}

#[test]
fn triangle_face_has_three_outer_components() {
    let d = build_triangle_dcel();
    let f = d.face(Ref::new(0));
    let edges = d.get_outer_components(&f);
    assert_eq!(edges.len(), 3);
}

#[test]
fn triangle_vertex_incident_edges() {
    let d = build_triangle_dcel();
    let v0 = d.vertex(Ref::new(0));
    let edges = d.get_incident_edges(v0);
    assert_eq!(edges.len(), 2);
}

#[test]
fn triangle_vertex_incident_faces() {
    let d = build_triangle_dcel();
    let v0 = d.vertex(Ref::new(0));
    let faces = d.get_incident_faces(v0);
    assert_eq!(faces.len(), 1);
    assert_eq!(faces[0].id.id, 0);
}

#[test]
fn half_edge_new_defaults_to_invalid() {
    let e = HalfEdge::new();
    assert!(!e.origin.is_valid());
    assert!(!e.twin.is_valid());
    assert!(!e.incident_face.is_valid());
    assert!(!e.next.is_valid());
    assert!(!e.prev.is_valid());
    assert!(!e.id.is_valid());
}

#[test]
fn new_creates_default_filled() {
    let nm: NodeMap<f64> = NodeMap::new(5);
    assert_eq!(nm.size(), 5);
    for i in 0..5 {
        assert_eq!(*nm.get(i), 0.0);
    }
}

#[test]
fn new_filled_creates_with_value() {
    let nm = NodeMap::new_filled(3, 42.0);
    assert_eq!(nm.size(), 3);
    assert_eq!(*nm.get(0), 42.0);
    assert_eq!(*nm.get(2), 42.0);
}

#[test]
fn get_set_roundtrip() {
    let mut nm: NodeMap<i32> = NodeMap::new(3);
    nm.set(1, 99);
    assert_eq!(*nm.get(0), 0);
    assert_eq!(*nm.get(1), 99);
    assert_eq!(*nm.get(2), 0);
}

#[test]
fn get_mut_allows_in_place_modification() {
    let mut nm = NodeMap::new_filled(2, 10.0);
    *nm.get_mut(0) += 5.0;
    assert_eq!(*nm.get(0), 15.0);
    assert_eq!(*nm.get(1), 10.0);
}

#[test]
fn fill_overwrites_all() {
    let mut nm = NodeMap::new_filled(3, 1.0);
    nm.fill(7.0);
    for i in 0..3 {
        assert_eq!(*nm.get(i), 7.0);
    }
}

#[test]
fn clone_is_independent() {
    let mut nm = NodeMap::new_filled(2, 1.0);
    let cloned = nm.clone();
    nm.set(0, 99.0);
    assert_eq!(*cloned.get(0), 1.0);
}

#[test]
fn test_circle_config_default() {
    let config = CircleConfig::default();
    assert_eq!(config.segments, 32);
}
