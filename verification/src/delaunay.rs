//! The topological steps of incremental Delaunay triangulation.
//!
//! Building a Delaunay triangulation alternates geometric predicates (where
//! does a point fall, is an edge legal) with surgery on the DCEL.  The surgery
//! is here: the initial super triangle, splitting a triangle or an edge at a
//! new vertex, flipping an edge, and removing the super triangle at the end.
//! Each step keeps the DCEL consistent: ids are indices, references are null
//! or in range, twins are mutual, and `next` and `prev` are inverse.
use vstd::prelude::*;
use crate::dcel::{Dcel, Face, HalfEdge, Ref, Vertex, blank_half_edge};

verus! {

/// `r` is the null reference `-1` or indexes one of `n` elements.
pub open spec fn ref_ok(r: Ref, n: nat) -> bool {
    r.id == -1 || (0 <= r.id < n)
}

impl<P: Copy> Dcel<P> {
    /// Half-edge `i` has id `i`, its references are null or in range, its
    /// twin, next and previous half-edges point back at it, and its twin
    /// starts where the half-edge after it starts.
    pub open spec fn edge_ok(&self, i: int) -> bool {
        let e = self.edges@[i];
        let ne = self.edges@.len();
        &&& e.id.id == i
        &&& ref_ok(e.origin, self.vertices@.len())
        &&& ref_ok(e.twin, ne)
        &&& ref_ok(e.next, ne)
        &&& ref_ok(e.prev, ne)
        &&& ref_ok(e.incident_face, self.faces@.len())
        &&& e.twin.id >= 0 ==> self.edges@[e.twin.id as int].twin.id == i
        &&& e.next.id >= 0 ==> self.edges@[e.next.id as int].prev.id == i
        &&& e.prev.id >= 0 ==> self.edges@[e.prev.id as int].next.id == i
        &&& e.twin.id >= 0 && e.next.id >= 0 ==> self.edges@[e.twin.id as int].origin
            == self.edges@[e.next.id as int].origin
    }

    /// Every element has its index as id, every reference is null or in
    /// range, twins are mutual, `next`/`prev` are inverse, and every vertex
    /// that names an incident half-edge is that half-edge's origin.
    pub open spec fn consistent(&self) -> bool {
        &&& forall|i: int| 0 <= i < self.edges@.len() ==> #[trigger] self.edge_ok(i)
        &&& forall|i: int|
            0 <= i < self.faces@.len() ==> {
                &&& (#[trigger] self.faces@[i]).id.id == i
                &&& ref_ok(self.faces@[i].outer_component, self.edges@.len())
            }
        &&& forall|i: int|
            0 <= i < self.vertices@.len() ==> {
                &&& (#[trigger] self.vertices@[i]).id.id == i
                &&& ref_ok(self.vertices@[i].incident_edge, self.edges@.len())
                &&& self.vertices@[i].incident_edge.id >= 0 ==> self.edges@[self.vertices@[i].incident_edge.id as int].origin.id
                    == i
            }
    }

    /// The origins of the outer component of face `f` and of the two
    /// half-edges after it.
    pub open spec fn tri_corners(&self, f: int) -> (int, int, int) {
        self.corners_from(self.faces@[f].outer_component)
    }

    /// The origins of half-edge `e0` and of the two half-edges after it.
    pub open spec fn corners_from(&self, e0: Ref) -> (int, int, int) {
        let e1 = self.edges@[e0.id as int].next;
        let e2 = self.edges@[e1.id as int].next;
        (
            self.edges@[e0.id as int].origin.id as int,
            self.edges@[e1.id as int].origin.id as int,
            self.edges@[e2.id as int].origin.id as int,
        )
    }

    /// Face `f` is a triangle: its outer component and the two half-edges
    /// after it are three distinct half-edges that close up, start at
    /// vertices and lie on `f`.
    pub open spec fn triangle_at(&self, f: int) -> bool {
        &&& 0 <= f < self.faces@.len()
        &&& self.triangle_from(self.faces@[f].outer_component, f)
    }

    /// Half-edge `e0` and the two after it are three distinct half-edges that
    /// close up, start at vertices and lie on face `f`.
    pub open spec fn triangle_from(&self, e0: Ref, f: int) -> bool {
        let e1 = self.edges@[e0.id as int].next;
        let e2 = self.edges@[e1.id as int].next;
        &&& 0 <= e0.id < self.edges@.len()
        &&& 0 <= e1.id < self.edges@.len()
        &&& 0 <= e2.id < self.edges@.len()
        &&& self.edges@[e2.id as int].next == e0
        &&& e0 != e1 && e1 != e2 && e0 != e2
        &&& self.edges@[e0.id as int].origin.id >= 0
        &&& self.edges@[e1.id as int].origin.id >= 0
        &&& self.edges@[e2.id as int].origin.id >= 0
        &&& self.edges@[e0.id as int].incident_face.id == f
        &&& self.edges@[e1.id as int].incident_face.id == f
        &&& self.edges@[e2.id as int].incident_face.id == f
    }
}

/// The triangulation of the three corners of a super triangle: one
/// counter-clockwise face `s1 -> s2 -> s3` and the clockwise boundary loop
/// around it.
pub fn init_triangulation<P: Copy>(s1: P, s2: P, s3: P) -> (t: Dcel<P>)
    ensures
        t.consistent(),
        t.vertices@.len() == 3,
        t.edges@.len() == 6,
        t.faces@.len() == 1,
        t.triangle_at(0),
        t.vertices@[0].position == s1,
        t.vertices@[1].position == s2,
        t.vertices@[2].position == s3,
{
    let mut t = Dcel::new();

    let mut p1 = t.create_vertex(s1);
    let mut p2 = t.create_vertex(s2);
    let mut p3 = t.create_vertex(s3);

    let mut e12 = t.create_half_edge();
    let mut e23 = t.create_half_edge();
    let mut e31 = t.create_half_edge();
    let mut e13 = t.create_half_edge();
    let mut e32 = t.create_half_edge();
    let mut e21 = t.create_half_edge();
    let mut f0 = t.create_face();

    p1.incident_edge = e12.id;
    p2.incident_edge = e23.id;
    p3.incident_edge = e31.id;
    t.update_vertex(p1);
    t.update_vertex(p2);
    t.update_vertex(p3);

    e12.origin = p1.id;
    e12.twin = e21.id;
    e12.incident_face = f0.id;
    e12.next = e23.id;
    e12.prev = e31.id;
    t.update_edge(e12);

    e23.origin = p2.id;
    e23.twin = e32.id;
    e23.incident_face = f0.id;
    e23.next = e31.id;
    e23.prev = e12.id;
    t.update_edge(e23);

    e31.origin = p3.id;
    e31.twin = e13.id;
    e31.incident_face = f0.id;
    e31.next = e12.id;
    e31.prev = e23.id;
    t.update_edge(e31);

    e13.origin = p1.id;
    e13.twin = e31.id;
    e13.next = e32.id;
    e13.prev = e21.id;
    t.update_edge(e13);

    e32.origin = p3.id;
    e32.twin = e23.id;
    e32.next = e21.id;
    e32.prev = e13.id;
    t.update_edge(e32);

    e21.origin = p2.id;
    e21.twin = e12.id;
    e21.next = e13.id;
    e21.prev = e32.id;
    t.update_edge(e21);

    f0.outer_component = e12.id;
    t.update_face(f0);

    assert(t.edges@[0] == e12 && t.edges@[1] == e23 && t.edges@[2] == e31);
    assert(t.edges@[3] == e13 && t.edges@[4] == e32 && t.edges@[5] == e21);
    assert(forall|i: int| 0 <= i < 6 ==> #[trigger] t.edge_ok(i));
    t
}

/// Splits triangle `f` at a new vertex at `p` into three triangles.
///
/// Returns the new vertex and the three half-edges of the old triangle
/// (`eij`, `ejk`, `eki`), now each on one of the three new triangles; these
/// are the edges whose Delaunay legality is to be checked next.
pub fn insert_point_into_triangle<P: Copy>(p: P, f: Face, t: &mut Dcel<P>) -> (r: (
    Vertex<P>,
    HalfEdge,
    HalfEdge,
    HalfEdge,
))
    requires
        old(t).consistent(),
        0 <= f.id.id < old(t).faces@.len(),
        old(t).faces@[f.id.id as int] == f,
        old(t).triangle_at(f.id.id as int),
        old(t).vertices@.len() + 1 <= i32::MAX,
        old(t).edges@.len() + 6 <= i32::MAX,
        old(t).faces@.len() + 2 <= i32::MAX,
    ensures
        final(t).consistent(),
        final(t).vertices@.len() == old(t).vertices@.len() + 1,
        final(t).edges@.len() == old(t).edges@.len() + 6,
        final(t).faces@.len() == old(t).faces@.len() + 2,
        final(t).triangle_at(f.id.id as int),
        final(t).triangle_at(old(t).faces@.len() as int),
        final(t).triangle_at(old(t).faces@.len() as int + 1),
        r.0 == final(t).vertices@[old(t).vertices@.len() as int],
        r.0.position == p,
        ({
            let (i, j, k) = old(t).tri_corners(f.id.id as int);
            let r = old(t).vertices@.len() as int;
            let nf = old(t).faces@.len() as int;
            &&& final(t).tri_corners(f.id.id as int) == (i, j, r)
            &&& final(t).tri_corners(nf) == (j, k, r)
            &&& final(t).tri_corners(nf + 1) == (k, i, r)
        }),
        forall|g: int|
            0 <= g < old(t).faces@.len() && g != f.id.id ==> #[trigger] final(t).faces@[g] == old(t).faces@[g],
        r.1 == final(t).edges@[f.outer_component.id as int],
        r.2 == final(t).edges@[old(t).edges@[f.outer_component.id as int].next.id as int],
        r.3 == final(t).edges@[old(t).edges@[old(t).edges@[f.outer_component.id as int].next.id as int].next.id as int],
        forall|i: int|
            0 <= i < old(t).vertices@.len() ==> #[trigger] final(t).vertices@[i] == old(t).vertices@[i],
        forall|i: int|
            0 <= i < old(t).edges@.len() && i != f.outer_component.id
                && i != old(t).edges@[f.outer_component.id as int].next.id
                && i != old(t).edges@[old(t).edges@[f.outer_component.id as int].next.id as int].next.id
                ==> #[trigger] final(t).edges@[i] == old(t).edges@[i],
{
    let ghost t0 = *t;
    let eij = t.outer_component(&f);
    let ejk = t.next(eij);
    let eki = t.next(ejk);
    proof {
        assert(t.edge_ok(f.outer_component.id as int));
        assert(t.edge_ok(eij.next.id as int));
        assert(t.edge_ok(ejk.next.id as int));
    }
    let f1 = f;
    let pi = t.origin(eij);
    let pj = t.origin(ejk);
    let pk = t.origin(eki);

    let mut eri = t.create_half_edge();
    let mut eir = t.create_half_edge();
    let mut erj = t.create_half_edge();
    let mut ejr = t.create_half_edge();
    let mut erk = t.create_half_edge();
    let mut ekr = t.create_half_edge();
    let mut f2 = t.create_face();
    let mut f3 = t.create_face();
    let mut pr = t.create_vertex(p);

    let mut eij = eij;
    let mut ejk = ejk;
    let mut eki = eki;
    let mut f1 = f1;

    eij.next = ejr.id;
    eij.prev = eri.id;
    t.update_edge(eij);

    ejk.incident_face = f2.id;
    ejk.next = ekr.id;
    ejk.prev = erj.id;
    t.update_edge(ejk);

    eki.incident_face = f3.id;
    eki.next = eir.id;
    eki.prev = erk.id;
    t.update_edge(eki);

    f1.outer_component = eij.id;
    t.update_face(f1);

    eri.origin = pr.id;
    eri.twin = eir.id;
    eri.incident_face = f1.id;
    eri.next = eij.id;
    eri.prev = ejr.id;
    t.update_edge(eri);

    eir.origin = pi.id;
    eir.twin = eri.id;
    eir.incident_face = f3.id;
    eir.next = erk.id;
    eir.prev = eki.id;
    t.update_edge(eir);

    erj.origin = pr.id;
    erj.twin = ejr.id;
    erj.incident_face = f2.id;
    erj.next = ejk.id;
    erj.prev = ekr.id;
    t.update_edge(erj);

    ejr.origin = pj.id;
    ejr.twin = erj.id;
    ejr.incident_face = f1.id;
    ejr.next = eri.id;
    ejr.prev = eij.id;
    t.update_edge(ejr);

    erk.origin = pr.id;
    erk.twin = ekr.id;
    erk.incident_face = f3.id;
    erk.next = eki.id;
    erk.prev = eir.id;
    t.update_edge(erk);

    ekr.origin = pk.id;
    ekr.twin = erk.id;
    ekr.incident_face = f2.id;
    ekr.next = erj.id;
    ekr.prev = ejk.id;
    t.update_edge(ekr);

    f2.outer_component = ejk.id;
    t.update_face(f2);

    f3.outer_component = eki.id;
    t.update_face(f3);

    pr.incident_edge = eri.id;
    t.update_vertex(pr);

    proof {
        let ne0 = t0.edges@.len() as int;
        let a = eij.id.id as int;
        let b = ejk.id.id as int;
        let c = eki.id.id as int;
        assert(t0.edge_ok(a) && t0.edge_ok(b) && t0.edge_ok(c));
        assert(t.edges@[a] == eij && t.edges@[b] == ejk && t.edges@[c] == eki);
        assert(t.edges@[ne0] == eri && t.edges@[ne0 + 1] == eir);
        assert(t.edges@[ne0 + 2] == erj && t.edges@[ne0 + 3] == ejr);
        assert(t.edges@[ne0 + 4] == erk && t.edges@[ne0 + 5] == ekr);
        assert forall|i: int| 0 <= i < t.edges@.len() implies #[trigger] t.edge_ok(i) by {
            if i < ne0 && i != a && i != b && i != c {
                assert(t0.edge_ok(i));
                assert(t.edges@[i] == t0.edges@[i]);
            }
        }
    }
    (pr, eij, ejk, eki)
}

/// Splits the two triangles on either side of half-edge `h` at a new vertex
/// at `p` on `h`, into four triangles.
///
/// Returns the new vertex and the four outer half-edges of the two old
/// triangles (`eil`, `elj`, `ejk`, `eki`), whose Delaunay legality is to be
/// checked next.
pub fn insert_point_into_triangle_edge<P: Copy>(p: P, _f: Face, h: HalfEdge, t: &mut Dcel<P>) -> (r: (
    Vertex<P>,
    HalfEdge,
    HalfEdge,
    HalfEdge,
    HalfEdge,
))
    requires
        old(t).consistent(),
        0 <= h.id.id < old(t).edges@.len(),
        old(t).edges@[h.id.id as int] == h,
        old(t).triangle_from(h.id, h.incident_face.id as int),
        0 <= h.twin.id < old(t).edges@.len(),
        old(t).triangle_from(
            h.twin,
            old(t).edges@[h.twin.id as int].incident_face.id as int,
        ),
        h.incident_face != old(t).edges@[h.twin.id as int].incident_face,
        0 <= h.incident_face.id < old(t).faces@.len(),
        0 <= old(t).edges@[h.twin.id as int].incident_face.id < old(t).faces@.len(),
        old(t).vertices@.len() + 1 <= i32::MAX,
        old(t).edges@.len() + 6 <= i32::MAX,
        old(t).faces@.len() + 2 <= i32::MAX,
    ensures
        final(t).consistent(),
        final(t).vertices@.len() == old(t).vertices@.len() + 1,
        final(t).edges@.len() == old(t).edges@.len() + 6,
        final(t).faces@.len() == old(t).faces@.len() + 2,
        final(t).triangle_at(h.incident_face.id as int),
        final(t).triangle_at(old(t).edges@[h.twin.id as int].incident_face.id as int),
        final(t).triangle_at(old(t).faces@.len() as int),
        final(t).triangle_at(old(t).faces@.len() as int + 1),
        r.0 == final(t).vertices@[old(t).vertices@.len() as int],
        r.0.position == p,
        r.1 == final(t).edges@[r.1.id.id as int],
        r.2 == final(t).edges@[r.2.id.id as int],
        r.3 == final(t).edges@[r.3.id.id as int],
        r.4 == final(t).edges@[r.4.id.id as int],
        ({
            let f1 = h.incident_face.id as int;
            let f2 = old(t).edges@[h.twin.id as int].incident_face.id as int;
            let nf = old(t).faces@.len() as int;
            let v = old(t).vertices@.len() as int;
            let (i, j, k) = old(t).corners_from(h.id);
            let (j2, i2, l) = old(t).corners_from(h.twin);
            &&& final(t).tri_corners(f1) == (k, i, v)
            &&& final(t).tri_corners(f2) == (i2, l, v)
            &&& final(t).tri_corners(nf) == (l, j, v)
            &&& final(t).tri_corners(nf + 1) == (j, k, v)
            &&& r.1.incident_face.id == f2 && r.2.incident_face.id == nf
            &&& r.3.incident_face.id == nf + 1 && r.4.incident_face.id == f1
        }),
        r.1 == final(t).edges@[old(t).edges@[h.twin.id as int].next.id as int],
        r.2 == final(t).edges@[old(t).edges@[old(t).edges@[h.twin.id as int].next.id as int].next.id as int],
        r.3 == final(t).edges@[h.next.id as int],
        r.4 == final(t).edges@[old(t).edges@[h.next.id as int].next.id as int],
        forall|i: int|
            0 <= i < old(t).edges@.len() && i != h.id.id && i != h.next.id
                && i != old(t).edges@[h.next.id as int].next.id && i != h.twin.id
                && i != old(t).edges@[h.twin.id as int].next.id
                && i != old(t).edges@[old(t).edges@[h.twin.id as int].next.id as int].next.id
                ==> #[trigger] final(t).edges@[i] == old(t).edges@[i],
        forall|g: int|
            0 <= g < old(t).faces@.len() && g != h.incident_face.id
                && g != old(t).edges@[h.twin.id as int].incident_face.id
                ==> #[trigger] final(t).faces@[g] == old(t).faces@[g],
        forall|v: int|
            0 <= v < old(t).vertices@.len() ==> #[trigger] final(t).vertices@[v].position
                == old(t).vertices@[v].position,
{
    let ghost t0 = *t;
    proof {
        assert(t.edge_ok(h.id.id as int));
        assert(t.edge_ok(h.next.id as int));
        assert(t.edge_ok(t.edges@[h.next.id as int].next.id as int));
        assert(t.edge_ok(h.twin.id as int));
        let tw = t.edges@[h.twin.id as int];
        assert(t.edge_ok(tw.next.id as int));
        assert(t.edge_ok(t.edges@[tw.next.id as int].next.id as int));
    }
    let eij = h;
    let ejk = t.next(eij);
    let eki = t.next(ejk);
    let eji = t.twin(eij);
    let eil = t.next(eji);
    let elj = t.next(eil);

    let f1 = t.incident_face(eij);
    let f2 = t.incident_face(eji);

    let pj = t.origin(ejk);
    let pk = t.origin(eki);
    let pl = t.origin(elj);

    let eir = eij;
    let eri = eji;

    let mut erj = t.create_half_edge();
    let mut ejr = t.create_half_edge();
    let mut erk = t.create_half_edge();
    let mut ekr = t.create_half_edge();
    let mut erl = t.create_half_edge();
    let mut elr = t.create_half_edge();
    let mut f3 = t.create_face();
    let mut f4 = t.create_face();
    let mut pr = t.create_vertex(p);

    let mut ejk2 = ejk;
    let mut eki2 = eki;
    let mut eil2 = eil;
    let mut elj2 = elj;
    let mut f1 = f1;
    let mut f2 = f2;
    let mut eir2 = eir;
    let mut eri2 = eri;

    ejk2.incident_face = f4.id;
    ejk2.next = ekr.id;
    ejk2.prev = erj.id;
    t.update_edge(ejk2);

    eki2.next = eir2.id;
    eki2.prev = erk.id;
    t.update_edge(eki2);

    eil2.next = elr.id;
    eil2.prev = eri2.id;
    t.update_edge(eil2);

    elj2.incident_face = f3.id;
    elj2.next = ejr.id;
    elj2.prev = erl.id;
    t.update_edge(elj2);

    f1.outer_component = eki2.id;
    t.update_face(f1);

    f2.outer_component = eil2.id;
    t.update_face(f2);

    let mut pj2 = pj;
    pj2.incident_edge = ejk2.id;
    t.update_vertex(pj2);

    eir2.next = erk.id;
    eir2.prev = eki2.id;
    t.update_edge(eir2);

    eri2.origin = pr.id;
    eri2.next = eil2.id;
    eri2.prev = elr.id;
    t.update_edge(eri2);

    erj.origin = pr.id;
    erj.twin = ejr.id;
    erj.incident_face = f4.id;
    erj.next = ejk2.id;
    erj.prev = ekr.id;
    t.update_edge(erj);

    ejr.origin = pj.id;
    ejr.twin = erj.id;
    ejr.incident_face = f3.id;
    ejr.next = erl.id;
    ejr.prev = elj2.id;
    t.update_edge(ejr);

    erk.origin = pr.id;
    erk.twin = ekr.id;
    erk.incident_face = f1.id;
    erk.next = eki2.id;
    erk.prev = eir2.id;
    t.update_edge(erk);

    ekr.origin = pk.id;
    ekr.twin = erk.id;
    ekr.incident_face = f4.id;
    ekr.next = erj.id;
    ekr.prev = ejk2.id;
    t.update_edge(ekr);

    erl.origin = pr.id;
    erl.twin = elr.id;
    erl.incident_face = f3.id;
    erl.next = elj2.id;
    erl.prev = ejr.id;
    t.update_edge(erl);

    elr.origin = pl.id;
    elr.twin = erl.id;
    elr.incident_face = f2.id;
    elr.next = eri2.id;
    elr.prev = eil2.id;
    t.update_edge(elr);

    f3.outer_component = elj2.id;
    t.update_face(f3);

    f4.outer_component = ejk2.id;
    t.update_face(f4);

    pr.incident_edge = eri2.id;
    t.update_vertex(pr);

    proof {
        let ne0 = t0.edges@.len() as int;
        let ids = seq![
            eij.id.id as int,
            ejk.id.id as int,
            eki.id.id as int,
            eji.id.id as int,
            eil.id.id as int,
            elj.id.id as int,
        ];
        assert(t.edges@[eij.id.id as int] == eir2 && t.edges@[ejk.id.id as int] == ejk2);
        assert(t.edges@[eki.id.id as int] == eki2 && t.edges@[eji.id.id as int] == eri2);
        assert(t.edges@[eil.id.id as int] == eil2 && t.edges@[elj.id.id as int] == elj2);
        assert(t.edges@[ne0] == erj && t.edges@[ne0 + 1] == ejr);
        assert(t.edges@[ne0 + 2] == erk && t.edges@[ne0 + 3] == ekr);
        assert(t.edges@[ne0 + 4] == erl && t.edges@[ne0 + 5] == elr);
        assert forall|i: int| 0 <= i < t.edges@.len() implies #[trigger] t.edge_ok(i) by {
            if i < ne0 && !ids.contains(i) {
                assert(t0.edge_ok(i));
                assert(t.edges@[i] == t0.edges@[i]);
            }
        }
    }
    (pr, eil2, elj2, ejk2, eki2)
}

/// Flips half-edge `eij`, shared by triangle `(i, j, r)` on its side and
/// triangle `(j, i, k)` on its twin's side, into the edge between `r` and
/// `k`.
///
/// Returns the vertex `pr` as stored afterwards and the two half-edges
/// `eik` and `ekj` of the far triangle, now on the triangles at `pr`; these
/// are the edges whose Delaunay legality is to be checked next.
pub fn flip_edge<P: Copy>(pr: Vertex<P>, eij: HalfEdge, t: &mut Dcel<P>) -> (r: (
    Vertex<P>,
    HalfEdge,
    HalfEdge,
))
    requires
        old(t).consistent(),
        0 <= eij.id.id < old(t).edges@.len(),
        old(t).edges@[eij.id.id as int] == eij,
        old(t).triangle_from(eij.id, eij.incident_face.id as int),
        0 <= eij.twin.id < old(t).edges@.len(),
        old(t).triangle_from(
            eij.twin,
            old(t).edges@[eij.twin.id as int].incident_face.id as int,
        ),
        eij.incident_face != old(t).edges@[eij.twin.id as int].incident_face,
        0 <= eij.incident_face.id < old(t).faces@.len(),
        0 <= old(t).edges@[eij.twin.id as int].incident_face.id < old(t).faces@.len(),
        0 <= pr.id.id < old(t).vertices@.len(),
        old(t).vertices@[pr.id.id as int] == pr,
        old(t).corners_from(eij.id).2 == pr.id.id,
    ensures
        final(t).consistent(),
        final(t).vertices@.len() == old(t).vertices@.len(),
        final(t).edges@.len() == old(t).edges@.len(),
        final(t).faces@.len() == old(t).faces@.len(),
        final(t).triangle_at(eij.incident_face.id as int),
        final(t).triangle_at(old(t).edges@[eij.twin.id as int].incident_face.id as int),
        r.0 == final(t).vertices@[pr.id.id as int],
        r.1 == final(t).edges@[r.1.id.id as int],
        r.2 == final(t).edges@[r.2.id.id as int],
        ({
            let f1 = eij.incident_face.id as int;
            let f2 = old(t).edges@[eij.twin.id as int].incident_face.id as int;
            let (i, j, c) = old(t).corners_from(eij.id);
            let (j2, i2, k) = old(t).corners_from(eij.twin);
            &&& final(t).tri_corners(f1) == (k, c, i2)
            &&& final(t).tri_corners(f2) == (pr.id.id as int, k, j)
            &&& r.1.incident_face.id == f1 && r.1.origin.id == i2
            &&& r.2.incident_face.id == f2 && r.2.origin.id == k
        }),
        forall|i: int|
            0 <= i < old(t).edges@.len() && i != eij.id.id && i != eij.next.id
                && i != old(t).edges@[eij.next.id as int].next.id && i != eij.twin.id
                && i != old(t).edges@[eij.twin.id as int].next.id
                && i != old(t).edges@[old(t).edges@[eij.twin.id as int].next.id as int].next.id
                ==> #[trigger] final(t).edges@[i] == old(t).edges@[i],
        forall|g: int|
            0 <= g < old(t).faces@.len() && g != eij.incident_face.id
                && g != old(t).edges@[eij.twin.id as int].incident_face.id
                ==> #[trigger] final(t).faces@[g] == old(t).faces@[g],
        forall|v: int|
            0 <= v < old(t).vertices@.len() ==> #[trigger] final(t).vertices@[v].position
                == old(t).vertices@[v].position,
{
    let ghost t0 = *t;
    proof {
        assert(t.edge_ok(eij.id.id as int));
        assert(t.edge_ok(eij.next.id as int));
        assert(t.edge_ok(t.edges@[eij.next.id as int].next.id as int));
        assert(t.edge_ok(eij.twin.id as int));
        let tw = t.edges@[eij.twin.id as int];
        assert(t.edge_ok(tw.next.id as int));
        assert(t.edge_ok(t.edges@[tw.next.id as int].next.id as int));
    }
    let ejr = t.next(eij);
    let eri = t.next(ejr);
    let eji = t.twin(eij);
    let eik = t.next(eji);
    let ekj = t.next(eik);

    let f1 = t.incident_face(eij);
    let f2 = t.incident_face(eji);

    let pi = t.origin(eij);
    let pj = t.origin(eji);
    let pk = t.origin(ekj);

    let mut erk = eij;
    let mut ekr = eji;

    let mut ejr2 = ejr;
    let mut eri2 = eri;
    let mut eik2 = eik;
    let mut ekj2 = ekj;
    let mut f1 = f1;
    let mut f2 = f2;
    let mut pi2 = pi;
    let mut pj2 = pj;
    let mut pk2 = pk;
    let mut pr2 = pr;

    ejr2.incident_face = f2.id;
    ejr2.next = erk.id;
    ejr2.prev = ekj2.id;
    t.update_edge(ejr2);

    eri2.next = eik2.id;
    eri2.prev = ekr.id;
    t.update_edge(eri2);

    eik2.incident_face = f1.id;
    eik2.next = ekr.id;
    eik2.prev = eri2.id;
    t.update_edge(eik2);

    ekj2.next = ejr2.id;
    ekj2.prev = erk.id;
    t.update_edge(ekj2);

    f1.outer_component = ekr.id;
    t.update_face(f1);

    f2.outer_component = erk.id;
    t.update_face(f2);

    pi2.incident_edge = eik2.id;
    t.update_vertex(pi2);

    pj2.incident_edge = ejr2.id;
    t.update_vertex(pj2);

    pk2.incident_edge = ekr.id;
    t.update_vertex(pk2);

    pr2.incident_edge = erk.id;
    t.update_vertex(pr2);

    erk.origin = pr.id;
    erk.twin = ekr.id;
    erk.incident_face = f2.id;
    erk.next = ekj2.id;
    erk.prev = ejr2.id;
    t.update_edge(erk);

    ekr.origin = pk.id;
    ekr.twin = erk.id;
    ekr.incident_face = f1.id;
    ekr.next = eri2.id;
    ekr.prev = eik2.id;
    t.update_edge(ekr);

    proof {
        let ids = seq![
            eij.id.id as int,
            ejr.id.id as int,
            eri.id.id as int,
            eji.id.id as int,
            eik.id.id as int,
            ekj.id.id as int,
        ];
        assert(t.edges@[eij.id.id as int] == erk && t.edges@[eji.id.id as int] == ekr);
        assert(t.edges@[ejr.id.id as int] == ejr2 && t.edges@[eri.id.id as int] == eri2);
        assert(t.edges@[eik.id.id as int] == eik2 && t.edges@[ekj.id.id as int] == ekj2);
        assert forall|i: int| 0 <= i < t.edges@.len() implies #[trigger] t.edge_ok(i) by {
            if !ids.contains(i) {
                assert(t0.edge_ok(i));
                assert(t.edges@[i] == t0.edges@[i]);
                let e = t0.edges@[i];
                if e.twin.id >= 0 {
                    assert(t0.edge_ok(e.twin.id as int));
                }
                if e.next.id >= 0 {
                    assert(t0.edge_ok(e.next.id as int));
                }
            }
        }
    }
    let pr_now = t.vertex(pr.id);
    (pr_now, eik2, ekj2)
}

/// The number of entries below `i` whose flag is not set.
pub open spec fn kept_count(flags: Seq<bool>, i: int) -> nat
    decreases i,
{
    if i <= 0 {
        0
    } else {
        kept_count(flags, i - 1) + if flags[i - 1] {
            0nat
        } else {
            1nat
        }
    }
}

/// Where reference `r` points after removing the flagged elements: null
/// stays as is, a removed element becomes `-1`, a kept one its new index.
pub open spec fn remapped(r: Ref, flags: Seq<bool>) -> Ref {
    if r.id < 0 {
        r
    } else if flags[r.id as int] {
        Ref { id: -1i32 }
    } else {
        Ref { id: kept_count(flags, r.id as int) as i32 }
    }
}

/// Whether `r` names one of the three first vertices, the super triangle's.
pub open spec fn names_super_vertex<P: Copy>(t: &Dcel<P>, r: Ref) -> bool {
    r.id == t.vertices@[0].id.id || r.id == t.vertices@[1].id.id || r.id == t.vertices@[2].id.id
}

/// Face `f` is removed: its triangle has a corner at a super triangle vertex.
pub open spec fn face_removed<P: Copy>(t: &Dcel<P>, f: int) -> bool {
    let h = t.edges@[t.faces@[f].outer_component.id as int];
    let h2 = t.edges@[h.next.id as int];
    let h3 = t.edges@[h2.next.id as int];
    t.faces@[f].outer_component.id >= 0 && (names_super_vertex(t, h.origin) || names_super_vertex(
        t,
        h2.origin,
    ) || names_super_vertex(t, h3.origin))
}

/// Half-edge `e` is removed: it has no face or its face is removed.
pub open spec fn edge_removed<P: Copy>(t: &Dcel<P>, e: int) -> bool {
    let f = t.edges@[e].incident_face;
    f.id < 0 || face_removed(t, f.id as int)
}

/// The removal flags of the faces, half-edges and vertices.
pub open spec fn face_flags<P: Copy>(t: &Dcel<P>) -> Seq<bool> {
    Seq::new(t.faces@.len(), |f: int| face_removed(t, f))
}

pub open spec fn edge_flags<P: Copy>(t: &Dcel<P>) -> Seq<bool> {
    Seq::new(t.edges@.len(), |e: int| edge_removed(t, e))
}

pub open spec fn vertex_flags<P: Copy>(t: &Dcel<P>) -> Seq<bool> {
    Seq::new(t.vertices@.len(), |v: int| names_super_vertex(t, t.vertices@[v].id))
}

/// Every face that has an outer component has two more half-edges after it.
pub open spec fn faces_walkable<P: Copy>(t: &Dcel<P>) -> bool {
    forall|f: int|
        0 <= f < t.faces@.len() && (#[trigger] t.faces@[f]).outer_component.id >= 0 ==> {
            &&& t.edges@[t.faces@[f].outer_component.id as int].next.id >= 0
            &&& t.edges@[t.edges@[t.faces@[f].outer_component.id as int].next.id as int].next.id
                >= 0
        }
}

/// Kept entries get increasing ranks, all below the number kept.
pub proof fn lemma_kept_count_monotone(flags: Seq<bool>, a: int, b: int)
    requires
        0 <= a <= b <= flags.len(),
    ensures
        kept_count(flags, a) <= kept_count(flags, b),
        a < b && !flags[a] ==> kept_count(flags, a) < kept_count(flags, b),
        kept_count(flags, b) <= b,
    decreases b - a,
{
    lemma_kept_count_bound(flags, b);
    if a < b {
        lemma_kept_count_monotone(flags, a, b - 1);
        if a < b - 1 {
            lemma_kept_count_monotone(flags, a + 1, b);
        }
    }
}

/// At most `b` entries below `b` are kept.
pub proof fn lemma_kept_count_bound(flags: Seq<bool>, b: int)
    ensures
        kept_count(flags, b) <= if b < 0 { 0 } else { b },
    decreases b,
{
    if b > 0 {
        lemma_kept_count_bound(flags, b - 1);
    }
}

/// Every rank below the number kept belongs to some kept entry.
pub proof fn lemma_kept_rank_onto(flags: Seq<bool>, n: int, p: int)
    requires
        0 <= n <= flags.len(),
        0 <= p < kept_count(flags, n),
    ensures
        exists|j: int| 0 <= j < n && !flags[j] && kept_count(flags, j) == p,
    decreases n,
{
    if p < kept_count(flags, n - 1) {
        lemma_kept_rank_onto(flags, n - 1, p);
        let j = choose|j: int| 0 <= j < n - 1 && !flags[j] && kept_count(flags, j) == p;
        assert(0 <= j < n && !flags[j] && kept_count(flags, j) == p);
    } else {
        assert(!flags[n - 1] && kept_count(flags, n - 1) == p);
    }
}

/// A reference that is null or in range stays null or in range after
/// removing the flagged elements.
pub proof fn lemma_remapped_ref_ok(r: Ref, flags: Seq<bool>)
    requires
        ref_ok(r, flags.len()),
        flags.len() <= i32::MAX,
    ensures
        ref_ok(remapped(r, flags), kept_count(flags, flags.len() as int)),
{
    if r.id >= 0 && !flags[r.id as int] {
        lemma_kept_count_monotone(flags, r.id as int, flags.len() as int);
    }
}

/// Vertex `j` as it is stored after removing the flagged elements.
pub open spec fn cleaned_vertex<P: Copy>(t: &Dcel<P>, j: int) -> Vertex<P> {
    let v = t.vertices@[j];
    Vertex {
        position: v.position,
        incident_edge: remapped(v.incident_edge, edge_flags(t)),
        id: remapped(v.id, vertex_flags(t)),
    }
}

/// Half-edge `j` as it is stored after removing the flagged elements.
pub open spec fn cleaned_edge<P: Copy>(t: &Dcel<P>, j: int) -> HalfEdge {
    let e = t.edges@[j];
    HalfEdge {
        origin: remapped(e.origin, vertex_flags(t)),
        twin: remapped(e.twin, edge_flags(t)),
        incident_face: remapped(e.incident_face, face_flags(t)),
        next: remapped(e.next, edge_flags(t)),
        prev: remapped(e.prev, edge_flags(t)),
        id: remapped(e.id, edge_flags(t)),
    }
}

/// Face `j` as it is stored after removing the flagged elements.
pub open spec fn cleaned_face<P: Copy>(t: &Dcel<P>, j: int) -> Face {
    let f = t.faces@[j];
    Face {
        outer_component: remapped(f.outer_component, edge_flags(t)),
        id: remapped(f.id, face_flags(t)),
    }
}

/// `u` holds exactly the kept elements of `t`, in order, with their
/// references renumbered.
pub open spec fn is_cleanup_of<P: Copy>(u: &Dcel<P>, t: &Dcel<P>) -> bool {
    &&& u.vertices@.len() == kept_count(vertex_flags(t), t.vertices@.len() as int)
    &&& u.edges@.len() == kept_count(edge_flags(t), t.edges@.len() as int)
    &&& u.faces@.len() == kept_count(face_flags(t), t.faces@.len() as int)
    &&& forall|j: int|
        0 <= j < t.vertices@.len() && !vertex_flags(t)[j] ==> u.vertices@[kept_count(
            vertex_flags(t),
            j,
        ) as int] == #[trigger] cleaned_vertex(t, j)
    &&& forall|j: int|
        0 <= j < t.edges@.len() && !edge_flags(t)[j] ==> u.edges@[kept_count(edge_flags(t), j) as int]
            == #[trigger] cleaned_edge(t, j)
    &&& forall|j: int|
        0 <= j < t.faces@.len() && !face_flags(t)[j] ==> u.faces@[kept_count(face_flags(t), j) as int]
            == #[trigger] cleaned_face(t, j)
}

/// Removing flagged elements from a consistent DCEL leaves it consistent.
pub proof fn lemma_cleanup_consistent<P: Copy>(t: &Dcel<P>, u: &Dcel<P>)
    requires
        t.consistent(),
        t.vertices@.len() <= i32::MAX,
        t.edges@.len() <= i32::MAX,
        t.faces@.len() <= i32::MAX,
        is_cleanup_of(u, t),
    ensures
        u.consistent(),
{
    let vf = vertex_flags(t);
    let ef = edge_flags(t);
    let ff = face_flags(t);
    assert forall|p: int| 0 <= p < u.edges@.len() implies #[trigger] u.edge_ok(p) by {
        lemma_kept_rank_onto(ef, t.edges@.len() as int, p);
        let j = choose|j: int| 0 <= j < t.edges@.len() && !ef[j] && kept_count(ef, j) == p;
        let e = t.edges@[j];
        assert(t.edge_ok(j));
        assert(u.edges@[p] == cleaned_edge(t, j));
        lemma_kept_count_bound(ef, j);
        lemma_remapped_ref_ok(e.origin, vf);
        lemma_remapped_ref_ok(e.twin, ef);
        lemma_remapped_ref_ok(e.next, ef);
        lemma_remapped_ref_ok(e.prev, ef);
        lemma_remapped_ref_ok(e.incident_face, ff);
        if e.twin.id >= 0 && !ef[e.twin.id as int] {
            assert(t.edge_ok(e.twin.id as int));
            lemma_kept_count_bound(ef, e.twin.id as int);
            assert(u.edges@[kept_count(ef, e.twin.id as int) as int] == cleaned_edge(t, e.twin.id as int));
        }
        if e.next.id >= 0 && !ef[e.next.id as int] {
            assert(t.edge_ok(e.next.id as int));
            lemma_kept_count_bound(ef, e.next.id as int);
            assert(u.edges@[kept_count(ef, e.next.id as int) as int] == cleaned_edge(t, e.next.id as int));
        }
        if e.prev.id >= 0 && !ef[e.prev.id as int] {
            assert(t.edge_ok(e.prev.id as int));
            lemma_kept_count_bound(ef, e.prev.id as int);
            assert(u.edges@[kept_count(ef, e.prev.id as int) as int] == cleaned_edge(t, e.prev.id as int));
        }
    }
    assert forall|p: int| 0 <= p < u.faces@.len() implies {
        &&& (#[trigger] u.faces@[p]).id.id == p
        &&& ref_ok(u.faces@[p].outer_component, u.edges@.len())
    } by {
        lemma_kept_rank_onto(ff, t.faces@.len() as int, p);
        let j = choose|j: int| 0 <= j < t.faces@.len() && !ff[j] && kept_count(ff, j) == p;
        assert(u.faces@[p] == cleaned_face(t, j));
        lemma_kept_count_bound(ff, j);
        lemma_remapped_ref_ok(t.faces@[j].outer_component, ef);
    }
    assert forall|p: int| 0 <= p < u.vertices@.len() implies {
        &&& (#[trigger] u.vertices@[p]).id.id == p
        &&& ref_ok(u.vertices@[p].incident_edge, u.edges@.len())
        &&& u.vertices@[p].incident_edge.id >= 0 ==> u.edges@[u.vertices@[p].incident_edge.id as int].origin.id == p
    } by {
        lemma_kept_rank_onto(vf, t.vertices@.len() as int, p);
        let j = choose|j: int| 0 <= j < t.vertices@.len() && !vf[j] && kept_count(vf, j) == p;
        assert(u.vertices@[p] == cleaned_vertex(t, j));
        lemma_kept_count_bound(vf, j);
        lemma_remapped_ref_ok(t.vertices@[j].incident_edge, ef);
        let ie = t.vertices@[j].incident_edge;
        if ie.id >= 0 && !ef[ie.id as int] {
            lemma_kept_count_bound(ef, ie.id as int);
            assert(u.edges@[kept_count(ef, ie.id as int) as int] == cleaned_edge(t, ie.id as int));
            assert(t.edges@[ie.id as int].origin.id == j);
        }
    }
}

/// The reference `r` through table `new_idx`: null stays, otherwise the
/// table entry.
fn remap_ref(r: Ref, new_idx: &Vec<i32>) -> (out: Ref)
    requires
        r.id < 0 || r.id < new_idx@.len(),
    ensures
        out == (if r.id < 0 {
            r
        } else {
            Ref { id: new_idx@[r.id as int] }
        }),
{
    if !r.is_valid() {
        return r;
    }
    Ref::new(new_idx[r.id as usize])
}

/// The new index of every element: its rank among the kept ones, or `-1`.
fn build_index_table(flags: &Vec<bool>) -> (idx: Vec<i32>)
    requires
        flags@.len() <= i32::MAX,
    ensures
        idx@.len() == flags@.len(),
        forall|i: int|
            0 <= i < flags@.len() ==> #[trigger] idx@[i] == remapped(Ref { id: i as i32 }, flags@).id,
        kept_count(flags@, flags@.len() as int) <= flags@.len(),
{
    let n = flags.len();
    let mut idx: Vec<i32> = Vec::new();
    let mut cnt: i32 = 0;
    let mut i: usize = 0;
    while i < n
        invariant
            n == flags@.len(),
            n <= i32::MAX,
            i <= n,
            idx@.len() == i,
            cnt == kept_count(flags@, i as int),
            cnt <= i,
            forall|j: int| 0 <= j < i ==> #[trigger] idx@[j] == remapped(Ref { id: j as i32 }, flags@).id,
        decreases n - i,
    {
        if !flags[i] {
            idx.push(cnt);
            cnt = cnt + 1;
        } else {
            idx.push(-1);
        }
        i = i + 1;
    }
    idx
}

/// Removes the super triangle: its three vertices, every face with a corner
/// at one of them, and every half-edge without a remaining face.  The kept
/// elements are renumbered in order and every reference is renumbered with
/// them; a reference to a removed element becomes null.
pub fn cleanup<P: Copy>(t: &mut Dcel<P>)
    requires
        old(t).consistent(),
        faces_walkable(&*old(t)),
        old(t).vertices@.len() <= i32::MAX,
        old(t).edges@.len() <= i32::MAX,
        old(t).faces@.len() <= i32::MAX,
    ensures
        old(t).vertices@.len() < 3 ==> final(t).vertices@ == old(t).vertices@ && final(t).edges@
            == old(t).edges@ && final(t).faces@ == old(t).faces@,
        old(t).vertices@.len() >= 3 ==> is_cleanup_of(&*final(t), &*old(t)),
        final(t).consistent(),
{
    if t.vertices.len() < 3 {
        return;
    }
    let ghost t0 = *t;
    let s0 = t.vertices[0].id.id;
    let s1 = t.vertices[1].id.id;
    let s2 = t.vertices[2].id.id;

    let nf = t.faces.len();
    let mut invalid_faces: Vec<bool> = Vec::new();
    let mut i: usize = 0;
    while i < nf
        invariant
            *t == t0,
            t0.consistent(),
            faces_walkable(&t0),
            nf == t0.faces@.len(),
            s0 == t0.vertices@[0].id.id && s1 == t0.vertices@[1].id.id && s2 == t0.vertices@[2].id.id,
            i <= nf,
            invalid_faces@ == face_flags(&t0).subrange(0, i as int),
        decreases nf - i,
    {
        let f = t.faces[i];
        let flag = if !f.outer_component.is_valid() {
            false
        } else {
            proof {
                assert(t0.faces@[i as int] == f);
                assert(t0.edge_ok(f.outer_component.id as int));
            }
            let h = t.edges[f.outer_component.id as usize];
            proof {
                assert(t0.edge_ok(h.next.id as int));
            }
            let h2 = t.edges[h.next.id as usize];
            let h3 = t.edges[h2.next.id as usize];
            let v0 = h.origin.id;
            let v1 = h2.origin.id;
            let v2 = h3.origin.id;
            (v0 == s0 || v0 == s1 || v0 == s2) || (v1 == s0 || v1 == s1 || v1 == s2) || (v2 == s0
                || v2 == s1 || v2 == s2)
        };
        invalid_faces.push(flag);
        assert(invalid_faces@ =~= face_flags(&t0).subrange(0, i + 1));
        i = i + 1;
    }
    assert(invalid_faces@ =~= face_flags(&t0));

    let ne = t.edges.len();
    let mut invalid_edges: Vec<bool> = Vec::new();
    let mut i: usize = 0;
    while i < ne
        invariant
            *t == t0,
            t0.consistent(),
            ne == t0.edges@.len(),
            invalid_faces@ == face_flags(&t0),
            i <= ne,
            invalid_edges@ == edge_flags(&t0).subrange(0, i as int),
        decreases ne - i,
    {
        let e = t.edges[i];
        proof {
            assert(t0.edge_ok(i as int));
        }
        let flag = if !e.incident_face.is_valid() {
            true
        } else {
            invalid_faces[e.incident_face.id as usize]
        };
        invalid_edges.push(flag);
        assert(invalid_edges@ =~= edge_flags(&t0).subrange(0, i + 1));
        i = i + 1;
    }
    assert(invalid_edges@ =~= edge_flags(&t0));

    let nv = t.vertices.len();
    let mut invalid_verts: Vec<bool> = Vec::new();
    let mut i: usize = 0;
    while i < nv
        invariant
            *t == t0,
            nv == t0.vertices@.len(),
            s0 == t0.vertices@[0].id.id && s1 == t0.vertices@[1].id.id && s2 == t0.vertices@[2].id.id,
            i <= nv,
            invalid_verts@ == vertex_flags(&t0).subrange(0, i as int),
        decreases nv - i,
    {
        let v = t.vertices[i];
        let flag = v.id.id == s0 || v.id.id == s1 || v.id.id == s2;
        invalid_verts.push(flag);
        assert(invalid_verts@ =~= vertex_flags(&t0).subrange(0, i + 1));
        i = i + 1;
    }
    assert(invalid_verts@ =~= vertex_flags(&t0));

    let new_vert_idx = build_index_table(&invalid_verts);
    let new_edge_idx = build_index_table(&invalid_edges);
    let new_face_idx = build_index_table(&invalid_faces);

    let mut new_verts: Vec<Vertex<P>> = Vec::new();
    let mut i: usize = 0;
    while i < nv
        invariant
            *t == t0,
            t0.consistent(),
            nv == t0.vertices@.len(),
            nv <= i32::MAX,
            invalid_verts@ == vertex_flags(&t0),
            new_vert_idx@.len() == nv,
            forall|k: int|
                0 <= k < nv ==> #[trigger] new_vert_idx@[k] == remapped(Ref { id: k as i32 }, vertex_flags(&t0)).id,
            new_edge_idx@.len() == t0.edges@.len(),
            forall|k: int|
                0 <= k < t0.edges@.len() ==> #[trigger] new_edge_idx@[k] == remapped(Ref { id: k as i32 }, edge_flags(&t0)).id,
            i <= nv,
            new_verts@.len() == kept_count(vertex_flags(&t0), i as int),
            forall|j: int|
                0 <= j < i && !vertex_flags(&t0)[j] ==> new_verts@[kept_count(vertex_flags(&t0), j) as int]
                    == #[trigger] cleaned_vertex(&t0, j),
        decreases nv - i,
    {
        let v = t.vertices[i];
        proof {
            lemma_kept_count_bound(vertex_flags(&t0), i as int);
        }
        if !invalid_verts[i] {
            let mut v2 = v;
            v2.id = Ref::new(new_vert_idx[v.id.id as usize]);
            v2.incident_edge = remap_ref(v.incident_edge, &new_edge_idx);
            let ghost before = new_verts@;
            new_verts.push(v2);
            proof {
                assert forall|j: int|
                    0 <= j < i + 1 && !vertex_flags(&t0)[j] implies new_verts@[kept_count(vertex_flags(&t0), j) as int]
                        == #[trigger] cleaned_vertex(&t0, j) by {
                    if j < i {
                        lemma_kept_count_monotone(vertex_flags(&t0), j, i as int);
                        assert(new_verts@[kept_count(vertex_flags(&t0), j) as int] == before[kept_count(vertex_flags(&t0), j) as int]);
                    }
                }
            }
            assert(v2 == cleaned_vertex(&t0, i as int));
        }
        i = i + 1;
    }

    let mut new_edges: Vec<HalfEdge> = Vec::new();
    let mut i: usize = 0;
    while i < ne
        invariant
            *t == t0,
            t0.consistent(),
            ne == t0.edges@.len(),
            ne <= i32::MAX,
            invalid_edges@ == edge_flags(&t0),
            new_vert_idx@.len() == t0.vertices@.len(),
            forall|k: int|
                0 <= k < t0.vertices@.len() ==> #[trigger] new_vert_idx@[k] == remapped(Ref { id: k as i32 }, vertex_flags(&t0)).id,
            new_edge_idx@.len() == ne,
            forall|k: int|
                0 <= k < ne ==> #[trigger] new_edge_idx@[k] == remapped(Ref { id: k as i32 }, edge_flags(&t0)).id,
            new_face_idx@.len() == t0.faces@.len(),
            forall|k: int|
                0 <= k < t0.faces@.len() ==> #[trigger] new_face_idx@[k] == remapped(Ref { id: k as i32 }, face_flags(&t0)).id,
            i <= ne,
            new_edges@.len() == kept_count(edge_flags(&t0), i as int),
            forall|j: int|
                0 <= j < i && !edge_flags(&t0)[j] ==> new_edges@[kept_count(edge_flags(&t0), j) as int]
                    == #[trigger] cleaned_edge(&t0, j),
        decreases ne - i,
    {
        let e = t.edges[i];
        proof {
            assert(t0.edge_ok(i as int));
            lemma_kept_count_bound(edge_flags(&t0), i as int);
        }
        if !invalid_edges[i] {
            let mut e2 = e;
            e2.id = Ref::new(new_edge_idx[e.id.id as usize]);
            e2.origin = remap_ref(e.origin, &new_vert_idx);
            e2.twin = remap_ref(e.twin, &new_edge_idx);
            e2.incident_face = remap_ref(e.incident_face, &new_face_idx);
            e2.next = remap_ref(e.next, &new_edge_idx);
            e2.prev = remap_ref(e.prev, &new_edge_idx);
            let ghost before = new_edges@;
            new_edges.push(e2);
            proof {
                assert forall|j: int|
                    0 <= j < i + 1 && !edge_flags(&t0)[j] implies new_edges@[kept_count(edge_flags(&t0), j) as int]
                        == #[trigger] cleaned_edge(&t0, j) by {
                    if j < i {
                        lemma_kept_count_monotone(edge_flags(&t0), j, i as int);
                        assert(new_edges@[kept_count(edge_flags(&t0), j) as int] == before[kept_count(edge_flags(&t0), j) as int]);
                    }
                }
            }
            assert(e2 == cleaned_edge(&t0, i as int));
        }
        i = i + 1;
    }

    let mut new_faces: Vec<Face> = Vec::new();
    let mut i: usize = 0;
    while i < nf
        invariant
            *t == t0,
            t0.consistent(),
            nf == t0.faces@.len(),
            nf <= i32::MAX,
            invalid_faces@ == face_flags(&t0),
            new_edge_idx@.len() == t0.edges@.len(),
            forall|k: int|
                0 <= k < t0.edges@.len() ==> #[trigger] new_edge_idx@[k] == remapped(Ref { id: k as i32 }, edge_flags(&t0)).id,
            new_face_idx@.len() == nf,
            forall|k: int|
                0 <= k < nf ==> #[trigger] new_face_idx@[k] == remapped(Ref { id: k as i32 }, face_flags(&t0)).id,
            i <= nf,
            new_faces@.len() == kept_count(face_flags(&t0), i as int),
            forall|j: int|
                0 <= j < i && !face_flags(&t0)[j] ==> new_faces@[kept_count(face_flags(&t0), j) as int]
                    == #[trigger] cleaned_face(&t0, j),
        decreases nf - i,
    {
        let f = t.faces[i];
        proof {
            lemma_kept_count_bound(face_flags(&t0), i as int);
        }
        if !invalid_faces[i] {
            let mut f2 = f;
            f2.id = Ref::new(new_face_idx[f.id.id as usize]);
            f2.outer_component = remap_ref(f.outer_component, &new_edge_idx);
            let ghost before = new_faces@;
            new_faces.push(f2);
            proof {
                assert forall|j: int|
                    0 <= j < i + 1 && !face_flags(&t0)[j] implies new_faces@[kept_count(face_flags(&t0), j) as int]
                        == #[trigger] cleaned_face(&t0, j) by {
                    if j < i {
                        lemma_kept_count_monotone(face_flags(&t0), j, i as int);
                        assert(new_faces@[kept_count(face_flags(&t0), j) as int] == before[kept_count(face_flags(&t0), j) as int]);
                    }
                }
            }
            assert(f2 == cleaned_face(&t0, i as int));
        }
        i = i + 1;
    }

    t.vertices = new_verts;
    t.edges = new_edges;
    t.faces = new_faces;
    proof {
        lemma_cleanup_consistent(&t0, &*t);
    }
}

} // verus!
