//! Per-face tables of the Voronoi diagram: the faces across each boundary
//! half-edge, the vertices around each face and the half-edges around it.
use vstd::prelude::*;
use crate::dcel::{Dcel, HalfEdge, in_range};

verus! {

/// Face `f` has an outer component whose boundary closes, with a twin on
/// every half-edge of it.
pub open spec fn face_walkable<P: Copy>(d: &Dcel<P>, f: int) -> bool {
    let h0 = d.edge_at(d.faces@[f].outer_component);
    &&& in_range(d.faces@[f].outer_component, d.edges@.len())
    &&& exists|n: nat|
        d.next_cycle(h0, n) && forall|k: nat| k < n ==> in_range(#[trigger] d.next_walk(h0, k).twin, d.edges@.len())
}

/// The half-edges around face `f`, in `next` order from its outer component
/// (none when it has no outer component).
pub open spec fn face_boundary<P: Copy>(d: &Dcel<P>, f: int) -> Seq<HalfEdge> {
    if d.faces@[f].outer_component.id < 0 {
        Seq::empty()
    } else {
        let h0 = d.edge_at(d.faces@[f].outer_component);
        let n = choose|n: nat| d.next_cycle(h0, n);
        Seq::new(n, |k: int| d.next_walk(h0, k as nat))
    }
}

/// The faces across the first `k` half-edges of `es`: the face of each twin
/// that has one, in order.
pub open spec fn faces_across<P: Copy>(d: &Dcel<P>, es: Seq<HalfEdge>, k: nat) -> Seq<usize>
    decreases k,
{
    if k == 0 {
        Seq::empty()
    } else {
        let before = faces_across(d, es, (k - 1) as nat);
        let tw = d.edge_at(es[k - 1].twin);
        if tw.incident_face.id >= 0 {
            before.push(tw.incident_face.id as usize)
        } else {
            before
        }
    }
}

/// The tables as sequences: for each face, the faces across its boundary,
/// the ids of the vertices around it, and the ids of its half-edges.
pub open spec fn face_tables_of<P: Copy>(d: &Dcel<P>) -> (Seq<Seq<usize>>, Seq<Seq<usize>>, Seq<Seq<usize>>) {
    let nf = d.faces@.len();
    (
        Seq::new(nf, |f: int| faces_across(d, face_boundary(d, f), face_boundary(d, f).len())),
        Seq::new(nf, |f: int| face_boundary(d, f).map_values(|e: HalfEdge| d.vertices@[e.origin.id as int].id.id as usize)),
        Seq::new(nf, |f: int| face_boundary(d, f).map_values(|e: HalfEdge| e.id.id as usize)),
    )
}

/// The lists of a vector of vectors, as sequences.
pub open spec fn tables_view(v: &Vec<Vec<usize>>) -> Seq<Seq<usize>> {
    v@.map_values(|l: Vec<usize>| l@)
}

/// For every face: the faces across its boundary half-edges, the vertices
/// around it and its half-edges, each in `next` order from its outer
/// component, as `face_tables_of` says; a face without an outer component
/// gets three empty lists.
pub fn face_tables<P: Copy>(d: &Dcel<P>) -> (r: (Vec<Vec<usize>>, Vec<Vec<usize>>, Vec<Vec<usize>>))
    requires
        d.well_linked(),
        forall|f: int| 0 <= f < d.faces@.len() && (#[trigger] d.faces@[f]).outer_component.id >= 0 ==> face_walkable(d, f),
    ensures
        (tables_view(&r.0), tables_view(&r.1), tables_view(&r.2)) == face_tables_of(d),
{
    let ghost target = face_tables_of(d);
    let nf = d.faces.len();
    let mut nbs_all: Vec<Vec<usize>> = Vec::new();
    let mut verts_all: Vec<Vec<usize>> = Vec::new();
    let mut eids_all: Vec<Vec<usize>> = Vec::new();
    let mut i: usize = 0;
    while i < nf
        invariant
            nf == d.faces@.len(),
            d.well_linked(),
            forall|f: int| 0 <= f < d.faces@.len() && (#[trigger] d.faces@[f]).outer_component.id >= 0 ==> face_walkable(d, f),
            target == face_tables_of(d),
            i <= nf,
            tables_view(&nbs_all) == target.0.take(i as int),
            tables_view(&verts_all) == target.1.take(i as int),
            tables_view(&eids_all) == target.2.take(i as int),
        decreases nf - i,
    {
        let f = d.faces[i];
        let ghost es = face_boundary(d, i as int);
        let mut nbs: Vec<usize> = Vec::new();
        let mut verts: Vec<usize> = Vec::new();
        let mut eids: Vec<usize> = Vec::new();
        if f.outer_component.id >= 0 {
            let ghost h0 = d.edge_at(f.outer_component);
            let ghost n = choose|n: nat|
                d.next_cycle(h0, n) && forall|k: nat| k < n ==> in_range(#[trigger] d.next_walk(h0, k).twin, d.edges@.len());
            proof {
                assert(face_walkable(d, i as int));
                assert forall|m: nat| d.next_cycle(h0, m) implies m == n by {
                    if m < n {
                        assert(d.next_walk(h0, m).id != h0.id);
                    } else if m > n {
                        assert(d.next_walk(h0, n).id != h0.id);
                    }
                }
            }
            let edges = d.get_outer_components(&f);
            assert(edges@ == es);
            let mut k: usize = 0;
            while k < edges.len()
                invariant
                    d.well_linked(),
                    h0 == d.edge_at(f.outer_component),
                    in_range(f.outer_component, d.edges@.len()),
                    d.next_cycle(h0, n),
                    edges@ == es,
                    es == Seq::new(n, |j: int| d.next_walk(h0, j as nat)),
                    forall|j: nat| j < n ==> in_range(#[trigger] d.next_walk(h0, j).twin, d.edges@.len()),
                    k <= edges@.len(),
                    nbs@ == faces_across(d, es, k as nat),
                    verts@ == es.take(k as int).map_values(|e: HalfEdge| d.vertices@[e.origin.id as int].id.id as usize),
                    eids@ == es.take(k as int).map_values(|e: HalfEdge| e.id.id as usize),
                decreases edges@.len() - k,
            {
                let e = edges[k];
                assert(e == d.next_walk(h0, k as nat));
                let tw = d.twin(e);
                if tw.incident_face.id >= 0 {
                    nbs.push(tw.incident_face.id as usize);
                }
                proof {
                    if k == 0 {
                        assert(e == d.edges@[f.outer_component.id as int]);
                    } else {
                        let p = d.next_walk(h0, (k - 1) as nat);
                        assert(in_range(p.next, d.edges@.len()));
                        assert(e == d.edges@[p.next.id as int]);
                    }
                    assert(in_range(e.origin, d.vertices@.len()));
                }
                let v = d.origin(e);
                verts.push(v.id.id as usize);
                eids.push(e.id.id as usize);
                assert(verts@ =~= es.take(k + 1).map_values(|e: HalfEdge| d.vertices@[e.origin.id as int].id.id as usize));
                assert(eids@ =~= es.take(k + 1).map_values(|e: HalfEdge| e.id.id as usize));
                k = k + 1;
            }
            assert(es.take(es.len() as int) =~= es);
            assert(verts@ =~= es.map_values(|e: HalfEdge| d.vertices@[e.origin.id as int].id.id as usize));
            assert(eids@ =~= es.map_values(|e: HalfEdge| e.id.id as usize));
        } else {
            assert(es =~= Seq::<HalfEdge>::empty());
            assert(nbs@ =~= faces_across(d, es, es.len()));
            assert(verts@ =~= es.map_values(|e: HalfEdge| d.vertices@[e.origin.id as int].id.id as usize));
            assert(eids@ =~= es.map_values(|e: HalfEdge| e.id.id as usize));
        }
        let ghost b0 = nbs_all;
        let ghost b1 = verts_all;
        let ghost b2 = eids_all;
        nbs_all.push(nbs);
        verts_all.push(verts);
        eids_all.push(eids);
        proof {
            assert(tables_view(&nbs_all) =~= tables_view(&b0).push(target.0[i as int]));
            assert(tables_view(&verts_all) =~= tables_view(&b1).push(target.1[i as int]));
            assert(tables_view(&eids_all) =~= tables_view(&b2).push(target.2[i as int]));
            assert(target.0.take(i + 1) =~= target.0.take(i as int).push(target.0[i as int]));
            assert(target.1.take(i + 1) =~= target.1.take(i as int).push(target.1[i as int]));
            assert(target.2.take(i + 1) =~= target.2.take(i as int).push(target.2[i as int]));
        }
        i = i + 1;
    }
    proof {
        assert(target.0.take(nf as int) =~= target.0);
        assert(target.1.take(nf as int) =~= target.1);
        assert(target.2.take(nf as int) =~= target.2);
    }
    (nbs_all, verts_all, eids_all)
}

} // verus!
