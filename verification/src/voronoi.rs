//! The topology of the Voronoi diagram dual to a Delaunay triangulation.
//!
//! Each Delaunay triangle gives a Voronoi vertex (at its circumcentre, which
//! the caller computes), each pair of triangles adjacent around a Delaunay
//! vertex gives a Voronoi half-edge, and each interior Delaunay vertex gives a
//! Voronoi cell.
use vstd::prelude::*;
use crate::dcel::{Dcel, Face, HalfEdge, Ref, Vertex, blank_half_edge, in_range, null_or_in_range,
    lemma_closed_scan_cycles, lemma_spoke_cycle_unique};

verus! {

/// For each Voronoi vertex, the half-edges that start at it, as pairs of
/// destination vertex and half-edge index.
pub open spec fn table_view(ve: &Vec<Vec<(usize, usize)>>) -> Seq<Seq<(usize, usize)>> {
    ve@.map_values(|x: Vec<(usize, usize)>| x@)
}

/// Every entry of the vertex-edge table names a half-edge of `v` that starts
/// at the table row's vertex and heads to a vertex of `v`.
pub open spec fn table_ok<P: Copy>(v: &Dcel<P>, ve: Seq<Seq<(usize, usize)>>) -> bool {
    &&& ve.len() == v.vertices@.len()
    &&& forall|a: int, k: int|
        0 <= a < ve.len() && 0 <= k < ve[a].len() ==> {
            &&& (#[trigger] ve[a][k]).0 < v.vertices@.len()
            &&& ve[a][k].1 < v.edges@.len()
            &&& v.edges@[ve[a][k].1 as int].origin.id == a
        }
}

/// The Voronoi DCEL under construction: ids are indices, every half-edge
/// starts at a vertex, and every other reference is null or in range.
pub open spec fn voronoi_ok<P: Copy>(v: &Dcel<P>) -> bool {
    &&& v.well_linked()
    &&& forall|i: int|
        0 <= i < v.edges@.len() ==> {
            &&& (#[trigger] v.edges@[i]).id.id == i
            &&& null_or_in_range(v.edges@[i].prev, v.edges@.len())
            &&& null_or_in_range(v.edges@[i].incident_face, v.faces@.len())
        }
    &&& forall|i: int|
        0 <= i < v.faces@.len() ==> {
            &&& (#[trigger] v.faces@[i]).id.id == i
            &&& null_or_in_range(v.faces@[i].outer_component, v.edges@.len())
        }
}

/// The faces around Delaunay vertex `d`, in rotation order.
pub open spec fn cell_faces<P: Copy>(t: &Dcel<P>, d: int) -> Seq<Face> {
    let h0 = t.edge_at(t.vertices@[d].incident_edge);
    let n = choose|n: nat| t.spoke_cycle(h0, n);
    t.faces_around(h0, n)
}

/// The Voronoi vertices of the `f`-th face around a cell and of the face
/// before it (cyclically).
pub open spec fn pair_at(fs: Seq<Face>, ftv: Seq<i32>, f: int) -> (i32, i32) {
    let fi = fs[f];
    let fj = if f == 0 {
        fs.last()
    } else {
        fs[f - 1]
    };
    (ftv[fi.id.id as int], ftv[fj.id.id as int])
}

/// Row `a` of the table has an entry heading to `b`.
pub open spec fn has_dest(ve: Seq<Seq<(usize, usize)>>, a: int, b: int) -> bool {
    exists|k: int| 0 <= k < ve[a].len() && ve[a][k].0 == b
}

/// For every interior Delaunay vertex below `upto` and every pair of adjacent
/// faces around it with Voronoi vertices `(a, b)`, the table has an entry
/// from `a` to `b`.
pub open spec fn pairs_recorded<P: Copy>(
    t: &Dcel<P>,
    ftv: Seq<i32>,
    ve: Seq<Seq<(usize, usize)>>,
    upto: int,
) -> bool {
    forall|d: int, f: int|
        0 <= d < upto && !t.boundary_vertex(t.vertices@[d]) && 0 <= f < cell_faces(t, d).len()
            && (#[trigger] pair_at(cell_faces(t, d), ftv, f)).0 >= 0 && pair_at(
            cell_faces(t, d),
            ftv,
            f,
        ).1 >= 0 ==> has_dest(ve, pair_at(cell_faces(t, d), ftv, f).0 as int, pair_at(cell_faces(t, d), ftv, f).1 as int)
}

/// The face table: `-1` or a Voronoi vertex index for every Delaunay face.
pub open spec fn ftv_ok(ftv: Seq<i32>, nf: nat, nv: nat) -> bool {
    &&& ftv.len() == nf
    &&& forall|i: int| 0 <= i < ftv.len() ==> -1 <= #[trigger] ftv[i] < nv
}

/// An interior vertex of a consistent triangulation: its incident faces can
/// be listed, all of them real faces.
proof fn lemma_interior_vertex<P: Copy>(t: &Dcel<P>, d: int)
    requires
        t.links_in_range(),
        0 <= d < t.vertices@.len(),
        null_or_in_range(t.vertices@[d].incident_edge, t.edges@.len()),
        forall|i: int|
            0 <= i < t.edges@.len() ==> {
                let r = (#[trigger] t.edges@[i]).incident_face;
                r.id == -1 || (0 <= r.id < t.faces@.len())
            },
        !t.boundary_vertex(t.vertices@[d]),
    ensures
        in_range(t.vertices@[d].incident_edge, t.edges@.len()),
        exists|n: nat|
            {
                &&& n <= 1001
                &&& t.spoke_cycle(t.edge_at(t.vertices@[d].incident_edge), n)
                &&& forall|k: nat|
                    k < n ==> crate::dcel::face_ref_ok(
                        #[trigger] t.spoke_walk(t.edge_at(t.vertices@[d].incident_edge), k).incident_face,
                        t.faces@.len(),
                    )
            },
{
    let v = t.vertices@[d];
    let h0 = t.edge_at(v.incident_edge);
    assert(t.edges@[v.incident_edge.id as int] == h0);
    lemma_closed_scan_cycles(t, h0, 0);
    let n = choose|n: nat|
        n <= 1001 && t.spoke_cycle(h0, n) && forall|k: nat|
            k < n ==> (#[trigger] t.spoke_walk(h0, k)).incident_face.id != -1;
    assert forall|k: nat| k < n implies crate::dcel::face_ref_ok(
        #[trigger] t.spoke_walk(h0, k).incident_face,
        t.faces@.len(),
    ) by {
        let e = t.spoke_walk(h0, k);
        if k == 0 {
            assert(t.edges@[v.incident_edge.id as int] == e);
        } else {
            let prev = t.spoke_walk(h0, (k - 1) as nat);
            assert(t.edges@[t.edge_at(prev.twin).next.id as int] == e);
        }
    }
}

/// One Voronoi vertex per Delaunay face that has a boundary, at the given
/// centre of that face; returns the faces in order of their vertices.
fn create_voronoi_vertices<P: Copy>(t: &Dcel<P>, v: &mut Dcel<P>, centers: &Vec<P>) -> (vertex_to_face:
    Vec<usize>)
    requires
        old(v).vertices@.len() == 0,
        old(v).edges@.len() == 0,
        old(v).faces@.len() == 0,
        centers@.len() == t.faces@.len(),
        t.faces@.len() <= i32::MAX,
    ensures
        vertex_to_face@.len() == final(v).vertices@.len(),
        vertex_to_face@.len() <= t.faces@.len(),
        final(v).edges@.len() == 0,
        final(v).faces@.len() == 0,
        voronoi_ok(&*final(v)),
        forall|k: int|
            0 <= k < vertex_to_face@.len() ==> {
                &&& #[trigger] vertex_to_face@[k] < t.faces@.len()
                &&& t.faces@[vertex_to_face@[k] as int].outer_component.id >= 0
                &&& final(v).vertices@[k].position == centers@[vertex_to_face@[k] as int]
                &&& final(v).vertices@[k].incident_edge.id == -1
            },
        forall|k: int, l: int|
            0 <= k < l < vertex_to_face@.len() ==> vertex_to_face@[k] < vertex_to_face@[l],
        forall|i: int|
            0 <= i < t.faces@.len() && (#[trigger] t.faces@[i]).outer_component.id >= 0 ==> exists|k: int|
                0 <= k < vertex_to_face@.len() && vertex_to_face@[k] == i,
{
    let mut vertex_to_face: Vec<usize> = Vec::new();
    let nf = t.faces.len();
    let mut i: usize = 0;
    while i < nf
        invariant
            nf == t.faces@.len(),
            nf <= i32::MAX,
            centers@.len() == nf,
            i <= nf,
            vertex_to_face@.len() == v.vertices@.len(),
            vertex_to_face@.len() <= i,
            v.edges@.len() == 0,
            v.faces@.len() == 0,
            voronoi_ok(&*v),
            forall|k: int|
                0 <= k < vertex_to_face@.len() ==> {
                    &&& #[trigger] vertex_to_face@[k] < i
                    &&& t.faces@[vertex_to_face@[k] as int].outer_component.id >= 0
                    &&& v.vertices@[k].position == centers@[vertex_to_face@[k] as int]
                    &&& v.vertices@[k].incident_edge.id == -1
                },
            forall|k: int, l: int|
                0 <= k < l < vertex_to_face@.len() ==> vertex_to_face@[k] < vertex_to_face@[l],
            forall|j: int|
                0 <= j < i && (#[trigger] t.faces@[j]).outer_component.id >= 0 ==> exists|k: int|
                    0 <= k < vertex_to_face@.len() && vertex_to_face@[k] == j,
        decreases nf - i,
    {
        let f = &t.faces[i];
        let ghost before = vertex_to_face@;
        if f.outer_component.is_valid() {
            v.create_vertex(centers[i]);
            vertex_to_face.push(i);
            proof {
                assert(vertex_to_face@[before.len() as int] == i);
                assert forall|j: int|
                    0 <= j < i && (#[trigger] t.faces@[j]).outer_component.id >= 0 implies exists|k: int|
                        0 <= k < vertex_to_face@.len() && vertex_to_face@[k] == j by {
                    let k = choose|k: int| 0 <= k < before.len() && before[k] == j;
                    assert(vertex_to_face@[k] == before[k]);
                }
            }
        }
        i = i + 1;
    }
    vertex_to_face
}

/// The Delaunay triangulation the Voronoi diagram is built from: ids are
/// indices, `twin` and `next` are null or in range, face references are
/// `-1` or in range.
pub open spec fn delaunay_ok<P: Copy>(t: &Dcel<P>) -> bool {
    &&& t.links_in_range()
    &&& forall|i: int|
        0 <= i < t.edges@.len() ==> {
            let r = (#[trigger] t.edges@[i]).incident_face;
            r.id == -1 || (0 <= r.id < t.faces@.len())
        }
    &&& forall|i: int|
        0 <= i < t.vertices@.len() ==> {
            &&& null_or_in_range((#[trigger] t.vertices@[i]).incident_edge, t.edges@.len())
            &&& t.vertices@[i].id.id == i
        }
    &&& forall|i: int| 0 <= i < t.faces@.len() ==> (#[trigger] t.faces@[i]).id.id == i
}

/// The faces around a vertex are real faces of the triangulation, at most
/// one per step of the rotation.
proof fn lemma_faces_around_elems<P: Copy>(t: &Dcel<P>, h0: HalfEdge, k: nat)
    requires
        delaunay_ok(t),
        forall|j: nat| j < k ==> crate::dcel::face_ref_ok(#[trigger] t.spoke_walk(h0, j).incident_face, t.faces@.len()),
    ensures
        t.faces_around(h0, k).len() <= k,
        forall|m: int|
            0 <= m < t.faces_around(h0, k).len() ==> {
                let fc = #[trigger] t.faces_around(h0, k)[m];
                &&& 0 <= fc.id.id < t.faces@.len()
                &&& t.faces@[fc.id.id as int] == fc
            },
    decreases k,
{
    if k > 0 {
        lemma_faces_around_elems(t, h0, (k - 1) as nat);
        let e = t.spoke_walk(h0, (k - 1) as nat);
        if e.incident_face.id != -1 {
            let x = e.incident_face.id as int;
            assert(t.faces@[x].id.id == x);
        }
    }
}

/// The faces around an interior vertex are real faces, indexed by their ids.
proof fn lemma_cell_faces_in_range<P: Copy>(t: &Dcel<P>, d: int)
    requires
        delaunay_ok(t),
        0 <= d < t.vertices@.len(),
        !t.boundary_vertex(t.vertices@[d]),
    ensures
        cell_faces(t, d).len() <= 1001,
        forall|m: int|
            0 <= m < cell_faces(t, d).len() ==> {
                let fc = #[trigger] cell_faces(t, d)[m];
                &&& 0 <= fc.id.id < t.faces@.len()
                &&& t.faces@[fc.id.id as int] == fc
            },
{
    lemma_interior_vertex(t, d);
    let h0 = t.edge_at(t.vertices@[d].incident_edge);
    let n = choose|n: nat|
        {
            &&& n <= 1001
            &&& t.spoke_cycle(h0, n)
            &&& forall|k: nat| k < n ==> crate::dcel::face_ref_ok(#[trigger] t.spoke_walk(h0, k).incident_face, t.faces@.len())
        };
    lemma_spoke_cycle_unique(t, h0, n);
    lemma_faces_around_elems(t, h0, n);
}

/// Appending an entry to a row keeps every recorded destination.
proof fn lemma_push_keeps_dest(
    before: Seq<Seq<(usize, usize)>>,
    after: Seq<Seq<(usize, usize)>>,
    a: int,
    e: (usize, usize),
)
    requires
        0 <= a < before.len(),
        after == before.update(a, before[a].push(e)),
    ensures
        forall|x: int, y: int| 0 <= x < before.len() && has_dest(before, x, y) ==> #[trigger] has_dest(after, x, y),
        has_dest(after, a, e.0 as int),
{
    assert forall|x: int, y: int| 0 <= x < before.len() && has_dest(before, x, y) implies #[trigger] has_dest(after, x, y) by {
        let k = choose|k: int| 0 <= k < before[x].len() && before[x][k].0 == y;
        assert(after[x][k] == before[x][k]);
    }
    assert(after[a][before[a].len() as int] == e);
}

/// The number of faces around the interior vertices below `k`, counted once
/// per vertex: each gives at most one Voronoi half-edge out of the table and
/// one more when its cell is made.
pub open spec fn cell_total<P: Copy>(t: &Dcel<P>, k: nat) -> nat
    decreases k,
{
    if k == 0 {
        0
    } else {
        cell_total(t, (k - 1) as nat) + if !t.boundary_vertex(t.vertices@[k - 1]) {
            cell_faces(t, k - 1).len()
        } else {
            0
        }
    }
}

/// `cell_total` grows with `k`.
proof fn lemma_cell_total_mono<P: Copy>(t: &Dcel<P>, a: nat, b: nat)
    requires
        a <= b,
    ensures
        cell_total(t, a) <= cell_total(t, b),
    decreases b,
{
    if a < b {
        lemma_cell_total_mono(t, a, (b - 1) as nat);
    }
}

/// `cell_total` of all vertices of `t`: the sum, over the interior vertices,
/// of the number of faces around each, which bounds how many half-edges the
/// Voronoi diagram of `t` gets (at most twice this).
pub fn voronoi_edge_budget<P: Copy>(t: &Dcel<P>) -> (r: u64)
    requires
        delaunay_ok(t),
        t.vertices@.len() <= i32::MAX,
    ensures
        r == cell_total(t, t.vertices@.len()),
{
    let nvt = t.vertices.len();
    let mut total: u64 = 0;
    let mut vidx: usize = 0;
    while vidx < nvt
        invariant
            nvt == t.vertices@.len(),
            nvt <= i32::MAX,
            delaunay_ok(t),
            vidx <= nvt,
            total == cell_total(t, vidx as nat),
            total <= 1001 * vidx,
        decreases nvt - vidx,
    {
        let dv = t.vertices[vidx];
        if !t.is_boundary_vertex_check(dv) {
            proof {
                lemma_interior_vertex(t, vidx as int);
                lemma_cell_faces_in_range(t, vidx as int);
            }
            let incident_faces = t.get_incident_faces(dv);
            let ghost h0 = t.edge_at(dv.incident_edge);
            proof {
                let n = choose|n: nat|
                    {
                        &&& n <= 1001
                        &&& t.spoke_cycle(h0, n)
                        &&& forall|k: nat| k < n ==> crate::dcel::face_ref_ok(#[trigger] t.spoke_walk(h0, k).incident_face, t.faces@.len())
                    };
                lemma_spoke_cycle_unique(t, h0, n);
                lemma_faces_around_elems(t, h0, n);
                assert(incident_faces@ == cell_faces(t, vidx as int));
            }
            total = total + incident_faces.len() as u64;
        }
        vidx = vidx + 1;
    }
    total
}

/// A half-edge of `v` from Voronoi vertex `refi` for every pair of adjacent
/// faces around every interior Delaunay vertex, recorded in the table.
fn init_vertex_edge_table<P: Copy>(
    t: &Dcel<P>,
    v: &mut Dcel<P>,
    delaunay_face_to_vertex: &Vec<i32>,
    vertex_edges: &mut Vec<Vec<(usize, usize)>>,
)
    requires
        delaunay_ok(t),
        ftv_ok(delaunay_face_to_vertex@, t.faces@.len(), old(v).vertices@.len()),
        voronoi_ok(&*old(v)),
        table_ok(&*old(v), table_view(&*old(vertex_edges))),
        old(v).edges@.len() + cell_total(t, t.vertices@.len()) < i32::MAX,
    ensures
        voronoi_ok(&*final(v)),
        table_ok(&*final(v), table_view(&*final(vertex_edges))),
        final(v).vertices@ == old(v).vertices@,
        final(v).faces@ == old(v).faces@,
        final(v).edges@.len() <= old(v).edges@.len() + cell_total(t, t.vertices@.len()),
        pairs_recorded(t, delaunay_face_to_vertex@, table_view(&*final(vertex_edges)), t.vertices@.len() as int),
{
    let ghost ftv = delaunay_face_to_vertex@;
    let ghost ne0 = v.edges@.len();
    let nvt = t.vertices.len();
    let mut vidx: usize = 0;
    while vidx < nvt
        invariant
            nvt == t.vertices@.len(),
            delaunay_ok(t),
            ftv == delaunay_face_to_vertex@,
            ftv_ok(ftv, t.faces@.len(), v.vertices@.len()),
            voronoi_ok(&*v),
            table_ok(&*v, table_view(&*vertex_edges)),
            v.vertices@ == old(v).vertices@,
            v.faces@ == old(v).faces@,
            vidx <= nvt,
            ne0 == old(v).edges@.len(),
            ne0 + cell_total(t, nvt as nat) < i32::MAX,
            v.edges@.len() <= ne0 + cell_total(t, vidx as nat),
            pairs_recorded(t, ftv, table_view(&*vertex_edges), vidx as int),
        decreases nvt - vidx,
    {
        let dv = t.vertices[vidx];
        proof {
            lemma_cell_total_mono(t, (vidx + 1) as nat, nvt as nat);
        }
        if t.is_boundary_vertex_check(dv) {
            vidx = vidx + 1;
            continue;
        }
        proof {
            lemma_interior_vertex(t, vidx as int);
        }
        let incident_faces = t.get_incident_faces(dv);
        let ghost h0 = t.edge_at(dv.incident_edge);
        proof {
            let n = choose|n: nat|
                {
                    &&& n <= 1001
                    &&& t.spoke_cycle(h0, n)
                    &&& forall|k: nat| k < n ==> crate::dcel::face_ref_ok(#[trigger] t.spoke_walk(h0, k).incident_face, t.faces@.len())
                };
            lemma_spoke_cycle_unique(t, h0, n);
            lemma_faces_around_elems(t, h0, n);
            assert(incident_faces@ == cell_faces(t, vidx as int));
        }
        let nfaces = incident_faces.len();
        let mut fidx: usize = 0;
        while fidx < nfaces
            invariant
                nfaces == incident_faces@.len(),
                nfaces <= 1001,
                incident_faces@ == cell_faces(t, vidx as int),
                forall|m: int|
                    0 <= m < nfaces ==> {
                        let fc = #[trigger] incident_faces@[m];
                        &&& 0 <= fc.id.id < t.faces@.len()
                    },
                !t.boundary_vertex(t.vertices@[vidx as int]),
                nvt == t.vertices@.len(),
                vidx < nvt,
                delaunay_ok(t),
                ftv == delaunay_face_to_vertex@,
                ftv_ok(ftv, t.faces@.len(), v.vertices@.len()),
                voronoi_ok(&*v),
                table_ok(&*v, table_view(&*vertex_edges)),
                v.vertices@ == old(v).vertices@,
                v.faces@ == old(v).faces@,
                fidx <= nfaces,
                ne0 + cell_total(t, nvt as nat) < i32::MAX,
                cell_total(t, (vidx + 1) as nat) <= cell_total(t, nvt as nat),
                cell_total(t, (vidx + 1) as nat) == cell_total(t, vidx as nat) + nfaces,
                v.edges@.len() <= ne0 + cell_total(t, vidx as nat) + fidx,
                pairs_recorded(t, ftv, table_view(&*vertex_edges), vidx as int),
                forall|f: int|
                    0 <= f < fidx && (#[trigger] pair_at(cell_faces(t, vidx as int), ftv, f)).0 >= 0
                        && pair_at(cell_faces(t, vidx as int), ftv, f).1 >= 0 ==> has_dest(
                        table_view(&*vertex_edges),
                        pair_at(cell_faces(t, vidx as int), ftv, f).0 as int,
                        pair_at(cell_faces(t, vidx as int), ftv, f).1 as int,
                    ),
            decreases nfaces - fidx,
        {
            let fi = &incident_faces[fidx];
            let fj = if fidx == 0 {
                &incident_faces[nfaces - 1]
            } else {
                &incident_faces[fidx - 1]
            };
            let refi = delaunay_face_to_vertex[fi.id.id as usize];
            let refj = delaunay_face_to_vertex[fj.id.id as usize];
            if refi < 0 || refj < 0 {
                fidx = fidx + 1;
                continue;
            }
            let refi = refi as usize;
            let refj = refj as usize;
            let ghost before = table_view(&*vertex_edges);
            let ghost v_before = *v;
            let mut eij = v.create_half_edge();
            eij.origin = Ref::new(refi as i32);
            v.update_edge(eij);
            vertex_edges[refi].push((refj, eij.id.id as usize));
            proof {
                assert(table_view(&*vertex_edges) =~= before.update(
                    refi as int,
                    before[refi as int].push((refj, eij.id.id as usize)),
                ));
                lemma_push_keeps_dest(before, table_view(&*vertex_edges), refi as int, (refj, eij.id.id as usize));
                let after = table_view(&*vertex_edges);
                assert forall|d: int, f: int|
                    0 <= d < vidx && !t.boundary_vertex(t.vertices@[d]) && 0 <= f < cell_faces(t, d).len()
                        && (#[trigger] pair_at(cell_faces(t, d), ftv, f)).0 >= 0 && pair_at(
                        cell_faces(t, d),
                        ftv,
                        f,
                    ).1 >= 0 implies has_dest(
                    after,
                    pair_at(cell_faces(t, d), ftv, f).0 as int,
                    pair_at(cell_faces(t, d), ftv, f).1 as int,
                ) by {
                    lemma_cell_faces_in_range(t, d);
                    assert(has_dest(
                        before,
                        pair_at(cell_faces(t, d), ftv, f).0 as int,
                        pair_at(cell_faces(t, d), ftv, f).1 as int,
                    ));
                }
                assert forall|a: int, k: int|
                    0 <= a < table_view(&*vertex_edges).len() && 0 <= k < table_view(&*vertex_edges)[a].len() implies {
                        &&& (#[trigger] table_view(&*vertex_edges)[a][k]).0 < v.vertices@.len()
                        &&& table_view(&*vertex_edges)[a][k].1 < v.edges@.len()
                        &&& v.edges@[table_view(&*vertex_edges)[a][k].1 as int].origin.id == a
                    } by {
                    if a != refi || k < before[a].len() {
                        assert(table_view(&*vertex_edges)[a][k] == before[a][k]);
                        assert(v.edges@[before[a][k].1 as int] == v_before.edges@[before[a][k].1 as int]);
                    }
                }
            }
            fidx = fidx + 1;
        }
        vidx = vidx + 1;
    }
}

/// Vertex `u` with, where its table row is not empty, the half-edge of the
/// row's first entry as its incident edge.
pub open spec fn with_first_table_edge<P>(u: Vertex<P>, row: Seq<(usize, usize)>) -> Vertex<P> {
    if row.len() > 0 {
        Vertex { incident_edge: Ref { id: row[0].1 as i32 }, ..u }
    } else {
        u
    }
}

/// Each Voronoi vertex with an outgoing half-edge in the table gets the
/// first one as its incident edge.
fn init_vertex_incident_edges<P: Copy>(v: &mut Dcel<P>, vertex_edges: &Vec<Vec<(usize, usize)>>)
    requires
        voronoi_ok(&*old(v)),
        table_ok(&*old(v), table_view(vertex_edges)),
        incident_edges_start_at(&*old(v)),
    ensures
        incident_edges_start_at(&*final(v)),
        voronoi_ok(&*final(v)),
        table_ok(&*final(v), table_view(vertex_edges)),
        final(v).edges@ == old(v).edges@,
        final(v).faces@ == old(v).faces@,
        final(v).vertices@.len() == old(v).vertices@.len(),
        forall|i: int|
            0 <= i < final(v).vertices@.len() ==> (#[trigger] final(v).vertices@[i]).position
                == old(v).vertices@[i].position,
        forall|i: int|
            0 <= i < final(v).vertices@.len() ==> #[trigger] final(v).vertices@[i]
                == with_first_table_edge(old(v).vertices@[i], table_view(vertex_edges)[i]),
{
    let n = vertex_edges.len();
    let mut i: usize = 0;
    while i < n
        invariant
            n == vertex_edges@.len(),
            i <= n,
            voronoi_ok(&*v),
            table_ok(&*v, table_view(vertex_edges)),
            v.edges@ == old(v).edges@,
            v.faces@ == old(v).faces@,
            v.vertices@.len() == old(v).vertices@.len(),
            forall|k: int|
                0 <= k < v.vertices@.len() ==> (#[trigger] v.vertices@[k]).position
                    == old(v).vertices@[k].position,
            incident_edges_start_at(&*v),
            forall|k: int|
                0 <= k < i ==> #[trigger] v.vertices@[k] == with_first_table_edge(
                    old(v).vertices@[k],
                    table_view(vertex_edges)[k],
                ),
            forall|k: int| i <= k < v.vertices@.len() ==> #[trigger] v.vertices@[k] == old(v).vertices@[k],
        decreases n - i,
    {
        proof {
            assert(table_view(vertex_edges)[i as int] == vertex_edges@[i as int]@);
        }
        if vertex_edges[i].len() == 0 {
            i = i + 1;
            continue;
        }
        let edge_id = vertex_edges[i][0].1;
        proof {
            assert(table_view(vertex_edges)[i as int][0] == vertex_edges@[i as int]@[0]);
        }
        let mut vi = v.vertices[i];
        vi.incident_edge = Ref::new(edge_id as i32);
        v.update_vertex(vi);
        i = i + 1;
    }
}

/// Every half-edge of the loop is one of `v`'s and starts where `v` says.
pub open spec fn loop_ok<P: Copy>(v: &Dcel<P>, edge_loop: Seq<HalfEdge>) -> bool {
    forall|k: int|
        0 <= k < edge_loop.len() ==> {
            &&& 0 <= (#[trigger] edge_loop[k]).id.id < v.edges@.len()
            &&& 0 <= edge_loop[k].origin.id < v.vertices@.len()
            &&& v.edges@[edge_loop[k].id.id as int].origin == edge_loop[k].origin
        }
}

/// The first `upto` half-edges of a cell's loop: for each pair of adjacent
/// faces among `fs` whose Voronoi vertices both exist, the half-edge the
/// table records first between them.
pub open spec fn cell_edge_loop<P: Copy>(
    v: &Dcel<P>,
    fs: Seq<Face>,
    ftv: Seq<i32>,
    ve: Seq<Seq<(usize, usize)>>,
    upto: nat,
) -> Seq<HalfEdge>
    decreases upto,
{
    if upto == 0 {
        Seq::empty()
    } else {
        let prev = cell_edge_loop(v, fs, ftv, ve, (upto - 1) as nat);
        let p = pair_at(fs, ftv, upto - 1);
        if p.0 >= 0 && p.1 >= 0 {
            prev.push(v.edges@[recorded_edge(ve, p.0 as int, p.1 as int)])
        } else {
            prev
        }
    }
}

/// The Voronoi half-edges around the cell of interior Delaunay vertex
/// `delaunay_vertex`: for each pair of adjacent faces around it with Voronoi
/// vertices, the recorded half-edge between them.
fn get_voronoi_cell_edge_loop<P: Copy>(
    delaunay_vertex: Vertex<P>,
    t: &Dcel<P>,
    v: &Dcel<P>,
    delaunay_face_to_vertex: &Vec<i32>,
    vertex_edges: &Vec<Vec<(usize, usize)>>,
) -> (edge_loop: Vec<HalfEdge>)
    requires
        delaunay_ok(t),
        0 <= delaunay_vertex.id.id < t.vertices@.len(),
        t.vertices@[delaunay_vertex.id.id as int] == delaunay_vertex,
        !t.boundary_vertex(delaunay_vertex),
        ftv_ok(delaunay_face_to_vertex@, t.faces@.len(), v.vertices@.len()),
        voronoi_ok(v),
        table_ok(v, table_view(vertex_edges)),
        pairs_recorded(t, delaunay_face_to_vertex@, table_view(vertex_edges), t.vertices@.len() as int),
    ensures
        edge_loop@ == cell_edge_loop(
            v,
            cell_faces(t, delaunay_vertex.id.id as int),
            delaunay_face_to_vertex@,
            table_view(vertex_edges),
            cell_faces(t, delaunay_vertex.id.id as int).len(),
        ),
        loop_ok(v, edge_loop@),
        edge_loop@.len() <= 1001,
        edge_loop@.len() <= cell_faces(t, delaunay_vertex.id.id as int).len(),
{
    let ghost d = delaunay_vertex.id.id as int;
    let ghost ftv = delaunay_face_to_vertex@;
    proof {
        lemma_interior_vertex(t, d);
        lemma_cell_faces_in_range(t, d);
        let h0 = t.edge_at(delaunay_vertex.incident_edge);
        let n = choose|n: nat|
            {
                &&& n <= 1001
                &&& t.spoke_cycle(h0, n)
                &&& forall|k: nat| k < n ==> crate::dcel::face_ref_ok(#[trigger] t.spoke_walk(h0, k).incident_face, t.faces@.len())
            };
        lemma_spoke_cycle_unique(t, h0, n);
    }
    let incident_faces = t.get_incident_faces(delaunay_vertex);
    assert(incident_faces@ == cell_faces(t, d));
    let mut edge_loop: Vec<HalfEdge> = Vec::new();
    let nfaces = incident_faces.len();
    let mut fidx: usize = 0;
    while fidx < nfaces
        invariant
            nfaces == incident_faces@.len(),
            incident_faces@ == cell_faces(t, d),
            cell_faces(t, d).len() <= 1001,
            forall|m: int|
                0 <= m < cell_faces(t, d).len() ==> {
                    let fc = #[trigger] cell_faces(t, d)[m];
                    &&& 0 <= fc.id.id < t.faces@.len()
                },
            0 <= d < t.vertices@.len(),
            !t.boundary_vertex(t.vertices@[d]),
            ftv == delaunay_face_to_vertex@,
            ftv_ok(ftv, t.faces@.len(), v.vertices@.len()),
            voronoi_ok(v),
            table_ok(v, table_view(vertex_edges)),
            pairs_recorded(t, ftv, table_view(vertex_edges), t.vertices@.len() as int),
            fidx <= nfaces,
            edge_loop@.len() <= fidx,
            loop_ok(v, edge_loop@),
            edge_loop@ == cell_edge_loop(v, cell_faces(t, d), ftv, table_view(vertex_edges), fidx as nat),
        decreases nfaces - fidx,
    {
        let fi = &incident_faces[fidx];
        let fj = if fidx == 0 {
            &incident_faces[nfaces - 1]
        } else {
            &incident_faces[fidx - 1]
        };
        let refi = delaunay_face_to_vertex[fi.id.id as usize];
        let refj = delaunay_face_to_vertex[fj.id.id as usize];
        if refi < 0 || refj < 0 {
            fidx = fidx + 1;
            continue;
        }
        let refi = refi as usize;
        let refj = refj as usize;
        assert(pair_at(cell_faces(t, d), ftv, fidx as int) == (refi as i32, refj as i32));
        assert(has_dest(table_view(vertex_edges), refi as int, refj as int));
        let row = &vertex_edges[refi];
        assert(row@ == table_view(vertex_edges)[refi as int]);
        let mut found_edge = HalfEdge::new();
        let mut found = false;
        let mut k: usize = 0;
        while k < row.len() && !found
            invariant
                row@ == table_view(vertex_edges)[refi as int],
                table_ok(v, table_view(vertex_edges)),
                voronoi_ok(v),
                refi < table_view(vertex_edges).len(),
                k <= row@.len(),
                found ==> {
                    &&& 0 <= found_edge.id.id < v.edges@.len()
                    &&& found_edge == v.edges@[found_edge.id.id as int]
                    &&& found_edge.origin.id == refi
                    &&& 1 <= k
                    &&& row@[k - 1].0 == refj
                    &&& found_edge == v.edges@[row@[k - 1].1 as int]
                    &&& forall|m: int| 0 <= m < k - 1 ==> row@[m].0 != refj
                },
                !found ==> forall|m: int| 0 <= m < k ==> row@[m].0 != refj,
            decreases row@.len() - k,
        {
            let (dest, eid) = row[k];
            proof {
                assert(table_view(vertex_edges)[refi as int][k as int] == row@[k as int]);
            }
            if dest == refj {
                found_edge = v.edges[eid];
                found = true;
            }
            k = k + 1;
        }
        assert(found);
        proof {
            lemma_first_dest_unique(row@, refj as int, k - 1);
        }
        edge_loop.push(found_edge);
        assert(refi < v.vertices@.len());
        fidx = fidx + 1;
    }
    edge_loop
}

/// Index of the first entry of `row` heading to `b`.
pub open spec fn first_dest(row: Seq<(usize, usize)>, b: int) -> int {
    choose|k: int|
        0 <= k < row.len() && row[k].0 == b && forall|m: int| 0 <= m < k ==> row[m].0 != b
}

/// The half-edge recorded first in the table from vertex `a` to vertex `b`.
pub open spec fn recorded_edge(ve: Seq<Seq<(usize, usize)>>, a: int, b: int) -> int {
    ve[a][first_dest(ve[a], b)].1 as int
}

/// Rows of the table only grow at their ends.
pub open spec fn table_grows(before: Seq<Seq<(usize, usize)>>, after: Seq<Seq<(usize, usize)>>) -> bool {
    &&& after.len() == before.len()
    &&& forall|a: int|
        0 <= a < before.len() ==> {
            &&& before[a].len() <= (#[trigger] after[a]).len()
            &&& forall|k: int| 0 <= k < before[a].len() ==> after[a][k] == before[a][k]
        }
}

/// A row that has an entry heading to `b` has a first such entry.
proof fn lemma_first_dest(row: Seq<(usize, usize)>, b: int, k0: int)
    requires
        0 <= k0 < row.len(),
        row[k0].0 == b,
    ensures
        0 <= first_dest(row, b) <= k0,
        row[first_dest(row, b)].0 == b,
        forall|m: int| 0 <= m < first_dest(row, b) ==> row[m].0 != b,
    decreases k0,
{
    if exists|m: int| 0 <= m < k0 && row[m].0 == b {
        let m = choose|m: int| 0 <= m < k0 && row[m].0 == b;
        lemma_first_dest(row, b, m);
    } else {
        assert(0 <= k0 < row.len() && row[k0].0 == b && forall|m: int| 0 <= m < k0 ==> row[m].0 != b);
        let f = first_dest(row, b);
        if f > k0 {
            assert(row[k0].0 != b);
        }
    }
}

/// The first entry heading to `b` is the only one with nothing before it.
proof fn lemma_first_dest_unique(row: Seq<(usize, usize)>, b: int, k: int)
    requires
        0 <= k < row.len(),
        row[k].0 == b,
        forall|m: int| 0 <= m < k ==> row[m].0 != b,
    ensures
        first_dest(row, b) == k,
{
    lemma_first_dest(row, b, k);
    let f = first_dest(row, b);
    if f < k {
        assert(row[f].0 != b);
    }
}

/// Growing the table keeps every recorded destination and its first edge.
proof fn lemma_grows_keeps(before: Seq<Seq<(usize, usize)>>, after: Seq<Seq<(usize, usize)>>, a: int, b: int)
    requires
        table_grows(before, after),
        0 <= a < before.len(),
        has_dest(before, a, b),
    ensures
        has_dest(after, a, b),
        recorded_edge(after, a, b) == recorded_edge(before, a, b),
        0 <= first_dest(before[a], b) < before[a].len(),
        before[a][first_dest(before[a], b)].0 == b,
{
    let k0 = choose|k: int| 0 <= k < before[a].len() && before[a][k].0 == b;
    lemma_first_dest(before[a], b, k0);
    let f = first_dest(before[a], b);
    assert(after[a][k0] == before[a][k0]);
    assert forall|m: int| 0 <= m < f implies after[a][m].0 != b by {
        assert(after[a][m] == before[a][m]);
    }
    assert(after[a][f] == before[a][f]);
    lemma_first_dest_unique(after[a], b, f);
}

/// `table_grows` is a preorder.
proof fn lemma_grows_trans(
    x: Seq<Seq<(usize, usize)>>,
    y: Seq<Seq<(usize, usize)>>,
    z: Seq<Seq<(usize, usize)>>,
)
    requires
        table_grows(x, y),
        table_grows(y, z),
    ensures
        table_grows(x, z),
{
    assert forall|a: int| 0 <= a < x.len() implies {
        &&& x[a].len() <= (#[trigger] z[a]).len()
        &&& forall|k: int| 0 <= k < x[a].len() ==> z[a][k] == x[a][k]
    } by {
        assert(x[a].len() <= y[a].len());
        assert forall|k: int| 0 <= k < x[a].len() implies z[a][k] == x[a][k] by {
            assert(y[a][k] == x[a][k]);
        }
    }
}

/// The half-edge from `from_vi` to `to_vj`: the one the table records first,
/// or else a new one with origin `from_vi` and twin `twin_id`, which is
/// added to the table.
fn find_or_create_twin<P: Copy>(
    v: &mut Dcel<P>,
    vertex_edges: &mut Vec<Vec<(usize, usize)>>,
    from_vi: usize,
    to_vj: usize,
    twin_id: Ref,
) -> (e: HalfEdge)
    requires
        voronoi_ok(&*old(v)),
        table_ok(&*old(v), table_view(&*old(vertex_edges))),
        from_vi < old(v).vertices@.len(),
        to_vj < old(v).vertices@.len(),
        old(v).vertices@.len() <= i32::MAX,
        in_range(twin_id, old(v).edges@.len()),
        old(v).edges@.len() < i32::MAX,
    ensures
        voronoi_ok(&*final(v)),
        table_ok(&*final(v), table_view(&*final(vertex_edges))),
        table_grows(table_view(&*old(vertex_edges)), table_view(&*final(vertex_edges))),
        final(v).vertices@ == old(v).vertices@,
        final(v).faces@ == old(v).faces@,
        has_dest(table_view(&*final(vertex_edges)), from_vi as int, to_vj as int),
        e.id.id == recorded_edge(table_view(&*final(vertex_edges)), from_vi as int, to_vj as int),
        0 <= e.id.id < final(v).edges@.len(),
        e == final(v).edges@[e.id.id as int],
        e.origin.id == from_vi,
        has_dest(table_view(&*old(vertex_edges)), from_vi as int, to_vj as int) ==> {
            &&& final(v).edges@ == old(v).edges@
            &&& table_view(&*final(vertex_edges)) == table_view(&*old(vertex_edges))
        },
        !has_dest(table_view(&*old(vertex_edges)), from_vi as int, to_vj as int) ==> {
            &&& e == (HalfEdge {
                origin: Ref { id: from_vi as i32 },
                twin: twin_id,
                id: Ref { id: old(v).edges@.len() as i32 },
                ..blank_half_edge()
            })
            &&& final(v).edges@ == old(v).edges@.push(e)
            &&& table_view(&*final(vertex_edges)) == table_view(&*old(vertex_edges)).update(
                from_vi as int,
                table_view(&*old(vertex_edges))[from_vi as int].push((to_vj, e.id.id as usize)),
            )
        },
{
    let ghost before = table_view(&*vertex_edges);
    let n = vertex_edges[from_vi].len();
    let mut k: usize = 0;
    while k < n
        invariant
            n == before[from_vi as int].len(),
            before == table_view(&*vertex_edges),
            from_vi < before.len(),
            table_ok(&*v, before),
            voronoi_ok(&*v),
            k <= n,
            forall|m: int| 0 <= m < k ==> before[from_vi as int][m].0 != to_vj,
        decreases n - k,
    {
        let (dest, eid) = vertex_edges[from_vi][k];
        proof {
            assert(before[from_vi as int][k as int] == vertex_edges@[from_vi as int]@[k as int]);
        }
        if dest == to_vj {
            proof {
                lemma_first_dest_unique(before[from_vi as int], to_vj as int, k as int);
                assert(table_grows(before, before));
            }
            return v.edges[eid];
        }
        k = k + 1;
    }
    proof {
        if has_dest(before, from_vi as int, to_vj as int) {
            let w = choose|w: int| 0 <= w < before[from_vi as int].len() && before[from_vi as int][w].0 == to_vj;
            assert(before[from_vi as int][w].0 != to_vj);
        }
    }
    let ghost v_before = *v;
    let mut eji = v.create_half_edge();
    eji.origin = Ref::new(from_vi as i32);
    eji.twin = twin_id;
    v.update_edge(eji);
    vertex_edges[from_vi].push((to_vj, eji.id.id as usize));
    proof {
        let after = table_view(&*vertex_edges);
        assert(after =~= before.update(from_vi as int, before[from_vi as int].push((to_vj, eji.id.id as usize))));
        lemma_push_keeps_dest(before, after, from_vi as int, (to_vj, eji.id.id as usize));
        lemma_first_dest_unique(after[from_vi as int], to_vj as int, n as int);
        assert(v.edges@ =~= v_before.edges@.push(eji));
        assert forall|a: int, kk: int| 0 <= a < after.len() && 0 <= kk < after[a].len() implies {
            &&& (#[trigger] after[a][kk]).0 < v.vertices@.len()
            &&& after[a][kk].1 < v.edges@.len()
            &&& v.edges@[after[a][kk].1 as int].origin.id == a
        } by {
            if a != from_vi || kk < before[a].len() {
                assert(after[a][kk] == before[a][kk]);
                assert(v.edges@[before[a][kk].1 as int] == v_before.edges@[before[a][kk].1 as int]);
            }
        }
        assert forall|a: int| 0 <= a < before.len() implies {
            &&& before[a].len() <= (#[trigger] after[a]).len()
            &&& forall|kk: int| 0 <= kk < before[a].len() ==> after[a][kk] == before[a][kk]
        } by {
        }
    }
    eji
}

/// Position of the loop before `h`, cyclically.
pub open spec fn loop_before(n: int, h: int) -> int {
    if h == 0 {
        n - 1
    } else {
        h - 1
    }
}

/// Position of the loop after `h`, cyclically.
pub open spec fn loop_after(n: int, h: int) -> int {
    if h == n - 1 {
        0
    } else {
        h + 1
    }
}

/// No position of the loop after `h` and before `upto` holds the same
/// half-edge as `h`.
pub open spec fn last_in_loop(lp: Seq<HalfEdge>, h: int, upto: int) -> bool {
    forall|h2: int| h < h2 < upto ==> lp[h2].id != lp[h].id
}

/// The twin the table gives the loop's half-edge at `h`: the half-edge
/// recorded first from the origin of the loop's previous half-edge to the
/// origin of this one.
pub open spec fn loop_twin(lp: Seq<HalfEdge>, h: int, ve: Seq<Seq<(usize, usize)>>) -> Ref {
    Ref {
        id: recorded_edge(
            ve,
            lp[loop_before(lp.len() as int, h)].origin.id as int,
            lp[h].origin.id as int,
        ) as i32,
    }
}

/// The half-edge at position `h` of a cell's loop once the cell is made: its
/// origin and id kept, its face `face`, its twin `twin`, `next` the loop's
/// previous half-edge and `prev` the loop's next one.
pub open spec fn cell_edge(lp: Seq<HalfEdge>, h: int, face: Ref, twin: Ref) -> HalfEdge {
    HalfEdge {
        origin: lp[h].origin,
        twin,
        incident_face: face,
        next: lp[loop_before(lp.len() as int, h)].id,
        prev: lp[loop_after(lp.len() as int, h)].id,
        id: lp[h].id,
    }
}

/// The first `upto` positions of the loop are made: each one not written
/// again later holds its `cell_edge`, with a twin the table records.
#[verifier::opaque]
spec fn cell_done(
    edges: Seq<HalfEdge>,
    ve: Seq<Seq<(usize, usize)>>,
    lp: Seq<HalfEdge>,
    fid: int,
    upto: int,
) -> bool {
    forall|h: int|
        0 <= h < upto && #[trigger] last_in_loop(lp, h, upto) ==> {
            &&& has_dest(ve, lp[loop_before(lp.len() as int, h)].origin.id as int, lp[h].origin.id as int)
            &&& edges[lp[h].id.id as int] == cell_edge(lp, h, Ref { id: fid as i32 }, loop_twin(lp, h, ve))
        }
}

/// Every half-edge below `ne0` that none of the first `upto` positions of the
/// loop names is as it was.
#[verifier::opaque]
spec fn untouched(
    edges: Seq<HalfEdge>,
    old_edges: Seq<HalfEdge>,
    lp: Seq<HalfEdge>,
    ne0: int,
    upto: int,
) -> bool {
    forall|i: int|
        0 <= i < ne0 && (forall|h: int| 0 <= h < upto ==> (#[trigger] lp[h]).id.id != i) ==> edges[i]
            == old_edges[i]
}

/// One step of making a cell: position `hidx` is written after its twin was
/// found or created.
proof fn lemma_cell_step(
    lp: Seq<HalfEdge>,
    fid: int,
    hidx: int,
    ve_before: Seq<Seq<(usize, usize)>>,
    ve_after: Seq<Seq<(usize, usize)>>,
    e0: Seq<HalfEdge>,
    e1: Seq<HalfEdge>,
    e2: Seq<HalfEdge>,
    old_edges: Seq<HalfEdge>,
    ne0: int,
    eij2: HalfEdge,
)
    requires
        0 <= hidx < lp.len(),
        cell_done(e0, ve_before, lp, fid, hidx),
        untouched(e0, old_edges, lp, ne0, hidx),
        table_grows(ve_before, ve_after),
        ne0 <= e0.len() <= e1.len(),
        forall|i: int| 0 <= i < e0.len() ==> e1[i] == e0[i],
        forall|k: int| 0 <= k < lp.len() ==> 0 <= (#[trigger] lp[k]).id.id < ne0,
        forall|k: int|
            0 <= k < lp.len() ==> 0 <= (#[trigger] lp[k]).origin.id < ve_before.len(),
        has_dest(ve_after, lp[loop_before(lp.len() as int, hidx)].origin.id as int, lp[hidx].origin.id as int),
        eij2 == cell_edge(lp, hidx, Ref { id: fid as i32 }, loop_twin(lp, hidx, ve_after)),
        e2 == e1.update(lp[hidx].id.id as int, eij2),
    ensures
        cell_done(e2, ve_after, lp, fid, hidx + 1),
        untouched(e2, old_edges, lp, ne0, hidx + 1),
{
    reveal(cell_done);
    reveal(untouched);
    assert forall|h: int|
        0 <= h < hidx + 1 && #[trigger] last_in_loop(lp, h, hidx + 1) implies {
            &&& has_dest(ve_after, lp[loop_before(lp.len() as int, h)].origin.id as int, lp[h].origin.id as int)
            &&& e2[lp[h].id.id as int] == cell_edge(lp, h, Ref { id: fid as i32 }, loop_twin(lp, h, ve_after))
        } by {
        if h < hidx {
            assert(last_in_loop(lp, h, hidx));
            assert(lp[hidx].id != lp[h].id);
            let b = loop_before(lp.len() as int, h);
            assert(0 <= lp[b].origin.id < ve_before.len());
            assert(has_dest(ve_before, lp[b].origin.id as int, lp[h].origin.id as int));
            lemma_grows_keeps(ve_before, ve_after, lp[b].origin.id as int, lp[h].origin.id as int);
            assert(loop_twin(lp, h, ve_after) == loop_twin(lp, h, ve_before));
            assert(e1[lp[h].id.id as int] == e0[lp[h].id.id as int]);
            assert(e2[lp[h].id.id as int] == e0[lp[h].id.id as int]);
        } else {
            assert(h == hidx);
            assert(e2[lp[h].id.id as int] == eij2);
        }
    }
    assert forall|i: int|
        0 <= i < ne0 && (forall|h: int| 0 <= h < hidx + 1 ==> (#[trigger] lp[h]).id.id != i) implies e2[i]
        == old_edges[i] by {
        assert(lp[hidx].id.id != i);
        assert(e1[i] == e0[i]);
    }
}

/// Makes the Voronoi cell bounded by `edge_loop`: a new face whose outer
/// component is the loop's first half-edge, and every half-edge of the loop
/// linked to its neighbours, its face and its twin (found in the table or
/// created).
#[verifier::rlimit(40)]
fn init_voronoi_face_from_edge_loop<P: Copy>(
    edge_loop: &Vec<HalfEdge>,
    v: &mut Dcel<P>,
    vertex_edges: &mut Vec<Vec<(usize, usize)>>,
)
    requires
        voronoi_ok(&*old(v)),
        table_ok(&*old(v), table_view(&*old(vertex_edges))),
        loop_ok(&*old(v), edge_loop@),
        old(v).vertices@.len() <= i32::MAX,
        old(v).faces@.len() < i32::MAX,
        old(v).edges@.len() + edge_loop@.len() < i32::MAX,
    ensures
        voronoi_ok(&*final(v)),
        table_ok(&*final(v), table_view(&*final(vertex_edges))),
        table_grows(table_view(&*old(vertex_edges)), table_view(&*final(vertex_edges))),
        final(v).vertices@ == old(v).vertices@,
        loop_ok(&*final(v), edge_loop@),
        old(v).edges@.len() <= final(v).edges@.len() <= old(v).edges@.len() + edge_loop@.len(),
        edge_loop@.len() == 0 ==> {
            &&& final(v).edges@ == old(v).edges@
            &&& final(v).faces@ == old(v).faces@
            &&& table_view(&*final(vertex_edges)) == table_view(&*old(vertex_edges))
        },
        edge_loop@.len() > 0 ==> final(v).faces@ == old(v).faces@.push(
            Face { outer_component: edge_loop@[0].id, id: Ref { id: old(v).faces@.len() as i32 } },
        ),
        forall|h: int|
            0 <= h < edge_loop@.len() && last_in_loop(edge_loop@, h, edge_loop@.len() as int) ==> {
                &&& has_dest(
                    table_view(&*final(vertex_edges)),
                    edge_loop@[loop_before(edge_loop@.len() as int, h)].origin.id as int,
                    edge_loop@[h].origin.id as int,
                )
                &&& final(v).edges@[edge_loop@[h].id.id as int] == cell_edge(
                    edge_loop@,
                    h,
                    Ref { id: old(v).faces@.len() as i32 },
                    loop_twin(edge_loop@, h, table_view(&*final(vertex_edges))),
                )
            },
        forall|i: int|
            0 <= i < old(v).edges@.len() && (forall|h: int|
                0 <= h < edge_loop@.len() ==> (#[trigger] edge_loop@[h]).id.id != i) ==> final(v).edges@[i]
                == old(v).edges@[i],
        forall|i: int|
            0 <= i < old(v).edges@.len() ==> (#[trigger] final(v).edges@[i]).origin == old(v).edges@[i].origin,
        forall|i: int|
            old(v).edges@.len() <= i < final(v).edges@.len() ==> {
                &&& (#[trigger] final(v).edges@[i]).incident_face.id == -1
                &&& final(v).edges@[i].next.id == -1
                &&& final(v).edges@[i].prev.id == -1
            },
{
    let n = edge_loop.len();
    if n == 0 {
        return;
    }
    let ghost lp = edge_loop@;
    let ghost ve0 = table_view(&*vertex_edges);
    let ghost ne0 = v.edges@.len();
    let ghost old_edges = v.edges@;
    let ghost fid = v.faces@.len();
    let mut cell_face = v.create_face();
    cell_face.outer_component = edge_loop[0].id;
    v.update_face(cell_face);
    proof {
        assert(table_grows(ve0, ve0));
        reveal(cell_done);
        reveal(untouched);
    }
    let mut hidx: usize = 0;
    while hidx < n
        invariant
            n == lp.len(),
            lp == edge_loop@,
            1 <= n,
            hidx <= n,
            fid < i32::MAX,
            cell_face == (Face { outer_component: lp[0].id, id: Ref { id: fid as i32 } }),
            v.faces@ == old(v).faces@.push(cell_face),
            fid == old(v).faces@.len(),
            voronoi_ok(&*v),
            table_ok(&*v, table_view(&*vertex_edges)),
            table_grows(ve0, table_view(&*vertex_edges)),
            v.vertices@ == old(v).vertices@,
            v.vertices@.len() <= i32::MAX,
            loop_ok(&*v, lp),
            ne0 == old(v).edges@.len(),
            old_edges == old(v).edges@,
            ne0 <= v.edges@.len() <= ne0 + hidx,
            ne0 + n < i32::MAX,
            forall|k: int| 0 <= k < n ==> 0 <= (#[trigger] lp[k]).id.id < ne0,
            forall|i: int|
                ne0 <= i < v.edges@.len() ==> {
                    &&& (#[trigger] v.edges@[i]).incident_face.id == -1
                    &&& v.edges@[i].next.id == -1
                    &&& v.edges@[i].prev.id == -1
                },
            untouched(v.edges@, old_edges, lp, ne0 as int, hidx as int),
            forall|i: int| 0 <= i < ne0 ==> (#[trigger] v.edges@[i]).origin == old_edges[i].origin,
            cell_done(v.edges@, table_view(&*vertex_edges), lp, fid as int, hidx as int),
        decreases n - hidx,
    {
        let eij = edge_loop[hidx];
        let ejk = if hidx == 0 {
            edge_loop[n - 1]
        } else {
            edge_loop[hidx - 1]
        };
        let eri = if hidx == n - 1 {
            edge_loop[0]
        } else {
            edge_loop[hidx + 1]
        };
        let vi = v.origin(eij);
        let vj = v.origin(ejk);
        let ghost ve_before = table_view(&*vertex_edges);
        let ghost v_mid0 = *v;
        let eji = find_or_create_twin(v, vertex_edges, vj.id.id as usize, vi.id.id as usize, eij.id);
        let ghost ve_after = table_view(&*vertex_edges);
        let ghost v_mid = *v;
        let mut eij2 = eij;
        eij2.origin = vi.id;
        eij2.twin = eji.id;
        eij2.incident_face = cell_face.id;
        eij2.next = ejk.id;
        eij2.prev = eri.id;
        v.update_edge(eij2);
        proof {
            lemma_grows_trans(ve0, ve_before, ve_after);
            assert(eij2 == cell_edge(lp, hidx as int, Ref { id: fid as i32 }, loop_twin(lp, hidx as int, ve_after)));
            assert forall|i: int| 0 <= i < v_mid0.edges@.len() implies v_mid.edges@[i] == v_mid0.edges@[i] by {
                if !has_dest(ve_before, vj.id.id as int, vi.id.id as int) {
                    assert(v_mid.edges@ == v_mid0.edges@.push(eji));
                }
            }
            lemma_cell_step(
                lp, fid as int, hidx as int, ve_before, ve_after,
                v_mid0.edges@, v_mid.edges@, v.edges@, old_edges, ne0 as int, eij2,
            );
            assert forall|k: int| 0 <= k < n implies {
                &&& 0 <= (#[trigger] lp[k]).id.id < v.edges@.len()
                &&& 0 <= lp[k].origin.id < v.vertices@.len()
                &&& v.edges@[lp[k].id.id as int].origin == lp[k].origin
            } by {
                assert(v_mid.edges@[lp[k].id.id as int] == v_mid0.edges@[lp[k].id.id as int]);
            }
            let vv = table_view(&*vertex_edges);
            assert forall|a: int, kk: int| 0 <= a < vv.len() && 0 <= kk < vv[a].len() implies {
                &&& (#[trigger] vv[a][kk]).0 < v.vertices@.len()
                &&& vv[a][kk].1 < v.edges@.len()
                &&& v.edges@[vv[a][kk].1 as int].origin.id == a
            } by {
                assert(v_mid.edges@[vv[a][kk].1 as int].origin.id == a);
            }
            assert forall|i: int| 0 <= i < ne0 implies (#[trigger] v.edges@[i]).origin == old_edges[i].origin by {
                assert(v_mid.edges@[i] == v_mid0.edges@[i]);
            }
        }
        hidx = hidx + 1;
    }
    proof {
        reveal(cell_done);
        reveal(untouched);
    }
}

/// The Voronoi vertices are the given centres of the faces of `t` that have
/// an outer component, one per such face, in the order of the faces.
pub open spec fn dual_vertices<P: Copy>(t: &Dcel<P>, centers: Seq<P>, verts: Seq<Vertex<P>>) -> bool {
    exists|vtf: Seq<usize>|
        {
            &&& vtf.len() == verts.len()
            &&& forall|k: int|
                0 <= k < vtf.len() ==> {
                    &&& #[trigger] vtf[k] < t.faces@.len()
                    &&& t.faces@[vtf[k] as int].outer_component.id >= 0
                    &&& verts[k].position == centers[vtf[k] as int]
                }
            &&& forall|k: int, l: int| 0 <= k < l < vtf.len() ==> vtf[k] < vtf[l]
            &&& forall|i: int|
                0 <= i < t.faces@.len() && (#[trigger] t.faces@[i]).outer_component.id >= 0 ==> exists|k: int|
                    0 <= k < vtf.len() && vtf[k] == i
        }
}

/// Every vertex that names an incident half-edge is that half-edge's origin.
pub open spec fn incident_edges_start_at<P: Copy>(v: &Dcel<P>) -> bool {
    forall|i: int|
        0 <= i < v.vertices@.len() && (#[trigger] v.vertices@[i]).incident_edge.id >= 0 ==> v.edges@[v.vertices@[i].incident_edge.id as int].origin.id == i
}

/// A triangulation kept consistent by the steps of `delaunay` is a valid
/// input for building its dual.
pub proof fn lemma_consistent_is_dual_input<P: Copy>(t: &Dcel<P>)
    requires
        t.consistent(),
    ensures
        delaunay_ok(t),
{
    assert forall|i: int| 0 <= i < t.edges@.len() implies {
        &&& null_or_in_range((#[trigger] t.edges@[i]).twin, t.edges@.len())
        &&& null_or_in_range(t.edges@[i].next, t.edges@.len())
    } by {
        assert(t.edge_ok(i));
    }
    assert forall|i: int| 0 <= i < t.edges@.len() implies {
        let r = (#[trigger] t.edges@[i]).incident_face;
        r.id == -1 || (0 <= r.id < t.faces@.len())
    } by {
        assert(t.edge_ok(i));
    }
}

/// Growing the table keeps every recorded pair.
proof fn lemma_grows_keeps_pairs<P: Copy>(
    t: &Dcel<P>,
    ftv: Seq<i32>,
    before: Seq<Seq<(usize, usize)>>,
    after: Seq<Seq<(usize, usize)>>,
    nv: nat,
)
    requires
        delaunay_ok(t),
        ftv_ok(ftv, t.faces@.len(), nv),
        before.len() == nv,
        table_grows(before, after),
        pairs_recorded(t, ftv, before, t.vertices@.len() as int),
    ensures
        pairs_recorded(t, ftv, after, t.vertices@.len() as int),
{
    assert forall|d: int, f: int|
        0 <= d < t.vertices@.len() && !t.boundary_vertex(t.vertices@[d]) && 0 <= f < cell_faces(t, d).len()
            && (#[trigger] pair_at(cell_faces(t, d), ftv, f)).0 >= 0 && pair_at(cell_faces(t, d), ftv, f).1
            >= 0 implies has_dest(
        after,
        pair_at(cell_faces(t, d), ftv, f).0 as int,
        pair_at(cell_faces(t, d), ftv, f).1 as int,
    ) by {
        lemma_cell_faces_in_range(t, d);
        let fs = cell_faces(t, d);
        let fi = fs[f];
        let fj = if f == 0 { fs.last() } else { fs[f - 1] };
        assert(0 <= fi.id.id < t.faces@.len());
        assert(0 <= fj.id.id < t.faces@.len());
        let a = pair_at(fs, ftv, f).0 as int;
        let b = pair_at(fs, ftv, f).1 as int;
        assert(a < nv);
        lemma_grows_keeps(before, after, a, b);
    }
}

/// The `f`-th face around a cell and the one before it (cyclically) both
/// have an outer component, and so a Voronoi vertex each.
pub open spec fn full_pair_at(fs: Seq<Face>, f: int) -> bool {
    let fj = if f == 0 {
        fs.last()
    } else {
        fs[f - 1]
    };
    fs[f].outer_component.id >= 0 && fj.outer_component.id >= 0
}

/// The first position from `k` on where `full_pair_at` holds, or `-1`.
pub open spec fn first_full_pair(fs: Seq<Face>, k: nat) -> int
    decreases fs.len() - k,
{
    if k >= fs.len() {
        -1
    } else if full_pair_at(fs, k as int) {
        k as int
    } else {
        first_full_pair(fs, k + 1)
    }
}

/// Delaunay vertex `d` gives a Voronoi cell: it is interior and two
/// adjacent faces around it both have Voronoi vertices.
pub open spec fn gives_cell<P: Copy>(t: &Dcel<P>, d: int) -> bool {
    !t.boundary_vertex(t.vertices@[d]) && first_full_pair(cell_faces(t, d), 0) >= 0
}

/// The Delaunay vertices below `k` that give cells, in order.
pub open spec fn cell_vertices<P: Copy>(t: &Dcel<P>, k: nat) -> Seq<int>
    decreases k,
{
    if k == 0 {
        Seq::empty()
    } else {
        let s = cell_vertices(t, (k - 1) as nat);
        if gives_cell(t, k - 1) {
            s.push(k - 1)
        } else {
            s
        }
    }
}

/// Face `c` of `v` is the cell of Delaunay vertex `d`: its id is `c`, and its
/// outer component is a half-edge of `v` that starts at the Voronoi vertex
/// at the centre of the first face around `d` that, with the face before
/// it, has a Voronoi vertex.
pub open spec fn cell_face_of<P: Copy>(t: &Dcel<P>, v: &Dcel<P>, centers: Seq<P>, c: int, d: int) -> bool {
    let fs = cell_faces(t, d);
    let e = v.faces@[c].outer_component;
    &&& v.faces@[c].id.id == c
    &&& 0 <= e.id < v.edges@.len()
    &&& 0 <= v.edges@[e.id as int].origin.id < v.vertices@.len()
    &&& v.vertices@[v.edges@[e.id as int].origin.id as int].position == centers[fs[first_full_pair(
        fs,
        0,
    )].id.id as int]
}

/// `first_full_pair` finds the first position from `k` with a full pair.
proof fn lemma_first_full_pair(fs: Seq<Face>, k: nat)
    ensures
        first_full_pair(fs, k) == -1 || (k <= first_full_pair(fs, k) < fs.len() && full_pair_at(
            fs,
            first_full_pair(fs, k),
        )),
        forall|f: int| k <= f < fs.len() && (first_full_pair(fs, k) == -1 || f < first_full_pair(fs, k)) ==> !full_pair_at(fs, f),
    decreases fs.len() - k,
{
    if k < fs.len() && !full_pair_at(fs, k as int) {
        lemma_first_full_pair(fs, k + 1);
    }
}

/// A cell's loop of half-edges is non-empty exactly when a full pair comes
/// among its first `upto` positions, and then it starts with the half-edge
/// the table records for the first full pair.
proof fn lemma_loop_start<P: Copy>(
    v: &Dcel<P>,
    fs: Seq<Face>,
    ftv: Seq<i32>,
    ve: Seq<Seq<(usize, usize)>>,
    upto: nat,
)
    requires
        upto <= fs.len(),
        forall|f: int|
            0 <= f < fs.len() ==> {
                &&& 0 <= (#[trigger] fs[f]).id.id < ftv.len()
                &&& (ftv[fs[f].id.id as int] >= 0) == (fs[f].outer_component.id >= 0)
            },
    ensures
        (cell_edge_loop(v, fs, ftv, ve, upto).len() > 0) == (0 <= first_full_pair(fs, 0) < upto),
        0 <= first_full_pair(fs, 0) < upto ==> cell_edge_loop(v, fs, ftv, ve, upto)[0] == v.edges@[recorded_edge(
            ve,
            pair_at(fs, ftv, first_full_pair(fs, 0)).0 as int,
            pair_at(fs, ftv, first_full_pair(fs, 0)).1 as int,
        )],
    decreases upto,
{
    lemma_first_full_pair(fs, 0);
    if upto > 0 {
        lemma_loop_start(v, fs, ftv, ve, (upto - 1) as nat);
        let f = upto - 1;
        let fj = if f == 0 {
            fs.last()
        } else {
            fs[f - 1]
        };
        if f == 0 {
            assert(fs[fs.len() - 1] == fs.last());
        }
        assert((fs[f].outer_component.id >= 0) == (ftv[fs[f].id.id as int] >= 0));
        assert((fj.outer_component.id >= 0) == (ftv[fj.id.id as int] >= 0));
        let pf = pair_at(fs, ftv, f);
        assert((pf.0 >= 0 && pf.1 >= 0) == full_pair_at(fs, f));
        let ff = first_full_pair(fs, 0);
        if full_pair_at(fs, f) {
            assert(!(ff == -1 || f < ff));
        }
    }
}

/// The Voronoi diagram dual to triangulation `t`.  `centers[i]` is the
/// position of the Voronoi vertex of Delaunay face `i` (its circumcentre).
/// Every face of `t` with an outer component gives a vertex; every interior
/// vertex of `t` gives a cell, bounded by the half-edges between the Voronoi
/// vertices of its adjacent faces.
pub fn delaunay_to_voronoi<P: Copy>(t: &Dcel<P>, centers: &Vec<P>) -> (v: Dcel<P>)
    requires
        delaunay_ok(t),
        centers@.len() == t.faces@.len(),
        t.faces@.len() <= i32::MAX,
        t.vertices@.len() <= i32::MAX,
        2 * cell_total(t, t.vertices@.len()) < i32::MAX,
    ensures
        voronoi_ok(&v),
        dual_vertices(t, centers@, v.vertices@),
        incident_edges_start_at(&v),
        v.faces@.len() <= t.vertices@.len(),
        forall|f: int| 0 <= f < v.faces@.len() ==> (#[trigger] v.faces@[f]).outer_component.id >= 0,
        v.edges@.len() <= 2 * cell_total(t, t.vertices@.len()),
        v.faces@.len() == cell_vertices(t, t.vertices@.len()).len(),
        forall|c: int|
            0 <= c < v.faces@.len() ==> #[trigger] cell_face_of(
                t,
                &v,
                centers@,
                c,
                cell_vertices(t, t.vertices@.len())[c],
            ),
{
    let mut v: Dcel<P> = Dcel::new();
    let vertex_to_face = create_voronoi_vertices(t, &mut v, centers);
    let ghost verts0 = v.vertices@;
    let nf = t.faces.len();
    let nv = vertex_to_face.len();
    let mut delaunay_face_to_vertex: Vec<i32> = Vec::new();
    let mut i: usize = 0;
    while i < nf
        invariant
            nf == t.faces@.len(),
            i <= nf,
            delaunay_face_to_vertex@.len() == i,
            forall|j: int| 0 <= j < i ==> #[trigger] delaunay_face_to_vertex@[j] == -1,
        decreases nf - i,
    {
        delaunay_face_to_vertex.push(-1);
        i = i + 1;
    }
    let mut k: usize = 0;
    while k < nv
        invariant
            nv == vertex_to_face@.len(),
            nv == v.vertices@.len(),
            nf == t.faces@.len(),
            nf <= i32::MAX,
            k <= nv,
            nv <= nf,
            forall|m: int| 0 <= m < nv ==> #[trigger] vertex_to_face@[m] < nf,
            forall|m: int, l: int| 0 <= m < l < nv ==> vertex_to_face@[m] < vertex_to_face@[l],
            ftv_ok(delaunay_face_to_vertex@, nf as nat, nv as nat),
            forall|g: int|
                0 <= g < nf && #[trigger] delaunay_face_to_vertex@[g] >= 0 ==> delaunay_face_to_vertex@[g] < k
                    && vertex_to_face@[delaunay_face_to_vertex@[g] as int] == g,
            forall|m: int| 0 <= m < k ==> delaunay_face_to_vertex@[#[trigger] vertex_to_face@[m] as int] == m,
        decreases nv - k,
    {
        let fidx = vertex_to_face[k];
        delaunay_face_to_vertex.set(fidx, k as i32);
        proof {
            assert forall|m: int| 0 <= m < k + 1 implies delaunay_face_to_vertex@[#[trigger] vertex_to_face@[m] as int]
                == m by {
                if m < k {
                    assert(vertex_to_face@[m] < vertex_to_face@[k as int]);
                }
            }
        }
        k = k + 1;
    }
    let ghost ftv = delaunay_face_to_vertex@;
    proof {
        assert forall|g: int| 0 <= g < nf implies (#[trigger] ftv[g] >= 0) == (t.faces@[g].outer_component.id >= 0)
            && (ftv[g] >= 0 ==> verts0[ftv[g] as int].position == centers@[g]) by {
            if t.faces@[g].outer_component.id >= 0 {
                let m = choose|m: int| 0 <= m < vertex_to_face@.len() && vertex_to_face@[m] == g;
                assert(ftv[vertex_to_face@[m] as int] == m);
            }
            if ftv[g] >= 0 {
                assert(vertex_to_face@[ftv[g] as int] == g);
            }
        }
    }
    let mut vertex_edges: Vec<Vec<(usize, usize)>> = Vec::new();
    let mut j: usize = 0;
    while j < nv
        invariant
            j <= nv,
            vertex_edges@.len() == j,
            forall|m: int| 0 <= m < j ==> (#[trigger] vertex_edges@[m])@.len() == 0,
        decreases nv - j,
    {
        vertex_edges.push(Vec::new());
        j = j + 1;
    }
    proof {
        let tv = table_view(&vertex_edges);
        assert forall|a: int, kk: int| 0 <= a < tv.len() && 0 <= kk < tv[a].len() implies {
            &&& (#[trigger] tv[a][kk]).0 < v.vertices@.len()
            &&& tv[a][kk].1 < v.edges@.len()
            &&& v.edges@[tv[a][kk].1 as int].origin.id == a
        } by {
            assert(vertex_edges@[a]@.len() == 0);
        }
    }
    init_vertex_edge_table(t, &mut v, &delaunay_face_to_vertex, &mut vertex_edges);
    assert(incident_edges_start_at(&v));
    init_vertex_incident_edges(&mut v, &vertex_edges);
    let nvt = t.vertices.len();
    let mut vidx: usize = 0;
    while vidx < nvt
        invariant
            nvt == t.vertices@.len(),
            nvt <= i32::MAX,
            2 * cell_total(t, nvt as nat) < i32::MAX,
            vidx <= nvt,
            delaunay_ok(t),
            nv == v.vertices@.len(),
            nv <= nf,
            nf == t.faces@.len(),
            nf <= i32::MAX,
            ftv_ok(delaunay_face_to_vertex@, t.faces@.len(), v.vertices@.len()),
            voronoi_ok(&v),
            table_ok(&v, table_view(&vertex_edges)),
            pairs_recorded(t, delaunay_face_to_vertex@, table_view(&vertex_edges), t.vertices@.len() as int),
            incident_edges_start_at(&v),
            v.faces@.len() <= vidx,
            v.edges@.len() <= cell_total(t, nvt as nat) + cell_total(t, vidx as nat),
            v.vertices@.len() == verts0.len(),
            forall|m: int| 0 <= m < verts0.len() ==> (#[trigger] v.vertices@[m]).position == verts0[m].position,
            forall|f: int| 0 <= f < v.faces@.len() ==> (#[trigger] v.faces@[f]).outer_component.id >= 0,
            centers@.len() == nf,
            ftv == delaunay_face_to_vertex@,
            forall|g: int| 0 <= g < nf ==> (#[trigger] ftv[g] >= 0) == (t.faces@[g].outer_component.id >= 0)
                && (ftv[g] >= 0 ==> verts0[ftv[g] as int].position == centers@[g]),
            v.faces@.len() == cell_vertices(t, vidx as nat).len(),
            forall|c: int|
                0 <= c < v.faces@.len() ==> #[trigger] cell_face_of(
                    t,
                    &v,
                    centers@,
                    c,
                    cell_vertices(t, vidx as nat)[c],
                ),
        decreases nvt - vidx,
    {
        let dv = t.vertices[vidx];
        proof {
            lemma_cell_total_mono(t, (vidx + 1) as nat, nvt as nat);
        }
        if t.is_boundary_vertex_check(dv) {
            proof {
                assert(cell_vertices(t, (vidx + 1) as nat) == cell_vertices(t, vidx as nat));
            }
            vidx = vidx + 1;
            continue;
        }
        let ghost d = vidx as int;
        let ghost fs = cell_faces(t, d);
        proof {
            lemma_cell_faces_in_range(t, d);
            lemma_first_full_pair(fs, 0);
        }
        let edge_loop = get_voronoi_cell_edge_loop(dv, t, &v, &delaunay_face_to_vertex, &vertex_edges);
        let ghost before = table_view(&vertex_edges);
        let ghost v_before = v;
        proof {
            lemma_loop_start(&v, fs, ftv, before, fs.len());
            if edge_loop@.len() > 0 {
                let ff = first_full_pair(fs, 0);
                let p = pair_at(fs, ftv, ff);
                assert(has_dest(before, p.0 as int, p.1 as int));
                let kk = choose|kk: int| 0 <= kk < before[p.0 as int].len() && before[p.0 as int][kk].0 == p.1;
                lemma_first_dest(before[p.0 as int], p.1 as int, kk);
                let rec = recorded_edge(before, p.0 as int, p.1 as int);
                assert(v.edges@[rec].origin.id == p.0);
                assert(edge_loop@[0].id.id == rec);
            }
        }
        init_voronoi_face_from_edge_loop(&edge_loop, &mut v, &mut vertex_edges);
        proof {
            let cv0 = cell_vertices(t, vidx as nat);
            let cv1 = cell_vertices(t, (vidx + 1) as nat);
            assert(gives_cell(t, d) == (edge_loop@.len() > 0));
            assert forall|c: int| 0 <= c < v.faces@.len() implies #[trigger] cell_face_of(t, &v, centers@, c, cv1[c]) by {
                if c < v_before.faces@.len() {
                    assert(cv1[c] == cv0[c]);
                    assert(cell_face_of(t, &v_before, centers@, c, cv0[c]));
                    assert(v.faces@[c] == v_before.faces@[c]);
                    let e = v.faces@[c].outer_component.id as int;
                    assert(v.edges@[e].origin == v_before.edges@[e].origin);
                    let a = v.edges@[e].origin.id as int;
                    assert(v.vertices@[a] == v_before.vertices@[a]);
                } else {
                    let ff = first_full_pair(fs, 0);
                    let p = pair_at(fs, ftv, ff);
                    let rec = recorded_edge(before, p.0 as int, p.1 as int);
                    assert(cv1[c] == d);
                    assert(v.faces@[c].outer_component == edge_loop@[0].id);
                    assert(v.edges@[rec].origin == v_before.edges@[rec].origin);
                    assert(fs[ff] == t.faces@[fs[ff].id.id as int]);
                    assert(ftv[fs[ff].id.id as int] >= 0);
                    assert(verts0[p.0 as int].position == centers@[fs[ff].id.id as int]);
                    assert(v.vertices@[p.0 as int].position == verts0[p.0 as int].position);
                }
            }
        }
        proof {
            lemma_grows_keeps_pairs(t, delaunay_face_to_vertex@, before, table_view(&vertex_edges), nv as nat);
            if edge_loop@.len() > 0 {
                assert(v.faces@ == v_before.faces@.push(
                    Face { outer_component: edge_loop@[0].id, id: Ref { id: v_before.faces@.len() as i32 } },
                ));
                assert(0 <= edge_loop@[0].id.id);
            }
            assert forall|f: int| 0 <= f < v.faces@.len() implies (#[trigger] v.faces@[f]).outer_component.id >= 0 by {
                if f < v_before.faces@.len() {
                    assert(v.faces@[f] == v_before.faces@[f]);
                }
            }
            assert forall|i: int|
                0 <= i < v.vertices@.len() && (#[trigger] v.vertices@[i]).incident_edge.id >= 0 implies v.edges@[v.vertices@[i].incident_edge.id as int].origin.id == i by {
                assert(v_before.vertices@[i] == v.vertices@[i]);
                let x = v.vertices@[i].incident_edge.id as int;
                assert(v_before.edges@[x].origin.id == i);
            }
        }
        vidx = vidx + 1;
    }
    proof {
        let vtf = vertex_to_face@;
        assert forall|m: int| 0 <= m < vtf.len() implies {
            &&& #[trigger] vtf[m] < t.faces@.len()
            &&& t.faces@[vtf[m] as int].outer_component.id >= 0
            &&& v.vertices@[m].position == centers@[vtf[m] as int]
        } by {
            assert(v.vertices@[m].position == verts0[m].position);
        }
    }
    v
}

} // verus!
