//! Territory borders: which edges of the Voronoi diagram separate two
//! territories, which vertices end a border, and the border paths traced
//! from those ends.
use vstd::prelude::*;
use crate::dcel::{Dcel, HalfEdge, Ref, in_range, lemma_spoke_cycle_unique};
use crate::paths::{
    border_pick, border_result, border_walk, end_neighbours, get_border_path, lists_view,
    vertex_graph_ok,
};
use crate::vertex_map::VertexMap;

verus! {

/// The territory of the face that `f` names: its entry in `ft`, or `-1` for
/// a null face or one without an entry.
pub open spec fn territory_of(ft: Seq<i32>, f: Ref) -> i32 {
    if 0 <= f.id < ft.len() {
        ft[f.id as int]
    } else {
        -1i32
    }
}

/// Half-edge `h` separates two territories: it has a twin, and the faces on
/// both sides have territories, and they differ.
pub open spec fn border_between<P: Copy>(d: &Dcel<P>, h: HalfEdge, ft: Seq<i32>) -> bool {
    let c1 = territory_of(ft, h.incident_face);
    let c2 = territory_of(ft, d.edge_at(h.twin).incident_face);
    &&& in_range(h.twin, d.edges@.len())
    &&& c1 != -1 && c2 != -1 && c1 != c2
}

/// Both ends of half-edge `h` are kept vertices of `vm`.
pub open spec fn edge_in_map<P: Copy>(d: &Dcel<P>, vm: &VertexMap<P>, h: HalfEdge) -> bool {
    &&& in_range(h.twin, d.edges@.len())
    &&& vm.index_at(d.vertices@[h.origin.id as int].id.id as int) != -1
    &&& vm.index_at(d.vertices@[d.edge_at(h.twin).origin.id as int].id.id as int) != -1
}

/// One step of the border count: half-edge `i`, if it is stored under its
/// own id, not yet counted, in the map and a border, adds one to the count
/// of each of its ends and marks itself and its twin as counted.
pub open spec fn count_step<P: Copy>(
    d: &Dcel<P>,
    vm: &VertexMap<P>,
    ft: Seq<i32>,
    st: (Seq<int>, Seq<bool>),
    i: int,
) -> (Seq<int>, Seq<bool>) {
    let h = d.edges@[i];
    if h.id.id != i || st.1[i] || !edge_in_map(d, vm, h) || !border_between(d, h, ft) {
        st
    } else {
        let i1 = vm.index_at(d.vertices@[h.origin.id as int].id.id as int) as int;
        let i2 = vm.index_at(d.vertices@[d.edge_at(h.twin).origin.id as int].id.id as int) as int;
        let c = if i1 >= 0 && i2 >= 0 {
            let c1 = st.0.update(i1, st.0[i1] + 1);
            c1.update(i2, c1[i2] + 1)
        } else {
            st.0
        };
        let m = st.1.update(i, true);
        (c, if h.twin.id >= 0 { m.update(h.twin.id as int, true) } else { m })
    }
}

/// The border counts of the kept vertices and the counted marks of the
/// half-edges after the first `i` half-edges.
pub open spec fn count_scan<P: Copy>(d: &Dcel<P>, vm: &VertexMap<P>, ft: Seq<i32>, i: nat) -> (
    Seq<int>,
    Seq<bool>,
)
    decreases i,
{
    if i == 0 {
        (Seq::new(vm.kept_vertices().len(), |v: int| 0int), Seq::new(d.edges@.len(), |e: int| false))
    } else {
        count_step(d, vm, ft, count_scan(d, vm, ft, (i - 1) as nat), i - 1)
    }
}

/// The kept vertices that end a border: those on one or three border edges.
pub open spec fn end_vertices<P: Copy>(d: &Dcel<P>, vm: &VertexMap<P>, ft: Seq<i32>) -> Seq<bool> {
    let c = count_scan(d, vm, ft, d.edges@.len()).0;
    Seq::new(vm.kept_vertices().len(), |v: int| c[v] == 1 || c[v] == 3)
}

/// A kept vertex ends a border exactly when it lies on one border edge (the
/// end of an open border) or on three (a junction where three territories
/// meet); a vertex on two border edges lies in the middle of a border.
pub proof fn lemma_border_ends<P: Copy>(d: &Dcel<P>, vm: &VertexMap<P>, ft: Seq<i32>)
    ensures
        end_vertices(d, vm, ft).len() == vm.kept_vertices().len(),
        forall|v: int|
            0 <= v < vm.kept_vertices().len() ==> {
                let c = count_scan(d, vm, ft, d.edges@.len()).0[v];
                &&& c == 1 ==> #[trigger] end_vertices(d, vm, ft)[v]
                &&& c == 3 ==> end_vertices(d, vm, ft)[v]
                &&& c == 0 || c == 2 || c > 3 ==> !end_vertices(d, vm, ft)[v]
            },
{
}

/// Scanning the rotation from `h0` from step `k` on (of `n`): the border
/// test of the first half-edge whose twin starts at the vertex with id `v2`,
/// or `false` if there is none.
pub open spec fn spoke_border<P: Copy>(d: &Dcel<P>, h0: HalfEdge, v2: int, ft: Seq<i32>, k: nat, n: nat) -> bool
    decreases n - k,
{
    if k >= n {
        false
    } else {
        let h = d.spoke_walk(h0, k);
        if d.vertices@[d.edge_at(h.twin).origin.id as int].id.id == v2 {
            border_between(d, h, ft)
        } else {
            spoke_border(d, h0, v2, ft, k + 1, n)
        }
    }
}

/// The edge from the vertex with id `v1` to the vertex with id `v2` is a
/// border: the first half-edge around `v1` heading to `v2` separates two
/// territories (`false` when `v1` is no vertex or no half-edge heads there).
pub open spec fn border_between_vertices<P: Copy>(d: &Dcel<P>, v1: int, v2: int, ft: Seq<i32>) -> bool {
    if v1 < 0 || v1 >= d.vertices@.len() {
        false
    } else {
        let h0 = d.edge_at(d.vertices@[v1].incident_edge);
        let n = choose|n: nat| d.spoke_cycle(h0, n);
        spoke_border(d, h0, v2, ft, 0, n)
    }
}

/// For every kept vertex and each of its neighbours, whether the edge
/// between them is a border.
pub open spec fn border_flags<P: Copy>(
    d: &Dcel<P>,
    vm: &VertexMap<P>,
    nb: Seq<Seq<usize>>,
    ft: Seq<i32>,
) -> Seq<Seq<bool>> {
    Seq::new(
        vm.kept_vertices().len(),
        |v: int|
            Seq::new(
                nb[v].len(),
                |t: int|
                    border_between_vertices(
                        d,
                        vm.kept_vertices()[v].id.id as int,
                        vm.kept_vertices()[nb[v][t] as int].id.id as int,
                        ft,
                    ),
            ),
    )
}

/// The border walk from `start` given the marks `marks`.
pub open spec fn border_walk_of(
    nb: Seq<Seq<usize>>,
    ok: Seq<Seq<bool>>,
    is_end: Seq<bool>,
    marks: Seq<bool>,
    start: int,
) -> Seq<usize> {
    choose|w: Seq<usize>| border_walk(nb, ok, is_end, marks, start, w)
}

/// The marks after walk `w`: its vertices, and the end vertices next to its
/// last vertex where it did not reach an end vertex itself.
pub open spec fn marks_after_walk(nb: Seq<Seq<usize>>, is_end: Seq<bool>, marks: Seq<bool>, w: Seq<usize>) -> Seq<
    bool,
> {
    Seq::new(
        marks.len(),
        |i: int|
            marks[i] || w.contains(i as usize) || (!(w.len() >= 2 && is_end[w.last() as int])
                && end_neighbours(nb[w.last() as int], is_end).contains(i as usize)),
    )
}

/// One border walk from `v`: its result is added to the paths when it is
/// not empty, and the marks are updated.
pub open spec fn border_round(
    nb: Seq<Seq<usize>>,
    ok: Seq<Seq<bool>>,
    is_end: Seq<bool>,
    st: (Seq<Seq<usize>>, Seq<bool>),
    v: int,
) -> (Seq<Seq<usize>>, Seq<bool>) {
    let w = border_walk_of(nb, ok, is_end, st.1, v);
    let r = border_result(nb, is_end, w);
    (if r.len() > 0 {
        st.0.push(r)
    } else {
        st.0
    }, marks_after_walk(nb, is_end, st.1, w))
}

/// The border paths and marks after the first `i` vertices: three walks
/// from each end vertex, in vertex order.
pub open spec fn border_paths_upto(nb: Seq<Seq<usize>>, ok: Seq<Seq<bool>>, is_end: Seq<bool>, i: nat) -> (
    Seq<Seq<usize>>,
    Seq<bool>,
)
    decreases i,
{
    if i == 0 {
        (Seq::empty(), Seq::new(is_end.len(), |x: int| false))
    } else {
        let st = border_paths_upto(nb, ok, is_end, (i - 1) as nat);
        let v = i - 1;
        if is_end[v] {
            border_round(nb, ok, is_end, border_round(nb, ok, is_end, border_round(nb, ok, is_end, st, v), v), v)
        } else {
            st
        }
    }
}

/// Two walks that agree on their first `k + 1` vertices pick the same next
/// vertex at position `k`.
proof fn lemma_same_pick(
    nb: Seq<Seq<usize>>,
    ok: Seq<Seq<bool>>,
    marks: Seq<bool>,
    w1: Seq<usize>,
    w2: Seq<usize>,
    k: int,
)
    requires
        0 <= k < w1.len(),
        k < w2.len(),
        forall|j: int| 0 <= j <= k ==> w1[j] == w2[j],
    ensures
        border_pick(nb, ok, marks, w1, k) == border_pick(nb, ok, marks, w2, k),
{
    assert(w1.take(k + 1) =~= w2.take(k + 1));
    if k > 0 {
        assert(w1[k - 1] == w2[k - 1]);
    }
}

/// Two border walks from the same start agree on their first `k + 1`
/// vertices.
proof fn lemma_walk_prefix(
    nb: Seq<Seq<usize>>,
    ok: Seq<Seq<bool>>,
    is_end: Seq<bool>,
    marks: Seq<bool>,
    start: int,
    w1: Seq<usize>,
    w2: Seq<usize>,
    k: int,
)
    requires
        border_walk(nb, ok, is_end, marks, start, w1),
        border_walk(nb, ok, is_end, marks, start, w2),
        0 <= k < w1.len(),
        k < w2.len(),
    ensures
        forall|j: int| 0 <= j <= k ==> w1[j] == w2[j],
    decreases k,
{
    if k > 0 {
        lemma_walk_prefix(nb, ok, is_end, marks, start, w1, w2, k - 1);
        lemma_same_pick(nb, ok, marks, w1, w2, k - 1);
        assert(border_pick(nb, ok, marks, w1, k - 1) >= 0);
    }
}

/// A border walk is determined by its start and the marks.
pub proof fn lemma_border_walk_unique(
    nb: Seq<Seq<usize>>,
    ok: Seq<Seq<bool>>,
    is_end: Seq<bool>,
    marks: Seq<bool>,
    start: int,
    w1: Seq<usize>,
    w2: Seq<usize>,
)
    requires
        border_walk(nb, ok, is_end, marks, start, w1),
        border_walk(nb, ok, is_end, marks, start, w2),
    ensures
        w1 == w2,
{
    if w1.len() < w2.len() {
        let z = w1.len() - 1;
        lemma_walk_prefix(nb, ok, is_end, marks, start, w1, w2, z);
        lemma_same_pick(nb, ok, marks, w1, w2, z);
        assert(border_pick(nb, ok, marks, w2, z) >= 0);
        if z >= 1 {
            assert(!is_end[w2[z] as int]);
        }
        assert(false);
    } else if w2.len() < w1.len() {
        let z = w2.len() - 1;
        lemma_walk_prefix(nb, ok, is_end, marks, start, w2, w1, z);
        lemma_same_pick(nb, ok, marks, w2, w1, z);
        assert(border_pick(nb, ok, marks, w1, z) >= 0);
        if z >= 1 {
            assert(!is_end[w1[z] as int]);
        }
        assert(false);
    } else {
        lemma_walk_prefix(nb, ok, is_end, marks, start, w1, w2, w1.len() - 1);
        assert(w1 =~= w2);
    }
}

/// Whether half-edge `h` separates two territories, as `border_between`
/// says.
pub fn is_border_edge_between_faces<P: Copy>(d: &Dcel<P>, h: HalfEdge, face_territories: &Vec<i32>) -> (b:
    bool)
    ensures
        b == border_between(d, h, face_territories@),
{
    if h.twin.id < 0 || h.twin.id as usize >= d.edges.len() {
        return false;
    }
    let tw = d.twin(h);
    let c1 = if h.incident_face.id >= 0 && (h.incident_face.id as usize) < face_territories.len() {
        face_territories[h.incident_face.id as usize]
    } else {
        -1
    };
    let c2 = if tw.incident_face.id >= 0 && (tw.incident_face.id as usize) < face_territories.len() {
        face_territories[tw.incident_face.id as usize]
    } else {
        -1
    };
    c1 != -1 && c2 != -1 && c1 != c2
}

/// Whether both ends of `h` are kept vertices, as `edge_in_map` says.
pub fn is_edge_in_map<P: Copy>(d: &Dcel<P>, vm: &VertexMap<P>, h: HalfEdge) -> (b: bool)
    requires
        d.well_linked(),
        in_range(h.origin, d.vertices@.len()),
    ensures
        b == edge_in_map(d, vm, h),
{
    if h.twin.id < 0 || h.twin.id as usize >= d.edges.len() {
        return false;
    }
    let v1 = d.origin(h);
    let tw = d.twin(h);
    let v2 = d.origin(tw);
    vm.is_vertex(v1) && vm.is_vertex(v2)
}

/// Whether the edge from the vertex with id `v1_id` to the one with id
/// `v2_id` is a border, as `border_between_vertices` says.
pub fn is_border_edge_between_vertices<P: Copy>(
    d: &Dcel<P>,
    v1_id: i32,
    v2_id: i32,
    face_territories: &Vec<i32>,
) -> (b: bool)
    requires
        d.well_linked(),
        0 <= v1_id < d.vertices@.len() ==> {
            &&& in_range(d.vertices@[v1_id as int].incident_edge, d.edges@.len())
            &&& exists|n: nat| d.spoke_cycle(d.edge_at(d.vertices@[v1_id as int].incident_edge), n)
        },
    ensures
        b == border_between_vertices(d, v1_id as int, v2_id as int, face_territories@),
{
    if v1_id < 0 || v1_id as usize >= d.vertices.len() {
        return false;
    }
    let v1 = d.vertices[v1_id as usize];
    let ghost h0 = d.edge_at(v1.incident_edge);
    let ghost n = choose|n: nat| d.spoke_cycle(h0, n);
    proof {
        lemma_spoke_cycle_unique(d, h0, n);
    }
    let edges = d.get_incident_edges(v1);
    let mut k: usize = 0;
    while k < edges.len()
        invariant
            d.well_linked(),
            0 <= v1_id < d.vertices@.len(),
            h0 == d.edge_at(d.vertices@[v1_id as int].incident_edge),
            n == choose|n: nat| d.spoke_cycle(h0, n),
            d.spoke_cycle(h0, n),
            edges@ == Seq::new(n, |j: int| d.spoke_walk(h0, j as nat)),
            k <= edges@.len(),
            spoke_border(d, h0, v2_id as int, face_territories@, 0, n) == spoke_border(
                d,
                h0,
                v2_id as int,
                face_territories@,
                k as nat,
                n,
            ),
        decreases edges@.len() - k,
    {
        let h = edges[k];
        assert(h == d.spoke_walk(h0, k as nat));
        assert(in_range(d.spoke_walk(h0, k as nat).twin, d.edges@.len()));
        let tw = d.twin(h);
        assert(in_range(tw.origin, d.vertices@.len())) by {
            assert(d.edges@[h.twin.id as int] == tw);
        }
        let v = d.origin(tw);
        if v.id.id == v2_id {
            let b = is_border_edge_between_faces(d, h, face_territories);
            assert(b == spoke_border(d, h0, v2_id as int, face_territories@, k as nat, n));
            return b;
        }
        k = k + 1;
    }
    assert(spoke_border(d, h0, v2_id as int, face_territories@, n, n) == false);
    false
}

/// Every kept vertex with neighbours that is a vertex of `d` has an incident
/// half-edge whose rotation closes.
pub open spec fn spokes_close<P: Copy>(d: &Dcel<P>, vm: &VertexMap<P>, nb: Seq<Seq<usize>>) -> bool {
    forall|v: int|
        0 <= v < vm.kept_vertices().len() && #[trigger] nb[v].len() > 0 ==> {
            let id = vm.kept_vertices()[v].id.id as int;
            0 <= id < d.vertices@.len() ==> {
                &&& in_range(d.vertices@[id].incident_edge, d.edges@.len())
                &&& exists|n: nat| d.spoke_cycle(d.edge_at(d.vertices@[id].incident_edge), n)
            }
        }
}

/// The neighbour lists are one per kept vertex and name kept vertices.
pub open spec fn neighbours_ok<P: Copy>(vm: &VertexMap<P>, nb: Seq<Seq<usize>>) -> bool {
    &&& nb.len() == vm.kept_vertices().len()
    &&& forall|v: int, t: int|
        0 <= v < nb.len() && 0 <= t < nb[v].len() ==> #[trigger] nb[v][t] < vm.kept_vertices().len()
}

/// For every kept vertex and each of its neighbours, whether the edge
/// between them is a border, as `border_flags` says.
pub(crate) fn border_edge_flags<P: Copy>(
    d: &Dcel<P>,
    vm: &VertexMap<P>,
    neighbours: &Vec<Vec<usize>>,
    face_territories: &Vec<i32>,
) -> (r: Vec<Vec<bool>>)
    requires
        d.well_linked(),
        neighbours_ok(vm, lists_view(neighbours)),
        spokes_close(d, vm, lists_view(neighbours)),
    ensures
        lists_view(&r) == border_flags(d, vm, lists_view(neighbours), face_territories@),
{
    let ghost nb = lists_view(neighbours);
    let ghost target = border_flags(d, vm, nb, face_territories@);
    let n = vm.size();
    let mut r: Vec<Vec<bool>> = Vec::new();
    let mut v: usize = 0;
    while v < n
        invariant
            d.well_linked(),
            nb == lists_view(neighbours),
            neighbours_ok(vm, nb),
            spokes_close(d, vm, nb),
            target == border_flags(d, vm, nb, face_territories@),
            n == vm.kept_vertices().len(),
            v <= n,
            lists_view(&r) == target.take(v as int),
        decreases n - v,
    {
        let vx = vm.kept_vertex(v);
        let nbs = &neighbours[v];
        assert(nbs@ == nb[v as int]);
        let mut row: Vec<bool> = Vec::new();
        let mut t: usize = 0;
        while t < nbs.len()
            invariant
                d.well_linked(),
                nb == lists_view(neighbours),
                neighbours_ok(vm, nb),
                spokes_close(d, vm, nb),
                target == border_flags(d, vm, nb, face_territories@),
                n == vm.kept_vertices().len(),
                v < n,
                vx == vm.kept_vertices()[v as int],
                nbs@ == nb[v as int],
                t <= nbs@.len(),
                row@ == target[v as int].take(t as int),
            decreases nbs@.len() - t,
        {
            let other = vm.kept_vertex(nbs[t]);
            proof {
                assert(nb[v as int].len() > 0);
            }
            let flag = is_border_edge_between_vertices(d, vx.id.id, other.id.id, face_territories);
            row.push(flag);
            assert(row@ =~= target[v as int].take(t + 1));
            t = t + 1;
        }
        assert(row@ =~= target[v as int]);
        let ghost before = r;
        r.push(row);
        assert(lists_view(&r) =~= target.take(v + 1)) by {
            assert(lists_view(&r) =~= lists_view(&before).push(target[v as int]));
        }
        v = v + 1;
    }
    assert(lists_view(&r) =~= target);
    r
}

/// The border counts of the kept vertices, as `count_scan` says: the
/// half-edges are scanned in order and each border edge in the map, counted
/// once with its twin, adds one to the count of each of its ends.
pub(crate) fn edge_counts<P: Copy>(d: &Dcel<P>, vm: &VertexMap<P>, face_territories: &Vec<i32>) -> (counts: Vec<usize>)
    requires
        d.well_linked(),
        vm.wf(),
        d.edges@.len() <= i32::MAX,
    ensures
        counts@.len() == vm.kept_vertices().len(),
        forall|v: int|
            0 <= v < counts@.len() ==> #[trigger] counts@[v] as int == count_scan(
                d,
                vm,
                face_territories@,
                d.edges@.len(),
            ).0[v],
{
    let ghost ft = face_territories@;
    let n = vm.size();
    let ne = d.edges.len();
    proof {
        vm.lemma_index_in_range();
    }
    let mut counts: Vec<usize> = Vec::new();
    let mut k: usize = 0;
    while k < n
        invariant
            k <= n,
            counts@.len() == k,
            forall|j: int| 0 <= j < k ==> #[trigger] counts@[j] == 0,
        decreases n - k,
    {
        counts.push(0);
        k = k + 1;
    }
    let mut visited: Vec<bool> = Vec::new();
    let mut k: usize = 0;
    while k < ne
        invariant
            k <= ne,
            visited@.len() == k,
            forall|j: int| 0 <= j < k ==> !#[trigger] visited@[j],
        decreases ne - k,
    {
        visited.push(false);
        k = k + 1;
    }
    assert(visited@ =~= count_scan(d, vm, ft, 0).1);
    let mut i: usize = 0;
    while i < ne
        invariant
            d.well_linked(),
            vm.wf(),
            ft == face_territories@,
            forall|j: int| #[trigger] vm.index_at(j) == -1 || 0 <= vm.index_at(j) < vm.kept_vertices().len(),
            n == vm.kept_vertices().len(),
            ne == d.edges@.len(),
            ne <= i32::MAX,
            i <= ne,
            counts@.len() == n,
            count_scan(d, vm, ft, i as nat).0.len() == n,
            forall|v: int| 0 <= v < n ==> #[trigger] counts@[v] as int == count_scan(d, vm, ft, i as nat).0[v],
            forall|v: int| 0 <= v < n ==> #[trigger] counts@[v] <= 2 * i,
            visited@ == count_scan(d, vm, ft, i as nat).1,
            visited@.len() == ne,
        decreases ne - i,
    {
        let ghost st = count_scan(d, vm, ft, i as nat);
        let h = d.edges[i];
        assert(in_range(d.edges@[i as int].origin, d.vertices@.len()));
        if h.id.id < 0 || h.id.id as usize != i || visited[i] || !is_edge_in_map(d, vm, h)
            || !is_border_edge_between_faces(d, h, face_territories) {
            assert(count_scan(d, vm, ft, (i + 1) as nat) == st);
            i = i + 1;
            continue;
        }
        let v1 = d.origin(h);
        let tw = d.twin(h);
        assert(in_range(tw.origin, d.vertices@.len())) by {
            assert(d.edges@[h.twin.id as int] == tw);
        }
        let v2 = d.origin(tw);
        let idx1 = vm.get_vertex_index(v1);
        let idx2 = vm.get_vertex_index(v2);
        if idx1 >= 0 && idx2 >= 0 {
            let a = counts[idx1 as usize];
            counts.set(idx1 as usize, a + 1);
            let b = counts[idx2 as usize];
            counts.set(idx2 as usize, b + 1);
        }
        visited.set(i, true);
        if h.twin.id >= 0 {
            visited.set(h.twin.id as usize, true);
        }
        proof {
            let st2 = count_scan(d, vm, ft, (i + 1) as nat);
            assert(st2 == count_step(d, vm, ft, st, i as int));
            assert(visited@ =~= st2.1);
        }
        i = i + 1;
    }
    counts
}

/// For each count, whether it is `a` or `b`.
pub(crate) fn counts_in(counts: &Vec<usize>, a: usize, b: usize) -> (r: Vec<bool>)
    ensures
        r@ == Seq::new(counts@.len(), |v: int| counts@[v] == a || counts@[v] == b),
{
    let n = counts.len();
    let mut r: Vec<bool> = Vec::new();
    let mut v: usize = 0;
    while v < n
        invariant
            n == counts@.len(),
            v <= n,
            r@ == Seq::new(counts@.len(), |j: int| counts@[j] == a || counts@[j] == b).take(v as int),
        decreases n - v,
    {
        let c = counts[v];
        r.push(c == a || c == b);
        assert(r@ =~= Seq::new(counts@.len(), |j: int| counts@[j] == a || counts@[j] == b).take(v + 1));
        v = v + 1;
    }
    assert(r@ =~= Seq::new(counts@.len(), |j: int| counts@[j] == a || counts@[j] == b));
    r
}

/// One border walk from `v`, as `border_round` says: its path is added to
/// `paths` when it is not empty, and `processed` takes the new marks.
fn border_round_at(
    neighbours: &Vec<Vec<usize>>,
    edge_ok: &Vec<Vec<bool>>,
    is_end: &Vec<bool>,
    processed: &mut Vec<bool>,
    paths: &mut Vec<Vec<usize>>,
    v: usize,
)
    requires
        vertex_graph_ok(lists_view(neighbours), lists_view(edge_ok), is_end@.len()),
        old(processed)@.len() == is_end@.len(),
        v < is_end@.len(),
    ensures
        (lists_view(final(paths)), final(processed)@) == border_round(
            lists_view(neighbours),
            lists_view(edge_ok),
            is_end@,
            (lists_view(old(paths)), old(processed)@),
            v as int,
        ),
{
    let ghost nb = lists_view(neighbours);
    let ghost ok = lists_view(edge_ok);
    let ghost marks = processed@;
    let path = get_border_path(neighbours, edge_ok, is_end, processed, v);
    let _len = processed.len();
    proof {
        let w = choose|w: Seq<usize>|
            {
                &&& border_walk(nb, ok, is_end@, marks, v as int, w)
                &&& path@ == border_result(nb, is_end@, w)
                &&& forall|i: usize|
                    i < is_end@.len() ==> #[trigger] processed@[i as int] == (marks[i as int] || w.contains(i)
                        || (!(w.len() >= 2 && is_end@[w.last() as int]) && end_neighbours(nb[w.last() as int], is_end@).contains(
                        i,
                    )))
            };
        let w0 = border_walk_of(nb, ok, is_end@, marks, v as int);
        assert(border_walk(nb, ok, is_end@, marks, v as int, w));
        assert(border_walk(nb, ok, is_end@, marks, v as int, w0));
        lemma_border_walk_unique(nb, ok, is_end@, marks, v as int, w, w0);
        assert(marks.len() == processed@.len());
        assert forall|x: int| 0 <= x < processed@.len() implies processed@[x] == marks_after_walk(
            nb,
            is_end@,
            marks,
            w0,
        )[x] by {
            let xu = x as usize;
            assert(xu as int == x);
            assert(processed@[xu as int] == (marks[xu as int] || w.contains(xu) || (!(w.len() >= 2 && is_end@[w.last() as int])
                && end_neighbours(nb[w.last() as int], is_end@).contains(xu))));
        }
        assert(processed@ =~= marks_after_walk(nb, is_end@, marks, w0));
    }
    if path.len() > 0 {
        let ghost before = *paths;
        paths.push(path);
        proof {
            assert(lists_view(paths) =~= lists_view(&before).push(path@));
        }
    }
}

/// The territory borders of the Voronoi diagram `dcel`, as polylines of
/// kept vertex positions.
///
/// An edge between two neighbouring kept vertices is a border when the first
/// half-edge from the one to the other has faces of two different
/// territories on its sides (`face_territories` gives `-1` for a face of no
/// territory).  Counting each border half-edge in the map once with its twin,
/// a kept vertex on one or three border edges ends a border.  From each end
/// vertex, in order, three border walks are made, sharing the marks of the
/// vertices already taken; each walk that gives a path adds it.
pub fn get_border_paths<P: Copy>(
    dcel: &Dcel<P>,
    vertex_map: &VertexMap<P>,
    neighbours: &Vec<Vec<usize>>,
    face_territories: &Vec<i32>,
) -> (paths: Vec<Vec<usize>>)
    requires
        dcel.well_linked(),
        vertex_map.wf(),
        dcel.edges@.len() <= i32::MAX,
        neighbours_ok(vertex_map, lists_view(neighbours)),
        spokes_close(dcel, vertex_map, lists_view(neighbours)),
    ensures
        lists_view(&paths) == border_paths_upto(
            lists_view(neighbours),
            border_flags(dcel, vertex_map, lists_view(neighbours), face_territories@),
            end_vertices(dcel, vertex_map, face_territories@),
            vertex_map.kept_vertices().len(),
        ).0,
{
    let ghost nb = lists_view(neighbours);
    let n = vertex_map.size();
    let counts = edge_counts(dcel, vertex_map, face_territories);
    let is_end = counts_in(&counts, 1, 3);
    assert(is_end@ =~= end_vertices(dcel, vertex_map, face_territories@));
    let edge_ok = border_edge_flags(dcel, vertex_map, neighbours, face_territories);
    let ghost ok = lists_view(&edge_ok);
    let ghost ends = is_end@;
    proof {
        assert(vertex_graph_ok(nb, ok, n as nat));
    }
    let mut processed: Vec<bool> = Vec::new();
    let mut k: usize = 0;
    while k < n
        invariant
            k <= n,
            processed@.len() == k,
            forall|j: int| 0 <= j < k ==> !#[trigger] processed@[j],
        decreases n - k,
    {
        processed.push(false);
        k = k + 1;
    }
    assert(processed@ =~= border_paths_upto(nb, ok, ends, 0).1);
    let mut paths: Vec<Vec<usize>> = Vec::new();
    assert(lists_view(&paths) =~= border_paths_upto(nb, ok, ends, 0).0);
    let mut i: usize = 0;
    while i < n
        invariant
            nb == lists_view(neighbours),
            ok == lists_view(&edge_ok),
            ends == is_end@,
            ends.len() == n,
            vertex_graph_ok(nb, ok, n as nat),
            i <= n,
            processed@.len() == n,
            (lists_view(&paths), processed@) == border_paths_upto(nb, ok, ends, i as nat),
        decreases n - i,
    {
        if is_end[i] {
            border_round_at(neighbours, &edge_ok, &is_end, &mut processed, &mut paths, i);
            border_round_at(neighbours, &edge_ok, &is_end, &mut processed, &mut paths, i);
            border_round_at(neighbours, &edge_ok, &is_end, &mut processed, &mut paths, i);
        }
        i = i + 1;
    }
    paths
}

} // verus!
