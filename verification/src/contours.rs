//! Coastlines: which edges of the Voronoi diagram separate land from sea,
//! which vertices lie on a coastline or end one, and the coastline paths
//! traced through them.
use vstd::prelude::*;
use crate::borders::{
    border_edge_flags, border_flags, count_scan, counts_in, edge_counts, neighbours_ok, spokes_close,
};
use crate::dcel::Dcel;
use crate::paths::{contour_pick, contour_stop, contour_walk, get_contour_path, lists_view, vertex_graph_ok};
use crate::regions::land_labels;
use crate::vertex_map::VertexMap;

verus! {

/// The kept vertices on one or two coastline edges.
pub open spec fn coast_vertices<P: Copy>(d: &Dcel<P>, vm: &VertexMap<P>, is_land: Seq<bool>) -> Seq<bool> {
    let c = count_scan(d, vm, land_labels(is_land), d.edges@.len()).0;
    Seq::new(vm.kept_vertices().len(), |v: int| c[v] == 1 || c[v] == 2)
}

/// The kept vertices on exactly one coastline edge: the ends of open
/// coastlines.
pub open spec fn coast_ends<P: Copy>(d: &Dcel<P>, vm: &VertexMap<P>, is_land: Seq<bool>) -> Seq<bool> {
    let c = count_scan(d, vm, land_labels(is_land), d.edges@.len()).0;
    Seq::new(vm.kept_vertices().len(), |v: int| c[v] == 1 || c[v] == 1)
}

/// The contour walk from `seed` given the marks `marks`.
pub open spec fn contour_walk_of(
    nb: Seq<Seq<usize>>,
    ok: Seq<Seq<bool>>,
    is_contour: Seq<bool>,
    is_end: Seq<bool>,
    marks: Seq<bool>,
    seed: int,
) -> Seq<usize> {
    choose|p: Seq<usize>| contour_walk(nb, ok, is_contour, is_end, marks, seed, p)
}

/// A walk from `v` unless `v` is marked already: its path is added and its
/// vertices marked.
pub open spec fn contour_round(
    nb: Seq<Seq<usize>>,
    ok: Seq<Seq<bool>>,
    is_contour: Seq<bool>,
    is_end: Seq<bool>,
    st: (Seq<Seq<usize>>, Seq<bool>),
    v: int,
) -> (Seq<Seq<usize>>, Seq<bool>) {
    if st.1[v] {
        st
    } else {
        let p = contour_walk_of(nb, ok, is_contour, is_end, st.1, v);
        (st.0.push(p), Seq::new(st.1.len(), |i: int| st.1[i] || p.contains(i as usize)))
    }
}

/// The paths and marks after walks from the first `i` vertices selected by
/// `sel`, starting from `st0`.
pub open spec fn contour_pass(
    nb: Seq<Seq<usize>>,
    ok: Seq<Seq<bool>>,
    is_contour: Seq<bool>,
    is_end: Seq<bool>,
    sel: Seq<bool>,
    st0: (Seq<Seq<usize>>, Seq<bool>),
    i: nat,
) -> (Seq<Seq<usize>>, Seq<bool>)
    decreases i,
{
    if i == 0 {
        st0
    } else {
        let st = contour_pass(nb, ok, is_contour, is_end, sel, st0, (i - 1) as nat);
        if sel[i - 1] {
            contour_round(nb, ok, is_contour, is_end, st, i - 1)
        } else {
            st
        }
    }
}

/// All contour paths: walks from the end vertices first, then from the
/// contour vertices still unmarked, each in vertex order.
pub open spec fn contour_paths_of(
    nb: Seq<Seq<usize>>,
    ok: Seq<Seq<bool>>,
    is_contour: Seq<bool>,
    is_end: Seq<bool>,
) -> Seq<Seq<usize>> {
    let n = is_contour.len();
    let first = contour_pass(nb, ok, is_contour, is_end, is_end, (Seq::empty(), Seq::new(n, |x: int| false)), n);
    contour_pass(nb, ok, is_contour, is_end, is_contour, first, n).0
}

/// Two contour walks that agree on their first `k + 1` vertices pick alike
/// and stop alike at position `k`.
proof fn lemma_same_step(
    nb: Seq<Seq<usize>>,
    ok: Seq<Seq<bool>>,
    is_contour: Seq<bool>,
    is_end: Seq<bool>,
    marks: Seq<bool>,
    p1: Seq<usize>,
    p2: Seq<usize>,
    k: int,
)
    requires
        0 <= k < p1.len(),
        k < p2.len(),
        forall|j: int| 0 <= j <= k ==> p1[j] == p2[j],
    ensures
        contour_pick(nb, ok, is_contour, p1, k) == contour_pick(nb, ok, is_contour, p2, k),
        contour_stop(p1, k, is_end, marks) == contour_stop(p2, k, is_end, marks),
{
    assert(p1.take(k) =~= p2.take(k));
    if k > 0 {
        assert(p1[k - 1] == p2[k - 1]);
    }
}

proof fn lemma_contour_prefix(
    nb: Seq<Seq<usize>>,
    ok: Seq<Seq<bool>>,
    is_contour: Seq<bool>,
    is_end: Seq<bool>,
    marks: Seq<bool>,
    seed: int,
    p1: Seq<usize>,
    p2: Seq<usize>,
    k: int,
)
    requires
        contour_walk(nb, ok, is_contour, is_end, marks, seed, p1),
        contour_walk(nb, ok, is_contour, is_end, marks, seed, p2),
        0 <= k < p1.len(),
        k < p2.len(),
    ensures
        forall|j: int| 0 <= j <= k ==> p1[j] == p2[j],
    decreases k,
{
    if k > 0 {
        lemma_contour_prefix(nb, ok, is_contour, is_end, marks, seed, p1, p2, k - 1);
        lemma_same_step(nb, ok, is_contour, is_end, marks, p1, p2, k - 1);
        assert(contour_pick(nb, ok, is_contour, p1, k - 1) >= 0);
    }
}

/// A contour walk is determined by its seed and the marks.
pub proof fn lemma_contour_walk_unique(
    nb: Seq<Seq<usize>>,
    ok: Seq<Seq<bool>>,
    is_contour: Seq<bool>,
    is_end: Seq<bool>,
    marks: Seq<bool>,
    seed: int,
    p1: Seq<usize>,
    p2: Seq<usize>,
)
    requires
        contour_walk(nb, ok, is_contour, is_end, marks, seed, p1),
        contour_walk(nb, ok, is_contour, is_end, marks, seed, p2),
    ensures
        p1 == p2,
{
    if p1.len() < p2.len() {
        let z = p1.len() - 1;
        lemma_contour_prefix(nb, ok, is_contour, is_end, marks, seed, p1, p2, z);
        lemma_same_step(nb, ok, is_contour, is_end, marks, p1, p2, z);
        assert(contour_pick(nb, ok, is_contour, p2, z) >= 0);
        if z >= 1 {
            assert(!contour_stop(p2, z, is_end, marks));
        }
        assert(false);
    } else if p2.len() < p1.len() {
        let z = p2.len() - 1;
        lemma_contour_prefix(nb, ok, is_contour, is_end, marks, seed, p2, p1, z);
        lemma_same_step(nb, ok, is_contour, is_end, marks, p2, p1, z);
        assert(contour_pick(nb, ok, is_contour, p1, z) >= 0);
        if z >= 1 {
            assert(!contour_stop(p1, z, is_end, marks));
        }
        assert(false);
    } else {
        lemma_contour_prefix(nb, ok, is_contour, is_end, marks, seed, p1, p2, p1.len() - 1);
        assert(p1 =~= p2);
    }
}

/// Every marked vertex lies on one of the paths.
pub open spec fn marks_on_paths(paths: Seq<Seq<usize>>, marks: Seq<bool>) -> bool {
    forall|i: int|
        0 <= i < marks.len() && #[trigger] marks[i] ==> exists|j: int| 0 <= j < paths.len() && paths[j].contains(i as usize)
}

/// One walk from `v`, as `contour_round` says.
fn contour_round_at(
    neighbours: &Vec<Vec<usize>>,
    edge_ok: &Vec<Vec<bool>>,
    is_contour: &Vec<bool>,
    is_end: &Vec<bool>,
    in_contour: &mut Vec<bool>,
    paths: &mut Vec<Vec<usize>>,
    v: usize,
)
    requires
        vertex_graph_ok(lists_view(neighbours), lists_view(edge_ok), is_contour@.len()),
        is_end@.len() == is_contour@.len(),
        old(in_contour)@.len() == is_contour@.len(),
        v < is_contour@.len(),
        marks_on_paths(lists_view(old(paths)), old(in_contour)@),
    ensures
        marks_on_paths(lists_view(final(paths)), final(in_contour)@),
        final(in_contour)@[v as int],
        final(in_contour)@.len() == old(in_contour)@.len(),
        forall|i: int| 0 <= i < old(in_contour)@.len() && old(in_contour)@[i] ==> #[trigger] final(in_contour)@[i],
        (lists_view(final(paths)), final(in_contour)@) == contour_round(
            lists_view(neighbours),
            lists_view(edge_ok),
            is_contour@,
            is_end@,
            (lists_view(old(paths)), old(in_contour)@),
            v as int,
        ),
{
    if in_contour[v] {
        return;
    }
    let ghost nb = lists_view(neighbours);
    let ghost ok = lists_view(edge_ok);
    let ghost marks = in_contour@;
    let path = get_contour_path(neighbours, edge_ok, is_contour, is_end, in_contour, v);
    let _len = in_contour.len();
    proof {
        let p0 = contour_walk_of(nb, ok, is_contour@, is_end@, marks, v as int);
        lemma_contour_walk_unique(nb, ok, is_contour@, is_end@, marks, v as int, path@, p0);
        assert forall|x: int| 0 <= x < in_contour@.len() implies in_contour@[x] == (marks[x] || p0.contains(
            x as usize,
        )) by {
            let xu = x as usize;
            assert(xu as int == x);
            assert(in_contour@[xu as int] == (marks[xu as int] || path@.contains(xu)));
        }
        assert(in_contour@ =~= Seq::new(marks.len(), |i: int| marks[i] || p0.contains(i as usize)));
    }
    let ghost before = *paths;
    paths.push(path);
    proof {
        let pv = lists_view(paths);
        assert(pv =~= lists_view(&before).push(path@));
        assert(path@[0] == v);
        assert(path@.contains(v));
        assert forall|i: int| 0 <= i < in_contour@.len() && #[trigger] in_contour@[i] implies exists|j: int|
            0 <= j < pv.len() && pv[j].contains(i as usize) by {
            let iu = i as usize;
            assert(iu as int == i);
            assert(in_contour@[iu as int] == (marks[iu as int] || path@.contains(iu)));
            if marks[i] {
                let j = choose|j: int| 0 <= j < lists_view(&before).len() && lists_view(&before)[j].contains(i as usize);
                assert(pv[j] == lists_view(&before)[j]);
            } else {
                assert(pv[pv.len() - 1] == path@);
            }
        }
        assert forall|i: int| 0 <= i < marks.len() && marks[i] implies #[trigger] in_contour@[i] by {
            let iu = i as usize;
            assert(iu as int == i);
            assert(in_contour@[iu as int] == (marks[iu as int] || path@.contains(iu)));
        }
    }
}

/// Walks from each vertex selected by `sel`, in order, as `contour_pass`
/// says.
fn contour_pass_exec(
    neighbours: &Vec<Vec<usize>>,
    edge_ok: &Vec<Vec<bool>>,
    is_contour: &Vec<bool>,
    is_end: &Vec<bool>,
    sel: &Vec<bool>,
    in_contour: &mut Vec<bool>,
    paths: &mut Vec<Vec<usize>>,
)
    requires
        vertex_graph_ok(lists_view(neighbours), lists_view(edge_ok), is_contour@.len()),
        is_end@.len() == is_contour@.len(),
        sel@.len() == is_contour@.len(),
        old(in_contour)@.len() == is_contour@.len(),
        marks_on_paths(lists_view(old(paths)), old(in_contour)@),
    ensures
        marks_on_paths(lists_view(final(paths)), final(in_contour)@),
        forall|v: int| 0 <= v < sel@.len() && #[trigger] sel@[v] ==> final(in_contour)@[v],
        (lists_view(final(paths)), final(in_contour)@) == contour_pass(
            lists_view(neighbours),
            lists_view(edge_ok),
            is_contour@,
            is_end@,
            sel@,
            (lists_view(old(paths)), old(in_contour)@),
            is_contour@.len(),
        ),
        final(in_contour)@.len() == old(in_contour)@.len(),
{
    let ghost nb = lists_view(neighbours);
    let ghost ok = lists_view(edge_ok);
    let ghost st0 = (lists_view(paths), in_contour@);
    let n = is_contour.len();
    let mut i: usize = 0;
    while i < n
        invariant
            nb == lists_view(neighbours),
            ok == lists_view(edge_ok),
            vertex_graph_ok(nb, ok, n as nat),
            n == is_contour@.len(),
            is_end@.len() == n,
            sel@.len() == n,
            in_contour@.len() == n,
            i <= n,
            (lists_view(paths), in_contour@) == contour_pass(nb, ok, is_contour@, is_end@, sel@, st0, i as nat),
            marks_on_paths(lists_view(paths), in_contour@),
            forall|w: int| 0 <= w < i && #[trigger] sel@[w] ==> in_contour@[w],
        decreases n - i,
    {
        if sel[i] {
            contour_round_at(neighbours, edge_ok, is_contour, is_end, in_contour, paths, i);
        }
        i = i + 1;
    }
}

/// The coastline paths of the Voronoi diagram `dcel`, as polylines of kept
/// vertex positions.
///
/// An edge between two neighbouring kept vertices is on a coastline when the
/// first half-edge from the one to the other has a land face on one side and
/// a sea face on the other (`is_land` per face).  Counting each coastline
/// half-edge in the map once with its twin, a kept vertex on one or two
/// coastline edges lies on a coastline, and one on exactly one ends it.
/// Contour walks start from every end vertex first, then from every other
/// coastline vertex not yet on a path, each in vertex order.
pub fn get_contour_paths<P: Copy>(
    dcel: &Dcel<P>,
    vertex_map: &VertexMap<P>,
    neighbours: &Vec<Vec<usize>>,
    is_land: &Vec<bool>,
) -> (paths: Vec<Vec<usize>>)
    requires
        dcel.well_linked(),
        vertex_map.wf(),
        dcel.edges@.len() <= i32::MAX,
        neighbours_ok(vertex_map, lists_view(neighbours)),
        spokes_close(dcel, vertex_map, lists_view(neighbours)),
    ensures
        lists_view(&paths) == contour_paths_of(
            lists_view(neighbours),
            border_flags(dcel, vertex_map, lists_view(neighbours), land_labels(is_land@)),
            coast_vertices(dcel, vertex_map, is_land@),
            coast_ends(dcel, vertex_map, is_land@),
        ),
        forall|v: int|
            0 <= v < vertex_map.kept_vertices().len() && #[trigger] coast_vertices(dcel, vertex_map, is_land@)[v]
                ==> exists|j: int| 0 <= j < paths@.len() && paths@[j]@.contains(v as usize),
{
    let ghost nb = lists_view(neighbours);
    let mut labels: Vec<i32> = Vec::new();
    let nl = is_land.len();
    let mut j: usize = 0;
    while j < nl
        invariant
            nl == is_land@.len(),
            j <= nl,
            labels@ == land_labels(is_land@).take(j as int),
        decreases nl - j,
    {
        labels.push(if is_land[j] { 1 } else { 0 });
        assert(labels@ =~= land_labels(is_land@).take(j + 1));
        j = j + 1;
    }
    assert(labels@ =~= land_labels(is_land@));
    let n = vertex_map.size();
    let counts = edge_counts(dcel, vertex_map, &labels);
    let is_contour = counts_in(&counts, 1, 2);
    let is_end = counts_in(&counts, 1, 1);
    assert(is_contour@ =~= coast_vertices(dcel, vertex_map, is_land@));
    assert(is_end@ =~= coast_ends(dcel, vertex_map, is_land@));
    let edge_ok = border_edge_flags(dcel, vertex_map, neighbours, &labels);
    proof {
        assert(vertex_graph_ok(nb, lists_view(&edge_ok), n as nat));
    }
    let mut in_contour: Vec<bool> = Vec::new();
    let mut k: usize = 0;
    while k < n
        invariant
            k <= n,
            in_contour@.len() == k,
            forall|m: int| 0 <= m < k ==> !#[trigger] in_contour@[m],
        decreases n - k,
    {
        in_contour.push(false);
        k = k + 1;
    }
    let mut paths: Vec<Vec<usize>> = Vec::new();
    proof {
        assert(in_contour@ =~= Seq::new(n as nat, |x: int| false));
        assert(lists_view(&paths) =~= Seq::<Seq<usize>>::empty());
    }
    contour_pass_exec(neighbours, &edge_ok, &is_contour, &is_end, &is_end, &mut in_contour, &mut paths);
    contour_pass_exec(neighbours, &edge_ok, &is_contour, &is_end, &is_contour, &mut in_contour, &mut paths);
    proof {
        assert forall|v: int|
            0 <= v < vertex_map.kept_vertices().len() && #[trigger] coast_vertices(dcel, vertex_map, is_land@)[v]
                implies exists|j: int| 0 <= j < paths@.len() && paths@[j]@.contains(v as usize) by {
            assert(is_contour@[v]);
            assert(in_contour@[v]);
            let j = choose|j: int| 0 <= j < lists_view(&paths).len() && lists_view(&paths)[j].contains(v as usize);
            assert(lists_view(&paths)[j] == paths@[j]@);
        }
    }
    paths
}

} // verus!
