//! Tracing lines (coasts, territory borders) through the map's vertex graph.
//!
//! `neighbours[v]` lists the vertices next to vertex `v`, and `edge_ok[v][t]`
//! says whether the edge from `v` to `neighbours[v][t]` belongs to the line
//! being traced.  A walk repeatedly steps to the first suitable neighbour,
//! never straight back to the vertex it came from.
use vstd::prelude::*;
use crate::regions::{lemma_mark, lemma_marked_bound, marked};

verus! {

/// The position of the first neighbour in `nbs`, from position `t` on, that
/// is not `last`, is `eligible`, and whose edge is `ok`; `-1` when none is.
pub open spec fn first_pick(nbs: Seq<usize>, ok: Seq<bool>, eligible: Seq<bool>, last: int, t: int) -> int
    decreases nbs.len() - t,
{
    if t < 0 || t >= nbs.len() {
        -1
    } else if nbs[t] as int != last && nbs[t] < eligible.len() && eligible[nbs[t] as int] && t < ok.len()
        && ok[t] {
        t
    } else {
        first_pick(nbs, ok, eligible, last, t + 1)
    }
}

/// A pick is a position of the list at or after `t`.
proof fn lemma_first_pick_range(nbs: Seq<usize>, ok: Seq<bool>, eligible: Seq<bool>, last: int, t: int)
    requires
        0 <= t,
    ensures
        first_pick(nbs, ok, eligible, last, t) == -1 || t <= first_pick(nbs, ok, eligible, last, t) < nbs.len(),
        first_pick(nbs, ok, eligible, last, t) >= 0 ==> {
            let r = first_pick(nbs, ok, eligible, last, t);
            &&& nbs[r] as int != last
            &&& nbs[r] < eligible.len()
            &&& eligible[nbs[r] as int]
            &&& r < ok.len()
            &&& ok[r]
        },
    decreases nbs.len() - t,
{
    if t < nbs.len() {
        lemma_first_pick_range(nbs, ok, eligible, last, t + 1);
    }
}

/// The vertex a walk came from before position `k` of `path` (`usize::MAX`
/// at the start).
pub open spec fn came_from(path: Seq<usize>, k: int) -> int {
    if k == 0 {
        usize::MAX as int
    } else {
        path[k - 1] as int
    }
}

/// Whether a contour walk stops on reaching vertex `path[k]`: it is an end
/// vertex, or it was on a contour already (before the walk or earlier in it).
pub open spec fn contour_stop(path: Seq<usize>, k: int, is_end: Seq<bool>, old_marks: Seq<bool>) -> bool {
    is_end[path[k] as int] || old_marks[path[k] as int] || path.take(k).contains(path[k])
}

/// The next vertex of a contour walk at `path[k]`, by position in its
/// neighbour list (`-1` for none).
pub open spec fn contour_pick(
    nb: Seq<Seq<usize>>,
    ok: Seq<Seq<bool>>,
    is_contour: Seq<bool>,
    path: Seq<usize>,
    k: int,
) -> int {
    first_pick(nb[path[k] as int], ok[path[k] as int], is_contour, came_from(path, k), 0)
}

/// `path` is the contour walk from `seed`: each step goes to the first
/// contour neighbour, other than the vertex just left, joined by a contour
/// edge; the walk stops at an end vertex or a vertex already on a contour,
/// or where it cannot go on.
pub open spec fn contour_walk(
    nb: Seq<Seq<usize>>,
    ok: Seq<Seq<bool>>,
    is_contour: Seq<bool>,
    is_end: Seq<bool>,
    old_marks: Seq<bool>,
    seed: int,
    path: Seq<usize>,
) -> bool {
    let z = path.len() - 1;
    &&& path.len() >= 1
    &&& path[0] == seed
    &&& forall|k: int|
        0 <= k < z ==> {
            &&& #[trigger] contour_pick(nb, ok, is_contour, path, k) >= 0
            &&& path[k + 1] == nb[path[k] as int][contour_pick(nb, ok, is_contour, path, k)]
        }
    &&& forall|k: int| 1 <= k < z ==> !#[trigger] contour_stop(path, k, is_end, old_marks)
    &&& (z >= 1 && contour_stop(path, z, is_end, old_marks)) || (contour_pick(nb, ok, is_contour, path, z) < 0
        && (z == 0 || !contour_stop(path, z, is_end, old_marks)))
}

/// Every neighbour list names vertices, and every list of edge flags is as
/// long as its neighbour list.
pub open spec fn vertex_graph_ok(nb: Seq<Seq<usize>>, ok: Seq<Seq<bool>>, n: nat) -> bool {
    &&& nb.len() == n
    &&& ok.len() == n
    &&& forall|v: int| 0 <= v < n ==> (#[trigger] ok[v]).len() == nb[v].len()
    &&& forall|v: int, t: int| 0 <= v < n && 0 <= t < nb[v].len() ==> #[trigger] nb[v][t] < n
}

/// The lists of a vector of vectors, as sequences.
pub open spec fn lists_view<T>(v: &Vec<Vec<T>>) -> Seq<Seq<T>> {
    v@.map_values(|l: Vec<T>| l@)
}

/// The first suitable neighbour of `v` not equal to `last`, as `first_pick`
/// says.
fn pick_neighbour(nbs: &Vec<usize>, ok: &Vec<bool>, eligible: &Vec<bool>, last: usize) -> (r: Option<usize>)
    requires
        ok@.len() == nbs@.len(),
        forall|t: int| 0 <= t < nbs@.len() ==> #[trigger] nbs@[t] < eligible@.len(),
    ensures
        first_pick(nbs@, ok@, eligible@, last as int, 0) < 0 ==> r is None,
        first_pick(nbs@, ok@, eligible@, last as int, 0) >= 0 ==> r is Some && r->0 as int == first_pick(
            nbs@,
            ok@,
            eligible@,
            last as int,
            0,
        ),
{
    let mut t: usize = 0;
    while t < nbs.len()
        invariant
            t <= nbs@.len(),
            ok@.len() == nbs@.len(),
            forall|q: int| 0 <= q < nbs@.len() ==> #[trigger] nbs@[q] < eligible@.len(),
            first_pick(nbs@, ok@, eligible@, last as int, 0) == first_pick(
                nbs@,
                ok@,
                eligible@,
                last as int,
                t as int,
            ),
        decreases nbs@.len() - t,
    {
        let nb = nbs[t];
        if nb != last && eligible[nb] && ok[t] {
            return Some(t);
        }
        t = t + 1;
    }
    None
}

/// Walks a contour from `seed` (not yet on a contour), as `contour_walk`
/// says, marking every vertex it visits in `in_contour`; returns the vertices
/// in order.
pub fn get_contour_path(
    neighbours: &Vec<Vec<usize>>,
    edge_ok: &Vec<Vec<bool>>,
    is_contour: &Vec<bool>,
    is_end: &Vec<bool>,
    in_contour: &mut Vec<bool>,
    seed: usize,
) -> (path: Vec<usize>)
    requires
        vertex_graph_ok(lists_view(neighbours), lists_view(edge_ok), is_contour@.len()),
        is_end@.len() == is_contour@.len(),
        old(in_contour)@.len() == is_contour@.len(),
        seed < is_contour@.len(),
        !old(in_contour)@[seed as int],
    ensures
        contour_walk(
            lists_view(neighbours),
            lists_view(edge_ok),
            is_contour@,
            is_end@,
            old(in_contour)@,
            seed as int,
            path@,
        ),
        final(in_contour)@.len() == old(in_contour)@.len(),
        forall|i: usize|
            i < old(in_contour)@.len() ==> #[trigger] final(in_contour)@[i as int] == (old(in_contour)@[i as int]
                || path@.contains(i)),
{
    let ghost nb = lists_view(neighbours);
    let ghost ok = lists_view(edge_ok);
    let ghost n = is_contour@.len();
    let ghost marks0 = in_contour@;
    let mut path: Vec<usize> = Vec::new();
    let mut v: usize = seed;
    let mut last: usize = usize::MAX;
    loop
        invariant_except_break
            n == is_contour@.len(),
            n == is_end@.len(),
            n == in_contour@.len(),
            n == marks0.len(),
            nb == lists_view(neighbours),
            ok == lists_view(edge_ok),
            vertex_graph_ok(nb, ok, n),
            v < n,
            !in_contour@[v as int],
            path@.len() == 0 ==> v == seed && last == usize::MAX,
            path@.len() > 0 ==> {
                &&& path@[0] == seed
                &&& last == path@.last()
                &&& contour_pick(nb, ok, is_contour@, path@, path@.len() - 1) >= 0
                &&& v == nb[last as int][contour_pick(nb, ok, is_contour@, path@, path@.len() - 1)]
                &&& !contour_stop(path@.push(v), path@.len() as int, is_end@, marks0)
            },
            forall|k: int| 0 <= k < path@.len() ==> (#[trigger] path@[k]) < n,
            forall|k: int|
                0 <= k < path@.len() - 1 ==> {
                    &&& #[trigger] contour_pick(nb, ok, is_contour@, path@, k) >= 0
                    &&& path@[k + 1] == nb[path@[k] as int][contour_pick(nb, ok, is_contour@, path@, k)]
                },
            forall|k: int| 1 <= k < path@.len() ==> !#[trigger] contour_stop(path@, k, is_end@, marks0),
            forall|i: usize| i < n ==> #[trigger] in_contour@[i as int] == (marks0[i as int] || path@.contains(i)),
        ensures
            contour_walk(nb, ok, is_contour@, is_end@, marks0, seed as int, path@),
            n == in_contour@.len(),
            forall|i: usize| i < n ==> #[trigger] in_contour@[i as int] == (marks0[i as int] || path@.contains(i)),
        decreases n - marked(in_contour@).len(),
    {
        proof {
            lemma_mark(in_contour@, v as int);
            lemma_marked_bound(in_contour@);
            lemma_marked_bound(in_contour@.update(v as int, true));
        }
        let ghost before = path@;
        path.push(v);
        in_contour.set(v, true);
        let ghost p1 = path@;
        proof {
            assert(p1 == before.push(v));
            assert forall|k: int| 0 <= k < p1.len() - 1 implies {
                &&& #[trigger] contour_pick(nb, ok, is_contour@, p1, k) >= 0
                &&& p1[k + 1] == nb[p1[k] as int][contour_pick(nb, ok, is_contour@, p1, k)]
            } by {
                assert(p1[k] == before[k]);
                assert(came_from(p1, k) == came_from(before, k));
                if k < before.len() - 1 {
                    assert(contour_pick(nb, ok, is_contour@, p1, k) == contour_pick(nb, ok, is_contour@, before, k));
                } else {
                    assert(contour_pick(nb, ok, is_contour@, p1, k) == contour_pick(
                        nb,
                        ok,
                        is_contour@,
                        before,
                        before.len() - 1,
                    ));
                }
            }
            assert forall|k: int| 1 <= k < p1.len() implies !#[trigger] contour_stop(p1, k, is_end@, marks0) by {
                if k < before.len() {
                    assert(p1.take(k) =~= before.take(k));
                    assert(contour_stop(p1, k, is_end@, marks0) == contour_stop(before, k, is_end@, marks0));
                } else {
                    assert(p1 =~= before.push(v));
                }
            }
            assert forall|i: usize| i < n implies #[trigger] in_contour@[i as int] == (marks0[i as int] || p1.contains(
                i,
            )) by {
                if before.contains(i) {
                    let w = choose|w: int| 0 <= w < before.len() && before[w] == i;
                    assert(p1[w] == before[w]);
                }
                if p1.contains(i) {
                    let w = choose|w: int| 0 <= w < p1.len() && p1[w] == i;
                    if w < before.len() {
                        assert(p1[w] == before[w]);
                    }
                }
                if i == v {
                    assert(p1[before.len() as int] == v);
                }
            }
        }
        let nbs = &neighbours[v];
        let oks = &edge_ok[v];
        proof {
            assert(nbs@ == nb[v as int]);
            assert(oks@ == ok[v as int]);
            assert forall|t: int| 0 <= t < nbs@.len() implies #[trigger] nbs@[t] < is_contour@.len() by {
                assert(nb[v as int][t] < n);
            }
            assert(came_from(p1, p1.len() - 1) == last as int || p1.len() == 1);
        }
        let pick = pick_neighbour(nbs, oks, is_contour, last);
        proof {
            lemma_first_pick_range(nbs@, oks@, is_contour@, last as int, 0);
            if p1.len() == 1 {
                assert(came_from(p1, 0) == usize::MAX as int);
            } else {
                assert(came_from(p1, p1.len() - 1) == p1[p1.len() - 2] as int);
            }
            assert(contour_pick(nb, ok, is_contour@, p1, p1.len() - 1) == first_pick(
                nbs@,
                oks@,
                is_contour@,
                last as int,
                0,
            ));
        }
        match pick {
            None => {
                break;
            },
            Some(t) => {
                let next = nbs[t];
                proof {
                    assert(contour_pick(nb, ok, is_contour@, p1, p1.len() - 1) == t as int);
                    assert(p1[p1.len() - 1] == v);
                    assert(next == nb[p1[p1.len() - 1] as int][t as int]);
                }
                last = v;
                v = next;
                if is_end[v] || in_contour[v] {
                    let ghost p2 = p1.push(v);
                    proof {
                        assert(p1.contains(v) ==> p2.take(p1.len() as int).contains(v)) by {
                            assert(p2.take(p1.len() as int) =~= p1);
                        }
                        assert(p2.take(p1.len() as int) =~= p1);
                        assert(p2[p1.len() as int] == v);
                    }
                    path.push(v);
                    in_contour.set(v, true);
                    proof {
                        assert(path@ == p2);
                        assert forall|k: int| 0 <= k < p2.len() - 1 implies {
                            &&& #[trigger] contour_pick(nb, ok, is_contour@, p2, k) >= 0
                            &&& p2[k + 1] == nb[p2[k] as int][contour_pick(nb, ok, is_contour@, p2, k)]
                        } by {
                            assert(p2[k] == p1[k]);
                            assert(came_from(p2, k) == came_from(p1, k));
                            assert(contour_pick(nb, ok, is_contour@, p2, k) == contour_pick(nb, ok, is_contour@, p1, k));
                            if k < p1.len() - 1 {
                                assert(p2[k + 1] == p1[k + 1]);
                            }
                        }
                        assert forall|k: int| 1 <= k < p2.len() - 1 implies !#[trigger] contour_stop(
                            p2,
                            k,
                            is_end@,
                            marks0,
                        ) by {
                            assert(p2.take(k) =~= p1.take(k));
                            assert(contour_stop(p2, k, is_end@, marks0) == contour_stop(p1, k, is_end@, marks0));
                        }
                        assert(contour_stop(p2, p1.len() as int, is_end@, marks0));
                        assert forall|i: usize| i < n implies #[trigger] in_contour@[i as int] == (marks0[i as int]
                            || p2.contains(i)) by {
                            if p1.contains(i) {
                                let w = choose|w: int| 0 <= w < p1.len() && p1[w] == i;
                                assert(p2[w] == p1[w]);
                            }
                            if p2.contains(i) {
                                let w = choose|w: int| 0 <= w < p2.len() && p2[w] == i;
                                if w < p1.len() {
                                    assert(p2[w] == p1[w]);
                                }
                            }
                            if i == v {
                                assert(p2[p1.len() as int] == v);
                            }
                        }
                    }
                    break;
                }
                proof {
                    let p2 = p1.push(v);
                    assert(p2.take(p1.len() as int) =~= p1);
                    assert(p2[p1.len() as int] == v);
                    if p1.contains(v) {
                        assert(in_contour@[v as int]);
                    }
                    assert(!contour_stop(p2, p1.len() as int, is_end@, marks0));
                    assert(path@ == p1);
                    assert(last == p1.last());
                }
            },
        }
    }
    path
}

/// The vertices a border walk may still enter: those not marked before the
/// walk and not among the first `upto` vertices of the walk.
pub open spec fn unvisited(old_marks: Seq<bool>, walk: Seq<usize>, upto: int) -> Seq<bool> {
    Seq::new(old_marks.len(), |x: int| !(old_marks[x] || walk.take(upto).contains(x as usize)))
}

/// The next vertex of a border walk at `walk[k]`, by position in its
/// neighbour list (`-1` for none): the first neighbour other than the vertex
/// just left, joined by a border edge, not yet visited.
pub open spec fn border_pick(nb: Seq<Seq<usize>>, ok: Seq<Seq<bool>>, old_marks: Seq<bool>, walk: Seq<usize>, k: int) -> int {
    first_pick(nb[walk[k] as int], ok[walk[k] as int], unvisited(old_marks, walk, k + 1), came_from(walk, k), 0)
}

/// The neighbours in `nbs` that are end vertices, in order.
pub open spec fn end_neighbours(nbs: Seq<usize>, is_end: Seq<bool>) -> Seq<usize>
    decreases nbs.len(),
{
    if nbs.len() == 0 {
        Seq::empty()
    } else {
        let before = end_neighbours(nbs.drop_last(), is_end);
        if is_end[nbs.last() as int] {
            before.push(nbs.last())
        } else {
            before
        }
    }
}

/// `walk` is the stepping part of the border walk from `start`: each step
/// goes to the first unvisited neighbour joined by a border edge, other than
/// the vertex just left, and the walk stops on reaching an end vertex or
/// where it cannot go on.
pub open spec fn border_walk(
    nb: Seq<Seq<usize>>,
    ok: Seq<Seq<bool>>,
    is_end: Seq<bool>,
    old_marks: Seq<bool>,
    start: int,
    walk: Seq<usize>,
) -> bool {
    let z = walk.len() - 1;
    &&& walk.len() >= 1
    &&& walk[0] == start
    &&& forall|k: int|
        0 <= k < z ==> {
            &&& #[trigger] border_pick(nb, ok, old_marks, walk, k) >= 0
            &&& walk[k + 1] == nb[walk[k] as int][border_pick(nb, ok, old_marks, walk, k)]
        }
    &&& forall|k: int| 1 <= k < z ==> !is_end[(#[trigger] walk[k]) as int]
    &&& (z >= 1 && is_end[walk[z] as int]) || (border_pick(nb, ok, old_marks, walk, z) < 0 && (z == 0
        || !is_end[walk[z] as int]))
}

/// What a border walk returns: the walk itself if it reached an end vertex;
/// otherwise the walk followed by the end vertices next to where it stopped,
/// or nothing if that is fewer than two vertices.
pub open spec fn border_result(nb: Seq<Seq<usize>>, is_end: Seq<bool>, walk: Seq<usize>) -> Seq<usize> {
    let z = walk.len() - 1;
    if z >= 1 && is_end[walk[z] as int] {
        walk
    } else {
        let full = walk + end_neighbours(nb[walk[z] as int], is_end);
        if full.len() < 2 {
            Seq::empty()
        } else {
            full
        }
    }
}

/// The first neighbour not yet visited (not marked in `processed`), other
/// than `last`, joined by an `ok` edge, as `first_pick` says.
fn pick_unvisited(nbs: &Vec<usize>, ok: &Vec<bool>, processed: &Vec<bool>, last: usize) -> (r: Option<usize>)
    requires
        ok@.len() == nbs@.len(),
        forall|t: int| 0 <= t < nbs@.len() ==> #[trigger] nbs@[t] < processed@.len(),
    ensures
        ({
            let elig = Seq::new(processed@.len(), |x: int| !processed@[x]);
            &&& first_pick(nbs@, ok@, elig, last as int, 0) < 0 ==> r is None
            &&& first_pick(nbs@, ok@, elig, last as int, 0) >= 0 ==> r is Some && r->0 as int == first_pick(
                nbs@,
                ok@,
                elig,
                last as int,
                0,
            )
        }),
{
    let ghost elig = Seq::new(processed@.len(), |x: int| !processed@[x]);
    let mut t: usize = 0;
    while t < nbs.len()
        invariant
            t <= nbs@.len(),
            ok@.len() == nbs@.len(),
            elig == Seq::new(processed@.len(), |x: int| !processed@[x]),
            forall|q: int| 0 <= q < nbs@.len() ==> #[trigger] nbs@[q] < processed@.len(),
            first_pick(nbs@, ok@, elig, last as int, 0) == first_pick(nbs@, ok@, elig, last as int, t as int),
        decreases nbs@.len() - t,
    {
        let nb = nbs[t];
        if nb != last && !processed[nb] && ok[t] {
            return Some(t);
        }
        t = t + 1;
    }
    None
}

/// Appends the end vertices among `nbs` to `path`, marking them.
fn append_end_neighbours(nbs: &Vec<usize>, is_end: &Vec<bool>, processed: &mut Vec<bool>, path: &mut Vec<usize>)
    requires
        forall|t: int| 0 <= t < nbs@.len() ==> #[trigger] nbs@[t] < is_end@.len(),
        old(processed)@.len() == is_end@.len(),
    ensures
        final(path)@ == old(path)@ + end_neighbours(nbs@, is_end@),
        final(processed)@.len() == old(processed)@.len(),
        forall|i: usize|
            i < is_end@.len() ==> #[trigger] final(processed)@[i as int] == (old(processed)@[i as int]
                || end_neighbours(nbs@, is_end@).contains(i)),
{
    let ghost p0 = path@;
    let ghost m0 = processed@;
    let mut t: usize = 0;
    while t < nbs.len()
        invariant
            t <= nbs@.len(),
            forall|q: int| 0 <= q < nbs@.len() ==> #[trigger] nbs@[q] < is_end@.len(),
            processed@.len() == is_end@.len(),
            m0.len() == is_end@.len(),
            path@ == p0 + end_neighbours(nbs@.take(t as int), is_end@),
            forall|i: usize|
                i < is_end@.len() ==> #[trigger] processed@[i as int] == (m0[i as int] || end_neighbours(
                    nbs@.take(t as int),
                    is_end@,
                ).contains(i)),
        decreases nbs@.len() - t,
    {
        let x = nbs[t];
        let ghost before = end_neighbours(nbs@.take(t as int), is_end@);
        proof {
            assert(nbs@.take(t + 1).drop_last() =~= nbs@.take(t as int));
            assert(nbs@.take(t + 1).last() == x);
        }
        if is_end[x] {
            path.push(x);
            processed.set(x, true);
            proof {
                let after = end_neighbours(nbs@.take(t + 1), is_end@);
                assert(after == before.push(x));
                assert(path@ =~= p0 + after);
                assert forall|i: usize| i < is_end@.len() implies #[trigger] processed@[i as int] == (m0[i as int]
                    || after.contains(i)) by {
                    if before.contains(i) {
                        let w = choose|w: int| 0 <= w < before.len() && before[w] == i;
                        assert(after[w] == before[w]);
                    }
                    if after.contains(i) {
                        let w = choose|w: int| 0 <= w < after.len() && after[w] == i;
                        if w < before.len() {
                            assert(after[w] == before[w]);
                        }
                    }
                    if i == x {
                        assert(after[before.len() as int] == x);
                    }
                }
            }
        } else {
            proof {
                assert(end_neighbours(nbs@.take(t + 1), is_end@) == before);
            }
        }
        t = t + 1;
    }
    proof {
        assert(nbs@.take(nbs@.len() as int) =~= nbs@);
    }
}

/// Walks a territory border from `start`, as `border_walk` says, marking the
/// vertices it visits in `processed`, and returns what `border_result` says.
pub fn get_border_path(
    neighbours: &Vec<Vec<usize>>,
    edge_ok: &Vec<Vec<bool>>,
    is_end: &Vec<bool>,
    processed: &mut Vec<bool>,
    start: usize,
) -> (path: Vec<usize>)
    requires
        vertex_graph_ok(lists_view(neighbours), lists_view(edge_ok), is_end@.len()),
        old(processed)@.len() == is_end@.len(),
        start < is_end@.len(),
    ensures
        exists|walk: Seq<usize>|
            {
                &&& border_walk(lists_view(neighbours), lists_view(edge_ok), is_end@, old(processed)@, start as int, walk)
                &&& path@ == border_result(lists_view(neighbours), is_end@, walk)
                &&& forall|i: usize|
                    i < is_end@.len() ==> #[trigger] final(processed)@[i as int] == (old(processed)@[i as int]
                        || walk.contains(i) || (!(walk.len() >= 2 && is_end@[walk.last() as int])
                        && end_neighbours(lists_view(neighbours)[walk.last() as int], is_end@).contains(i)))
            },
        final(processed)@.len() == old(processed)@.len(),
{
    let ghost nb = lists_view(neighbours);
    let ghost ok = lists_view(edge_ok);
    let ghost n = is_end@.len();
    let ghost marks0 = processed@;
    let n_exec = is_end.len();
    let mut path: Vec<usize> = Vec::new();
    let mut v: usize = start;
    let mut last: usize = usize::MAX;
    let ghost mut walk: Seq<usize> = Seq::empty();
    loop
        invariant_except_break
            n == is_end@.len(),
            n == n_exec,
            n == processed@.len(),
            n == marks0.len(),
            nb == lists_view(neighbours),
            ok == lists_view(edge_ok),
            vertex_graph_ok(nb, ok, n),
            v < n,
            path@ == walk,
            walk.len() == 0 ==> v == start && last == usize::MAX && processed@ == marks0,
            walk.len() > 0 ==> {
                &&& walk[0] == start
                &&& last == walk.last()
                &&& border_pick(nb, ok, marks0, walk, walk.len() - 1) >= 0
                &&& v == nb[last as int][border_pick(nb, ok, marks0, walk, walk.len() - 1)]
                &&& !is_end[v as int]
                &&& !processed@[v as int]
            },
            forall|k: int| 0 <= k < walk.len() ==> (#[trigger] walk[k]) < n,
            forall|k: int|
                0 <= k < walk.len() - 1 ==> {
                    &&& #[trigger] border_pick(nb, ok, marks0, walk, k) >= 0
                    &&& walk[k + 1] == nb[walk[k] as int][border_pick(nb, ok, marks0, walk, k)]
                },
            forall|k: int| 1 <= k < walk.len() ==> !is_end[(#[trigger] walk[k]) as int],
            forall|i: usize| i < n ==> #[trigger] processed@[i as int] == (marks0[i as int] || walk.contains(i)),
        ensures
            exists|w: Seq<usize>|
                {
                    &&& border_walk(nb, ok, is_end@, marks0, start as int, w)
                    &&& path@ == border_result(nb, is_end@, w)
                    &&& forall|i: usize|
                        i < n ==> #[trigger] processed@[i as int] == (marks0[i as int] || w.contains(i) || (!(
                        w.len() >= 2 && is_end@[w.last() as int]) && end_neighbours(nb[w.last() as int], is_end@).contains(
                            i,
                        )))
                },
            n == processed@.len(),
        decreases (n - marked(processed@).len()) * 2 + if walk.len() == 0 {
            1int
        } else {
            0int
        },
    {
        proof {
            lemma_marked_bound(processed@);
            if !processed@[v as int] {
                lemma_mark(processed@, v as int);
            } else {
                assert(processed@.update(v as int, true) =~= processed@);
            }
            lemma_marked_bound(processed@.update(v as int, true));
        }
        let ghost before = walk;
        path.push(v);
        processed.set(v, true);
        proof {
            walk = before.push(v);
            assert(path@ == walk);
            assert forall|k: int| 0 <= k < walk.len() - 1 implies {
                &&& #[trigger] border_pick(nb, ok, marks0, walk, k) >= 0
                &&& walk[k + 1] == nb[walk[k] as int][border_pick(nb, ok, marks0, walk, k)]
            } by {
                assert(walk[k] == before[k]);
                assert(came_from(walk, k) == came_from(before, k));
                assert(walk.take(k + 1) =~= before.take(k + 1));
                assert(unvisited(marks0, walk, k + 1) =~= unvisited(marks0, before, k + 1));
                assert(border_pick(nb, ok, marks0, walk, k) == border_pick(nb, ok, marks0, before, k));
                if k < before.len() - 1 {
                    assert(walk[k + 1] == before[k + 1]);
                }
            }
            assert forall|k: int| 1 <= k < walk.len() implies !is_end[(#[trigger] walk[k]) as int] by {
                if k < before.len() {
                    assert(walk[k] == before[k]);
                }
            }
            assert forall|i: usize| i < n implies #[trigger] processed@[i as int] == (marks0[i as int] || walk.contains(
                i,
            )) by {
                if before.contains(i) {
                    let w = choose|w: int| 0 <= w < before.len() && before[w] == i;
                    assert(walk[w] == before[w]);
                }
                if walk.contains(i) {
                    let w = choose|w: int| 0 <= w < walk.len() && walk[w] == i;
                    if w < before.len() {
                        assert(walk[w] == before[w]);
                    }
                }
                if i == v {
                    assert(walk[before.len() as int] == v);
                }
            }
            assert forall|k: int| 0 <= k < walk.len() implies (#[trigger] walk[k]) < n by {
                if k < before.len() {
                    assert(walk[k] == before[k]);
                }
            }
        }
        let nbs = &neighbours[v];
        let oks = &edge_ok[v];
        let ghost elig = Seq::new(n, |x: int| !processed@[x]);
        proof {
            assert(nbs@ == nb[v as int]);
            assert(oks@ == ok[v as int]);
            assert forall|t: int| 0 <= t < nbs@.len() implies #[trigger] nbs@[t] < n by {
                assert(nb[v as int][t] < n);
            }
            assert(walk.take(walk.len() as int) =~= walk);
            assert forall|x: int| 0 <= x < n implies #[trigger] elig[x] == unvisited(marks0, walk, walk.len() as int)[x] by {
                let xu = x as usize;
                assert(processed@[xu as int] == (marks0[xu as int] || walk.contains(xu)));
            }
            assert(elig =~= unvisited(marks0, walk, walk.len() as int));
            if walk.len() == 1 {
                assert(came_from(walk, 0) == usize::MAX as int);
            } else {
                assert(came_from(walk, walk.len() - 1) == walk[walk.len() - 2] as int);
            }
            assert(border_pick(nb, ok, marks0, walk, walk.len() - 1) == first_pick(nbs@, oks@, elig, last as int, 0));
        }
        let pick = pick_unvisited(nbs, oks, processed, last);
        proof {
            lemma_first_pick_range(nbs@, oks@, elig, last as int, 0);
        }
        match pick {
            None => {
                proof {
                    assert(border_pick(nb, ok, marks0, walk, walk.len() - 1) < 0);
                }
                let ghost pr = processed@;
                append_end_neighbours(nbs, is_end, processed, &mut path);
                if path.len() < 2 {
                    path = Vec::new();
                }
                proof {
                    let w = walk;
                    assert(border_walk(nb, ok, is_end@, marks0, start as int, w));
                    assert(path@ == border_result(nb, is_end@, w));
                    assert(w.last() == v);
                    assert forall|i: usize| i < n implies #[trigger] processed@[i as int] == (marks0[i as int]
                        || w.contains(i) || (!(w.len() >= 2 && is_end@[w.last() as int]) && end_neighbours(
                        nb[w.last() as int],
                        is_end@,
                    ).contains(i))) by {
                        assert(pr[i as int] == (marks0[i as int] || w.contains(i)));
                    }
                }
                break;
            },
            Some(t) => {
                let next = nbs[t];
                proof {
                    assert(border_pick(nb, ok, marks0, walk, walk.len() - 1) == t as int);
                    assert(walk[walk.len() - 1] == v);
                    assert(next == nb[walk[walk.len() - 1] as int][t as int]);
                    assert(elig[next as int]);
                }
                last = v;
                v = next;
                if is_end[v] {
                    let ghost before2 = walk;
                    path.push(v);
                    processed.set(v, true);
                    proof {
                        let w = before2.push(v);
                        assert(path@ == w);
                        assert forall|k: int| 0 <= k < w.len() - 1 implies {
                            &&& #[trigger] border_pick(nb, ok, marks0, w, k) >= 0
                            &&& w[k + 1] == nb[w[k] as int][border_pick(nb, ok, marks0, w, k)]
                        } by {
                            assert(w[k] == before2[k]);
                            assert(came_from(w, k) == came_from(before2, k));
                            assert(w.take(k + 1) =~= before2.take(k + 1));
                            assert(unvisited(marks0, w, k + 1) =~= unvisited(marks0, before2, k + 1));
                            assert(border_pick(nb, ok, marks0, w, k) == border_pick(nb, ok, marks0, before2, k));
                            if k < before2.len() - 1 {
                                assert(w[k + 1] == before2[k + 1]);
                            }
                        }
                        assert forall|k: int| 1 <= k < w.len() - 1 implies !is_end[(#[trigger] w[k]) as int] by {
                            assert(w[k] == before2[k]);
                        }
                        assert(border_walk(nb, ok, is_end@, marks0, start as int, w));
                        assert(path@ == border_result(nb, is_end@, w));
                        assert forall|i: usize| i < n implies #[trigger] processed@[i as int] == (marks0[i as int]
                            || w.contains(i) || (!(w.len() >= 2 && is_end@[w.last() as int]) && end_neighbours(
                            nb[w.last() as int],
                            is_end@,
                        ).contains(i))) by {
                            if before2.contains(i) {
                                let q = choose|q: int| 0 <= q < before2.len() && before2[q] == i;
                                assert(w[q] == before2[q]);
                            }
                            if w.contains(i) {
                                let q = choose|q: int| 0 <= q < w.len() && w[q] == i;
                                if q < before2.len() {
                                    assert(w[q] == before2[q]);
                                }
                            }
                            if i == v {
                                assert(w[before2.len() as int] == v);
                            }
                        }
                    }
                    break;
                }
                proof {
                    assert(!processed@[v as int]);
                }
            },
        }
    }
    path
}

} // verus!
