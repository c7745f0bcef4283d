//! Regions of the map's face graph: connected groups of faces with the same
//! label (land or sea, or the territory they belong to), the removal of
//! islands that are too small, and the tidying of territories.
//!
//! Faces are numbered `0..n`; `neighbours[f]` lists the faces next to face
//! `f`.
use vstd::prelude::*;
use vstd::set_lib::{lemma_int_range, lemma_len_subset, set_int_range};

verus! {

/// The indices marked in `p`.
pub open spec fn marked(p: Seq<bool>) -> Set<int> {
    Set::new(|i: int| 0 <= i < p.len() && p[i])
}

/// The faces of `nb` and their neighbour lists, as sequences.
pub open spec fn graph_view(nb: &Vec<Vec<usize>>) -> Seq<Seq<usize>> {
    nb@.map_values(|l: Vec<usize>| l@)
}

/// Face `b` is listed among the neighbours of face `a`.
pub open spec fn adjacent(nb: Seq<Seq<usize>>, a: int, b: int) -> bool {
    0 <= a < nb.len() && nb[a].contains(b as usize)
}

/// Face `x` is a neighbour of one of the first `upto` faces of `group`.
pub open spec fn next_to_some(nb: Seq<Seq<usize>>, group: Seq<usize>, upto: int, x: int) -> bool {
    exists|j: int| 0 <= j < upto && adjacent(nb, group[j] as int, x)
}

/// Every face after the first is a neighbour of an earlier one.
pub open spec fn grown_from_start(nb: Seq<Seq<usize>>, group: Seq<usize>) -> bool {
    forall|k: int| 0 < k < group.len() ==> #[trigger] next_to_some(nb, group, k, group[k] as int)
}

/// The result of a flood fill from `seed` over faces labelled like `seed`,
/// started with `p0` marked: `group` starts at `seed`, holds distinct faces
/// that were not marked, all labelled like `seed`, each after the first next
/// to an earlier one, and every neighbour of a face of the group with the
/// same label is marked in `p1`; `p1` marks exactly `p0` and the group.
pub open spec fn flood_result(
    nb: Seq<Seq<usize>>,
    labels: Seq<i32>,
    seed: int,
    p0: Seq<bool>,
    p1: Seq<bool>,
    group: Seq<usize>,
) -> bool {
    let n = labels.len();
    &&& group.len() >= 1
    &&& group[0] == seed
    &&& group.no_duplicates()
    &&& forall|k: int|
        0 <= k < group.len() ==> {
            &&& (#[trigger] group[k]) < n
            &&& labels[group[k] as int] == labels[seed]
            &&& !p0[group[k] as int]
        }
    &&& grown_from_start(nb, group)
    &&& forall|k: int, t: int|
        0 <= k < group.len() && 0 <= t < nb[group[k] as int].len() && (#[trigger] nb[group[k] as int][t]) < n
            && labels[nb[group[k] as int][t] as int] == labels[seed] ==> p1[nb[group[k] as int][t] as int]
    &&& p1.len() == p0.len()
    &&& forall|i: usize| i < n ==> (#[trigger] p1[i as int] == (p0[i as int] || group.contains(i)))
}

/// Marking one more index adds it to the marked set.
pub proof fn lemma_mark(p: Seq<bool>, m: int)
    requires
        0 <= m < p.len(),
        !p[m],
    ensures
        marked(p.update(m, true)) == marked(p).insert(m),
        !marked(p).contains(m),
{
    assert(marked(p.update(m, true)) =~= marked(p).insert(m));
}

/// At most `p.len()` indices are marked.
pub proof fn lemma_marked_bound(p: Seq<bool>)
    ensures
        marked(p).finite(),
        marked(p).len() <= p.len(),
{
    lemma_int_range(0, p.len() as int);
    assert(marked(p).subset_of(set_int_range(0, p.len() as int)));
    lemma_len_subset(marked(p), set_int_range(0, p.len() as int));
}

/// Collects the faces reachable from `seed` through faces with the same
/// label that are not yet marked in `processed`, marking them, and appends
/// them to `faces` in the order they are taken from the work stack.
pub fn flood_fill(
    neighbours: &Vec<Vec<usize>>,
    labels: &Vec<i32>,
    seed: usize,
    processed: &mut Vec<bool>,
    faces: &mut Vec<usize>,
)
    requires
        seed < labels@.len(),
        neighbours@.len() == labels@.len(),
        old(processed)@.len() == labels@.len(),
        !old(processed)@[seed as int],
    ensures
        final(faces)@.len() > old(faces)@.len(),
        final(faces)@.subrange(0, old(faces)@.len() as int) == old(faces)@,
        flood_result(
            graph_view(neighbours),
            labels@,
            seed as int,
            old(processed)@,
            final(processed)@,
            final(faces)@.subrange(old(faces)@.len() as int, final(faces)@.len() as int),
        ),
{
    let ghost nb = graph_view(neighbours);
    let ghost n = labels@.len();
    let ghost lab = labels@[seed as int];
    let ghost p0 = processed@;
    let ghost f0 = faces@;
    let mut stack: Vec<usize> = Vec::new();
    stack.push(seed);
    processed.set(seed, true);
    let ghost mut out: Seq<usize> = Seq::empty();
    proof {
        lemma_mark(p0, seed as int);
        assert(stack@[0] == seed);
        assert forall|i: usize| i < n implies (#[trigger] processed@[i as int] == (p0[i as int] || out.contains(i)
            || stack@.contains(i))) by {
            if stack@.contains(i) {
                let w = choose|w: int| 0 <= w < stack@.len() && stack@[w] == i;
                assert(w == 0);
            }
        }
    }
    while stack.len() > 0
        invariant
            n == labels@.len(),
            n == neighbours@.len(),
            nb == graph_view(neighbours),
            lab == labels@[seed as int],
            seed < n,
            processed@.len() == n,
            p0.len() == n,
            !p0[seed as int],
            faces@ == f0 + out,
            out.len() > 0 ==> out[0] == seed,
            out.len() == 0 ==> stack@ == seq![seed],
            out.no_duplicates(),
            stack@.no_duplicates(),
            forall|a: int| 0 <= a < out.len() ==> !stack@.contains(#[trigger] out[a]),
            forall|k: int|
                0 <= k < out.len() ==> {
                    &&& (#[trigger] out[k]) < n
                    &&& labels@[out[k] as int] == lab
                    &&& !p0[out[k] as int]
                },
            forall|k: int|
                0 <= k < stack@.len() ==> {
                    &&& (#[trigger] stack@[k]) < n
                    &&& labels@[stack@[k] as int] == lab
                    &&& !p0[stack@[k] as int]
                    &&& (out.len() > 0 ==> next_to_some(nb, out, out.len() as int, stack@[k] as int))
                },
            grown_from_start(nb, out),
            forall|k: int, t: int|
                0 <= k < out.len() && 0 <= t < nb[out[k] as int].len() && (#[trigger] nb[out[k] as int][t]) < n
                    && labels@[nb[out[k] as int][t] as int] == lab ==> processed@[nb[out[k] as int][t] as int],
            forall|i: usize|
                i < n ==> (#[trigger] processed@[i as int] == (p0[i as int] || out.contains(i) || stack@.contains(i))),
        decreases (n - marked(processed@).len()) * 2 + stack@.len(),
    {
        proof {
            lemma_marked_bound(processed@);
        }
        let ghost m_before = marked(processed@).len();
        let ghost st_before = stack@;
        let f = stack.pop().unwrap();
        proof {
            assert(f == st_before.last());
            assert(stack@ == st_before.drop_last());
            assert(st_before[st_before.len() - 1] == f);
        }
        let ghost k_out = out.len();
        let ghost parent_ok = out.len() == 0 || next_to_some(nb, out, out.len() as int, f as int);
        proof {
            assert(parent_ok);
        }
        let nbl = &neighbours[f];
        proof {
            assert(nbl@ == nb[f as int]);
            assert forall|i: usize| i < n implies (#[trigger] processed@[i as int] == (p0[i as int] || i == f
                || out.contains(i) || stack@.contains(i))) by {
                if st_before.contains(i) {
                    let w = choose|w: int| 0 <= w < st_before.len() && st_before[w] == i;
                    if w < st_before.len() - 1 {
                        assert(stack@[w] == st_before[w]);
                    }
                }
                if stack@.contains(i) {
                    let w = choose|w: int| 0 <= w < stack@.len() && stack@[w] == i;
                    assert(st_before[w] == stack@[w]);
                }
            }
            assert forall|k: int| 0 <= k < stack@.len() implies (#[trigger] stack@[k]) != f by {
                assert(st_before[k] == stack@[k]);
            }
            assert forall|a: int| 0 <= a < out.len() implies !stack@.contains(#[trigger] out[a]) by {
                if stack@.contains(out[a]) {
                    let w = choose|w: int| 0 <= w < stack@.len() && stack@[w] == out[a];
                    assert(st_before[w] == stack@[w]);
                }
            }
            assert(!out.contains(f)) by {
                if out.contains(f) {
                    let w = choose|w: int| 0 <= w < out.len() && out[w] == f;
                    assert(st_before.contains(out[w]));
                }
            }
            lemma_marked_bound(processed@);
        }
        let mut t: usize = 0;
        while t < nbl.len()
            invariant
                n == labels@.len(),
                n == neighbours@.len(),
                nb == graph_view(neighbours),
                nbl@ == nb[f as int],
                lab == labels@[seed as int],
                f < n,
                labels@[f as int] == lab,
                !p0[f as int],
                processed@[f as int],
                processed@.len() == n,
                p0.len() == n,
                t <= nbl@.len(),
                out.no_duplicates(),
                !out.contains(f),
                stack@.no_duplicates(),
                !stack@.contains(f),
                forall|a: int| 0 <= a < out.len() ==> !stack@.contains(#[trigger] out[a]),
                forall|k: int|
                    0 <= k < stack@.len() ==> {
                        &&& (#[trigger] stack@[k]) < n
                        &&& labels@[stack@[k] as int] == lab
                        &&& !p0[stack@[k] as int]
                        &&& next_to_some(nb, out, out.len() as int, stack@[k] as int) || adjacent(nb, f as int, stack@[k] as int)
                    },
                forall|k: int, tt: int|
                    0 <= k < out.len() && 0 <= tt < nb[out[k] as int].len() && (#[trigger] nb[out[k] as int][tt]) < n
                        && labels@[nb[out[k] as int][tt] as int] == lab ==> processed@[nb[out[k] as int][tt] as int],
                forall|tt: int|
                    0 <= tt < t && (#[trigger] nbl@[tt]) < n && labels@[nbl@[tt] as int] == lab ==> processed@[nbl@[tt] as int],
                forall|i: usize|
                    i < n ==> (#[trigger] processed@[i as int] == (p0[i as int] || i == f || out.contains(i)
                        || stack@.contains(i))),
                m_before <= marked(processed@).len(),
                marked(processed@).len() - m_before == stack@.len() - (st_before.len() - 1),
                marked(processed@).finite(),
            decreases nbl@.len() - t,
        {
            let m = nbl[t];
            if m < labels.len() && labels[m] == labels[f] && !processed[m] {
                let ghost st = stack@;
                let ghost pr = processed@;
                proof {
                    lemma_mark(pr, m as int);
                    assert(!out.contains(m));
                    assert(!st.contains(m));
                    assert(m != f);
                }
                stack.push(m);
                processed.set(m, true);
                proof {
                    assert(stack@ == st.push(m));
                    assert(adjacent(nb, f as int, m as int)) by {
                        assert(nb[f as int][t as int] == m);
                    }
                    assert forall|a: int| 0 <= a < out.len() implies !stack@.contains(#[trigger] out[a]) by {
                        assert(!st.contains(out[a]));
                        if stack@.contains(out[a]) {
                            let w = choose|w: int| 0 <= w < stack@.len() && stack@[w] == out[a];
                            if w < st.len() {
                                assert(st[w] == out[a]);
                            }
                        }
                    }
                    assert forall|i: usize| i < n implies (#[trigger] processed@[i as int] == (p0[i as int] || i == f
                        || out.contains(i) || stack@.contains(i))) by {
                        if i != m {
                            assert(processed@[i as int] == pr[i as int]);
                            if st.contains(i) {
                                let w = choose|w: int| 0 <= w < st.len() && st[w] == i;
                                assert(stack@[w] == st[w]);
                            }
                            if stack@.contains(i) {
                                let w = choose|w: int| 0 <= w < stack@.len() && stack@[w] == i;
                                if w == st.len() {
                                    assert(stack@[w] == m);
                                } else {
                                    assert(stack@[w] == st[w]);
                                }
                            }
                        } else {
                            assert(stack@[st.len() as int] == m);
                        }
                    }
                }
            }
            t = t + 1;
        }
        faces.push(f);
        proof {
            let new_out = out.push(f);
            assert forall|k: int| 0 < k < new_out.len() implies #[trigger] next_to_some(
                nb,
                new_out,
                k,
                new_out[k] as int,
            ) by {
                if k < out.len() {
                    assert(next_to_some(nb, out, k, out[k] as int));
                    let j = choose|j: int| 0 <= j < k && adjacent(nb, out[j] as int, out[k] as int);
                    assert(new_out[j] == out[j]);
                } else {
                    assert(next_to_some(nb, out, out.len() as int, f as int));
                    let j = choose|j: int| 0 <= j < out.len() && adjacent(nb, out[j] as int, f as int);
                    assert(new_out[j] == out[j]);
                }
            }
            assert forall|k: int|
                0 <= k < stack@.len() && new_out.len() > 0 implies next_to_some(
                    nb,
                    new_out,
                    new_out.len() as int,
                    (#[trigger] stack@[k]) as int,
                ) by {
                if next_to_some(nb, out, out.len() as int, stack@[k] as int) {
                    let j = choose|j: int| 0 <= j < out.len() && adjacent(nb, out[j] as int, stack@[k] as int);
                    assert(new_out[j] == out[j]);
                } else {
                    assert(new_out[out.len() as int] == f);
                }
            }
            assert forall|k: int, tt: int|
                0 <= k < new_out.len() && 0 <= tt < nb[new_out[k] as int].len() && (#[trigger] nb[new_out[k] as int][tt])
                    < n && labels@[nb[new_out[k] as int][tt] as int] == lab implies processed@[nb[new_out[k] as int][tt] as int] by {
                if k < out.len() {
                    assert(new_out[k] == out[k]);
                } else {
                    assert(new_out[k] == f);
                    assert(nbl@[tt] == nb[f as int][tt]);
                }
            }
            assert forall|i: usize| i < n implies (#[trigger] processed@[i as int] == (p0[i as int] || new_out.contains(i)
                || stack@.contains(i))) by {
                if i == f {
                    assert(new_out[out.len() as int] == f);
                }
                if out.contains(i) {
                    let w = choose|w: int| 0 <= w < out.len() && out[w] == i;
                    assert(new_out[w] == out[w]);
                }
                if new_out.contains(i) {
                    let w = choose|w: int| 0 <= w < new_out.len() && new_out[w] == i;
                    if w < out.len() {
                        assert(new_out[w] == out[w]);
                    }
                }
            }
            assert forall|a: int| 0 <= a < new_out.len() implies !stack@.contains(#[trigger] new_out[a]) by {
                if a < out.len() {
                    assert(new_out[a] == out[a]);
                }
            }
            assert(new_out.no_duplicates()) by {
                assert forall|a: int, b: int| 0 <= a < new_out.len() && 0 <= b < new_out.len() && a != b implies new_out[a]
                    != new_out[b] by {
                    if a < out.len() && b < out.len() {
                    } else if a < out.len() {
                        assert(out.contains(out[a]));
                    } else if b < out.len() {
                        assert(out.contains(out[b]));
                    }
                }
            }
            assert(faces@ =~= f0 + new_out);
            out = new_out;
            lemma_marked_bound(processed@);
        }
    }
    proof {
        assert(faces@.subrange(0, f0.len() as int) =~= f0);
        assert(faces@.subrange(f0.len() as int, faces@.len() as int) =~= out);
    }
}

/// The groups, as sequences.
pub open spec fn groups_view(groups: Seq<Vec<usize>>) -> Seq<Seq<usize>> {
    groups.map_values(|g: Vec<usize>| g@)
}

/// Face `f` lies in group `a` of `groups`.
pub open spec fn in_group(groups: Seq<Seq<usize>>, a: int, f: int) -> bool {
    0 <= a < groups.len() && exists|k: int| 0 <= k < groups[a].len() && groups[a][k] as int == f
}

/// `groups` are connected groups of faces with equal labels, as successive
/// flood fills find them: each is non-empty, holds distinct faces with the
/// label of its first face, each after the first next to an earlier one;
/// no face is in two groups; and every neighbour with the same label of a
/// face of a group lies in that group or an earlier one.
pub open spec fn flood_groups(nb: Seq<Seq<usize>>, labels: Seq<i32>, groups: Seq<Seq<usize>>) -> bool {
    let n = labels.len();
    &&& forall|a: int|
        0 <= a < groups.len() ==> {
            &&& (#[trigger] groups[a]).len() >= 1
            &&& groups[a].no_duplicates()
            &&& grown_from_start(nb, groups[a])
        }
    &&& forall|a: int, k: int|
        0 <= a < groups.len() && 0 <= k < groups[a].len() ==> {
            &&& (#[trigger] groups[a][k]) < n
            &&& labels[groups[a][k] as int] == labels[groups[a][0] as int]
        }
    &&& forall|a: int, b: int, f: int| #![trigger in_group(groups, a, f), in_group(groups, b, f)]
        in_group(groups, a, f) && in_group(groups, b, f) ==> a == b
    &&& forall|a: int, k: int, t: int|
        0 <= a < groups.len() && 0 <= k < groups[a].len() && 0 <= t < nb[groups[a][k] as int].len()
            && (#[trigger] nb[groups[a][k] as int][t]) < n && labels[nb[groups[a][k] as int][t] as int]
            == labels[groups[a][k] as int] ==> exists|b: int|
            0 <= b <= a && #[trigger] in_group(groups, b, nb[groups[a][k] as int][t] as int)
}

/// Each group starts at its lowest face, and the groups come in the order
/// of their lowest faces.
pub open spec fn by_lowest_face(groups: Seq<Seq<usize>>) -> bool {
    &&& forall|a: int, k: int|
        0 <= a < groups.len() && 0 <= k < groups[a].len() ==> groups[a][0] <= #[trigger] groups[a][k]
    &&& forall|a: int, b: int|
        0 <= a < b < groups.len() ==> (#[trigger] groups[a])[0] < (#[trigger] groups[b])[0]
}

/// Face `f` lies in some group.
pub open spec fn grouped(groups: Seq<Seq<usize>>, f: int) -> bool {
    exists|a: int| #[trigger] in_group(groups, a, f)
}

/// Land is `1`, sea `0`.
pub open spec fn land_labels(is_land: Seq<bool>) -> Seq<i32> {
    Seq::new(is_land.len(), |i: int| if is_land[i] { 1i32 } else { 0i32 })
}

/// Splits the faces into connected groups of equal label, flood fill by
/// flood fill from the lowest face not yet reached; with `skip_unlabelled`,
/// faces labelled `-1` start no group (and so lie in none).
fn all_groups(neighbours: &Vec<Vec<usize>>, labels: &Vec<i32>, skip_unlabelled: bool) -> (groups: Vec<Vec<usize>>)
    requires
        neighbours@.len() == labels@.len(),
    ensures
        flood_groups(graph_view(neighbours), labels@, groups_view(groups@)),
        by_lowest_face(groups_view(groups@)),
        forall|f: int|
            0 <= f < labels@.len() ==> (#[trigger] grouped(groups_view(groups@), f) == (!skip_unlabelled
                || labels@[f] != -1)),
{
    let ghost nb = graph_view(neighbours);
    let n = labels.len();
    let mut processed: Vec<bool> = Vec::new();
    let mut j: usize = 0;
    while j < n
        invariant
            j <= n,
            processed@.len() == j,
            forall|k: int| 0 <= k < j ==> !(#[trigger] processed@[k]),
        decreases n - j,
    {
        processed.push(false);
        j = j + 1;
    }
    let mut groups: Vec<Vec<usize>> = Vec::new();
    let mut i: usize = 0;
    while i < n
        invariant
            n == labels@.len(),
            n == neighbours@.len(),
            nb == graph_view(neighbours),
            i <= n,
            processed@.len() == n,
            flood_groups(nb, labels@, groups_view(groups@)),
            by_lowest_face(groups_view(groups@)),
            forall|a: int| 0 <= a < groups_view(groups@).len() ==> (#[trigger] groups_view(groups@)[a])[0] < i,
            forall|f: int| 0 <= f < i ==> (#[trigger] processed@[f] == (!skip_unlabelled || labels@[f] != -1)),
            forall|f: int| i <= f < n && #[trigger] processed@[f] ==> !skip_unlabelled || labels@[f] != -1,
            forall|f: int| 0 <= f < n ==> (#[trigger] processed@[f] == grouped(groups_view(groups@), f)),
            forall|a: int|
                0 <= a < groups_view(groups@).len() ==> !skip_unlabelled || labels@[(#[trigger] groups_view(
                    groups@,
                )[a])[0] as int] != -1,
        decreases n - i,
    {
        if processed[i] || (skip_unlabelled && labels[i] == -1) {
            i = i + 1;
            continue;
        }
        let ghost gv = groups_view(groups@);
        let ghost p0 = processed@;
        let mut connected: Vec<usize> = Vec::new();
        flood_fill(neighbours, labels, i, &mut processed, &mut connected);
        let ghost g = connected@;
        proof {
            assert(connected@.subrange(0, connected@.len() as int) =~= connected@);
        }
        groups.push(connected);
        proof {
            let gv2 = groups_view(groups@);
            assert(gv2 =~= gv.push(g));
            let na = gv.len() as int;
            assert(gv2[na] == g);
            assert forall|a: int| 0 <= a < gv2.len() implies {
                &&& (#[trigger] gv2[a]).len() >= 1
                &&& gv2[a].no_duplicates()
                &&& grown_from_start(nb, gv2[a])
            } by {
                if a < na {
                    assert(gv2[a] == gv[a]);
                }
            }
            assert forall|a: int, k: int| 0 <= a < gv2.len() && 0 <= k < gv2[a].len() implies {
                &&& (#[trigger] gv2[a][k]) < n
                &&& labels@[gv2[a][k] as int] == labels@[gv2[a][0] as int]
            } by {
                if a < na {
                    assert(gv2[a] == gv[a]);
                }
            }
            assert forall|a: int, b: int, f: int| #![trigger in_group(gv2, a, f), in_group(gv2, b, f)]
                in_group(gv2, a, f) && in_group(gv2, b, f) implies a == b by {
                if a < na && b < na {
                    assert(gv2[a] == gv[a]);
                    assert(gv2[b] == gv[b]);
                    assert(in_group(gv, a, f));
                    assert(in_group(gv, b, f));
                } else if a < na || b < na {
                    let old_a = if a < na { a } else { b };
                    assert(gv2[old_a] == gv[old_a]);
                    assert(in_group(gv, old_a, f));
                    let k = choose|k: int| 0 <= k < gv[old_a].len() && gv[old_a][k] as int == f;
                    assert(gv[old_a][k] < n);
                    assert(grouped(gv, f));
                    assert(p0[f]);
                    assert(in_group(gv2, na, f));
                    let w = choose|w: int| 0 <= w < g.len() && g[w] as int == f;
                    assert(!p0[g[w] as int]);
                }
            }
            assert forall|a: int, k: int, t: int|
                0 <= a < gv2.len() && 0 <= k < gv2[a].len() && 0 <= t < nb[gv2[a][k] as int].len()
                    && (#[trigger] nb[gv2[a][k] as int][t]) < n && labels@[nb[gv2[a][k] as int][t] as int]
                    == labels@[gv2[a][k] as int] implies exists|b: int|
                0 <= b <= a && #[trigger] in_group(gv2, b, nb[gv2[a][k] as int][t] as int) by {
                let m = nb[gv2[a][k] as int][t] as int;
                if a < na {
                    assert(gv2[a] == gv[a]);
                    let b = choose|b: int| 0 <= b <= a && #[trigger] in_group(gv, b, m);
                    assert(gv2[b] == gv[b]);
                    assert(in_group(gv2, b, m));
                } else {
                    assert(gv2[a] == g);
                    assert(labels@[g[k] as int] == labels@[i as int]);
                    assert(processed@[m]);
                    let mu = m as usize;
                    assert(processed@[mu as int] == (p0[mu as int] || g.contains(mu)));
                    if g.contains(mu) {
                        assert(in_group(gv2, na, m));
                    } else {
                        assert(grouped(gv, m));
                        let b = choose|b: int| #[trigger] in_group(gv, b, m);
                        assert(gv2[b] == gv[b]);
                        assert(in_group(gv2, b, m));
                    }
                }
            }
            assert forall|f: int| 0 <= f < n implies (#[trigger] processed@[f] == grouped(gv2, f)) by {
                let fu = f as usize;
                assert(processed@[fu as int] == (p0[fu as int] || g.contains(fu)));
                if p0[f] {
                    assert(grouped(gv, f));
                    let a = choose|a: int| #[trigger] in_group(gv, a, f);
                    assert(gv2[a] == gv[a]);
                    assert(in_group(gv2, a, f));
                } else if g.contains(fu) {
                    assert(in_group(gv2, na, f));
                } else {
                    assert(!grouped(gv, f));
                    if grouped(gv2, f) {
                        let a = choose|a: int| #[trigger] in_group(gv2, a, f);
                        if a < na {
                            assert(gv2[a] == gv[a]);
                            assert(in_group(gv, a, f));
                        }
                    }
                }
            }
            assert forall|f: int| 0 <= f < i + 1 implies (#[trigger] processed@[f] == (!skip_unlabelled
                || labels@[f] != -1)) by {
                if f < i {
                    let fu = f as usize;
                    assert(processed@[fu as int] == (p0[fu as int] || g.contains(fu)));
                    if g.contains(fu) {
                        let w = choose|w: int| 0 <= w < g.len() && g[w] == fu;
                        assert(!p0[g[w] as int]);
                        assert(labels@[g[w] as int] == labels@[i as int]);
                    }
                } else {
                    assert(g[0] == i);
                    assert(g.contains(i));
                    assert(processed@[i as int] == (p0[i as int] || g.contains(i)));
                }
            }
            assert forall|f: int| i + 1 <= f < n && #[trigger] processed@[f] implies !skip_unlabelled || labels@[f]
                != -1 by {
                let fu = f as usize;
                assert(processed@[fu as int] == (p0[fu as int] || g.contains(fu)));
                if g.contains(fu) {
                    let w = choose|w: int| 0 <= w < g.len() && g[w] == fu;
                    assert(labels@[g[w] as int] == labels@[i as int]);
                }
            }
            assert forall|a: int| 0 <= a < gv2.len() implies !skip_unlabelled || labels@[(#[trigger] gv2[a])[0] as int]
                != -1 by {
                if a < na {
                    assert(gv2[a] == gv[a]);
                }
            }
            assert forall|a: int, k: int| 0 <= a < gv2.len() && 0 <= k < gv2[a].len() implies gv2[a][0]
                <= #[trigger] gv2[a][k] by {
                if a < na {
                    assert(gv2[a] == gv[a]);
                } else {
                    assert(!p0[g[k] as int]);
                    assert(labels@[g[k] as int] == labels@[i as int]);
                    if g[k] < i {
                        assert(p0[g[k] as int] == (!skip_unlabelled || labels@[g[k] as int] != -1));
                    }
                }
            }
            assert forall|a: int, b: int| 0 <= a < b < gv2.len() implies (#[trigger] gv2[a])[0] < (
            #[trigger] gv2[b])[0] by {
                assert(gv2[a] == gv[a]);
                if b < na {
                    assert(gv2[b] == gv[b]);
                }
            }
            assert forall|a: int| 0 <= a < gv2.len() implies (#[trigger] gv2[a])[0] < i + 1 by {
                if a < na {
                    assert(gv2[a] == gv[a]);
                }
            }
        }
        i = i + 1;
    }
    proof {
        let gv = groups_view(groups@);
        assert forall|f: int| 0 <= f < n implies (#[trigger] grouped(gv, f) == (!skip_unlabelled || labels@[f]
            != -1)) by {
            assert(processed@[f] == (!skip_unlabelled || labels@[f] != -1));
        }
    }
    groups
}

/// The land value of face `f` of group `a` once groups smaller than
/// `threshold` are flipped.
pub open spec fn after_flip(old_land: Seq<bool>, groups: Seq<Seq<usize>>, a: int, f: int, threshold: nat) -> bool {
    old_land[f] != (groups[a].len() < threshold)
}

/// Flips every island of land, and every lake, that has fewer than
/// `min_island_face_threshold` faces: the faces are split into connected
/// groups of equal land value, and each small group changes sides.
pub fn cleanup_land_faces(neighbours: &Vec<Vec<usize>>, is_land: &mut Vec<bool>, min_island_face_threshold: usize)
    requires
        neighbours@.len() == old(is_land)@.len(),
    ensures
        final(is_land)@.len() == old(is_land)@.len(),
        exists|groups: Seq<Seq<usize>>|
            {
                &&& flood_groups(graph_view(neighbours), land_labels(old(is_land)@), groups)
                &&& forall|f: int| 0 <= f < old(is_land)@.len() ==> #[trigger] grouped(groups, f)
                &&& forall|a: int, k: int|
                    0 <= a < groups.len() && 0 <= k < groups[a].len() ==> final(is_land)@[(#[trigger] groups[a][k]) as int]
                        == after_flip(old(is_land)@, groups, a, groups[a][k] as int, min_island_face_threshold as nat)
            },
{
    let ghost land0 = is_land@;
    let n = is_land.len();
    let mut labels: Vec<i32> = Vec::new();
    let mut j: usize = 0;
    while j < n
        invariant
            n == is_land@.len(),
            j <= n,
            labels@.len() == j,
            forall|k: int| 0 <= k < j ==> #[trigger] labels@[k] == land_labels(is_land@)[k],
        decreases n - j,
    {
        labels.push(if is_land[j] { 1i32 } else { 0i32 });
        j = j + 1;
    }
    assert(labels@ =~= land_labels(land0));
    let groups = all_groups(neighbours, &labels, false);
    let ghost gv = groups_view(groups@);
    let ng = groups.len();
    let mut a: usize = 0;
    while a < ng
        invariant
            ng == gv.len(),
            gv == groups_view(groups@),
            n == land0.len(),
            is_land@.len() == n,
            a <= ng,
            flood_groups(graph_view(neighbours), land_labels(land0), gv),
            forall|b: int, k: int|
                0 <= b < gv.len() && 0 <= k < gv[b].len() ==> is_land@[(#[trigger] gv[b][k]) as int] == if b < a {
                    after_flip(land0, gv, b, gv[b][k] as int, min_island_face_threshold as nat)
                } else {
                    land0[gv[b][k] as int]
                },
        decreases ng - a,
    {
        let group = &groups[a];
        proof {
            assert(group@ == gv[a as int]);
        }
        if group.len() < min_island_face_threshold {
            let gl = group.len();
            let mut k: usize = 0;
            while k < gl
                invariant
                    gl == group@.len(),
                    group@ == gv[a as int],
                    a < ng,
                    ng == gv.len(),
                    n == land0.len(),
                    is_land@.len() == n,
                    k <= gl,
                    gl < min_island_face_threshold,
                    flood_groups(graph_view(neighbours), land_labels(land0), gv),
                    forall|b: int, kk: int|
                        0 <= b < gv.len() && 0 <= kk < gv[b].len() ==> is_land@[(#[trigger] gv[b][kk]) as int] == if b
                            < a || (b == a && kk < k) {
                            after_flip(land0, gv, b, gv[b][kk] as int, min_island_face_threshold as nat)
                        } else {
                            land0[gv[b][kk] as int]
                        },
                decreases gl - k,
            {
                let f = group[k];
                let ghost before = is_land@;
                let cur = is_land[f];
                is_land.set(f, !cur);
                proof {
                    assert(gv[a as int][k as int] == f);
                    assert forall|b: int, kk: int|
                        0 <= b < gv.len() && 0 <= kk < gv[b].len() implies is_land@[(#[trigger] gv[b][kk]) as int] == if b
                            < a || (b == a && kk < k + 1) {
                            after_flip(land0, gv, b, gv[b][kk] as int, min_island_face_threshold as nat)
                        } else {
                            land0[gv[b][kk] as int]
                        } by {
                        if gv[b][kk] == f {
                            assert(in_group(gv, b, f as int));
                            assert(in_group(gv, a as int, f as int));
                            assert(b == a);
                            assert(gv[a as int].no_duplicates());
                            assert(kk == k);
                        } else {
                            assert(is_land@[gv[b][kk] as int] == before[gv[b][kk] as int]);
                        }
                    }
                }
                k = k + 1;
            }
        }
        a = a + 1;
    }
    proof {
        assert forall|f: int| 0 <= f < land0.len() implies #[trigger] grouped(gv, f) by {
            assert(f < labels@.len());
            assert(grouped(gv, f) == (!false || labels@[f] != -1));
        }
    }
}

/// Number of faces in list `l` whose territory in `t` is `c`.
pub open spec fn count_in(t: Seq<i32>, l: Seq<usize>, c: int) -> nat
    decreases l.len(),
{
    if l.len() == 0 {
        0
    } else {
        count_in(t, l.drop_last(), c) + if t[l.last() as int] == c {
            1nat
        } else {
            0nat
        }
    }
}

/// The id with the highest count, scanning the ids from `c` up: `best` (with
/// count `best_count`) is kept unless a later id has a strictly higher count.
pub open spec fn majority_scan(counts: Seq<nat>, best: int, best_count: nat, c: int) -> int
    decreases counts.len() - c,
{
    if c < 0 || c >= counts.len() {
        best
    } else if counts[c] > best_count {
        majority_scan(counts, c, counts[c], c + 1)
    } else {
        majority_scan(counts, best, best_count, c + 1)
    }
}

/// For each territory id, how many of the faces in `l` belong to it.
pub open spec fn neighbour_counts(t: Seq<i32>, l: Seq<usize>, ncities: nat) -> Seq<nat> {
    Seq::new(ncities, |c: int| count_in(t, l, c))
}

/// One smoothing pass: every face with a territory takes the territory most
/// common among its neighbours, keeping its own unless another is strictly
/// more common (the lowest such id on ties).
pub open spec fn smooth_step(t: Seq<i32>, nb: Seq<Seq<usize>>, ncities: nat) -> Seq<i32> {
    Seq::new(
        t.len(),
        |f: int|
            if t[f] == -1 {
                -1i32
            } else {
                let counts = neighbour_counts(t, nb[f], ncities);
                majority_scan(counts, t[f] as int, counts[t[f] as int], 0) as i32
            },
    )
}

/// `iterations` smoothing passes.
pub open spec fn smoothed(t: Seq<i32>, nb: Seq<Seq<usize>>, ncities: nat, iterations: nat) -> Seq<i32>
    decreases iterations,
{
    if iterations == 0 {
        t
    } else {
        smooth_step(smoothed(t, nb, ncities, (iterations - 1) as nat), nb, ncities)
    }
}

/// Every face has no territory (`-1`) or one of the `ncities` territories.
pub open spec fn valid_territories(t: Seq<i32>, ncities: nat) -> bool {
    forall|f: int| 0 <= f < t.len() ==> -1 <= #[trigger] t[f] < ncities
}

/// Every neighbour of every face is a face.
pub open spec fn neighbours_in_range(nb: Seq<Seq<usize>>, n: nat) -> bool {
    forall|f: int, k: int| 0 <= f < nb.len() && 0 <= k < nb[f].len() ==> #[trigger] nb[f][k] < n
}

proof fn lemma_count_in_bound(t: Seq<i32>, l: Seq<usize>, c: int)
    ensures
        count_in(t, l, c) <= l.len(),
    decreases l.len(),
{
    if l.len() > 0 {
        lemma_count_in_bound(t, l.drop_last(), c);
    }
}

proof fn lemma_majority_scan_range(counts: Seq<nat>, best: int, best_count: nat, c: int)
    requires
        0 <= c,
    ensures
        majority_scan(counts, best, best_count, c) == best || c <= majority_scan(counts, best, best_count, c)
            < counts.len(),
    decreases counts.len() - c,
{
    if c < counts.len() {
        if counts[c] > best_count {
            lemma_majority_scan_range(counts, c, counts[c], c + 1);
        } else {
            lemma_majority_scan_range(counts, best, best_count, c + 1);
        }
    }
}

/// A smoothing pass keeps territories valid.
proof fn lemma_smooth_step_valid(t: Seq<i32>, nb: Seq<Seq<usize>>, ncities: nat)
    requires
        valid_territories(t, ncities),
        nb.len() == t.len(),
        ncities <= i32::MAX,
    ensures
        valid_territories(smooth_step(t, nb, ncities), ncities),
        smooth_step(t, nb, ncities).len() == t.len(),
{
    assert forall|f: int| 0 <= f < t.len() implies -1 <= #[trigger] smooth_step(t, nb, ncities)[f] < ncities by {
        if t[f] != -1 {
            let counts = neighbour_counts(t, nb[f], ncities);
            lemma_majority_scan_range(counts, t[f] as int, counts[t[f] as int], 0);
        }
    }
}

/// Every pass keeps territories valid.
proof fn lemma_smoothed_valid(t: Seq<i32>, nb: Seq<Seq<usize>>, ncities: nat, iterations: nat)
    requires
        valid_territories(t, ncities),
        nb.len() == t.len(),
        ncities <= i32::MAX,
    ensures
        valid_territories(smoothed(t, nb, ncities, iterations), ncities),
        smoothed(t, nb, ncities, iterations).len() == t.len(),
    decreases iterations,
{
    if iterations > 0 {
        lemma_smoothed_valid(t, nb, ncities, (iterations - 1) as nat);
        lemma_smooth_step_valid(smoothed(t, nb, ncities, (iterations - 1) as nat), nb, ncities);
    }
}

/// The scan keeps the highest count: its result has a count no lower than
/// any id's, and it is `best` when no id beats `best`'s count.
proof fn lemma_majority_scan_max(counts: Seq<nat>, best: int, best_count: nat, c: int)
    requires
        0 <= c <= counts.len(),
        0 <= best < counts.len(),
        counts[best] == best_count,
        forall|j: int| 0 <= j < c ==> #[trigger] counts[j] <= best_count,
    ensures
        0 <= majority_scan(counts, best, best_count, c) < counts.len(),
        forall|j: int|
            0 <= j < counts.len() ==> #[trigger] counts[j] <= counts[majority_scan(counts, best, best_count, c)],
        counts[majority_scan(counts, best, best_count, c)] == best_count ==> majority_scan(
            counts,
            best,
            best_count,
            c,
        ) == best,
    decreases counts.len() - c,
{
    if c < counts.len() {
        if counts[c] > best_count {
            lemma_majority_scan_max(counts, c, counts[c], c + 1);
        } else {
            lemma_majority_scan_max(counts, best, best_count, c + 1);
        }
    }
}

/// One smoothing pass gives every face with a territory the territory most
/// common among its neighbours, keeping its own when none is more common;
/// faces without a territory stay without one.
pub proof fn lemma_smooth_step_majority(t: Seq<i32>, nb: Seq<Seq<usize>>, ncities: nat)
    requires
        valid_territories(t, ncities),
        nb.len() == t.len(),
        ncities <= i32::MAX,
    ensures
        forall|f: int|
            0 <= f < t.len() ==> {
                let r = #[trigger] smooth_step(t, nb, ncities)[f];
                &&& t[f] == -1 ==> r == -1
                &&& t[f] != -1 ==> {
                    &&& 0 <= r < ncities
                    &&& forall|c: int| 0 <= c < ncities ==> count_in(t, nb[f], c) <= count_in(t, nb[f], r as int)
                    &&& count_in(t, nb[f], r as int) == count_in(t, nb[f], t[f] as int) ==> r == t[f]
                }
            },
{
    assert forall|f: int| 0 <= f < t.len() implies {
        let r = #[trigger] smooth_step(t, nb, ncities)[f];
        &&& t[f] == -1 ==> r == -1
        &&& t[f] != -1 ==> {
            &&& 0 <= r < ncities
            &&& forall|c: int| 0 <= c < ncities ==> count_in(t, nb[f], c) <= count_in(t, nb[f], r as int)
            &&& count_in(t, nb[f], r as int) == count_in(t, nb[f], t[f] as int) ==> r == t[f]
        }
    } by {
        if t[f] != -1 {
            let counts = neighbour_counts(t, nb[f], ncities);
            lemma_majority_scan_max(counts, t[f] as int, counts[t[f] as int], 0);
            let m = majority_scan(counts, t[f] as int, counts[t[f] as int], 0);
            assert(smooth_step(t, nb, ncities)[f] == m as i32);
            assert(m as i32 as int == m);
            assert forall|c: int| 0 <= c < ncities implies count_in(t, nb[f], c) <= count_in(t, nb[f], m) by {
                assert(counts[c] == count_in(t, nb[f], c));
            }
        }
    }
}

/// Smoothing by `k + 1` passes is one more pass on the result of smoothing by
/// `k` passes, and zero passes leave the territories as they are.
pub proof fn lemma_pass_by_pass(t: Seq<i32>, nb: Seq<Seq<usize>>, ncities: nat, k: nat)
    ensures
        smoothed(t, nb, ncities, 0) == t,
        smoothed(t, nb, ncities, k + 1) == smooth_step(smoothed(t, nb, ncities, k), nb, ncities),
{
}

/// Smooths territory borders: `iterations` passes in which every face with a
/// territory takes the one most common among its neighbours, as
/// `smooth_step` says.
pub fn smooth_territories(
    neighbours: &Vec<Vec<usize>>,
    territories: &mut Vec<i32>,
    ncities: usize,
    iterations: usize,
)
    requires
        neighbours@.len() == old(territories)@.len(),
        neighbours_in_range(graph_view(neighbours), old(territories)@.len()),
        valid_territories(old(territories)@, ncities as nat),
        ncities <= i32::MAX,
    ensures
        final(territories)@ == smoothed(old(territories)@, graph_view(neighbours), ncities as nat, iterations as nat),
        valid_territories(final(territories)@, ncities as nat),
{
    let ghost nb = graph_view(neighbours);
    let ghost t0 = territories@;
    let nf = territories.len();
    let mut counts: Vec<usize> = Vec::new();
    let mut z: usize = 0;
    while z < ncities
        invariant
            z <= ncities,
            counts@.len() == z,
        decreases ncities - z,
    {
        counts.push(0);
        z = z + 1;
    }
    let mut it: usize = 0;
    while it < iterations
        invariant
            it <= iterations,
            nf == territories@.len(),
            nf == t0.len(),
            nb == graph_view(neighbours),
            nb.len() == nf,
            neighbours_in_range(nb, nf as nat),
            valid_territories(t0, ncities as nat),
            ncities <= i32::MAX,
            counts@.len() == ncities,
            territories@ == smoothed(t0, nb, ncities as nat, it as nat),
        decreases iterations - it,
    {
        proof {
            lemma_smoothed_valid(t0, nb, ncities as nat, it as nat);
        }
        let old = territories.clone();
        assert(old@ =~= territories@);
        let ghost target = smooth_step(old@, nb, ncities as nat);
        let mut fidx: usize = 0;
        while fidx < nf
            invariant
                nf == territories@.len(),
                nf == old@.len(),
                nb == graph_view(neighbours),
                nb.len() == nf,
                neighbours_in_range(nb, nf as nat),
                valid_territories(old@, ncities as nat),
                ncities <= i32::MAX,
                counts@.len() == ncities,
                target == smooth_step(old@, nb, ncities as nat),
                fidx <= nf,
                forall|f: int| 0 <= f < fidx ==> #[trigger] territories@[f] == target[f],
                forall|f: int| fidx <= f < nf ==> #[trigger] territories@[f] == old@[f],
            decreases nf - fidx,
        {
            if old[fidx] == -1 {
                fidx = fidx + 1;
                continue;
            }
            let mut c: usize = 0;
            while c < ncities
                invariant
                    c <= ncities,
                    counts@.len() == ncities,
                    forall|k: int| 0 <= k < c ==> #[trigger] counts@[k] == 0,
                decreases ncities - c,
            {
                counts.set(c, 0);
                c = c + 1;
            }
            let nbl = &neighbours[fidx];
            proof {
                assert(nbl@ == nb[fidx as int]);
            }
            let mut k: usize = 0;
            while k < nbl.len()
                invariant
                    nbl@ == nb[fidx as int],
                    fidx < nf,
                    nb.len() == nf,
                    nf == old@.len(),
                    neighbours_in_range(nb, nf as nat),
                    counts@.len() == ncities,
                    k <= nbl@.len(),
                    forall|cc: int| 0 <= cc < ncities ==> #[trigger] counts@[cc] == count_in(old@, nbl@.take(k as int), cc),
                decreases nbl@.len() - k,
            {
                let nidx = nbl[k];
                proof {
                    assert(nb[fidx as int][k as int] == nidx);
                    assert(nbl@.take(k + 1).drop_last() =~= nbl@.take(k as int));
                    assert forall|cc: int| 0 <= cc < ncities implies count_in(old@, nbl@.take(k as int), cc) <= k by {
                        lemma_count_in_bound(old@, nbl@.take(k as int), cc);
                    }
                }
                let tv = old[nidx];
                if tv >= 0 && (tv as usize) < ncities {
                    let cur = counts[tv as usize];
                    counts.set(tv as usize, cur + 1);
                }
                k = k + 1;
            }
            proof {
                assert(nbl@.take(nbl@.len() as int) =~= nbl@);
            }
            let ghost cnts = neighbour_counts(old@, nb[fidx as int], ncities as nat);
            let cur = old[fidx] as usize;
            let mut majority: i32 = old[fidx];
            let mut majority_count: usize = counts[cur];
            let mut c: usize = 0;
            while c < ncities
                invariant
                    c <= ncities,
                    ncities <= i32::MAX,
                    counts@.len() == ncities,
                    cnts.len() == ncities,
                    forall|cc: int| 0 <= cc < ncities ==> #[trigger] counts@[cc] == cnts[cc],
                    majority_scan(cnts, majority as int, majority_count as nat, c as int) == majority_scan(
                        cnts,
                        old@[fidx as int] as int,
                        cnts[old@[fidx as int] as int],
                        0,
                    ),
                decreases ncities - c,
            {
                if counts[c] > majority_count {
                    majority_count = counts[c];
                    majority = c as i32;
                }
                c = c + 1;
            }
            territories.set(fidx, majority);
            fidx = fidx + 1;
        }
        assert(territories@ =~= target);
        it = it + 1;
    }
    proof {
        lemma_smoothed_valid(t0, nb, ncities as nat, iterations as nat);
    }
}

/// Number of faces in list `l` outside `group` whose territory in `t` is `c`.
pub open spec fn outside_count(t: Seq<i32>, l: Seq<usize>, group: Seq<usize>, c: int) -> nat
    decreases l.len(),
{
    if l.len() == 0 {
        0
    } else {
        outside_count(t, l.drop_last(), group, c) + if !group.contains(l.last()) && t[l.last() as int] == c {
            1nat
        } else {
            0nat
        }
    }
}

/// Over the first `upto` faces of `group`, the number of their neighbours
/// outside the group whose territory is `c`.
pub open spec fn group_count(t: Seq<i32>, nb: Seq<Seq<usize>>, group: Seq<usize>, c: int, upto: int) -> nat
    decreases upto,
{
    if upto <= 0 {
        0
    } else {
        group_count(t, nb, group, c, upto - 1) + outside_count(t, nb[group[upto - 1] as int], group, c)
    }
}

/// The last id with the highest count, scanning from `c` up with `best` the
/// best so far (`-1` for none yet); `-1` when there are no ids.
pub open spec fn last_argmax(counts: Seq<nat>, best: int, c: int) -> int
    decreases counts.len() - c,
{
    if c < 0 || c >= counts.len() {
        best
    } else if best < 0 || counts[c] >= counts[best] {
        last_argmax(counts, c, c + 1)
    } else {
        last_argmax(counts, best, c + 1)
    }
}

/// A group whose territory's city face lies outside it is cut off from its
/// city: it takes the territory most common just around it (the last such
/// id on ties).  Other groups stay as they are.
pub open spec fn reassigned(t: Seq<i32>, nb: Seq<Seq<usize>>, group: Seq<usize>, city_faces: Seq<usize>) -> Seq<
    i32,
> {
    let cityid = t[group[0] as int];
    if cityid < 0 || group.contains(city_faces[cityid as int]) {
        t
    } else {
        let counts = Seq::new(
            city_faces.len(),
            |c: int| group_count(t, nb, group, c, group.len() as int),
        );
        let m = last_argmax(counts, -1, 0);
        Seq::new(t.len(), |i: int| if group.contains(i as usize) { m as i32 } else { t[i] })
    }
}

/// The territories after the first `upto` groups are dealt with in order.
pub open spec fn reassigned_all(
    t: Seq<i32>,
    nb: Seq<Seq<usize>>,
    groups: Seq<Seq<usize>>,
    city_faces: Seq<usize>,
    upto: nat,
) -> Seq<i32>
    decreases upto,
{
    if upto == 0 {
        t
    } else {
        reassigned(reassigned_all(t, nb, groups, city_faces, (upto - 1) as nat), nb, groups[upto - 1], city_faces)
    }
}

/// A connected group of faces of one territory that holds the face of that
/// territory's city keeps its territory: dealing with the groups in order
/// changes no face of such a group, nor any face of a group not dealt with
/// yet.
proof fn lemma_city_groups_kept_upto(
    t: Seq<i32>,
    nb: Seq<Seq<usize>>,
    groups: Seq<Seq<usize>>,
    city_faces: Seq<usize>,
    upto: nat,
)
    requires
        flood_groups(nb, t, groups),
        valid_territories(t, city_faces.len()),
        upto <= groups.len(),
    ensures
        reassigned_all(t, nb, groups, city_faces, upto).len() == t.len(),
        forall|a: int, k: int|
            0 <= a < groups.len() && 0 <= k < groups[a].len() && (a >= upto || t[groups[a][0] as int] < 0
                || groups[a].contains(city_faces[t[groups[a][0] as int] as int])) ==> reassigned_all(
                t,
                nb,
                groups,
                city_faces,
                upto,
            )[#[trigger] groups[a][k] as int] == t[groups[a][k] as int],
    decreases upto,
{
    if upto > 0 {
        let u = (upto - 1) as nat;
        lemma_city_groups_kept_upto(t, nb, groups, city_faces, u);
        let r = reassigned_all(t, nb, groups, city_faces, u);
        let g = groups[u as int];
        assert(g.len() >= 1);
        assert(r[g[0] as int] == t[g[0] as int]);
        assert forall|a: int, k: int|
            0 <= a < groups.len() && 0 <= k < groups[a].len() && (a >= upto || t[groups[a][0] as int] < 0
                || groups[a].contains(city_faces[t[groups[a][0] as int] as int])) implies reassigned_all(
                t,
                nb,
                groups,
                city_faces,
                upto,
            )[#[trigger] groups[a][k] as int] == t[groups[a][k] as int] by {
            let f = groups[a][k];
            assert(f < t.len());
            let cityid = r[g[0] as int];
            if !(cityid < 0 || g.contains(city_faces[cityid as int])) {
                if a == u {
                    assert(t[groups[a][0] as int] == cityid);
                } else {
                    if g.contains(f) {
                        let w = choose|w: int| 0 <= w < g.len() && g[w] == f;
                        assert(in_group(groups, u as int, f as int));
                        assert(in_group(groups, a, f as int));
                    }
                }
            }
        }
    }
}

/// Repairing disjoint territories leaves alone every connected group of
/// faces of one territory that holds its city's face: each of its faces
/// keeps that territory.
pub proof fn lemma_city_groups_kept(t: Seq<i32>, nb: Seq<Seq<usize>>, groups: Seq<Seq<usize>>, city_faces: Seq<usize>)
    requires
        flood_groups(nb, t, groups),
        valid_territories(t, city_faces.len()),
    ensures
        forall|a: int, k: int|
            0 <= a < groups.len() && 0 <= k < groups[a].len() && t[groups[a][0] as int] >= 0
                && groups[a].contains(city_faces[t[groups[a][0] as int] as int]) ==> reassigned_all(
                t,
                nb,
                groups,
                city_faces,
                groups.len(),
            )[#[trigger] groups[a][k] as int] == t[groups[a][0] as int],
{
    lemma_city_groups_kept_upto(t, nb, groups, city_faces, groups.len());
}

/// A sequence of distinct faces below `n` has at most `n` elements.
proof fn lemma_distinct_len(g: Seq<usize>, n: nat)
    requires
        g.no_duplicates(),
        forall|k: int| 0 <= k < g.len() ==> #[trigger] g[k] < n,
    ensures
        g.len() <= n,
{
    let f = |x: usize| x as int;
    assert(vstd::relations::injective(f));
    g.lemma_no_duplicates_injective(f);
    let gi = g.map_values(f);
    gi.unique_seq_to_set();
    lemma_int_range(0, n as int);
    assert forall|x: int| gi.to_set().contains(x) implies set_int_range(0, n as int).contains(x) by {
        let k = choose|k: int| 0 <= k < gi.len() && gi[k] == x;
        assert(g[k] < n);
    }
    lemma_len_subset(gi.to_set(), set_int_range(0, n as int));
}

proof fn lemma_last_argmax_range(counts: Seq<nat>, best: int, c: int)
    requires
        0 <= c,
        -1 <= best < counts.len(),
    ensures
        -1 <= last_argmax(counts, best, c) < counts.len(),
        counts.len() > 0 && c < counts.len() ==> last_argmax(counts, best, c) >= 0,
    decreases counts.len() - c,
{
    if c < counts.len() {
        if best < 0 || counts[c] >= counts[best] {
            lemma_last_argmax_range(counts, c, c + 1);
        } else {
            lemma_last_argmax_range(counts, best, c + 1);
        }
    }
}

/// Reassigning a group keeps territories valid.
proof fn lemma_reassigned_valid(t: Seq<i32>, nb: Seq<Seq<usize>>, group: Seq<usize>, city_faces: Seq<usize>)
    requires
        valid_territories(t, city_faces.len()),
        city_faces.len() <= i32::MAX,
        group.len() >= 1,
        group[0] < t.len(),
    ensures
        valid_territories(reassigned(t, nb, group, city_faces), city_faces.len()),
        reassigned(t, nb, group, city_faces).len() == t.len(),
{
    let cityid = t[group[0] as int];
    if !(cityid < 0 || group.contains(city_faces[cityid as int])) {
        let counts = Seq::new(
            city_faces.len(),
            |c: int| group_count(t, nb, group, c, group.len() as int),
        );
        lemma_last_argmax_range(counts, -1, 0);
    }
}

/// Every face of every territory can reach the face of its city: each
/// connected group of faces of one territory that does not hold the city's
/// face takes the territory most common around it, as `reassigned` says,
/// group by group in the order of their lowest faces.
pub fn fix_disjoint_territories(
    neighbours: &Vec<Vec<usize>>,
    territories: &mut Vec<i32>,
    city_faces: &Vec<usize>,
)
    requires
        neighbours@.len() == old(territories)@.len(),
        neighbours_in_range(graph_view(neighbours), old(territories)@.len()),
        valid_territories(old(territories)@, city_faces@.len()),
        city_faces@.len() <= i32::MAX,
        forall|f: int|
            0 <= f < neighbours@.len() ==> (#[trigger] neighbours@[f])@.len() * neighbours@.len() <= usize::MAX,
    ensures
        exists|groups: Seq<Seq<usize>>|
            {
                &&& flood_groups(graph_view(neighbours), old(territories)@, groups)
                &&& by_lowest_face(groups)
                &&& forall|f: int|
                    0 <= f < old(territories)@.len() ==> (#[trigger] grouped(groups, f) == (old(territories)@[f]
                        != -1))
                &&& final(territories)@ == reassigned_all(
                    old(territories)@,
                    graph_view(neighbours),
                    groups,
                    city_faces@,
                    groups.len(),
                )
                &&& forall|a: int, k: int|
                    0 <= a < groups.len() && 0 <= k < groups[a].len() && old(territories)@[groups[a][0] as int] >= 0
                        && groups[a].contains(city_faces@[old(territories)@[groups[a][0] as int] as int])
                        ==> final(territories)@[#[trigger] groups[a][k] as int] == old(territories)@[groups[a][0] as int]
            },
{
    let ghost nb = graph_view(neighbours);
    let ghost t0 = territories@;
    let nf = territories.len();
    let nc = city_faces.len();
    let labels = territories.clone();
    assert(labels@ =~= t0);
    let groups = all_groups(neighbours, &labels, true);
    let ghost gv = groups_view(groups@);
    let mut mask: Vec<bool> = Vec::new();
    let mut z: usize = 0;
    while z < nf
        invariant
            z <= nf,
            mask@.len() == z,
            forall|k: int| 0 <= k < z ==> !(#[trigger] mask@[k]),
        decreases nf - z,
    {
        mask.push(false);
        z = z + 1;
    }
    let mut counts: Vec<usize> = Vec::new();
    let mut z: usize = 0;
    while z < nc
        invariant
            z <= nc,
            counts@.len() == z,
        decreases nc - z,
    {
        counts.push(0);
        z = z + 1;
    }
    let ng = groups.len();
    let mut a: usize = 0;
    while a < ng
        invariant
            ng == gv.len(),
            gv == groups_view(groups@),
            nb == graph_view(neighbours),
            nf == t0.len(),
            nf == nb.len(),
            nc == city_faces@.len(),
            nc <= i32::MAX,
            a <= ng,
            territories@.len() == nf,
            mask@.len() == nf,
            counts@.len() == nc,
            forall|k: int| 0 <= k < nf ==> !(#[trigger] mask@[k]),
            flood_groups(nb, t0, gv),
            neighbours_in_range(nb, nf as nat),
            forall|f: int| 0 <= f < nb.len() ==> (#[trigger] nb[f]).len() * nb.len() <= usize::MAX,
            valid_territories(territories@, nc as nat),
            territories@ == reassigned_all(t0, nb, gv, city_faces@, a as nat),
        decreases ng - a,
    {
        let group = &groups[a];
        let ghost g = gv[a as int];
        let ghost tcur = territories@;
        proof {
            assert(group@ == g);
            assert(g.len() >= 1);
            assert(g[0] < nf);
            lemma_distinct_len(g, nf as nat);
            lemma_reassigned_valid(tcur, nb, g, city_faces@);
        }
        let gl = group.len();
        let cityid = territories[group[0]];
        if cityid < 0 {
            a = a + 1;
            continue;
        }
        let cfidx = city_faces[cityid as usize];
        let mut holds_city = false;
        let mut k: usize = 0;
        while k < gl
            invariant
                gl == group@.len(),
                k <= gl,
                holds_city == exists|j: int| 0 <= j < k && group@[j] == cfidx,
            decreases gl - k,
        {
            if group[k] == cfidx {
                holds_city = true;
            }
            k = k + 1;
        }
        if holds_city {
            a = a + 1;
            continue;
        }
        let mut k: usize = 0;
        while k < gl
            invariant
                gl == group@.len(),
                group@ == g,
                k <= gl,
                mask@.len() == nf,
                forall|j: int| 0 <= j < gl ==> (#[trigger] g[j]) < nf,
                forall|x: int| 0 <= x < nf ==> (#[trigger] mask@[x] == exists|j: int| 0 <= j < k && g[j] == x),
            decreases gl - k,
        {
            let x = group[k];
            mask.set(x, true);
            proof {
                assert forall|y: int| 0 <= y < nf implies (#[trigger] mask@[y] == exists|j: int| 0 <= j < k + 1 && g[j] == y) by {
                    if y == x as int {
                        assert(g[k as int] == x);
                    }
                }
            }
            k = k + 1;
        }
        proof {
            assert forall|x: int| 0 <= x < nf implies (#[trigger] mask@[x] == g.contains(x as usize)) by {
                if g.contains(x as usize) {
                    let j = choose|j: int| 0 <= j < g.len() && g[j] == x as usize;
                    assert(g[j] as int == x);
                }
            }
        }
        let mut c: usize = 0;
        while c < nc
            invariant
                c <= nc,
                counts@.len() == nc,
                forall|q: int| 0 <= q < c ==> #[trigger] counts@[q] == 0,
            decreases nc - c,
        {
            counts.set(c, 0);
            c = c + 1;
        }
        let ghost bound: int = usize::MAX as int / nf as int;
        proof {
            assert(nf > 0);
            vstd::arithmetic::div_mod::lemma_fundamental_div_mod(usize::MAX as int, nf as int);
            assert(bound * nf <= usize::MAX) by (nonlinear_arith)
                requires
                    usize::MAX as int == nf * bound + (usize::MAX as int) % (nf as int),
                    (usize::MAX as int) % (nf as int) >= 0,
            ;
            assert forall|f: int| 0 <= f < nf implies (#[trigger] nb[f]).len() <= bound by {
                let l = nb[f].len() as int;
                assert(l * nf <= usize::MAX);
                vstd::arithmetic::div_mod::lemma_div_is_ordered(l * nf, usize::MAX as int, nf as int);
                vstd::arithmetic::div_mod::lemma_div_by_multiple(l, nf as int);
            }
        }
        let mut j: usize = 0;
        while j < gl
            invariant
                gl == group@.len(),
                group@ == g,
                j <= gl,
                gl <= nf,
                nf == nb.len(),
                nb == graph_view(neighbours),
                nf == territories@.len(),
                tcur == territories@,
                counts@.len() == nc,
                mask@.len() == nf,
                valid_territories(tcur, nc as nat),
                neighbours_in_range(nb, nf as nat),
                forall|f: int| 0 <= f < nf ==> (#[trigger] nb[f]).len() <= bound,
                bound * nf <= usize::MAX,
                forall|jj: int| 0 <= jj < gl ==> (#[trigger] g[jj]) < nf,
                forall|x: int| 0 <= x < nf ==> (#[trigger] mask@[x] == g.contains(x as usize)),
                forall|q: int| 0 <= q < nc ==> #[trigger] counts@[q] == group_count(tcur, nb, g, q, j as int),
                forall|q: int| 0 <= q < nc ==> #[trigger] counts@[q] <= j * bound,
            decreases gl - j,
        {
            let fidx = group[j];
            let nbl = &neighbours[fidx];
            proof {
                assert(nbl@ == nb[fidx as int]);
                assert(nbl@.len() <= bound);
            }
            let mut k: usize = 0;
            while k < nbl.len()
                invariant
                    nbl@ == nb[fidx as int],
                    fidx < nf,
                    nf == nb.len(),
                    nf == territories@.len(),
                    tcur == territories@,
                    nbl@.len() <= bound,
                    counts@.len() == nc,
                    mask@.len() == nf,
                    j < gl,
                    gl <= nf,
                    bound * nf <= usize::MAX,
                    valid_territories(tcur, nc as nat),
                    neighbours_in_range(nb, nf as nat),
                    forall|x: int| 0 <= x < nf ==> (#[trigger] mask@[x] == g.contains(x as usize)),
                    k <= nbl@.len(),
                    forall|q: int|
                        0 <= q < nc ==> #[trigger] counts@[q] == group_count(tcur, nb, g, q, j as int) + outside_count(
                            tcur,
                            nbl@.take(k as int),
                            g,
                            q,
                        ),
                    forall|q: int| 0 <= q < nc ==> #[trigger] counts@[q] <= j * bound + k,
                decreases nbl@.len() - k,
            {
                let nidx = nbl[k];
                proof {
                    assert(nb[fidx as int][k as int] == nidx);
                    assert(nbl@.take(k + 1).drop_last() =~= nbl@.take(k as int));
                    assert(j * bound + k + 1 <= usize::MAX) by (nonlinear_arith)
                        requires
                            j < gl,
                            gl <= nf,
                            k < bound,
                            bound * nf <= usize::MAX,
                            0 <= j,
                            0 <= k,
                    ;
                }
                if !mask[nidx] {
                    let tv = territories[nidx];
                    if tv >= 0 {
                        let cur = counts[tv as usize];
                        counts.set(tv as usize, cur + 1);
                    }
                }
                k = k + 1;
            }
            proof {
                assert(nbl@.take(nbl@.len() as int) =~= nbl@);
                assert((j + 1) * bound == j * bound + bound) by (nonlinear_arith);
            }
            j = j + 1;
        }
        let ghost cnts = Seq::new(nc as nat, |q: int| group_count(tcur, nb, g, q, g.len() as int));
        let mut majority: i32 = -1;
        let mut c: usize = 0;
        while c < nc
            invariant
                c <= nc,
                nc <= i32::MAX,
                counts@.len() == nc,
                cnts.len() == nc,
                -1 <= majority < c,
                forall|q: int| 0 <= q < nc ==> #[trigger] counts@[q] == cnts[q],
                last_argmax(cnts, majority as int, c as int) == last_argmax(cnts, -1, 0),
            decreases nc - c,
        {
            if majority < 0 || counts[c] >= counts[majority as usize] {
                majority = c as i32;
            }
            c = c + 1;
        }
        let mut k: usize = 0;
        while k < gl
            invariant
                gl == group@.len(),
                group@ == g,
                k <= gl,
                g.no_duplicates(),
                nf == territories@.len(),
                forall|jj: int| 0 <= jj < gl ==> (#[trigger] g[jj]) < nf,
                forall|x: int|
                    0 <= x < nf ==> #[trigger] territories@[x] == if exists|jj: int| 0 <= jj < k && g[jj] == x {
                        majority
                    } else {
                        tcur[x]
                    },
            decreases gl - k,
        {
            let x = group[k];
            territories.set(x, majority);
            proof {
                assert forall|y: int| 0 <= y < nf implies #[trigger] territories@[y] == if exists|jj: int|
                    0 <= jj < k + 1 && g[jj] == y {
                    majority
                } else {
                    tcur[y]
                } by {
                    if y == x as int {
                        assert(g[k as int] == x);
                    }
                }
            }
            k = k + 1;
        }
        let mut k: usize = 0;
        while k < gl
            invariant
                gl == group@.len(),
                group@ == g,
                k <= gl,
                mask@.len() == nf,
                forall|jj: int| 0 <= jj < gl ==> (#[trigger] g[jj]) < nf,
                forall|x: int| 0 <= x < nf ==> (#[trigger] mask@[x] == (g.contains(x as usize) && !exists|jj: int|
                    0 <= jj < k && g[jj] == x)),
            decreases gl - k,
        {
            let x = group[k];
            mask.set(x, false);
            proof {
                assert forall|y: int| 0 <= y < nf implies (#[trigger] mask@[y] == (g.contains(y as usize) && !exists|jj: int|
                    0 <= jj < k + 1 && g[jj] == y)) by {
                    if y == x as int {
                        assert(g[k as int] == x);
                    }
                }
            }
            k = k + 1;
        }
        proof {
            assert forall|x: int| 0 <= x < nf implies !(#[trigger] mask@[x]) by {
                if g.contains(x as usize) {
                    let jj = choose|jj: int| 0 <= jj < g.len() && g[jj] == x as usize;
                    assert(g[jj] as int == x);
                }
            }
            assert(!g.contains(city_faces@[cityid as int]));
            let expected = reassigned(tcur, nb, g, city_faces@);
            assert forall|x: int| 0 <= x < nf implies #[trigger] territories@[x] == expected[x] by {
                if g.contains(x as usize) {
                    let jj = choose|jj: int| 0 <= jj < g.len() && g[jj] == x as usize;
                    assert(g[jj] as int == x);
                } else {
                    if exists|jj: int| 0 <= jj < gl && g[jj] == x {
                        let jj = choose|jj: int| 0 <= jj < gl && g[jj] == x;
                        assert(g.contains(g[jj]));
                    }
                }
            }
            assert(territories@ =~= expected);
        }
        a = a + 1;
    }
    proof {
        lemma_city_groups_kept(t0, nb, gv, city_faces@);
    }
}

} // verus!
