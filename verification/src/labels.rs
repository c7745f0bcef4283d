//! Choice of the names that label a map's cities and towns.
//!
//! Names are drawn country by country: a random country's whole list of city
//! names is added until there are enough, then the names are shuffled with
//! the Fisher-Yates method and the first ones kept.
use vstd::prelude::*;
use crate::rng::{GlibcRand, next_state, output};

verus! {

/// The names of a list, as character sequences.
pub open spec fn names_view(v: Seq<String>) -> Seq<Seq<char>> {
    v.map_values(|s: String| s@)
}

/// The lists of names, as sequences of character sequences.
pub open spec fn lists_view(lists: Seq<Vec<String>>) -> Seq<Seq<Seq<char>>> {
    lists.map_values(|l: Vec<String>| names_view(l@))
}

/// Every list has at least one name.
pub open spec fn all_nonempty(lists: Seq<Seq<Seq<char>>>) -> bool {
    forall|i: int| 0 <= i < lists.len() ==> (#[trigger] lists[i]).len() > 0
}

/// Names gathered from generator state `g` onto `acc`: while fewer than
/// `num`, the list at `rand() % lists.len()` is appended.  Returns the names
/// and the generator state left.
pub open spec fn gather(
    g: (Seq<u32>, int),
    lists: Seq<Seq<Seq<char>>>,
    num: nat,
    acc: Seq<Seq<char>>,
) -> (Seq<Seq<char>>, (Seq<u32>, int))
    decreases (if acc.len() >= num { 0 } else { num - acc.len() }),
    when lists.len() > 0 && all_nonempty(lists)
{
    if acc.len() >= num {
        (acc, g)
    } else {
        let idx = output(g) % (lists.len() as int);
        gather(next_state(g), lists, num, acc + lists[idx])
    }
}

/// Exchanges the elements at `i` and `j`.
pub open spec fn swapped<T>(s: Seq<T>, i: int, j: int) -> Seq<T> {
    s.update(i, s[j]).update(j, s[i])
}

/// The Fisher-Yates steps for positions `i` down to `0` from generator state
/// `g`: position `i` is exchanged with position `rand() % (i + 1)`.  Returns
/// the sequence and the generator state left.
pub open spec fn shuffle<T>(g: (Seq<u32>, int), s: Seq<T>, i: int) -> (Seq<T>, (Seq<u32>, int))
    decreases i + 1,
{
    if i < 0 {
        (s, g)
    } else {
        let j = output(g) % (i + 1);
        shuffle(next_state(g), swapped(s, i, j), i - 1)
    }
}

/// The names chosen from generator state `g`, and the state left: gathered,
/// shuffled from the next-to-last position down, then cut to `num`.
pub open spec fn chosen_names(
    g: (Seq<u32>, int),
    lists: Seq<Seq<Seq<char>>>,
    num: nat,
) -> (Seq<Seq<char>>, (Seq<u32>, int)) {
    let (names, g1) = gather(g, lists, num, Seq::empty());
    let (mixed, g2) = shuffle(g1, names, names.len() - 2);
    (mixed.take(num as int), g2)
}

/// Name `x` is in one of the lists.
pub open spec fn listed(lists: Seq<Seq<Seq<char>>>, x: Seq<char>) -> bool {
    exists|a: int, j: int| 0 <= a < lists.len() && 0 <= j < lists[a].len() && lists[a][j] == x
}

/// Every name gathered onto `acc` is in `acc` already or in one of the lists,
/// and at least `num` names are gathered.
proof fn lemma_gather_from_lists(
    g: (Seq<u32>, int),
    lists: Seq<Seq<Seq<char>>>,
    num: nat,
    acc: Seq<Seq<char>>,
)
    requires
        lists.len() > 0,
        all_nonempty(lists),
    ensures
        gather(g, lists, num, acc).0.len() >= num,
        gather(g, lists, num, acc).0.len() >= acc.len(),
        forall|k: int|
            0 <= k < gather(g, lists, num, acc).0.len() ==> (k < acc.len() && gather(g, lists, num, acc).0[k]
                == acc[k]) || listed(lists, #[trigger] gather(g, lists, num, acc).0[k]),
    decreases (if acc.len() >= num { 0 } else { num - acc.len() }),
{
    if acc.len() < num {
        let idx = output(g) % (lists.len() as int);
        let next = acc + lists[idx];
        assert(lists[idx].len() > 0);
        lemma_gather_from_lists(next_state(g), lists, num, next);
        let r = gather(g, lists, num, acc).0;
        assert(r == gather(next_state(g), lists, num, next).0);
        assert forall|k: int| 0 <= k < r.len() implies (k < acc.len() && r[k] == acc[k]) || listed(
            lists,
            #[trigger] r[k],
        ) by {
            if k < next.len() && r[k] == next[k] {
                if k >= acc.len() {
                    assert(next[k] == lists[idx][k - acc.len()]);
                }
            }
        }
    }
}

/// `x` is an element of `s`.
pub open spec fn element_of<T>(s: Seq<T>, x: T) -> bool {
    exists|m: int| 0 <= m < s.len() && s[m] == x
}

/// Every element after the Fisher-Yates steps was an element before them.
proof fn lemma_shuffle_keeps_elements<T>(g: (Seq<u32>, int), s: Seq<T>, i: int)
    requires
        i < s.len(),
    ensures
        shuffle(g, s, i).0.len() == s.len(),
        forall|k: int| 0 <= k < s.len() ==> #[trigger] element_of(s, shuffle(g, s, i).0[k]),
    decreases i + 1,
{
    if i >= 0 {
        let j = output(g) % (i + 1);
        let t = swapped(s, i, j);
        lemma_shuffle_keeps_elements(next_state(g), t, i - 1);
        assert(shuffle(g, s, i).0 == shuffle(next_state(g), t, i - 1).0);
        assert forall|k: int| 0 <= k < s.len() implies #[trigger] element_of(s, shuffle(g, s, i).0[k]) by {
            let x = shuffle(next_state(g), t, i - 1).0[k];
            assert(element_of(t, x));
            let m1 = choose|m: int| 0 <= m < t.len() && t[m] == x;
            let w = if m1 == j {
                i
            } else if m1 == i {
                j
            } else {
                m1
            };
            assert(t[m1] == s[w]);
            assert(s[w] == x);
        }
    } else {
        assert forall|k: int| 0 <= k < s.len() implies #[trigger] element_of(s, shuffle(g, s, i).0[k]) by {
            assert(shuffle(g, s, i).0[k] == s[k]);
        }
    }
}

/// Label names are drawn from the lists, and there are exactly as many as
/// asked for.
pub proof fn lemma_chosen_names_are_listed(g: (Seq<u32>, int), lists: Seq<Seq<Seq<char>>>, num: nat)
    requires
        lists.len() > 0,
        all_nonempty(lists),
    ensures
        chosen_names(g, lists, num).0.len() == num,
        forall|k: int| 0 <= k < num ==> listed(lists, #[trigger] chosen_names(g, lists, num).0[k]),
{
    let (names, g1) = gather(g, lists, num, Seq::empty());
    lemma_gather_from_lists(g, lists, num, Seq::empty());
    lemma_shuffle_keeps_elements(g1, names, names.len() - 2);
    let mixed = shuffle(g1, names, names.len() - 2).0;
    assert forall|k: int| 0 <= k < num implies listed(lists, #[trigger] chosen_names(g, lists, num).0[k]) by {
        assert(chosen_names(g, lists, num).0[k] == mixed[k]);
        assert(element_of(names, mixed[k]));
        let m = choose|m: int| 0 <= m < names.len() && names[m] == mixed[k];
        assert(listed(lists, names[m]));
    }
}

/// Appends all names of `src` to `dst`.
fn append_names(dst: &mut Vec<String>, src: &Vec<String>)
    ensures
        names_view(final(dst)@) == names_view(old(dst)@) + names_view(src@),
{
    let mut k: usize = 0;
    while k < src.len()
        invariant
            k <= src@.len(),
            names_view(dst@) == names_view(old(dst)@) + names_view(src@.take(k as int)),
        decreases src@.len() - k,
    {
        let name = src[k].clone();
        let ghost prev = dst@;
        dst.push(name);
        proof {
            assert(names_view(dst@) =~= names_view(prev).push(src@[k as int]@));
            assert(names_view(src@.take(k + 1)) =~= names_view(src@.take(k as int)).push(src@[k as int]@));
            assert(names_view(dst@) =~= names_view(old(dst)@) + names_view(src@.take(k + 1)));
        }
        k = k + 1;
    }
    assert(src@.take(src@.len() as int) =~= src@);
}

/// `num` names for labels, drawn from `lists` (one list of city names per
/// country) with `rng`, as `chosen_names` says.
pub fn get_label_names(num: usize, rng: &mut GlibcRand, lists: &Vec<Vec<String>>) -> (names: Vec<String>)
    requires
        old(rng).wf(),
        num > 0 ==> lists@.len() > 0,
        all_nonempty(lists_view(lists@)),
    ensures
        final(rng).wf(),
        num == 0 ==> names@.len() == 0 && final(rng).gen_state() == old(rng).gen_state(),
        lists@.len() > 0 ==> {
            &&& names_view(names@) == chosen_names(old(rng).gen_state(), lists_view(lists@), num as nat).0
            &&& final(rng).gen_state() == chosen_names(old(rng).gen_state(), lists_view(lists@), num as nat).1
        },
        names@.len() == num,
{
    let ghost lv = lists_view(lists@);
    let ghost g0 = rng.gen_state();
    let mut cities: Vec<String> = Vec::new();
    let ghost mut steps: nat = 0;
    while cities.len() < num
        invariant
            rng.wf(),
            lv == lists_view(lists@),
            all_nonempty(lv),
            num > 0 ==> lv.len() > 0,
            lv.len() > 0 ==> gather(g0, lv, num as nat, Seq::empty()) == gather(
                rng.gen_state(),
                lv,
                num as nat,
                names_view(cities@),
            ),
            lv.len() == 0 ==> cities@.len() == 0 && rng.gen_state() == g0,
        decreases (if cities@.len() >= num { 0 } else { num - cities@.len() }),
    {
        let r = rng.rand();
        let idx = (r as usize) % lists.len();
        let ghost before = cities@;
        proof {
            assert(lv[idx as int] == names_view(lists@[idx as int]@));
            assert(lv[idx as int].len() > 0);
        }
        append_names(&mut cities, &lists[idx]);
        proof {
            assert(names_view(cities@).len() == cities@.len());
            assert(names_view(before).len() == before.len());
        }
    }
    let ghost g1 = rng.gen_state();
    let ghost gathered = names_view(cities@);
    let n = cities.len();
    if n >= 2 {
        let mut i: usize = n - 1;
        while i > 0
            invariant
                rng.wf(),
                cities@.len() == n,
                n >= 2,
                1 <= i + 1 <= n,
                i <= n - 1,
                shuffle(g1, gathered, n - 2) == shuffle(rng.gen_state(), names_view(cities@), i - 1),
            decreases i,
        {
            i = i - 1;
            let r = rng.rand();
            let j = (r as usize) % (i + 1);
            let a = cities[i].clone();
            let b = cities[j].clone();
            let ghost before = names_view(cities@);
            cities.set(i, b);
            cities.set(j, a);
            proof {
                assert(names_view(cities@) =~= swapped(before, i as int, j as int));
            }
        }
    }
    let ghost mixed = names_view(cities@);
    cities.truncate(num);
    proof {
        assert(names_view(cities@) =~= mixed.take(num as int));
    }
    cities
}

} // verus!
