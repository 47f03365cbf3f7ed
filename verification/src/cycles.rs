use vstd::prelude::*;
use crate::tour::{repeats_edge, same_edge, touches_zero};

verus! {

/// The positions of the endpoints of the edges `removed`, two per edge in the
/// order of the edges, as given by the position table `inv`.
pub open spec fn endpoint_positions(inv: Seq<usize>, removed: Seq<(usize, usize)>) -> Seq<usize> {
    Seq::new(
        2 * removed.len(),
        |k: int|
            if k % 2 == 0 {
                inv[removed[k / 2].0 as int]
            } else {
                inv[removed[k / 2].1 as int]
            },
    )
}

/// `s` is in ascending order.
pub open spec fn is_sorted(s: Seq<usize>) -> bool {
    forall|i: int, j: int| 0 <= i <= j < s.len() ==> s[i] <= s[j]
}

/// `s` in ascending order (the one ascending sequence with the same elements).
pub open spec fn sorted_version(s: Seq<usize>) -> Seq<usize> {
    choose|t: Seq<usize>| is_sorted(t) && t.to_multiset() == s.to_multiset()
}

/// The positions of the endpoints of each edge of `added`.
pub open spec fn added_positions(inv: Seq<usize>, added: Seq<(usize, usize)>) -> Seq<(usize, usize)> {
    Seq::new(added.len(), |i: int| (inv[added[i].0 as int], inv[added[i].1 as int]))
}

proof fn lemma_sorted_unique(a: Seq<usize>, b: Seq<usize>)
    requires
        is_sorted(a),
        is_sorted(b),
        a.to_multiset() == b.to_multiset(),
    ensures
        a == b,
    decreases a.len(),
{
    broadcast use vstd::seq_lib::group_seq_properties;
    broadcast use vstd::multiset::group_multiset_properties;

    a.to_multiset_ensures();
    b.to_multiset_ensures();
    if a.len() == 0 {
        assert(b.len() == 0);
        assert(a =~= b);
    } else {
        assert(b.len() == a.len());
        assert(a.contains(a[0]));
        assert(a.to_multiset().count(a[0]) > 0);
        assert(b.contains(a[0]));
        let j = choose|j: int| 0 <= j < b.len() && b[j] == a[0];
        assert(b[0] <= a[0]);
        assert(b.contains(b[0]));
        assert(a.to_multiset().count(b[0]) > 0);
        assert(a.contains(b[0]));
        let k = choose|k: int| 0 <= k < a.len() && a[k] == b[0];
        assert(a[0] <= b[0]);
        let a1 = a.remove(0);
        let b1 = b.remove(0);
        assert(a1.to_multiset() =~= a.to_multiset().remove(a[0]));
        assert(b1.to_multiset() =~= b.to_multiset().remove(b[0]));
        assert(is_sorted(a1));
        assert(is_sorted(b1));
        lemma_sorted_unique(a1, b1);
        assert(a =~= b) by {
            assert forall|i: int| 0 <= i < a.len() implies a[i] == b[i] by {
                if i > 0 {
                    assert(a[i] == a1[i - 1]);
                    assert(b[i] == b1[i - 1]);
                }
            }
        }
    }
}

proof fn lemma_insert_multiset(s: Seq<usize>, pos: int, x: usize)
    requires
        0 <= pos <= s.len(),
    ensures
        s.insert(pos, x).to_multiset() == s.to_multiset().insert(x),
{
    broadcast use vstd::seq_lib::group_seq_properties;
    broadcast use vstd::multiset::group_multiset_properties;

    let t = s.insert(pos, x);
    s.insert_ensures(pos, x);
    t.to_multiset_ensures();
    assert(t.remove(pos) =~= s);
    assert(t.contains(x));
    assert(t.to_multiset().count(x) > 0);
    assert(s.to_multiset() =~= t.to_multiset().remove(x));
    assert(t.to_multiset() =~= s.to_multiset().insert(x));
}

/// Inserts `x` into the ascending `t`, after every element not greater than it.
fn insert_sorted(t: &mut Vec<usize>, x: usize)
    requires
        is_sorted(old(t)@),
    ensures
        is_sorted(final(t)@),
        final(t)@.to_multiset() == old(t)@.to_multiset().insert(x),
{
    let mut pos: usize = 0;
    while pos < t.len() && t[pos] <= x
        invariant
            pos <= t.len(),
            forall|i: int| 0 <= i < pos ==> t@[i] <= x,
        decreases t.len() - pos,
    {
        pos = pos + 1;
    }
    let ghost before = t@;
    t.insert(pos, x);
    proof {
        before.insert_ensures(pos as int, x);
        lemma_insert_multiset(before, pos as int, x);
        assert forall|i: int, j: int| 0 <= i <= j < t@.len() implies t@[i] <= t@[j] by {
            if i < pos && j > pos {
                assert(t@[j] == before[j - 1]);
                assert(before[j - 1] >= before[pos as int]);
            } else if i > pos {
                assert(t@[i] == before[i - 1]);
                assert(t@[j] == before[j - 1]);
            } else if i == pos && j > pos {
                assert(t@[j] == before[j - 1]);
                assert(before[pos as int] > x);
            }
        }
    }
}

/// The positions of the endpoints of the edges `removed`, in ascending order.
pub(crate) fn sorted_endpoint_positions(inv: &[usize], removed: &[(usize, usize)]) -> (r: Vec<usize>)
    requires
        forall|i: int|
            0 <= i < removed.len() ==> #[trigger] removed@[i].0 < inv.len() && removed@[i].1 < inv.len(),
    ensures
        r@ == sorted_version(endpoint_positions(inv@, removed@)),
        is_sorted(r@),
        r@.to_multiset() == endpoint_positions(inv@, removed@).to_multiset(),
        r@.len() == 2 * removed.len(),
{
    broadcast use vstd::seq_lib::group_seq_properties;

    let ghost flat = endpoint_positions(inv@, removed@);
    let mut t: Vec<usize> = Vec::new();
    let mut i: usize = 0;
    while i < removed.len()
        invariant
            i <= removed.len(),
            flat == endpoint_positions(inv@, removed@),
            forall|k: int|
                0 <= k < removed.len() ==> #[trigger] removed@[k].0 < inv.len() && removed@[k].1
                    < inv.len(),
            is_sorted(t@),
            t@.to_multiset() == flat.take(2 * i).to_multiset(),
        decreases removed.len() - i,
    {
        proof {
            flat.take(2 * i).to_multiset_ensures();
            flat.take(2 * i + 1).to_multiset_ensures();
            assert(flat.take(2 * i + 1) =~= flat.take(2 * i).push(flat[2 * i]));
            assert(flat.take(2 * i + 2) =~= flat.take(2 * i + 1).push(flat[2 * i + 1]));
            assert((2 * i) / 2 == i);
            assert((2 * i + 1) / 2 == i);
            assert((2 * i) % 2 == 0);
            assert((2 * i + 1) % 2 == 1);
        }
        insert_sorted(&mut t, inv[removed[i].0]);
        insert_sorted(&mut t, inv[removed[i].1]);
        i = i + 1;
    }
    proof {
        assert(flat.take(2 * removed.len()) =~= flat);
        lemma_sorted_unique(t@, sorted_version(flat));
        t@.to_multiset_ensures();
        flat.to_multiset_ensures();
    }
    t
}


/// The first index from `from` on of an edge of `ai` that is not yet used and
/// has `c` as an endpoint.
pub open spec fn touching_from(ai: Seq<(usize, usize)>, used: Seq<bool>, c: usize, from: int) -> Option<
    int,
>
    decreases ai.len() - from,
{
    if from < 0 || from >= ai.len() {
        None
    } else if (ai[from].0 == c || ai[from].1 == c) && !used[from] {
        Some(from)
    } else {
        touching_from(ai, used, c, from + 1)
    }
}

/// The first index from `from` on of an edge not yet used.
pub open spec fn unused_from(used: Seq<bool>, from: int) -> Option<int>
    decreases used.len() - from,
{
    if from < 0 || from >= used.len() {
        None
    } else if !used[from] {
        Some(from)
    } else {
        unused_from(used, from + 1)
    }
}

/// How many edges are not yet used.
pub open spec fn count_unused(used: Seq<bool>) -> nat
    decreases used.len(),
{
    if used.len() == 0 {
        0
    } else {
        count_unused(used.drop_last()) + if used.last() {
            0nat
        } else {
            1nat
        }
    }
}

/// The endpoint of `e` that is not `c` (the first one when neither is).
pub open spec fn other_end(e: (usize, usize), c: usize) -> usize {
    if e.0 == c {
        e.1
    } else {
        e.0
    }
}

/// Where the walk goes on after arriving at the sorted endpoint position with
/// index `np`: to the other end of the stretch of tour that starts or ends
/// there (stretches run between the endpoints with indices `2k - 1` and `2k`).
pub open spec fn across(ri: Seq<usize>, np: int) -> usize {
    if np % 2 == 1 {
        ri[np + 1]
    } else {
        ri[np - 1]
    }
}

/// The walk that starts at the end of the first stretch of tour (the smallest
/// removed endpoint position): repeatedly take an unused added edge at the
/// current position, then run along the stretch of tour that starts or ends
/// at the other end of that edge. It ends when an added edge leads to the
/// start of the last stretch (the largest removed endpoint position). Gives
/// the used flags at that point; `None` when no unused added edge is at hand,
/// when an added edge leads to no removed endpoint, or when one leads back to
/// the smallest removed endpoint position.
pub open spec fn main_walk(
    ri: Seq<usize>,
    ai: Seq<(usize, usize)>,
    used: Seq<bool>,
    c: usize,
    fuel: nat,
) -> Option<Seq<bool>>
    decreases fuel,
{
    if fuel == 0 {
        None
    } else {
        match touching_from(ai, used, c, 0) {
            None => None,
            Some(p) => {
                let used2 = used.update(p, true);
                let next = other_end(ai[p], c);
                match ri.index_of_first(next) {
                    None => None,
                    Some(np) => if np == ri.len() - 1 {
                        Some(used2)
                    } else if np == 0 {
                        None
                    } else {
                        main_walk(ri, ai, used2, across(ri, np), (fuel - 1) as nat)
                    },
                }
            },
        }
    }
}

/// The same walk from position `c` for a cycle that started at `start`, until
/// it comes back to `start`. Gives the used flags then, and for each step the
/// pair (position reached by the added edge, position at the other end of the
/// stretch). `None` in the cases of `main_walk`, and when the walk would run
/// past the largest removed endpoint position.
pub open spec fn cycle_from(
    ri: Seq<usize>,
    ai: Seq<(usize, usize)>,
    used: Seq<bool>,
    start: usize,
    c: usize,
    fuel: nat,
) -> Option<(Seq<bool>, Seq<(usize, usize)>)>
    decreases fuel,
{
    if fuel == 0 {
        None
    } else {
        match touching_from(ai, used, c, 0) {
            None => None,
            Some(p) => {
                let used2 = used.update(p, true);
                let next = other_end(ai[p], c);
                match ri.index_of_first(next) {
                    None => None,
                    Some(np) => if np == 0 || (np % 2 == 1 && np + 1 >= ri.len()) {
                        None
                    } else if across(ri, np) == start {
                        Some((used2, seq![(next, across(ri, np))]))
                    } else {
                        match cycle_from(ri, ai, used2, start, across(ri, np), (fuel - 1) as nat) {
                            Some(r) => Some((r.0, seq![(next, across(ri, np))] + r.1)),
                            None => None,
                        }
                    },
                }
            },
        }
    }
}

/// The further cycles: while some added edge is unused, walk the cycle that
/// starts at the first endpoint of the first unused one. Gives the steps of
/// each cycle in turn.
pub open spec fn extra_cycles(
    ri: Seq<usize>,
    ai: Seq<(usize, usize)>,
    used: Seq<bool>,
    fuel: nat,
) -> Option<Seq<Seq<(usize, usize)>>>
    decreases fuel,
{
    match unused_from(used, 0) {
        None => Some(Seq::empty()),
        Some(cs) => if fuel == 0 {
            None
        } else {
            match cycle_from(ri, ai, used, ai[cs].0, ai[cs].0, count_unused(used)) {
                None => None,
                Some(r) => match extra_cycles(ri, ai, r.0, (fuel - 1) as nat) {
                    None => None,
                    Some(rest) => Some(seq![r.1] + rest),
                },
            }
        },
    }
}

/// The further cycles that a move (adding `added`, removing `removed`) leaves
/// besides the one through city 0, with the steps of each, worked out on the
/// positions `inv` of the cities; `None` when the walks get stuck.
pub open spec fn cycle_report(
    inv: Seq<usize>,
    added: Seq<(usize, usize)>,
    removed: Seq<(usize, usize)>,
) -> Option<Seq<Seq<(usize, usize)>>> {
    let ri = sorted_version(endpoint_positions(inv, removed));
    let ai = added_positions(inv, added);
    match main_walk(ri, ai, Seq::new(ai.len(), |i: int| false), ri[0], ai.len()) {
        None => None,
        Some(u) => extra_cycles(ri, ai, u, ai.len()),
    }
}

/// What `check_duplicates` decides: no edge ends at city 0, and some edge is
/// removed twice or both added and removed.
pub open spec fn duplicates_spec(added: Seq<(usize, usize)>, removed: Seq<(usize, usize)>) -> bool {
    !touches_zero(removed) && !touches_zero(added) && repeats_edge(added, removed)
}

pub(crate) proof fn lemma_touching_props(ai: Seq<(usize, usize)>, used: Seq<bool>, c: usize, from: int)
    requires
        0 <= from,
        used.len() == ai.len(),
    ensures
        touching_from(ai, used, c, from) matches Some(p) ==> from <= p < ai.len() && !used[p] && (
        ai[p].0 == c || ai[p].1 == c),
        touching_from(ai, used, c, from) is None ==> forall|q: int|
            from <= q < ai.len() ==> !((ai[q].0 == c || ai[q].1 == c) && !used[q]),
    decreases ai.len() - from,
{
    if from < ai.len() {
        lemma_touching_props(ai, used, c, from + 1);
    }
}

pub(crate) proof fn lemma_unused_props(used: Seq<bool>, from: int)
    requires
        0 <= from,
    ensures
        unused_from(used, from) matches Some(p) ==> from <= p < used.len() && !used[p],
        unused_from(used, from) is None ==> forall|q: int| from <= q < used.len() ==> used[q],
    decreases used.len() - from,
{
    if from < used.len() {
        lemma_unused_props(used, from + 1);
    }
}

pub(crate) proof fn lemma_count_flip(used: Seq<bool>, p: int)
    requires
        0 <= p < used.len(),
        !used[p],
    ensures
        count_unused(used.update(p, true)) + 1 == count_unused(used),
    decreases used.len(),
{
    let u2 = used.update(p, true);
    if p == used.len() - 1 {
        assert(u2.drop_last() =~= used.drop_last());
    } else {
        lemma_count_flip(used.drop_last(), p);
        assert(u2.drop_last() =~= used.drop_last().update(p, true));
    }
}

pub(crate) proof fn lemma_count_positive(used: Seq<bool>, p: int)
    requires
        0 <= p < used.len(),
        !used[p],
    ensures
        count_unused(used) >= 1,
    decreases used.len(),
{
    if p < used.len() - 1 {
        lemma_count_positive(used.drop_last(), p);
    }
}

pub(crate) proof fn lemma_count_all_unused(m: nat)
    ensures
        count_unused(Seq::new(m, |i: int| false)) == m,
    decreases m,
{
    if m > 0 {
        lemma_count_all_unused((m - 1) as nat);
        assert(Seq::new(m, |i: int| false).drop_last() =~= Seq::new((m - 1) as nat, |i: int| false));
    }
}

proof fn lemma_cycle_uses(
    ri: Seq<usize>,
    ai: Seq<(usize, usize)>,
    used: Seq<bool>,
    start: usize,
    c: usize,
    fuel: nat,
)
    requires
        used.len() == ai.len(),
        cycle_from(ri, ai, used, start, c, fuel) is Some,
    ensures
        count_unused(cycle_from(ri, ai, used, start, c, fuel).unwrap().0) < count_unused(used),
        cycle_from(ri, ai, used, start, c, fuel).unwrap().0.len() == used.len(),
    decreases fuel,
{
    lemma_touching_props(ai, used, c, 0);
    let p = touching_from(ai, used, c, 0).unwrap();
    lemma_count_flip(used, p);
    let used2 = used.update(p, true);
    let np = ri.index_of_first(other_end(ai[p], c)).unwrap();
    if across(ri, np) != start {
        lemma_cycle_uses(ri, ai, used2, start, across(ri, np), (fuel - 1) as nat);
    }
}

/// The first unused added edge with `c` as an endpoint.
fn first_touching(ai: &Vec<(usize, usize)>, used: &Vec<bool>, c: usize) -> (r: Option<usize>)
    requires
        used.len() == ai.len(),
    ensures
        r matches Some(p) ==> touching_from(ai@, used@, c, 0) == Some(p as int),
        r is None ==> touching_from(ai@, used@, c, 0) is None,
{
    let mut i: usize = 0;
    while i < ai.len()
        invariant
            i <= ai.len(),
            used.len() == ai.len(),
            touching_from(ai@, used@, c, 0) == touching_from(ai@, used@, c, i as int),
        decreases ai.len() - i,
    {
        if (ai[i].0 == c || ai[i].1 == c) && !used[i] {
            return Some(i);
        }
        i = i + 1;
    }
    None
}

/// The first unused added edge.
fn first_unused(used: &Vec<bool>) -> (r: Option<usize>)
    ensures
        r matches Some(p) ==> unused_from(used@, 0) == Some(p as int),
        r is None ==> unused_from(used@, 0) is None,
{
    let mut i: usize = 0;
    while i < used.len()
        invariant
            i <= used.len(),
            unused_from(used@, 0) == unused_from(used@, i as int),
        decreases used.len() - i,
    {
        if !used[i] {
            return Some(i);
        }
        i = i + 1;
    }
    None
}

/// The first index at which `x` occurs in `ri`.
fn first_index(ri: &Vec<usize>, x: usize) -> (r: Option<usize>)
    ensures
        r matches Some(p) ==> ri@.index_of_first(x) == Some(p as int),
        r is None ==> ri@.index_of_first(x) is None,
{
    proof {
        ri@.index_of_first_ensures(x);
    }
    let mut i: usize = 0;
    while i < ri.len()
        invariant
            i <= ri.len(),
            forall|j: int| 0 <= j < i ==> ri@[j] != x,
        decreases ri.len() - i,
    {
        if ri[i] == x {
            proof {
                ri@.index_of_first_ensures(x);
                assert(ri@.contains(x)) by {
                    assert(ri@[i as int] == x);
                }
                let idx = ri@.index_of_first(x).unwrap();
                if idx < i {
                    assert(ri@[idx] != x);
                }
                if idx > i {
                    assert(0 <= i < idx < ri@.len());
                }
            }
            return Some(i);
        }
        i = i + 1;
    }
    proof {
        ri@.index_of_first_ensures(x);
        if ri@.contains(x) {
            let k = choose|k: int| 0 <= k < ri@.len() && ri@[k] == x;
            assert(ri@[k] != x);
        }
    }
    None
}

/// Whether the move is to be skipped as repeating an edge: `true` when some
/// edge is removed twice or is both added and removed, unless some edge (added
/// or removed) ends at city 0, in which case `false`.
pub fn check_duplicates(added: &[(usize, usize)], removed: &[(usize, usize)]) -> (dup: bool)
    ensures
        dup == duplicates_spec(added@, removed@),
{
    let mut duplicate = false;
    let mut i: usize = 0;
    while i < removed.len()
        invariant
            i <= removed.len(),
            forall|a: int| 0 <= a < i ==> !(#[trigger] removed@[a].0 == 0 || removed@[a].1 == 0),
            duplicate == exists|a: int, b: int|
                0 <= b < a < i && same_edge(#[trigger] removed@[a], #[trigger] removed@[b]),
        decreases removed.len() - i,
    {
        if removed[i].0 == 0 || removed[i].1 == 0 {
            return false;
        }
        let mut j: usize = 0;
        while j < i
            invariant
                j <= i < removed.len(),
                forall|a: int| 0 <= a <= i ==> !(#[trigger] removed@[a].0 == 0 || removed@[a].1 == 0),
                duplicate == ((exists|a: int, b: int|
                    0 <= b < a < i && same_edge(#[trigger] removed@[a], #[trigger] removed@[b]))
                    || exists|b: int| 0 <= b < j && same_edge(removed@[i as int], #[trigger] removed@[b])),
            decreases i - j,
        {
            if removed[i].0 == removed[j].0 && removed[i].1 == removed[j].1 {
                duplicate = true;
            }
            if removed[i].0 == removed[j].1 && removed[i].1 == removed[j].0 {
                duplicate = true;
            }
            j = j + 1;
        }
        i = i + 1;
    }
    let ghost dup_removed = duplicate;
    let mut i: usize = 0;
    while i < added.len()
        invariant
            i <= added.len(),
            !touches_zero(removed@),
            forall|a: int| 0 <= a < i ==> !(#[trigger] added@[a].0 == 0 || added@[a].1 == 0),
            duplicate == (dup_removed || exists|a: int, b: int|
                0 <= a < i && 0 <= b < removed.len() && same_edge(
                    #[trigger] added@[a],
                    #[trigger] removed@[b],
                )),
            dup_removed == exists|a: int, b: int|
                0 <= b < a < removed.len() && same_edge(#[trigger] removed@[a], #[trigger] removed@[b]),
        decreases added.len() - i,
    {
        if added[i].0 == 0 || added[i].1 == 0 {
            return false;
        }
        let mut j: usize = 0;
        while j < removed.len()
            invariant
                i < added.len(),
                j <= removed.len(),
                duplicate == (dup_removed || (exists|a: int, b: int|
                    0 <= a < i && 0 <= b < removed.len() && same_edge(
                        #[trigger] added@[a],
                        #[trigger] removed@[b],
                    )) || exists|b: int| 0 <= b < j && same_edge(added@[i as int], #[trigger] removed@[b])),
            decreases removed.len() - j,
        {
            if added[i].0 == removed[j].0 && added[i].1 == removed[j].1 {
                duplicate = true;
            }
            if added[i].0 == removed[j].1 && added[i].1 == removed[j].0 {
                duplicate = true;
            }
            j = j + 1;
        }
        i = i + 1;
    }
    duplicate
}


proof fn lemma_main_uses(
    ri: Seq<usize>,
    ai: Seq<(usize, usize)>,
    used: Seq<bool>,
    c: usize,
    fuel: nat,
)
    requires
        used.len() == ai.len(),
        main_walk(ri, ai, used, c, fuel) is Some,
    ensures
        count_unused(main_walk(ri, ai, used, c, fuel).unwrap()) < count_unused(used),
        main_walk(ri, ai, used, c, fuel).unwrap().len() == used.len(),
    decreases fuel,
{
    lemma_touching_props(ai, used, c, 0);
    let p = touching_from(ai, used, c, 0).unwrap();
    lemma_count_flip(used, p);
    let used2 = used.update(p, true);
    let np = ri.index_of_first(other_end(ai[p], c)).unwrap();
    if np != ri.len() - 1 {
        lemma_main_uses(ri, ai, used2, across(ri, np), (fuel - 1) as nat);
    }
}

/// Each city of every edge of `edges` is below `n`.
pub open spec fn endpoints_below(edges: Seq<(usize, usize)>, n: nat) -> bool {
    forall|i: int| 0 <= i < edges.len() ==> #[trigger] edges[i].0 < n && edges[i].1 < n
}

/// The endpoint positions, by `inv`, of each edge of `added`.
fn added_positions_vec(inv: &[usize], added: &[(usize, usize)]) -> (r: Vec<(usize, usize)>)
    requires
        endpoints_below(added@, inv.len() as nat),
    ensures
        r@ == added_positions(inv@, added@),
{
    let mut r: Vec<(usize, usize)> = Vec::new();
    let mut i: usize = 0;
    while i < added.len()
        invariant
            i <= added.len(),
            endpoints_below(added@, inv.len() as nat),
            r@ == added_positions(inv@, added@).take(i as int),
        decreases added.len() - i,
    {
        r.push((inv[added[i].0], inv[added[i].1]));
        i = i + 1;
        proof {
            assert(r@ =~= added_positions(inv@, added@).take(i as int));
        }
    }
    proof {
        assert(r@ =~= added_positions(inv@, added@));
    }
    r
}

/// Whether every city of every edge of `edges` is below `n`.
pub fn endpoints_within(edges: &[(usize, usize)], n: usize) -> (ok: bool)
    ensures
        ok == endpoints_below(edges@, n as nat),
{
    let mut i: usize = 0;
    while i < edges.len()
        invariant
            i <= edges.len(),
            forall|k: int| 0 <= k < i ==> #[trigger] edges@[k].0 < n && edges@[k].1 < n,
        decreases edges.len() - i,
    {
        if edges[i].0 >= n || edges[i].1 >= n {
            return false;
        }
        i = i + 1;
    }
    true
}

/// The walks of `count_cycles` and `test_changes_fast` can be made: some edge
/// is removed, every city named lies in `0..n`, and (for `count_cycles`) the
/// walks never get stuck.
pub open spec fn cycles_defined(
    inv: Seq<usize>,
    added: Seq<(usize, usize)>,
    removed: Seq<(usize, usize)>,
) -> bool {
    &&& removed.len() > 0
    &&& endpoints_below(removed, inv.len() as nat)
    &&& endpoints_below(added, inv.len() as nat)
    &&& cycle_report(inv, added, removed) is Some
}

/// Counts the cycles that adding `added` and removing `removed` leaves, on
/// the positions `inv` of the cities, and lists the steps of every cycle
/// besides the one through city 0. When `check_duplicates` holds, the move is
/// rejected with a count of 1_000_000_000 and no steps. `None` when the count
/// cannot be made (`cycles_defined` fails).
pub(crate) fn count_cycles_at(
    inv: &[usize],
    added: &[(usize, usize)],
    removed: &[(usize, usize)],
) -> (r: Option<(usize, Vec<Vec<(usize, usize)>>)>)
    ensures
        duplicates_spec(added@, removed@) ==> r is Some && r.unwrap().0 == 1_000_000_000
            && r.unwrap().1@.len() == 0,
        !duplicates_spec(added@, removed@) ==> (r is Some <==> cycles_defined(inv@, added@, removed@)),
        !duplicates_spec(added@, removed@) && r is Some ==> {
            let rep = cycle_report(inv@, added@, removed@).unwrap();
            &&& r.unwrap().0 == 1 + rep.len()
            &&& r.unwrap().1@.len() == rep.len()
            &&& forall|i: int| 0 <= i < rep.len() ==> #[trigger] r.unwrap().1@[i]@ == rep[i]
        },
{
    if check_duplicates(added, removed) {
        return Some((1_000_000_000, Vec::new()));
    }
    if removed.len() == 0 || !endpoints_within(removed, inv.len()) || !endpoints_within(
        added,
        inv.len(),
    ) {
        return None;
    }
    let ri = sorted_endpoint_positions(inv, removed);
    let ai = added_positions_vec(inv, added);
    let mut used: Vec<bool> = Vec::new();
    let mut k: usize = 0;
    while k < ai.len()
        invariant
            k <= ai.len(),
            used@ == Seq::new(k as nat, |i: int| false),
        decreases ai.len() - k,
    {
        used.push(false);
        k = k + 1;
        proof {
            assert(used@ =~= Seq::new(k as nat, |i: int| false));
        }
    }
    let ghost used0 = used@;
    let ghost target = main_walk(ri@, ai@, used0, ri@[0], ai.len() as nat);
    proof {
        lemma_count_all_unused(ai.len() as nat);
    }
    let mut current = ri[0];
    loop
        invariant_except_break
            main_walk(ri@, ai@, used@, current, count_unused(used@)) == target,
        invariant
            used.len() == ai.len(),
            ri.len() >= 2,
            target == main_walk(ri@, ai@, used0, ri@[0], ai.len() as nat),
            used0 == Seq::new(ai.len() as nat, |i: int| false),
            ri@ == sorted_version(endpoint_positions(inv@, removed@)),
            ai@ == added_positions(inv@, added@),
            !duplicates_spec(added@, removed@),
            removed.len() > 0,
            endpoints_below(removed@, inv.len() as nat),
            endpoints_below(added@, inv.len() as nat),
        ensures
            target is Some,
            used@ == target.unwrap(),
        decreases count_unused(used@),
    {
        proof {
            lemma_touching_props(ai@, used@, current, 0);
        }
        let p = match first_touching(&ai, &used, current) {
            Some(p) => p,
            None => {
                return None;
            },
        };
        proof {
            lemma_count_flip(used@, p as int);
        }
        used.set(p, true);
        let next = if ai[p].0 == current {
            ai[p].1
        } else {
            ai[p].0
        };
        let np = match first_index(&ri, next) {
            Some(np) => np,
            None => {
                return None;
            },
        };
        proof {
            ri@.index_of_first_ensures(next);
        }
        if np == ri.len() - 1 {
            break ;
        }
        if np == 0 {
            return None;
        }
        current = if np % 2 == 1 {
            ri[np + 1]
        } else {
            ri[np - 1]
        };
    }
    proof {
        lemma_main_uses(ri@, ai@, used0, ri@[0], ai.len() as nat);
    }
    let ghost ext_target = extra_cycles(ri@, ai@, used@, ai.len() as nat);
    let mut cycles: usize = 1;
    let mut all: Vec<Vec<(usize, usize)>> = Vec::new();
    let ghost mut fuel: nat = ai.len() as nat;
    loop
        invariant
            used.len() == ai.len(),
            ri.len() >= 2,
            target is Some,
            ext_target == extra_cycles(ri@, ai@, target.unwrap(), ai.len() as nat),
            cycle_report(inv@, added@, removed@) == ext_target,
            !duplicates_spec(added@, removed@),
            removed.len() > 0,
            endpoints_below(removed@, inv.len() as nat),
            endpoints_below(added@, inv.len() as nat),
            cycles == 1 + all.len(),
            all.len() + count_unused(used@) + 1 <= ai.len(),
            fuel + all.len() == ai.len(),
            extra_cycles(ri@, ai@, used@, fuel) is None ==> ext_target is None,
            extra_cycles(ri@, ai@, used@, fuel) is Some ==> ext_target == Some(
                Seq::new(all.len() as nat, |i: int| all@[i]@) + extra_cycles(
                    ri@,
                    ai@,
                    used@,
                    fuel,
                ).unwrap(),
            ),
        decreases fuel,
    {
        let cs_opt = first_unused(&used);
        if cs_opt.is_none() {
            proof {
                assert(extra_cycles(ri@, ai@, used@, fuel) == Some(Seq::<Seq<(usize, usize)>>::empty()));
                assert(ext_target.unwrap() =~= Seq::new(all.len() as nat, |i: int| all@[i]@));
                assert forall|i: int| 0 <= i < all.len() implies #[trigger] all@[i]@ == ext_target.unwrap()[i] by {
                    assert(Seq::new(all.len() as nat, |i: int| all@[i]@)[i] == all@[i]@);
                }
            }
            return Some((cycles, all));
        }
        let cs = cs_opt.unwrap();
        proof {
            lemma_unused_props(used@, 0);
            lemma_count_positive(used@, cs as int);
        }
        let start = ai[cs].0;
        let mut current = start;
        let mut parts: Vec<(usize, usize)> = Vec::new();
        let ghost used_start = used@;
        let ghost cyc = cycle_from(ri@, ai@, used_start, start, start, count_unused(used_start));
        loop
            invariant_except_break
                cycle_from(ri@, ai@, used@, start, current, count_unused(used@)) is None ==> cyc is None,
                cycle_from(ri@, ai@, used@, start, current, count_unused(used@)) is Some ==> cyc == Some(
                    (
                        cycle_from(ri@, ai@, used@, start, current, count_unused(used@)).unwrap().0,
                        parts@ + cycle_from(ri@, ai@, used@, start, current, count_unused(used@)).unwrap().1,
                    ),
                ),
            invariant
                used.len() == ai.len(),
                cyc == cycle_from(ri@, ai@, used_start, start, start, count_unused(used_start)),
                fuel >= 1,
                extra_cycles(ri@, ai@, used_start, fuel) is None ==> ext_target is None,
                extra_cycles(ri@, ai@, used_start, fuel) is Some ==> ext_target == Some(
                    Seq::new(all.len() as nat, |i: int| all@[i]@) + extra_cycles(
                        ri@,
                        ai@,
                        used_start,
                        fuel,
                    ).unwrap(),
                ),
                unused_from(used_start, 0) == Some(cs as int),
                start == ai@[cs as int].0,
                cycle_report(inv@, added@, removed@) == ext_target,
                !duplicates_spec(added@, removed@),
                removed.len() > 0,
                endpoints_below(removed@, inv.len() as nat),
                endpoints_below(added@, inv.len() as nat),
            ensures
                cyc is Some,
                used@ == cyc.unwrap().0,
                parts@ == cyc.unwrap().1,
            decreases count_unused(used@),
        {
            proof {
                lemma_touching_props(ai@, used@, current, 0);
            }
            let p = match first_touching(&ai, &used, current) {
                Some(p) => p,
                None => {
                    return None;
                },
            };
            proof {
                lemma_count_flip(used@, p as int);
            }
            let ghost before = used@;
            let ghost cur0 = current;
            used.set(p, true);
            let next = if ai[p].0 == current {
                ai[p].1
            } else {
                ai[p].0
            };
            let np = match first_index(&ri, next) {
                Some(np) => np,
                None => {
                    return None;
                },
            };
            proof {
                ri@.index_of_first_ensures(next);
                assert(np < ri.len());
            }
            if np == 0 || (np % 2 == 1 && np + 1 >= ri.len()) {
                return None;
            }
            current = if np % 2 == 1 {
                ri[np + 1]
            } else {
                ri[np - 1]
            };
            let ghost parts0 = parts@;
            parts.push((next, current));
            if current == start {
                proof {
                    assert(cycle_from(ri@, ai@, before, start, cur0, count_unused(before)) == Some(
                        (used@, seq![(next, current)]),
                    ));
                    assert(parts@ =~= parts0 + seq![(next, current)]);
                }
                break ;
            }
            proof {
                if cycle_from(ri@, ai@, used@, start, current, count_unused(used@)) is Some {
                    let rest = cycle_from(ri@, ai@, used@, start, current, count_unused(used@)).unwrap();
                    assert(parts@ + rest.1 =~= parts0 + (seq![(next, current)] + rest.1));
                }
            }
        }
        proof {
            lemma_cycle_uses(ri@, ai@, used_start, start, start, count_unused(used_start));
            if extra_cycles(ri@, ai@, used@, (fuel - 1) as nat) is Some {
                let rest = extra_cycles(ri@, ai@, used@, (fuel - 1) as nat);
                assert(ext_target.unwrap() =~= Seq::new((all.len() + 1) as nat, |i: int|
                    if i < all.len() { all@[i]@ } else { parts@ }) + rest.unwrap());
            }
        }
        let ghost all0 = all@;
        cycles = cycles + 1;
        all.push(parts);
        proof {
            fuel = (fuel - 1) as nat;
            assert(Seq::new(all.len() as nat, |i: int| all@[i]@) =~= Seq::new(all.len() as nat, |i: int|
                if i < all0.len() { all0[i]@ } else { all@[all0.len() as int]@ }));
        }
    }
}

/// One part of a changed tour, as its length is summed up: a stretch of the
/// old tour, or an added edge.
#[derive(Clone, Copy, Debug, PartialEq, Eq)]
pub enum Piece {
    /// The old tour from position `start` to position `end` (run backwards when
    /// `end < start`), with its steps counted from `offset` on.
    Stretch { start: usize, end: usize, offset: usize },
    /// The added edge with index `index`, leaving the city at position `from`,
    /// as the step with number `offset + 1`.
    Jump { index: usize, from: usize, offset: usize },
}

/// The distance between two positions.
pub open spec fn gap(a: usize, b: usize) -> int {
    if a >= b {
        a - b
    } else {
        b - a
    }
}

/// The walk of `main_walk`, also giving the pieces met on the way (each
/// added edge and each stretch after it, with the step counter modulo 10 at
/// their start) and the step counter modulo 10 at the end.
pub open spec fn fast_walk(
    ri: Seq<usize>,
    ai: Seq<(usize, usize)>,
    used: Seq<bool>,
    c: usize,
    off: usize,
    fuel: nat,
) -> Option<(Seq<bool>, Seq<Piece>, usize)>
    decreases fuel,
{
    if fuel == 0 {
        None
    } else {
        match touching_from(ai, used, c, 0) {
            None => None,
            Some(p) => {
                let used2 = used.update(p, true);
                let next = other_end(ai[p], c);
                let jump = Piece::Jump { index: p as usize, from: c, offset: off };
                let off1 = ((off + 1) % 10) as usize;
                match ri.index_of_first(next) {
                    None => None,
                    Some(np) => if np == ri.len() - 1 {
                        Some((used2, seq![jump], off1))
                    } else if np == 0 {
                        None
                    } else {
                        let c2 = across(ri, np);
                        let stretch = Piece::Stretch { start: next, end: c2, offset: off1 };
                        let off2 = ((off1 + gap(next, c2)) % 10) as usize;
                        match fast_walk(ri, ai, used2, c2, off2, (fuel - 1) as nat) {
                            Some(r) => Some((r.0, seq![jump, stretch] + r.1, r.2)),
                            None => None,
                        }
                    },
                }
            },
        }
    }
}

/// The walk of `fast_walk` from the end of the first stretch of tour, or
/// `None` when it gets stuck.
pub open spec fn fast_walk_report(
    inv: Seq<usize>,
    added: Seq<(usize, usize)>,
    removed: Seq<(usize, usize)>,
) -> Option<(Seq<bool>, Seq<Piece>, usize)> {
    let ri = sorted_version(endpoint_positions(inv, removed));
    let ai = added_positions(inv, added);
    fast_walk(ri, ai, Seq::new(ai.len(), |i: int| false), ri[0], (ri[0] % 10) as usize, ai.len())
}

/// The pieces whose lengths add up to the length of the tour changed by the
/// move, when it stays a single tour: the stretch from position 0 to the
/// smallest removed endpoint position, the pieces of the walk, and the stretch
/// from the largest removed endpoint position to the end `n` of the tour;
/// `None` when the walk leaves an added edge unused.
pub open spec fn fast_plan(
    inv: Seq<usize>,
    n: usize,
    added: Seq<(usize, usize)>,
    removed: Seq<(usize, usize)>,
) -> Option<Seq<Piece>> {
    let ri = sorted_version(endpoint_positions(inv, removed));
    let w = fast_walk_report(inv, added, removed).unwrap();
    if count_unused(w.0) == 0 {
        Some(
            seq![Piece::Stretch { start: 0, end: ri[0], offset: 0 }] + w.1 + seq![
                Piece::Stretch { start: ri.last(), end: n, offset: w.2 },
            ],
        )
    } else {
        None
    }
}

proof fn lemma_fast_uses(
    ri: Seq<usize>,
    ai: Seq<(usize, usize)>,
    used: Seq<bool>,
    c: usize,
    off: usize,
    fuel: nat,
)
    requires
        used.len() == ai.len(),
        fast_walk(ri, ai, used, c, off, fuel) is Some,
    ensures
        fast_walk(ri, ai, used, c, off, fuel).unwrap().0.len() == used.len(),
    decreases fuel,
{
    lemma_touching_props(ai, used, c, 0);
    let p = touching_from(ai, used, c, 0).unwrap();
    let used2 = used.update(p, true);
    let np = ri.index_of_first(other_end(ai[p], c)).unwrap();
    if np != ri.len() - 1 {
        let c2 = across(ri, np);
        let off1 = ((off + 1) % 10) as usize;
        let off2 = ((off1 + gap(other_end(ai[p], c), c2)) % 10) as usize;
        lemma_fast_uses(ri, ai, used2, c2, off2, (fuel - 1) as nat);
    }
}

proof fn lemma_same_elements(a: Seq<usize>, b: Seq<usize>)
    requires
        a.to_multiset() == b.to_multiset(),
    ensures
        forall|x: usize| a.contains(x) <==> b.contains(x),
{
    a.to_multiset_ensures();
    b.to_multiset_ensures();
    assert forall|x: usize| a.contains(x) <==> b.contains(x) by {
        assert(a.contains(x) <==> a.to_multiset().count(x) > 0);
        assert(b.contains(x) <==> b.to_multiset().count(x) > 0);
    }
}

pub(crate) proof fn lemma_count_zero(used: Seq<bool>)
    ensures
        count_unused(used) == 0 <==> forall|i: int| 0 <= i < used.len() ==> used[i],
    decreases used.len(),
{
    if used.len() > 0 {
        lemma_count_zero(used.drop_last());
        if count_unused(used) == 0 {
            assert forall|i: int| 0 <= i < used.len() implies used[i] by {
                if i < used.len() - 1 {
                    assert(used.drop_last()[i] == used[i]);
                }
            }
        }
        if forall|i: int| 0 <= i < used.len() ==> used[i] {
            assert forall|i: int| 0 <= i < used.drop_last().len() implies used.drop_last()[i] by {
                assert(used[i]);
            }
        }
    }
}

/// The walk of `test_changes_fast` can be made: some edge is removed, every
/// city named lies in `0..n`, and the walk never gets stuck.
pub open spec fn plan_defined(
    inv: Seq<usize>,
    added: Seq<(usize, usize)>,
    removed: Seq<(usize, usize)>,
) -> bool {
    &&& removed.len() > 0
    &&& endpoints_below(removed, inv.len() as nat)
    &&& endpoints_below(added, inv.len() as nat)
    &&& fast_walk_report(inv, added, removed) is Some
}

/// The pieces that make up the tour changed by the move, as `fast_plan`
/// describes them: `Some(None)` when `check_duplicates` holds or the move does
/// not leave a single tour, `None` when the walk cannot be made
/// (`plan_defined` fails). `n` is the tour's last position.
pub(crate) fn fast_plan_at(
    inv: &[usize],
    n: usize,
    added: &[(usize, usize)],
    removed: &[(usize, usize)],
) -> (r: Option<Option<Vec<Piece>>>)
    requires
        n <= i32::MAX,
        forall|i: int| 0 <= i < inv.len() ==> #[trigger] inv@[i] <= n,
    ensures
        duplicates_spec(added@, removed@) ==> r == Some(None::<Vec<Piece>>),
        !duplicates_spec(added@, removed@) ==> (r is Some <==> plan_defined(inv@, added@, removed@)),
        !duplicates_spec(added@, removed@) && r is Some ==> (r.unwrap() is Some <==> fast_plan(
            inv@,
            n,
            added@,
            removed@,
        ) is Some),
        r matches Some(Some(v)) ==> v@ == fast_plan(inv@, n, added@, removed@).unwrap(),
{
    if check_duplicates(added, removed) {
        return Some(None);
    }
    if removed.len() == 0 || !endpoints_within(removed, inv.len()) || !endpoints_within(
        added,
        inv.len(),
    ) {
        return None;
    }
    let ri = sorted_endpoint_positions(inv, removed);
    let ai = added_positions_vec(inv, added);
    let mut used: Vec<bool> = Vec::new();
    let mut k: usize = 0;
    while k < ai.len()
        invariant
            k <= ai.len(),
            used@ == Seq::new(k as nat, |i: int| false),
        decreases ai.len() - k,
    {
        used.push(false);
        k = k + 1;
        proof {
            assert(used@ =~= Seq::new(k as nat, |i: int| false));
        }
    }
    proof {
        lemma_count_all_unused(ai.len() as nat);
        let flat = endpoint_positions(inv@, removed@);
        lemma_same_elements(ri@, flat);
        assert forall|i: int| 0 <= i < ri@.len() implies #[trigger] ri@[i] <= n by {
            assert(ri@.contains(ri@[i]));
            assert(flat.contains(ri@[i]));
            let k = choose|k: int| 0 <= k < flat.len() && flat[k] == ri@[i];
            let j = k / 2;
            assert(endpoints_below(removed@, inv.len() as nat));
            assert(0 <= j < removed.len());
            let e = removed@[j];
            assert(e.0 < inv.len());
            assert(e.1 < inv.len());
            assert(inv@[removed@[j].0 as int] <= n);
            assert(inv@[removed@[j].1 as int] <= n);
        }
    }
    let ghost target = fast_walk_report(inv@, added@, removed@);
    let mut pieces: Vec<Piece> = Vec::new();
    pieces.push(Piece::Stretch { start: 0, end: ri[0], offset: 0 });
    let mut current = ri[0];
    let mut cur_offset = ri[0] % 10;
    proof {
        if fast_walk(ri@, ai@, used@, current, cur_offset, ai.len() as nat) is Some {
            lemma_fast_uses(ri@, ai@, used@, current, cur_offset, ai.len() as nat);
        }
    }
    loop
        invariant_except_break
            fast_walk(ri@, ai@, used@, current, cur_offset, count_unused(used@)) is None ==> target is None,
            fast_walk(ri@, ai@, used@, current, cur_offset, count_unused(used@)) is Some ==> target == Some((
                fast_walk(ri@, ai@, used@, current, cur_offset, count_unused(used@)).unwrap().0,
                pieces@.drop_first() + fast_walk(ri@, ai@, used@, current, cur_offset, count_unused(used@)).unwrap().1,
                fast_walk(ri@, ai@, used@, current, cur_offset, count_unused(used@)).unwrap().2,
            )),
            cur_offset < 10,
        invariant
            used.len() == ai.len(),
            ri.len() >= 2,
            forall|i: int| 0 <= i < ri@.len() ==> #[trigger] ri@[i] <= n,
            n <= i32::MAX,
            target == fast_walk_report(inv@, added@, removed@),
            !duplicates_spec(added@, removed@),
            removed.len() > 0,
            endpoints_below(removed@, inv.len() as nat),
            endpoints_below(added@, inv.len() as nat),
            pieces@.len() >= 1,
            pieces@[0] == (Piece::Stretch { start: 0, end: ri@[0], offset: 0 }),
        ensures
            target is Some,
            used@ == target.unwrap().0,
            pieces@.drop_first() == target.unwrap().1,
            cur_offset == target.unwrap().2,
        decreases count_unused(used@),
    {
        proof {
            lemma_touching_props(ai@, used@, current, 0);
        }
        let p = match first_touching(&ai, &used, current) {
            Some(p) => p,
            None => {
                return None;
            },
        };
        proof {
            lemma_count_flip(used@, p as int);
        }
        let ghost used_before = used@;
        let ghost cur0 = current;
        let ghost off0 = cur_offset;
        let ghost pieces0 = pieces@;
        used.set(p, true);
        let next = if ai[p].0 == current {
            ai[p].1
        } else {
            ai[p].0
        };
        pieces.push(Piece::Jump { index: p, from: current, offset: cur_offset });
        cur_offset = (cur_offset + 1) % 10;
        let np = match first_index(&ri, next) {
            Some(np) => np,
            None => {
                return None;
            },
        };
        proof {
            ri@.index_of_first_ensures(next);
            assert(np < ri.len());
        }
        if np == ri.len() - 1 {
            proof {
                assert(fast_walk(ri@, ai@, used_before, cur0, off0, count_unused(used_before)) == Some(
                    (used@, seq![Piece::Jump { index: p, from: cur0, offset: off0 }], cur_offset),
                ));
                assert(pieces@.drop_first() =~= pieces0.drop_first() + seq![
                    Piece::Jump { index: p, from: cur0, offset: off0 },
                ]);
            }
            break ;
        }
        if np == 0 {
            return None;
        }
        current = if np % 2 == 1 {
            ri[np + 1]
        } else {
            ri[np - 1]
        };
        pieces.push(Piece::Stretch { start: next, end: current, offset: cur_offset });
        let step = if next >= current {
            next - current
        } else {
            current - next
        };
        cur_offset = (cur_offset + step) % 10;
        proof {
            let rest = fast_walk(ri@, ai@, used@, current, cur_offset, count_unused(used@)).unwrap();
            if fast_walk(ri@, ai@, used@, current, cur_offset, count_unused(used@)) is Some {
            assert(pieces@.drop_first() + rest.1 =~= pieces0.drop_first() + (seq![
                Piece::Jump { index: p, from: cur0, offset: off0 },
                Piece::Stretch { start: next, end: current, offset: ((off0 + 1) % 10) as usize },
            ] + rest.1));
            }
        }
    }
    let all_used = first_unused(&used).is_none();
    proof {
        lemma_unused_props(used@, 0);
        lemma_count_zero(used@);
    }
    if all_used {
        let last = ri[ri.len() - 1];
        let ghost mid = pieces@;
        pieces.push(Piece::Stretch { start: last, end: n, offset: cur_offset });
        proof {
            assert(pieces@ =~= seq![Piece::Stretch { start: 0, end: ri@[0], offset: 0 }] + mid.drop_first() + seq![
                Piece::Stretch { start: ri@.last(), end: n, offset: cur_offset },
            ]);
        }
        Some(Some(pieces))
    } else {
        Some(None)
    }
}


proof fn lemma_fast_walk_is_main_walk(
    ri: Seq<usize>,
    ai: Seq<(usize, usize)>,
    used: Seq<bool>,
    c: usize,
    off: usize,
    fuel: nat,
)
    ensures
        main_walk(ri, ai, used, c, fuel) is Some <==> fast_walk(ri, ai, used, c, off, fuel) is Some,
        main_walk(ri, ai, used, c, fuel) is Some ==> main_walk(ri, ai, used, c, fuel).unwrap()
            == fast_walk(ri, ai, used, c, off, fuel).unwrap().0,
    decreases fuel,
{
    if fuel > 0 {
        match touching_from(ai, used, c, 0) {
            None => {},
            Some(p) => {
                let used2 = used.update(p, true);
                let next = other_end(ai[p], c);
                match ri.index_of_first(next) {
                    None => {},
                    Some(np) => {
                        if np != ri.len() - 1 && np != 0 {
                            let c2 = across(ri, np);
                            let off1 = ((off + 1) % 10) as usize;
                            let off2 = ((off1 + gap(next, c2)) % 10) as usize;
                            lemma_fast_walk_is_main_walk(ri, ai, used2, c2, off2, (fuel - 1) as nat);
                        }
                    },
                }
            },
        }
    }
}

/// A move leaves a single tour by `count_cycles` (no further cycles) exactly
/// when `test_changes_fast` yields a plan: both follow the same walk, and both
/// ask whether it used every added edge.
pub proof fn lemma_single_cycle_iff_plan(
    inv: Seq<usize>,
    n: usize,
    added: Seq<(usize, usize)>,
    removed: Seq<(usize, usize)>,
)
    requires
        cycle_report(inv, added, removed) is Some,
    ensures
        fast_walk_report(inv, added, removed) is Some,
        cycle_report(inv, added, removed).unwrap().len() == 0 <==> fast_plan(inv, n, added, removed) is Some,
{
    let ri = sorted_version(endpoint_positions(inv, removed));
    let ai = added_positions(inv, added);
    let used0 = Seq::new(ai.len(), |i: int| false);
    lemma_fast_walk_is_main_walk(ri, ai, used0, ri[0], (ri[0] % 10) as usize, ai.len());
    let u = main_walk(ri, ai, used0, ri[0], ai.len()).unwrap();
    lemma_unused_props(u, 0);
    lemma_count_zero(u);
    match unused_from(u, 0) {
        None => {},
        Some(cs) => {
            lemma_count_positive(u, cs);
        },
    }
}

} // verus!
