use vstd::prelude::*;
use crate::cycles::{
    across, added_positions, count_unused, endpoint_positions, fast_plan, fast_walk, fast_walk_report, gap, is_sorted,
    lemma_count_all_unused, lemma_count_flip,
    lemma_count_positive, lemma_count_zero, lemma_touching_props, other_end, sorted_version, touching_from, Piece,
};
use crate::edge_moves::{
    apply_moves, closes_at, link, link_all, put_in, slot_full, slots_full, take_out, unlink, unlink_all, walk_cities,
    walk_result, walk_state, walk_step,
};
use crate::tour::{
    is_tour, lemma_tour_covers, neighbour_pair, position_of, positions_match, repeats_edge, same_edge, touches_zero,
};
use crate::two_edges::NOEDGE;

verus! {

/// How many of the two slots `e` hold `x`.
pub open spec fn slot_count(e: (usize, usize), x: usize) -> int {
    (if e.0 == x {
        1int
    } else {
        0int
    }) + (if e.1 == x {
        1int
    } else {
        0int
    })
}

/// How many times the edges `edges` leave `v` for `x` (an edge from `v` to
/// itself leaves `v` twice).
pub open spec fn edge_count(edges: Seq<(usize, usize)>, v: usize, x: usize) -> int
    decreases edges.len(),
{
    if edges.len() == 0 {
        0
    } else {
        edge_count(edges.drop_last(), v, x) + (if edges.last() == (v, x) {
            1int
        } else {
            0int
        }) + (if edges.last() == (x, v) {
            1int
        } else {
            0int
        })
    }
}

/// How many ends of the edges `edges` lie at `v`.
pub open spec fn degree(edges: Seq<(usize, usize)>, v: usize) -> int
    decreases edges.len(),
{
    if edges.len() == 0 {
        0
    } else {
        degree(edges.drop_last(), v) + (if edges.last().0 == v {
            1int
        } else {
            0int
        }) + (if edges.last().1 == v {
            1int
        } else {
            0int
        })
    }
}

proof fn lemma_edge_count_nonneg(edges: Seq<(usize, usize)>, v: usize, x: usize)
    ensures
        edge_count(edges, v, x) >= 0,
        x == NOEDGE && (forall|i: int| 0 <= i < edges.len() ==> (#[trigger] edges[i]).0 < NOEDGE
            && edges[i].1 < NOEDGE) ==> edge_count(edges, v, x) == 0,
    decreases edges.len(),
{
    if edges.len() > 0 {
        lemma_edge_count_nonneg(edges.drop_last(), v, x);
        if x == NOEDGE && (forall|i: int| 0 <= i < edges.len() ==> (#[trigger] edges[i]).0 < NOEDGE
            && edges[i].1 < NOEDGE) {
            assert(edges.last() == edges[edges.len() - 1]);
            assert forall|i: int| 0 <= i < edges.drop_last().len() implies (#[trigger] edges.drop_last()[i]).0
                < NOEDGE && edges.drop_last()[i].1 < NOEDGE by {
                assert(edges.drop_last()[i] == edges[i]);
            }
        }
    }
}

/// Taking `y` out of the slots `e` leaves one `y` fewer and one more empty slot.
pub(crate) proof fn lemma_take_out_count(e: (usize, usize), y: usize, x: usize)
    requires
        take_out(e, y) is Some,
        y != NOEDGE,
    ensures
        slot_count(take_out(e, y).unwrap(), x) == slot_count(e, x) - (if x == y {
            1int
        } else {
            0int
        }) + (if x == NOEDGE {
            1int
        } else {
            0int
        }),
{
}

/// Putting `y` into the slots `e` adds one `y` and fills one empty slot.
pub(crate) proof fn lemma_put_in_count(e: (usize, usize), y: usize, x: usize)
    requires
        put_in(e, y) is Some,
        y != NOEDGE,
    ensures
        slot_count(put_in(e, y).unwrap(), x) == slot_count(e, x) + (if x == y {
            1int
        } else {
            0int
        }) - (if x == NOEDGE {
            1int
        } else {
            0int
        }),
{
}

/// The change that removing (`sign == -1`) or adding (`sign == 1`) the edge
/// `a`-`b` makes to how often `v`'s slots hold `x`.
pub open spec fn edge_effect(a: usize, b: usize, v: usize, x: usize) -> int {
    (if (v, x) == (a, b) {
        1int
    } else {
        0int
    }) + (if (v, x) == (b, a) {
        1int
    } else {
        0int
    }) - (if x == NOEDGE {
        (if v == a {
            1int
        } else {
            0int
        }) + (if v == b {
            1int
        } else {
            0int
        })
    } else {
        0int
    })
}

proof fn lemma_unlink_count(s: Seq<(usize, usize)>, a: usize, b: usize, v: int, x: usize)
    requires
        unlink(s, a, b) is Some,
        s.len() <= NOEDGE,
        0 <= v < s.len(),
    ensures
        unlink(s, a, b).unwrap().len() == s.len(),
        slot_count(unlink(s, a, b).unwrap()[v], x) == slot_count(s[v], x) - edge_effect(a, b, v as usize, x),
{
    let s1 = s.update(a as int, take_out(s[a as int], b).unwrap());
    lemma_take_out_count(s[a as int], b, x);
    lemma_take_out_count(s1[b as int], a, x);
}

proof fn lemma_link_count(s: Seq<(usize, usize)>, a: usize, b: usize, v: int, x: usize)
    requires
        link(s, a, b) is Some,
        s.len() <= NOEDGE,
        0 <= v < s.len(),
    ensures
        link(s, a, b).unwrap().len() == s.len(),
        slot_count(link(s, a, b).unwrap()[v], x) == slot_count(s[v], x) + edge_effect(a, b, v as usize, x),
{
    let s1 = s.update(a as int, put_in(s[a as int], b).unwrap());
    lemma_put_in_count(s[a as int], b, x);
    lemma_put_in_count(s1[b as int], a, x);
}

/// The effect of the edges `edges` on how often `v`'s slots hold `x`: the
/// times they leave `v` for `x`, less (for `x == NOEDGE`) their ends at `v`.
pub open spec fn edges_effect(edges: Seq<(usize, usize)>, v: usize, x: usize) -> int {
    edge_count(edges, v, x) - (if x == NOEDGE {
        degree(edges, v)
    } else {
        0int
    })
}

proof fn lemma_edges_effect_step(edges: Seq<(usize, usize)>, v: usize, x: usize)
    requires
        edges.len() > 0,
    ensures
        edges_effect(edges, v, x) == edges_effect(edges.drop_last(), v, x) + edge_effect(
            edges.last().0,
            edges.last().1,
            v,
            x,
        ),
{
}

/// After removing the edges `edges`, `v`'s slots hold `x` as often as before,
/// less the effect of those edges.
pub(crate) proof fn lemma_unlink_all_count(s: Seq<(usize, usize)>, edges: Seq<(usize, usize)>, v: int, x: usize)
    requires
        unlink_all(s, edges) is Some,
        s.len() <= NOEDGE,
        0 <= v < s.len(),
    ensures
        unlink_all(s, edges).unwrap().len() == s.len(),
        slot_count(unlink_all(s, edges).unwrap()[v], x) == slot_count(s[v], x) - edges_effect(
            edges,
            v as usize,
            x,
        ),
    decreases edges.len(),
{
    if edges.len() > 0 {
        lemma_unlink_all_count(s, edges.drop_last(), v, x);
        let s1 = unlink_all(s, edges.drop_last()).unwrap();
        lemma_unlink_count(s1, edges.last().0, edges.last().1, v, x);
        lemma_edges_effect_step(edges, v as usize, x);
    }
}

/// After adding the edges `edges`, `v`'s slots hold `x` as often as before,
/// plus the effect of those edges.
pub(crate) proof fn lemma_link_all_count(s: Seq<(usize, usize)>, edges: Seq<(usize, usize)>, v: int, x: usize)
    requires
        link_all(s, edges) is Some,
        s.len() <= NOEDGE,
        0 <= v < s.len(),
    ensures
        link_all(s, edges).unwrap().len() == s.len(),
        slot_count(link_all(s, edges).unwrap()[v], x) == slot_count(s[v], x) + edges_effect(
            edges,
            v as usize,
            x,
        ),
    decreases edges.len(),
{
    if edges.len() > 0 {
        lemma_link_all_count(s, edges.drop_last(), v, x);
        let s1 = link_all(s, edges.drop_last()).unwrap();
        lemma_link_count(s1, edges.last().0, edges.last().1, v, x);
        lemma_edges_effect_step(edges, v as usize, x);
    }
}

/// After a move, `v`'s slots hold `x` as often as before, less the effect of
/// the removed edges, plus that of the added ones.
pub proof fn lemma_apply_moves_count(
    s: Seq<(usize, usize)>,
    added: Seq<(usize, usize)>,
    removed: Seq<(usize, usize)>,
    v: int,
    x: usize,
)
    requires
        apply_moves(s, added, removed) is Some,
        s.len() <= NOEDGE,
        0 <= v < s.len(),
    ensures
        apply_moves(s, added, removed).unwrap().len() == s.len(),
        slot_count(apply_moves(s, added, removed).unwrap()[v], x) == slot_count(s[v], x) - edges_effect(
            removed,
            v as usize,
            x,
        ) + edges_effect(added, v as usize, x),
{
    lemma_unlink_all_count(s, removed, v, x);
    let s1 = unlink_all(s, removed).unwrap();
    lemma_link_all_count(s1, added, v, x);
}

/// The entry at index `2 * j`: the first of the `j`-th pair.
pub open spec fn first_of_pair(e: Seq<usize>, j: int) -> usize {
    e[2 * j]
}

/// The entry at index `2 * j + 1`: the second of the `j`-th pair.
pub open spec fn second_of_pair(e: Seq<usize>, j: int) -> usize {
    e[2 * j + 1]
}

/// The smaller entry of the `j`-th pair.
pub open spec fn low_of(e: Seq<usize>, j: int) -> usize {
    if first_of_pair(e, j) <= second_of_pair(e, j) {
        first_of_pair(e, j)
    } else {
        second_of_pair(e, j)
    }
}

/// The `j`-th pair holds two neighbouring numbers.
pub open spec fn pair_adjacent(e: Seq<usize>, j: int) -> bool {
    second_of_pair(e, j) == first_of_pair(e, j) + 1 || first_of_pair(e, j) == second_of_pair(e, j) + 1
}

/// `e` splits into pairs of neighbouring numbers, no two pairs with the same
/// smaller entry (as the positions of distinct tour edges do).
pub open spec fn paired(e: Seq<usize>) -> bool {
    &&& e.len() % 2 == 0
    &&& forall|j: int| 0 <= j < e.len() / 2 ==> #[trigger] pair_adjacent(e, j)
    &&& forall|j: int, k: int|
        0 <= j < k < e.len() / 2 ==> #[trigger] low_of(e, j) != #[trigger] low_of(e, k)
}

proof fn lemma_low_in(e: Seq<usize>, j: int)
    requires
        paired(e),
        0 <= j < e.len() / 2,
    ensures
        e.contains(low_of(e, j)),
        e.contains((low_of(e, j) + 1) as usize),
        low_of(e, j) + 1 <= usize::MAX,
{
    assert(pair_adjacent(e, j));
    assert(e[2 * j] == first_of_pair(e, j));
    assert(e[2 * j + 1] == second_of_pair(e, j));
}

/// In `e` without its `j`-th pair, the pairs keep their order.
proof fn lemma_drop_pair(e: Seq<usize>, j: int)
    requires
        paired(e),
        0 <= j < e.len() / 2,
    ensures
        ({
            let d = e.remove(2 * j + 1).remove(2 * j);
            &&& d.len() == e.len() - 2
            &&& forall|k: int| 0 <= k < j ==> #[trigger] first_of_pair(d, k) == first_of_pair(e, k)
                && second_of_pair(d, k) == second_of_pair(e, k)
            &&& forall|k: int| j <= k < d.len() / 2 ==> #[trigger] first_of_pair(d, k) == first_of_pair(e, k + 1)
                && second_of_pair(d, k) == second_of_pair(e, k + 1)
            &&& paired(d)
            &&& d.to_multiset() =~= e.to_multiset().remove(second_of_pair(e, j)).remove(first_of_pair(e, j))
        }),
{
    broadcast use vstd::seq_lib::group_seq_properties;

    let d1 = e.remove(2 * j + 1);
    let d = d1.remove(2 * j);
    assert forall|k: int| 0 <= k < j implies #[trigger] first_of_pair(d, k) == first_of_pair(e, k)
        && second_of_pair(d, k) == second_of_pair(e, k) by {
        assert(d[2 * k] == e[2 * k]);
        assert(d[2 * k + 1] == e[2 * k + 1]);
    }
    assert forall|k: int| j <= k < d.len() / 2 implies #[trigger] first_of_pair(d, k) == first_of_pair(e, k + 1)
        && second_of_pair(d, k) == second_of_pair(e, k + 1) by {
        assert(d[2 * k] == e[2 * k + 2]);
        assert(d[2 * k + 1] == e[2 * k + 3]);
    }
    assert forall|k: int| 0 <= k < d.len() / 2 implies #[trigger] pair_adjacent(d, k) by {
        if k < j {
            assert(first_of_pair(d, k) == first_of_pair(e, k));
            assert(pair_adjacent(e, k));
        } else {
            assert(first_of_pair(d, k) == first_of_pair(e, k + 1));
            assert(pair_adjacent(e, k + 1));
        }
    }
    assert forall|a: int, b: int| 0 <= a < b < d.len() / 2 implies #[trigger] low_of(d, a) != #[trigger] low_of(
        d,
        b,
    ) by {
        let a2 = if a < j { a } else { a + 1 };
        let b2 = if b < j { b } else { b + 1 };
        assert(first_of_pair(d, a) == first_of_pair(e, a2));
        assert(first_of_pair(d, b) == first_of_pair(e, b2));
        assert(low_of(d, a) == low_of(e, a2));
        assert(low_of(d, b) == low_of(e, b2));
        assert(low_of(e, a2) != low_of(e, b2));
    }
    e.to_multiset_ensures();
    d1.to_multiset_ensures();
    assert(e[2 * j + 1] == second_of_pair(e, j));
    assert(d1[2 * j] == first_of_pair(e, j));
}

/// No entry of `e` is smaller than `ri[0]`, the smallest one.
proof fn lemma_first_is_least(ri: Seq<usize>, e: Seq<usize>, x: usize)
    requires
        is_sorted(ri),
        ri.to_multiset() == e.to_multiset(),
        e.contains(x),
    ensures
        ri.len() > 0,
        ri[0] <= x,
{
    ri.to_multiset_ensures();
    e.to_multiset_ensures();
    assert(e.to_multiset().count(x) > 0);
    assert(ri.contains(x));
    let k = choose|k: int| 0 <= k < ri.len() && ri[k] == x;
}

/// The smallest entry of a sorted arrangement of paired numbers is the smaller
/// entry of some pair, and occurs only once.
proof fn lemma_least_pair(ri: Seq<usize>, e: Seq<usize>) -> (j: int)
    requires
        is_sorted(ri),
        ri.to_multiset() == e.to_multiset(),
        paired(e),
        e.len() > 0,
    ensures
        0 <= j < e.len() / 2,
        ri[0] == low_of(e, j),
        e.to_multiset().count(ri[0]) == 1,
{
    ri.to_multiset_ensures();
    e.to_multiset_ensures();
    assert(ri.len() == e.len());
    assert(ri.contains(ri[0]));
    assert(ri.to_multiset().count(ri[0]) > 0);
    assert(e.to_multiset().count(ri[0]) > 0);
    assert(e.contains(ri[0]));
    let i = choose|i: int| 0 <= i < e.len() && e[i] == ri[0];
    let j = i / 2;
    assert(pair_adjacent(e, j));
    assert(first_of_pair(e, j) == e[2 * j]);
    assert(second_of_pair(e, j) == e[2 * j + 1]);
    lemma_low_in(e, j);
    let lo = low_of(e, j);
    lemma_first_is_least(ri, e, lo);
    assert(lo == ri[0]);
    let d = e.remove(2 * j + 1).remove(2 * j);
    lemma_drop_pair(e, j);
    d.to_multiset_ensures();
    if d.contains(lo) {
        let k = choose|k: int| 0 <= k < d.len() && d[k] == lo;
        let kk = k / 2;
        assert(pair_adjacent(d, kk));
        assert(first_of_pair(d, kk) == d[2 * kk]);
        assert(second_of_pair(d, kk) == d[2 * kk + 1]);
        let k2 = if kk < j { kk } else { kk + 1 };
        assert(first_of_pair(d, kk) == first_of_pair(e, k2));
        assert(second_of_pair(d, kk) == second_of_pair(e, k2));
        assert(low_of(d, kk) == low_of(e, k2));
        if low_of(d, kk) == lo {
            if k2 < j {
                assert(low_of(e, k2) != low_of(e, j));
            } else {
                assert(low_of(e, j) != low_of(e, k2));
            }
        } else {
            lemma_low_in(d, kk);
            assert(d.to_multiset().count(low_of(d, kk)) > 0);
            assert(e.contains(low_of(d, kk)));
            lemma_first_is_least(ri, e, low_of(d, kk));
        }
    }
    assert(d.to_multiset().count(lo) == 0);
    j
}

/// A sorted arrangement of paired numbers starts with the pair of the
/// smallest entry, in ascending order.
proof fn lemma_least_two(ri: Seq<usize>, e: Seq<usize>, j: int)
    requires
        is_sorted(ri),
        ri.to_multiset() == e.to_multiset(),
        paired(e),
        0 <= j < e.len() / 2,
        ri[0] == low_of(e, j),
        e.to_multiset().count(ri[0]) == 1,
    ensures
        ri.len() >= 2,
        ri[1] == ri[0] + 1,
{
    ri.to_multiset_ensures();
    e.to_multiset_ensures();
    lemma_low_in(e, j);
    let lo = ri[0];
    assert(ri.len() == e.len());
    let r2 = ri.remove(0);
    r2.to_multiset_ensures();
    if ri[1] == lo {
        assert(r2[0] == lo);
        assert(r2.contains(lo));
        assert(ri.to_multiset().count(lo) == r2.to_multiset().count(lo) + 1);
    }
    assert(e.to_multiset().count((lo + 1) as usize) > 0);
    assert(ri.contains((lo + 1) as usize));
    let k = choose|k: int| 0 <= k < ri.len() && ri[k] == lo + 1;
    assert(k != 0);
    assert(ri[1] <= ri[k]);
}

/// A sorted sequence without its first two entries: still sorted, its pairs
/// are the later pairs, and its multiset lacks those two entries.
proof fn lemma_drop_first_two(ri: Seq<usize>)
    requires
        is_sorted(ri),
        ri.len() >= 2,
    ensures
        ({
            let r = ri.subrange(2, ri.len() as int);
            &&& is_sorted(r)
            &&& r.to_multiset() =~= ri.to_multiset().remove(ri[0]).remove(ri[1])
            &&& forall|a: int| 0 <= a < r.len() / 2 ==> #[trigger] first_of_pair(r, a) == first_of_pair(ri, a + 1)
                && second_of_pair(r, a) == second_of_pair(ri, a + 1)
        }),
{
    let r = ri.subrange(2, ri.len() as int);
    let r1 = ri.remove(0);
    r1.to_multiset_ensures();
    ri.to_multiset_ensures();
    assert(r1.remove(0) =~= r);
    assert(r1[0] == ri[1]);
    assert forall|a: int, b: int| 0 <= a <= b < r.len() implies r[a] <= r[b] by {
        assert(r[a] == ri[a + 2]);
        assert(r[b] == ri[b + 2]);
    }
    assert forall|a: int| 0 <= a < r.len() / 2 implies #[trigger] first_of_pair(r, a) == first_of_pair(ri, a + 1)
        && second_of_pair(r, a) == second_of_pair(ri, a + 1) by {
        assert(r[2 * a] == ri[2 * (a + 1)]);
        assert(r[2 * a + 1] == ri[2 * (a + 1) + 1]);
    }
}

proof fn lemma_ms_len(a: Seq<usize>, b: Seq<usize>)
    requires
        a.to_multiset() == b.to_multiset(),
    ensures
        a.len() == b.len(),
{
    a.to_multiset_ensures();
    b.to_multiset_ensures();
}

/// The conclusions of `lemma_sorted_pairs`.
pub open spec fn sorted_pairs_facts(ri: Seq<usize>, e: Seq<usize>) -> bool {
    &&& ri.len() == e.len()
    &&& forall|j: int| 0 <= j < ri.len() / 2 ==> #[trigger] second_of_pair(ri, j) == first_of_pair(ri, j) + 1
    &&& forall|j: int|
        0 <= j < ri.len() / 2 ==> exists|k: int| 0 <= k < e.len() / 2 && low_of(e, k) == #[trigger] first_of_pair(ri, j)
    &&& forall|k: int|
        0 <= k < e.len() / 2 ==> exists|j: int| 0 <= j < ri.len() / 2 && first_of_pair(ri, j) == #[trigger] low_of(e, k)
}

/// The conclusions for the arrangement without its first pair carry over to
/// the whole, given that it starts with the `j`-th pair in ascending order.
proof fn lemma_sorted_pairs_lift(ri: Seq<usize>, e: Seq<usize>, j: int)
    requires
        paired(e),
        ri.len() == e.len(),
        ri.len() >= 2,
        0 <= j < e.len() / 2,
        ri[0] == low_of(e, j),
        ri[1] == ri[0] + 1,
        sorted_pairs_facts(ri.subrange(2, ri.len() as int), e.remove(2 * j + 1).remove(2 * j)),
        forall|a: int| 0 <= a < (ri.len() - 2) / 2 ==> #[trigger] first_of_pair(ri.subrange(2, ri.len() as int), a)
            == first_of_pair(ri, a + 1) && second_of_pair(ri.subrange(2, ri.len() as int), a) == second_of_pair(ri, a + 1),
    ensures
        sorted_pairs_facts(ri, e),
{
    let r = ri.subrange(2, ri.len() as int);
    let d = e.remove(2 * j + 1).remove(2 * j);
    lemma_drop_pair(e, j);
    assert(first_of_pair(ri, 0) == ri[0]);
    assert(second_of_pair(ri, 0) == ri[1]);
    assert forall|a: int| 0 <= a < ri.len() / 2 implies #[trigger] second_of_pair(ri, a) == first_of_pair(ri, a)
        + 1 by {
        if a > 0 {
            assert(first_of_pair(r, a - 1) == first_of_pair(ri, a));
            assert(second_of_pair(r, a - 1) == second_of_pair(ri, a));
        }
    }
    assert forall|a: int| 0 <= a < ri.len() / 2 implies exists|k: int|
        0 <= k < e.len() / 2 && low_of(e, k) == #[trigger] first_of_pair(ri, a) by {
        if a == 0 {
            assert(low_of(e, j) == first_of_pair(ri, 0));
        } else {
            assert(first_of_pair(r, a - 1) == first_of_pair(ri, a));
            let k = choose|k: int| 0 <= k < d.len() / 2 && low_of(d, k) == #[trigger] first_of_pair(r, a - 1);
            let k2 = if k < j { k } else { k + 1 };
            assert(first_of_pair(d, k) == first_of_pair(e, k2));
            assert(low_of(d, k) == low_of(e, k2));
        }
    }
    assert forall|k: int| 0 <= k < e.len() / 2 implies exists|a: int|
        0 <= a < ri.len() / 2 && first_of_pair(ri, a) == #[trigger] low_of(e, k) by {
        if k == j {
            assert(first_of_pair(ri, 0) == low_of(e, j));
        } else {
            let k2 = if k < j { k } else { k - 1 };
            assert(first_of_pair(d, k2) == first_of_pair(e, k));
            assert(low_of(d, k2) == low_of(e, k));
            let a = choose|a: int| 0 <= a < r.len() / 2 && first_of_pair(r, a) == #[trigger] low_of(d, k2);
            assert(first_of_pair(r, a) == first_of_pair(ri, a + 1));
        }
    }
}

/// A sorted arrangement `ri` of numbers that split into pairs of neighbours
/// (no two pairs with the same smaller entry) is made of those pairs, each in
/// ascending order: `ri[2j + 1] == ri[2j] + 1`, and the `ri[2j]` are exactly
/// the smaller entries of the pairs.
pub proof fn lemma_sorted_pairs(ri: Seq<usize>, e: Seq<usize>)
    requires
        is_sorted(ri),
        ri.to_multiset() == e.to_multiset(),
        paired(e),
    ensures
        sorted_pairs_facts(ri, e),
    decreases e.len(),
{
    lemma_ms_len(ri, e);
    if e.len() == 0 {
        return;
    }
    let j = lemma_least_pair(ri, e);
    lemma_least_two(ri, e, j);
    let lo = ri[0];
    let d = e.remove(2 * j + 1).remove(2 * j);
    lemma_drop_pair(e, j);
    let r = ri.subrange(2, ri.len() as int);
    lemma_drop_first_two(ri);
    assert(r.to_multiset() =~= d.to_multiset()) by {
        assert(pair_adjacent(e, j));
        if first_of_pair(e, j) == lo {
            assert(second_of_pair(e, j) == lo + 1);
        } else {
            assert(second_of_pair(e, j) == lo);
            assert(first_of_pair(e, j) == lo + 1);
        }
    }
    lemma_sorted_pairs(r, d);
    lemma_sorted_pairs_lift(ri, e, j);
}

/// How many ends of the edge `e` lie at `q`.
pub open spec fn ends_at(e: (usize, usize), q: usize) -> int {
    (if e.0 == q {
        1int
    } else {
        0int
    }) + (if e.1 == q {
        1int
    } else {
        0int
    })
}

/// How often the single edge `e` leaves `q` for `w`.
pub open spec fn joins(e: (usize, usize), q: usize, w: usize) -> int {
    (if e == (q, w) {
        1int
    } else {
        0int
    }) + (if e == (w, q) {
        1int
    } else {
        0int
    })
}

proof fn lemma_counts_concat(a: Seq<(usize, usize)>, b: Seq<(usize, usize)>, q: usize, w: usize)
    ensures
        edge_count(a + b, q, w) == edge_count(a, q, w) + edge_count(b, q, w),
        degree(a + b, q) == degree(a, q) + degree(b, q),
    decreases b.len(),
{
    if b.len() > 0 {
        lemma_counts_concat(a, b.drop_last(), q, w);
        assert((a + b).drop_last() =~= a + b.drop_last());
        assert((a + b).last() == b.last());
    } else {
        assert(a + b =~= a);
    }
}

/// Taking the `i`-th edge out of `edges` lowers the counts at `q` by that edge's share.
pub(crate) proof fn lemma_counts_remove(edges: Seq<(usize, usize)>, i: int, q: usize, w: usize)
    requires
        0 <= i < edges.len(),
    ensures
        edge_count(edges, q, w) == edge_count(edges.remove(i), q, w) + joins(edges[i], q, w),
        degree(edges, q) == degree(edges.remove(i), q) + ends_at(edges[i], q),
{
    let a = edges.take(i);
    let b = edges.skip(i + 1);
    let one = seq![edges[i]];
    assert(edges =~= a + one + b);
    assert(edges.remove(i) =~= a + b);
    lemma_counts_concat(a + one, b, q, w);
    lemma_counts_concat(a, one, q, w);
    lemma_counts_concat(a, b, q, w);
    assert(one.drop_last() =~= Seq::<(usize, usize)>::empty());
    assert(one.last() == edges[i]);
    assert(edge_count(one.drop_last(), q, w) == 0);
    assert(degree(one.drop_last(), q) == 0);
    assert(edge_count(one, q, w) == joins(edges[i], q, w));
    assert(degree(one, q) == ends_at(edges[i], q));
}

/// The counts at `q` are never negative, and the times the edges leave `q`
/// for `w` are at most their ends at `q`.
pub(crate) proof fn lemma_count_le_degree(edges: Seq<(usize, usize)>, q: usize, w: usize)
    ensures
        0 <= edge_count(edges, q, w) <= degree(edges, q),
    decreases edges.len(),
{
    if edges.len() > 0 {
        lemma_count_le_degree(edges.drop_last(), q, w);
    }
}

/// Some edge has an end at `q` exactly when the edges have ends at `q`.
proof fn lemma_degree_positive(edges: Seq<(usize, usize)>, q: usize)
    ensures
        degree(edges, q) >= 0,
        degree(edges, q) > 0 <==> exists|i: int| 0 <= i < edges.len() && #[trigger] ends_at(edges[i], q) > 0,
    decreases edges.len(),
{
    if edges.len() > 0 {
        let d = edges.drop_last();
        lemma_degree_positive(d, q);
        if degree(d, q) > 0 {
            let i = choose|i: int| 0 <= i < d.len() && #[trigger] ends_at(d[i], q) > 0;
            assert(edges[i] == d[i]);
            assert(ends_at(edges[i], q) > 0);
        } else if degree(edges, q) > 0 {
            assert(edges.last() == edges[edges.len() - 1]);
            assert(ends_at(edges[edges.len() - 1], q) > 0);
        }
        if exists|i: int| 0 <= i < edges.len() && #[trigger] ends_at(edges[i], q) > 0 {
            let i = choose|i: int| 0 <= i < edges.len() && #[trigger] ends_at(edges[i], q) > 0;
            if i < d.len() {
                assert(d[i] == edges[i]);
                assert(ends_at(d[i], q) > 0);
            } else {
                assert(edges.last() == edges[i]);
            }
        }
    }
}

/// With a single end at `q`, held by the edge `p`, the edges leave `q` only
/// for the other end of `p`.
proof fn lemma_single_end(edges: Seq<(usize, usize)>, p: int, q: usize, w: usize)
    requires
        0 <= p < edges.len(),
        degree(edges, q) == 1,
        ends_at(edges[p], q) >= 1,
    ensures
        edge_count(edges, q, w) == if w == other_end(edges[p], q) {
            1int
        } else {
            0int
        },
{
    lemma_counts_remove(edges, p, q, w);
    lemma_count_le_degree(edges.remove(p), q, w);
    lemma_degree_positive(edges.remove(p), q);
}

/// With two ends at `q`, held by the distinct edges `p1` and `p2`, the edges
/// leave `q` only for the other ends of `p1` and `p2`.
proof fn lemma_double_end(edges: Seq<(usize, usize)>, p1: int, p2: int, q: usize, w: usize)
    requires
        0 <= p1 < edges.len(),
        0 <= p2 < edges.len(),
        p1 != p2,
        degree(edges, q) == 2,
        ends_at(edges[p1], q) == 1,
        ends_at(edges[p2], q) == 1,
    ensures
        edge_count(edges, q, w) == (if w == other_end(edges[p1], q) {
            1int
        } else {
            0int
        }) + (if w == other_end(edges[p2], q) {
            1int
        } else {
            0int
        }),
{
    lemma_counts_remove(edges, p1, q, w);
    let r = edges.remove(p1);
    let p2b = if p2 < p1 { p2 } else { p2 - 1 };
    assert(r[p2b] == edges[p2]);
    lemma_counts_remove(r, p2b, q, w);
    lemma_count_le_degree(r.remove(p2b), q, w);
}

/// Every end of `edges` is a city other than city 0, below `n`.
pub open spec fn ends_inside(edges: Seq<(usize, usize)>, n: nat) -> bool {
    forall|i: int| 0 <= i < edges.len() ==> 0 < (#[trigger] edges[i]).0 < n && 0 < edges[i].1 < n
}

/// A city other than 0 stands at its position, which lies strictly inside the tour.
proof fn lemma_city_position(path: Seq<usize>, inv: Seq<usize>, a: usize)
    requires
        is_tour(path, (path.len() - 1) as nat),
        positions_match(path, inv),
        0 < a < path.len() - 1,
    ensures
        1 <= inv[a as int] < path.len() - 1,
        path[inv[a as int] as int] == a,
{
    let n = (path.len() - 1) as nat;
    lemma_tour_covers(path, n);
    let i = position_of(path, n, a as int);
    assert(0 <= i < n && path[i] == a);
    assert(i != 0);
    assert(inv[path[i] as int] == i);
}

/// Counted at cities, edges between cities other than 0 leave the city at
/// position `q` for the city at position `w` as often as their positions do.
proof fn lemma_position_counts(path: Seq<usize>, inv: Seq<usize>, edges: Seq<(usize, usize)>, q: int, w: int)
    requires
        is_tour(path, (path.len() - 1) as nat),
        positions_match(path, inv),
        ends_inside(edges, (path.len() - 1) as nat),
        1 <= q < path.len() - 1,
        1 <= w < path.len() - 1,
    ensures
        edge_count(edges, path[q], path[w]) == edge_count(added_positions(inv, edges), q as usize, w as usize),
        degree(edges, path[q]) == degree(added_positions(inv, edges), q as usize),
    decreases edges.len(),
{
    if edges.len() > 0 {
        let d = edges.drop_last();
        assert forall|i: int| 0 <= i < d.len() implies 0 < (#[trigger] d[i]).0 < path.len() - 1 && 0 < d[i].1
            < path.len() - 1 by {
            assert(d[i] == edges[i]);
        }
        lemma_position_counts(path, inv, d, q, w);
        assert(added_positions(inv, d) =~= added_positions(inv, edges).drop_last());
        let e = edges.last();
        assert(e == edges[edges.len() - 1]);
        lemma_city_position(path, inv, e.0);
        lemma_city_position(path, inv, e.1);
        assert(inv[path[q] as int] == q);
        assert(inv[path[w] as int] == w);
        assert(added_positions(inv, edges).last() == (inv[e.0 as int], inv[e.1 as int]));
    }
}

/// No edge between cities other than 0 reaches city 0.
proof fn lemma_no_zero_counts(edges: Seq<(usize, usize)>, n: nat, x: usize)
    requires
        ends_inside(edges, n),
    ensures
        edge_count(edges, x, 0) == 0,
        degree(edges, 0) == 0,
    decreases edges.len(),
{
    if edges.len() > 0 {
        let d = edges.drop_last();
        assert forall|i: int| 0 <= i < d.len() implies 0 < (#[trigger] d[i]).0 < n && 0 < d[i].1 < n by {
            assert(d[i] == edges[i]);
        }
        lemma_no_zero_counts(d, n, x);
        assert(edges.last() == edges[edges.len() - 1]);
    }
}

proof fn lemma_unlink_all_untouched(s: Seq<(usize, usize)>, edges: Seq<(usize, usize)>, v: int)
    requires
        unlink_all(s, edges) is Some,
        0 <= v < s.len(),
        degree(edges, v as usize) == 0,
    ensures
        unlink_all(s, edges).unwrap().len() == s.len(),
        unlink_all(s, edges).unwrap()[v] == s[v],
    decreases edges.len(),
{
    if edges.len() > 0 {
        let d = edges.drop_last();
        lemma_degree_positive(d, v as usize);
        if degree(d, v as usize) > 0 {
            let i = choose|i: int| 0 <= i < d.len() && #[trigger] ends_at(d[i], v as usize) > 0;
            lemma_degree_positive(edges, v as usize);
            assert(edges[i] == d[i]);
            assert(ends_at(edges[i], v as usize) > 0);
        }
        lemma_unlink_all_untouched(s, d, v);
    }
}

proof fn lemma_link_all_untouched(s: Seq<(usize, usize)>, edges: Seq<(usize, usize)>, v: int)
    requires
        link_all(s, edges) is Some,
        0 <= v < s.len(),
        degree(edges, v as usize) == 0,
    ensures
        link_all(s, edges).unwrap().len() == s.len(),
        link_all(s, edges).unwrap()[v] == s[v],
    decreases edges.len(),
{
    if edges.len() > 0 {
        let d = edges.drop_last();
        lemma_degree_positive(d, v as usize);
        if degree(d, v as usize) > 0 {
            let i = choose|i: int| 0 <= i < d.len() && #[trigger] ends_at(d[i], v as usize) > 0;
            lemma_degree_positive(edges, v as usize);
            assert(edges[i] == d[i]);
            assert(ends_at(edges[i], v as usize) > 0);
        }
        lemma_link_all_untouched(s, d, v);
    }
}

/// A move leaves the slots of a city that none of its edges reaches as they were.
proof fn lemma_apply_moves_untouched(
    s: Seq<(usize, usize)>,
    added: Seq<(usize, usize)>,
    removed: Seq<(usize, usize)>,
    v: int,
)
    requires
        apply_moves(s, added, removed) is Some,
        0 <= v < s.len(),
        degree(added, v as usize) == 0,
        degree(removed, v as usize) == 0,
    ensures
        apply_moves(s, added, removed).unwrap()[v] == s[v],
{
    lemma_unlink_all_untouched(s, removed, v);
    lemma_link_all_untouched(unlink_all(s, removed).unwrap(), added, v);
}

/// When a move leaves every slot full, every city has as many added ends as
/// removed ones.
proof fn lemma_degree_balance(
    s: Seq<(usize, usize)>,
    added: Seq<(usize, usize)>,
    removed: Seq<(usize, usize)>,
    v: int,
)
    requires
        apply_moves(s, added, removed) is Some,
        slots_full(apply_moves(s, added, removed).unwrap()),
        s.len() < NOEDGE,
        0 <= v < s.len(),
        s[v].0 != NOEDGE,
        s[v].1 != NOEDGE,
        ends_inside(added, s.len() as nat),
        ends_inside(removed, s.len() as nat),
    ensures
        degree(added, v as usize) == degree(removed, v as usize),
{
    lemma_apply_moves_count(s, added, removed, v, NOEDGE);
    let s1 = apply_moves(s, added, removed).unwrap();
    assert(slot_full(s1[v], s1.len()));
    lemma_edge_count_nonneg(added, v as usize, NOEDGE);
    lemma_edge_count_nonneg(removed, v as usize, NOEDGE);
}

/// Some pair of `e` has `q` as its smaller entry.
pub open spec fn has_low(e: Seq<usize>, q: int) -> bool {
    exists|k: int| 0 <= k < e.len() / 2 && #[trigger] low_of(e, k) == q
}

/// The pairs of `e` as edges.
pub open spec fn pairs_of(e: Seq<usize>) -> Seq<(usize, usize)> {
    Seq::new(e.len() / 2, |j: int| (first_of_pair(e, j), second_of_pair(e, j)))
}

/// Paired numbers meet `q` once for each pair whose smaller entry is `q` or
/// `q - 1`, and there is at most one of each.
proof fn lemma_pairs_degree(e: Seq<usize>, q: usize)
    requires
        paired(e),
    ensures
        degree(pairs_of(e), q) == (if has_low(e, q as int) {
            1int
        } else {
            0int
        }) + (if has_low(e, q - 1) {
            1int
        } else {
            0int
        }),
    decreases e.len(),
{
    if e.len() == 0 {
        assert(pairs_of(e) =~= Seq::<(usize, usize)>::empty());
        return;
    }
    let m = e.len() / 2;
    let d = e.subrange(0, e.len() - 2);
    assert forall|j: int| 0 <= j < d.len() / 2 implies #[trigger] first_of_pair(d, j) == first_of_pair(e, j)
        && second_of_pair(d, j) == second_of_pair(e, j) by {
        assert(d[2 * j] == e[2 * j]);
        assert(d[2 * j + 1] == e[2 * j + 1]);
    }
    assert forall|j: int| 0 <= j < d.len() / 2 implies #[trigger] pair_adjacent(d, j) by {
        assert(first_of_pair(d, j) == first_of_pair(e, j));
        assert(pair_adjacent(e, j));
    }
    assert forall|j: int, k: int| 0 <= j < k < d.len() / 2 implies #[trigger] low_of(d, j) != #[trigger] low_of(d, k) by {
        assert(first_of_pair(d, j) == first_of_pair(e, j));
        assert(first_of_pair(d, k) == first_of_pair(e, k));
        assert(low_of(e, j) != low_of(e, k));
    }
    lemma_pairs_degree(d, q);
    assert(pairs_of(d) =~= pairs_of(e).drop_last());
    let last = pairs_of(e).last();
    assert(last == (first_of_pair(e, m - 1), second_of_pair(e, m - 1)));
    assert(pair_adjacent(e, m - 1));
    let lo = low_of(e, m - 1);
    assert(ends_at(last, q) == (if lo == q { 1int } else { 0int }) + (if lo + 1 == q { 1int } else { 0int }));
    // The pair lists differ by the last pair only.
    assert(has_low(e, q as int) == (has_low(d, q as int) || lo == q)) by {
        if has_low(e, q as int) {
            let k = choose|k: int| 0 <= k < e.len() / 2 && #[trigger] low_of(e, k) == q;
            if k < m - 1 {
                assert(first_of_pair(d, k) == first_of_pair(e, k));
                assert(low_of(d, k) == low_of(e, k));
            }
        }
        if has_low(d, q as int) {
            let k = choose|k: int| 0 <= k < d.len() / 2 && #[trigger] low_of(d, k) == q;
            assert(first_of_pair(d, k) == first_of_pair(e, k));
            assert(low_of(d, k) == low_of(e, k));
        }
        if lo == q {
            assert(low_of(e, m - 1) == q);
        }
    }
    assert(has_low(e, q - 1) == (has_low(d, q - 1) || lo == q - 1)) by {
        if has_low(e, q - 1) {
            let k = choose|k: int| 0 <= k < e.len() / 2 && #[trigger] low_of(e, k) == q - 1;
            if k < m - 1 {
                assert(first_of_pair(d, k) == first_of_pair(e, k));
                assert(low_of(d, k) == low_of(e, k));
            }
        }
        if has_low(d, q - 1) {
            let k = choose|k: int| 0 <= k < d.len() / 2 && #[trigger] low_of(d, k) == q - 1;
            assert(first_of_pair(d, k) == first_of_pair(e, k));
            assert(low_of(d, k) == low_of(e, k));
        }
        if lo == q - 1 {
            assert(low_of(e, m - 1) == q - 1);
        }
    }
    // No earlier pair has the last one's smaller entry.
    if has_low(d, lo as int) {
        let k = choose|k: int| 0 <= k < d.len() / 2 && #[trigger] low_of(d, k) == lo;
        assert(first_of_pair(d, k) == first_of_pair(e, k));
        assert(low_of(d, k) == low_of(e, k));
        assert(low_of(e, k) != low_of(e, m - 1));
    }
}

/// The edge `e` joins two cities next to each other on the tour whose
/// positions are `inv`.
pub open spec fn on_tour(inv: Seq<usize>, e: (usize, usize)) -> bool {
    inv[e.1 as int] == inv[e.0 as int] + 1 || inv[e.0 as int] == inv[e.1 as int] + 1
}

/// A move as the optimisers make them on the tour `path` with positions `inv`:
/// it removes at least one edge, only edges of the tour, and keeps away from
/// city 0 (in both its removed and its added edges).
pub open spec fn tour_move(path: Seq<usize>, inv: Seq<usize>, added: Seq<(usize, usize)>, removed: Seq<(usize, usize)>) -> bool {
    &&& removed.len() > 0
    &&& ends_inside(removed, (path.len() - 1) as nat)
    &&& ends_inside(added, (path.len() - 1) as nat)
    &&& forall|j: int| 0 <= j < removed.len() ==> #[trigger] on_tour(inv, removed[j])
}

/// The endpoint positions of a move's removed edges come in pairs of
/// neighbouring positions, which are the edges' positions; distinct edges
/// have distinct smaller positions.
proof fn lemma_removed_paired(path: Seq<usize>, inv: Seq<usize>, added: Seq<(usize, usize)>, removed: Seq<(usize, usize)>)
    requires
        is_tour(path, (path.len() - 1) as nat),
        positions_match(path, inv),
        tour_move(path, inv, added, removed),
        !repeats_edge(added, removed),
    ensures
        paired(endpoint_positions(inv, removed)),
        pairs_of(endpoint_positions(inv, removed)) == added_positions(inv, removed),
        endpoint_positions(inv, removed).len() == 2 * removed.len(),
{
    let e = endpoint_positions(inv, removed);
    let n = (path.len() - 1) as nat;
    assert forall|j: int| 0 <= j < e.len() / 2 implies #[trigger] first_of_pair(e, j) == inv[removed[j].0 as int]
        && second_of_pair(e, j) == inv[removed[j].1 as int] by {
        assert((2 * j) % 2 == 0 && (2 * j) / 2 == j);
        assert((2 * j + 1) % 2 == 1 && (2 * j + 1) / 2 == j);
    }
    assert forall|j: int| 0 <= j < e.len() / 2 implies #[trigger] pair_adjacent(e, j) by {
        assert(on_tour(inv, removed[j]));
        assert(first_of_pair(e, j) == inv[removed[j].0 as int]);
    }
    assert forall|j: int, k: int| 0 <= j < k < e.len() / 2 implies #[trigger] low_of(e, j) != #[trigger] low_of(e, k) by {
        if low_of(e, j) == low_of(e, k) {
            let lo = low_of(e, j);
            assert(on_tour(inv, removed[j]));
            assert(on_tour(inv, removed[k]));
            assert(first_of_pair(e, j) == inv[removed[j].0 as int]);
            assert(first_of_pair(e, k) == inv[removed[k].0 as int]);
            assert(0 < removed[j].0 < n && 0 < removed[j].1 < n);
            assert(0 < removed[k].0 < n && 0 < removed[k].1 < n);
            lemma_city_position(path, inv, removed[j].0);
            lemma_city_position(path, inv, removed[j].1);
            lemma_city_position(path, inv, removed[k].0);
            lemma_city_position(path, inv, removed[k].1);
            assert(same_edge(removed[k], removed[j]));
            assert(repeats_edge(added, removed));
        }
    }
    assert(pairs_of(e) =~= added_positions(inv, removed));
}

/// A sorted arrangement of the removed edges' endpoint positions exists, so
/// `sorted_version` gives one.
proof fn lemma_sorted_version_props(e: Seq<usize>)
    ensures
        is_sorted(sorted_version(e)),
        sorted_version(e).to_multiset() == e.to_multiset(),
{
    let leq = |a: usize, b: usize| a <= b;
    assert(vstd::relations::total_ordering(leq));
    e.lemma_sort_by_ensures(leq);
    let t = e.sort_by(leq);
    assert(is_sorted(t)) by {
        assert forall|i: int, j: int| 0 <= i <= j < t.len() implies t[i] <= t[j] by {
            if i < j {
                assert(leq(t[i], t[j]));
            }
        }
    }
    assert(is_sorted(t) && t.to_multiset() == e.to_multiset());
}

/// How many ends of the edges of `edges` flagged in `used` lie at `q`.
pub open spec fn used_degree(edges: Seq<(usize, usize)>, used: Seq<bool>, q: usize) -> int
    decreases edges.len(),
{
    if edges.len() == 0 || used.len() != edges.len() {
        0
    } else {
        used_degree(edges.drop_last(), used.drop_last(), q) + if used.last() {
            ends_at(edges.last(), q)
        } else {
            0int
        }
    }
}

pub(crate) proof fn lemma_used_degree_bounds(edges: Seq<(usize, usize)>, used: Seq<bool>, q: usize)
    requires
        used.len() == edges.len(),
    ensures
        0 <= used_degree(edges, used, q) <= degree(edges, q),
        (forall|i: int| 0 <= i < used.len() ==> used[i]) ==> used_degree(edges, used, q) == degree(edges, q),
        (forall|i: int| 0 <= i < used.len() ==> !used[i]) ==> used_degree(edges, used, q) == 0,
    decreases edges.len(),
{
    if edges.len() > 0 {
        lemma_used_degree_bounds(edges.drop_last(), used.drop_last(), q);
        if forall|i: int| 0 <= i < used.len() ==> used[i] {
            assert forall|i: int| 0 <= i < used.drop_last().len() implies used.drop_last()[i] by {
                assert(used[i]);
            }
            assert(used[used.len() - 1]);
        }
        if forall|i: int| 0 <= i < used.len() ==> !used[i] {
            assert forall|i: int| 0 <= i < used.drop_last().len() implies !used.drop_last()[i] by {
                assert(!used[i]);
            }
            assert(!used[used.len() - 1]);
        }
    }
}

/// Flagging the unused edge `p` adds its ends.
pub(crate) proof fn lemma_used_degree_flag(edges: Seq<(usize, usize)>, used: Seq<bool>, p: int, q: usize)
    requires
        used.len() == edges.len(),
        0 <= p < used.len(),
        !used[p],
    ensures
        used_degree(edges, used.update(p, true), q) == used_degree(edges, used, q) + ends_at(edges[p], q),
    decreases edges.len(),
{
    let u2 = used.update(p, true);
    if p == edges.len() - 1 {
        assert(u2.drop_last() =~= used.drop_last());
    } else {
        assert(u2.drop_last() =~= used.drop_last().update(p, true));
        lemma_used_degree_flag(edges.drop_last(), used.drop_last(), p, q);
        assert(edges.drop_last()[p] == edges[p]);
    }
}

/// An unused edge's ends at `q` are not among the used ends, and a used
/// edge's are.
pub(crate) proof fn lemma_used_degree_edge(edges: Seq<(usize, usize)>, used: Seq<bool>, i: int, q: usize)
    requires
        used.len() == edges.len(),
        0 <= i < used.len(),
    ensures
        !used[i] ==> used_degree(edges, used, q) + ends_at(edges[i], q) <= degree(edges, q),
        used[i] ==> ends_at(edges[i], q) <= used_degree(edges, used, q),
    decreases edges.len(),
{
    if !used[i] {
        lemma_used_degree_flag(edges, used, i, q);
        lemma_used_degree_bounds(edges, used.update(i, true), q);
    } else {
        if i < edges.len() - 1 {
            lemma_used_degree_edge(edges.drop_last(), used.drop_last(), i, q);
            assert(edges.drop_last()[i] == edges[i]);
            assert(used.drop_last()[i] == used[i]);
            lemma_used_degree_bounds(edges.drop_last(), used.drop_last(), q);
        } else {
            lemma_used_degree_bounds(edges.drop_last(), used.drop_last(), q);
        }
    }
}

/// Fewer used ends than ends at `q`: some unused edge has an end at `q`.
/// Some used end at `q`: some used edge has an end there.
pub(crate) proof fn lemma_used_degree_witness(edges: Seq<(usize, usize)>, used: Seq<bool>, q: usize)
    requires
        used.len() == edges.len(),
    ensures
        used_degree(edges, used, q) < degree(edges, q) ==> exists|i: int|
            0 <= i < edges.len() && !used[i] && #[trigger] ends_at(edges[i], q) > 0,
        used_degree(edges, used, q) > 0 ==> exists|i: int|
            0 <= i < edges.len() && used[i] && #[trigger] ends_at(edges[i], q) > 0,
    decreases edges.len(),
{
    if edges.len() > 0 {
        let d = edges.drop_last();
        let ud = used.drop_last();
        lemma_used_degree_witness(d, ud, q);
        let last = edges.len() - 1;
        assert(edges.last() == edges[last]);
        if used_degree(edges, used, q) < degree(edges, q) {
            if used_degree(d, ud, q) < degree(d, q) {
                let i = choose|i: int| 0 <= i < d.len() && !ud[i] && #[trigger] ends_at(d[i], q) > 0;
                assert(d[i] == edges[i] && ud[i] == used[i]);
                assert(ends_at(edges[i], q) > 0);
            } else {
                lemma_used_degree_bounds(d, ud, q);
                assert(!used[last] && ends_at(edges[last], q) > 0);
            }
        }
        if used_degree(edges, used, q) > 0 {
            if used_degree(d, ud, q) > 0 {
                let i = choose|i: int| 0 <= i < d.len() && ud[i] && #[trigger] ends_at(d[i], q) > 0;
                assert(d[i] == edges[i] && ud[i] == used[i]);
                assert(ends_at(edges[i], q) > 0);
            } else {
                assert(used[last] && ends_at(edges[last], q) > 0);
            }
        }
    }
}

/// The sorted positions `ri` of a move's removed endpoints: pairs of
/// neighbouring positions `ri[2j], ri[2j] + 1`, one for each removed tour edge.
pub open spec fn cut_points(ri: Seq<usize>) -> bool {
    &&& ri.len() >= 2
    &&& ri.len() % 2 == 0
    &&& is_sorted(ri)
    &&& forall|j: int| 0 <= j < ri.len() / 2 ==> #[trigger] second_of_pair(ri, j) == first_of_pair(ri, j) + 1
}

/// The tour edge from position `x` to position `x + 1` is cut.
pub open spec fn cut_at(ri: Seq<usize>, x: int) -> bool {
    exists|j: int| 0 <= j < ri.len() / 2 && #[trigger] first_of_pair(ri, j) == x
}

/// The first position of stretch `s` of the tour that a move keeps (the
/// stretches run between the cut edges; stretch 0 starts at position 0).
pub open spec fn stretch_lo(ri: Seq<usize>, s: int) -> int {
    if s == 0 {
        0
    } else {
        ri[2 * s - 1] as int
    }
}

/// The last position of stretch `s` (the last stretch ends at position `n`).
pub open spec fn stretch_hi(ri: Seq<usize>, n: int, s: int) -> int {
    if s == ri.len() / 2 {
        n
    } else {
        ri[2 * s] as int
    }
}

/// The stretch to which the cut endpoint at position `q` belongs.
pub open spec fn stretch_of(ri: Seq<usize>, q: usize) -> int {
    (ri.index_of_first(q).unwrap() + 1) / 2
}

pub(crate) proof fn lemma_cut_points_order(ri: Seq<usize>, a: int, b: int)
    requires
        cut_points(ri),
        0 <= a < b < ri.len(),
    ensures
        ri[a] <= ri[b],
        a % 2 == 0 && b == a + 1 ==> ri[b] == ri[a] + 1,
        b >= a + 2 ==> ri[a] < ri[b],
{
    if a % 2 == 0 && b == a + 1 {
        assert(second_of_pair(ri, a / 2) == first_of_pair(ri, a / 2) + 1);
    }
    if b >= a + 2 {
        if a % 2 == 0 {
            assert(second_of_pair(ri, a / 2) == first_of_pair(ri, a / 2) + 1);
            assert(ri[a + 1] <= ri[b]);
        } else {
            let j = (a + 1) / 2;
            assert(second_of_pair(ri, j) == first_of_pair(ri, j) + 1);
            assert(ri[a] <= ri[a + 1]);
            assert(ri[a + 2] <= ri[b]);
        }
    }
}

/// No cut edge touches a position that is no cut endpoint.
pub(crate) proof fn lemma_cut_not_endpoint(ri: Seq<usize>, q: int)
    requires
        cut_points(ri),
        q >= 0,
        !ri.contains(q as usize),
    ensures
        !cut_at(ri, q),
        !cut_at(ri, q - 1),
{
    if cut_at(ri, q) {
        let j = choose|j: int| 0 <= j < ri.len() / 2 && #[trigger] first_of_pair(ri, j) == q;
        assert(ri[2 * j] == q);
    }
    if cut_at(ri, q - 1) {
        let j = choose|j: int| 0 <= j < ri.len() / 2 && #[trigger] first_of_pair(ri, j) == q - 1;
        assert(second_of_pair(ri, j) == first_of_pair(ri, j) + 1);
        assert(ri[2 * j + 1] == q);
    }
}

/// The ends of an inner stretch `s`: each is touched by the cut edge next to
/// it, and by the other cut edge only when the stretch is a single position.
pub(crate) proof fn lemma_cut_stretch(ri: Seq<usize>, s: int)
    requires
        cut_points(ri),
        1 <= s < ri.len() / 2,
    ensures
        cut_at(ri, ri[2 * s] as int),
        cut_at(ri, ri[2 * s - 1] - 1),
        ri[2 * s - 1] < ri[2 * s] ==> !cut_at(ri, ri[2 * s] - 1) && !cut_at(ri, ri[2 * s - 1] as int),
        ri[2 * s - 1] <= ri[2 * s],
{
    assert(first_of_pair(ri, s) == ri[2 * s]);
    assert(first_of_pair(ri, s - 1) == ri[2 * (s - 1)]);
    assert(second_of_pair(ri, s - 1) == first_of_pair(ri, s - 1) + 1);
    assert(second_of_pair(ri, s - 1) == ri[2 * s - 1]);
    if ri[2 * s - 1] < ri[2 * s] {
        let q = ri[2 * s] as int;
        if cut_at(ri, q - 1) {
            let j = choose|j: int| 0 <= j < ri.len() / 2 && #[trigger] first_of_pair(ri, j) == q - 1;
            if j < s {
                if 2 * j < 2 * s - 2 {
                    lemma_cut_points_order(ri, 2 * j, 2 * s - 1);
                }
            } else if j > s {
                lemma_cut_points_order(ri, 2 * s, 2 * j);
            }
        }
        let q2 = ri[2 * s - 1] as int;
        if cut_at(ri, q2) {
            let j = choose|j: int| 0 <= j < ri.len() / 2 && #[trigger] first_of_pair(ri, j) == q2;
            if j < s {
                if 2 * j < 2 * s - 2 {
                    lemma_cut_points_order(ri, 2 * j, 2 * s - 1);
                }
            } else {
                lemma_cut_points_order(ri, 2 * s - 1, 2 * j);
            }
        }
    }
}

/// The first cut endpoint starts a cut edge and ends none; the last ends one
/// and starts none.
pub(crate) proof fn lemma_cut_first_last(ri: Seq<usize>)
    requires
        cut_points(ri),
    ensures
        cut_at(ri, ri[0] as int),
        !cut_at(ri, ri[0] - 1),
        !cut_at(ri, ri[ri.len() - 1] as int),
        cut_at(ri, ri[ri.len() - 1] - 1),
        ri[ri.len() - 1] == ri[ri.len() - 2] + 1,
{
    let m = ri.len() / 2;
    assert(first_of_pair(ri, 0) == ri[0]);
    assert(first_of_pair(ri, m - 1) == ri[2 * (m - 1)]);
    assert(second_of_pair(ri, m - 1) == first_of_pair(ri, m - 1) + 1);
    assert(second_of_pair(ri, m - 1) == ri[ri.len() - 1]);
    let q = ri[0] as int;
    if cut_at(ri, q - 1) {
        let j = choose|j: int| 0 <= j < ri.len() / 2 && #[trigger] first_of_pair(ri, j) == q - 1;
        if j > 0 {
            lemma_cut_points_order(ri, 0, 2 * j);
        }
    }
    let q2 = ri[ri.len() - 1] as int;
    if cut_at(ri, q2) {
        let j = choose|j: int| 0 <= j < ri.len() / 2 && #[trigger] first_of_pair(ri, j) == q2;
        lemma_cut_points_order(ri, 2 * j, ri.len() - 1);
    }
}

/// The first index at which a cut endpoint occurs: an even index (past 0)
/// only where the entry before it is smaller.
pub(crate) proof fn lemma_endpoint_index(ri: Seq<usize>, q: usize)
    requires
        cut_points(ri),
        ri.contains(q),
    ensures
        ri.index_of_first(q) is Some,
        0 <= ri.index_of_first(q).unwrap() < ri.len(),
        ri[ri.index_of_first(q).unwrap()] == q,
        ri.index_of_first(q).unwrap() % 2 == 0 && ri.index_of_first(q).unwrap() > 0 ==> ri[ri.index_of_first(q).unwrap() - 1] < q,
        forall|i: int| 0 <= i < ri.len() && ri[i] == q ==> ri.index_of_first(q).unwrap() <= i,
{
    ri.index_of_first_ensures(q);
    let np = ri.index_of_first(q).unwrap();
    if np % 2 == 0 && np > 0 {
        assert(ri[np - 1] != q);
        lemma_cut_points_order(ri, np - 1, np);
    }
    assert forall|i: int| 0 <= i < ri.len() && ri[i] == q implies np <= i by {
        if i < np {
            assert(ri[i] != q);
        }
    }
}

/// Where the ends of stretch `s` first occur among the cut endpoints.
pub(crate) proof fn lemma_stretch_index(ri: Seq<usize>, s: int)
    requires
        cut_points(ri),
        1 <= s <= ri.len() / 2,
    ensures
        ri.index_of_first(ri[2 * s - 1]) == Some(2 * s - 1),
        s < ri.len() / 2 ==> ri.index_of_first(ri[2 * s]) == Some(if ri[2 * s - 1] < ri[2 * s] {
            2 * s
        } else {
            2 * s - 1
        }),
        stretch_of(ri, ri[2 * s - 1]) == s,
        s < ri.len() / 2 ==> stretch_of(ri, ri[2 * s]) == s,
{
    let q = ri[2 * s - 1];
    assert(ri.contains(q));
    lemma_endpoint_index(ri, q);
    let np = ri.index_of_first(q).unwrap();
    if np < 2 * s - 1 {
        if np <= 2 * s - 3 {
            lemma_cut_points_order(ri, np, 2 * s - 1);
        } else {
            lemma_cut_points_order(ri, 2 * s - 2, 2 * s - 1);
        }
    }
    if s < ri.len() / 2 {
        let h = ri[2 * s];
        assert(ri.contains(h));
        lemma_endpoint_index(ri, h);
        let nh = ri.index_of_first(h).unwrap();
        lemma_cut_points_order(ri, 2 * s - 1, 2 * s);
        if nh < 2 * s - 1 {
            lemma_cut_points_order(ri, nh, 2 * s - 1);
            if nh <= 2 * s - 3 {
                lemma_cut_points_order(ri, nh, 2 * s - 1);
            } else {
                lemma_cut_points_order(ri, 2 * s - 2, 2 * s - 1);
            }
        }
        if ri[2 * s - 1] < ri[2 * s] {
            assert(nh != 2 * s - 1);
        }
    }
}

/// The first cut endpoint first occurs at index 0.
pub(crate) proof fn lemma_first_index(ri: Seq<usize>)
    requires
        cut_points(ri),
    ensures
        ri.index_of_first(ri[0]) == Some(0int),
        stretch_of(ri, ri[0]) == 0,
{
    assert(ri.contains(ri[0]));
    lemma_endpoint_index(ri, ri[0]);
}

/// A cut endpoint is an end of the stretch it belongs to: the first end when
/// it first occurs at an odd index, the last end when at an even one.
pub(crate) proof fn lemma_endpoint_stretch(ri: Seq<usize>, q: usize, n: int)
    requires
        cut_points(ri),
        ri.contains(q),
    ensures
        ({
            let np = ri.index_of_first(q).unwrap();
            let s = stretch_of(ri, q);
            &&& 0 <= s <= ri.len() / 2
            &&& np % 2 == 1 ==> s >= 1 && q == stretch_lo(ri, s) && np == 2 * s - 1
            &&& np % 2 == 0 ==> s < ri.len() / 2 && q == stretch_hi(ri, n, s) && np == 2 * s
        }),
{
    lemma_endpoint_index(ri, q);
}

/// How many of the two tour edges at position `q` are cut.
pub open spec fn cut_degree(ri: Seq<usize>, q: int) -> int {
    (if cut_at(ri, q) {
        1int
    } else {
        0int
    }) + (if cut_at(ri, q - 1) {
        1int
    } else {
        0int
    })
}

/// What a move asks of the tour it is made on: `path` is a closed tour over
/// fewer than `NOEDGE` cities with positions `inv` and neighbour slots `s0`;
/// the move removes tour edges away from city 0, adds edges away from city 0,
/// repeats no edge, can be carried out on the slots and leaves them full.
pub open spec fn move_basics(
    path: Seq<usize>,
    inv: Seq<usize>,
    s0: Seq<(usize, usize)>,
    added: Seq<(usize, usize)>,
    removed: Seq<(usize, usize)>,
) -> bool {
    &&& path.len() >= 2
    &&& is_tour(path, (path.len() - 1) as nat)
    &&& path.len() - 1 < NOEDGE
    &&& positions_match(path, inv)
    &&& s0.len() == path.len() - 1
    &&& forall|i: int| 0 <= i < path.len() - 1 ==> #[trigger] s0[path[i] as int] == neighbour_pair(path, i)
    &&& tour_move(path, inv, added, removed)
    &&& !repeats_edge(added, removed)
    &&& apply_moves(s0, added, removed) is Some
    &&& slots_full(apply_moves(s0, added, removed).unwrap())
}

/// The slots after the move at the city at position `q`, in terms of the cut
/// edges `ri` and the added edges: the cut tour edges are gone, the added
/// edges are there, and a city that no cut edge touches keeps its slots.
pub open spec fn slot_facts(
    path: Seq<usize>,
    s1: Seq<(usize, usize)>,
    added: Seq<(usize, usize)>,
    removed: Seq<(usize, usize)>,
    ri: Seq<usize>,
    ai: Seq<(usize, usize)>,
    q: int,
) -> bool {
    &&& degree(added, path[q]) == cut_degree(ri, q)
    &&& degree(ai, q as usize) == cut_degree(ri, q)
    &&& forall|x: usize|
        #[trigger] edge_count(removed, path[q], x) == (if cut_at(ri, q) && x == path[q + 1] {
            1int
        } else {
            0int
        }) + (if cut_at(ri, q - 1) && x == path[q - 1] {
            1int
        } else {
            0int
        })
    &&& forall|x: usize|
        x != NOEDGE ==> #[trigger] slot_count(s1[path[q] as int], x) == (if x == path[q - 1] {
            1int
        } else {
            0int
        }) + (if x == path[q + 1] {
            1int
        } else {
            0int
        }) - edge_count(removed, path[q], x) + edge_count(added, path[q], x)
    &&& !ri.contains(q as usize) ==> s1[path[q] as int] == (path[q - 1], path[q + 1])
}

/// The added edge `i` at positions: its ends at the city at position `q` are
/// its ends at `q`, and its other end there is the city at its other end.
pub open spec fn edge_facts(path: Seq<usize>, added: Seq<(usize, usize)>, ai: Seq<(usize, usize)>, i: int) -> bool {
    &&& 1 <= ai[i].0 < path.len() - 1
    &&& 1 <= ai[i].1 < path.len() - 1
    &&& forall|q: int|
        1 <= q < path.len() - 1 ==> #[trigger] ends_at(added[i], path[q]) == ends_at(ai[i], q as usize)
    &&& forall|q: int|
        1 <= q < path.len() - 1 && ends_at(ai[i], q as usize) >= 1 ==> #[trigger] other_end(added[i], path[q])
            == path[other_end(ai[i], q as usize) as int]
}

proof fn lemma_has_low_is_cut(e: Seq<usize>, ri: Seq<usize>, x: int)
    requires
        sorted_pairs_facts(ri, e),
    ensures
        has_low(e, x) == cut_at(ri, x),
{
    if has_low(e, x) {
        let k = choose|k: int| 0 <= k < e.len() / 2 && #[trigger] low_of(e, k) == x;
        let j = choose|j: int| 0 <= j < ri.len() / 2 && first_of_pair(ri, j) == #[trigger] low_of(e, k);
        assert(first_of_pair(ri, j) == x);
    }
    if cut_at(ri, x) {
        let j = choose|j: int| 0 <= j < ri.len() / 2 && #[trigger] first_of_pair(ri, j) == x;
        let k = choose|k: int| 0 <= k < e.len() / 2 && low_of(e, k) == #[trigger] first_of_pair(ri, j);
        assert(low_of(e, k) == x);
    }
}

/// The removed edge whose positions start at the cut position `x`: it joins
/// the cities at positions `x` and `x + 1`.
proof fn lemma_cut_edge(
    path: Seq<usize>,
    inv: Seq<usize>,
    s0: Seq<(usize, usize)>,
    added: Seq<(usize, usize)>,
    removed: Seq<(usize, usize)>,
    x: int,
) -> (k: int)
    requires
        move_basics(path, inv, s0, added, removed),
        cut_at(sorted_version(endpoint_positions(inv, removed)), x),
    ensures
        0 <= k < removed.len(),
        1 <= x && x + 1 < path.len() - 1,
        ends_at(removed[k], path[x]) == 1,
        other_end(removed[k], path[x]) == path[x + 1],
        ends_at(removed[k], path[x + 1]) == 1,
        other_end(removed[k], path[x + 1]) == path[x],
{
    let e = endpoint_positions(inv, removed);
    let ri = sorted_version(e);
    lemma_removed_paired(path, inv, added, removed);
    lemma_sorted_version_props(e);
    lemma_sorted_pairs(ri, e);
    lemma_has_low_is_cut(e, ri, x);
    let k = choose|k: int| 0 <= k < e.len() / 2 && #[trigger] low_of(e, k) == x;
    let n = (path.len() - 1) as nat;
    assert(pairs_of(e)[k] == added_positions(inv, removed)[k]);
    assert(0 < removed[k].0 < n && 0 < removed[k].1 < n);
    lemma_city_position(path, inv, removed[k].0);
    lemma_city_position(path, inv, removed[k].1);
    assert(on_tour(inv, removed[k]));
    assert(path[0] == 0);
    k
}

/// The removed edges at the city at position `q` are the cut tour edges next to it.
proof fn lemma_removed_counts(
    path: Seq<usize>,
    inv: Seq<usize>,
    s0: Seq<(usize, usize)>,
    added: Seq<(usize, usize)>,
    removed: Seq<(usize, usize)>,
    q: int,
)
    requires
        move_basics(path, inv, s0, added, removed),
        1 <= q < path.len() - 1,
        degree(removed, path[q]) == cut_degree(sorted_version(endpoint_positions(inv, removed)), q),
    ensures
        forall|x: usize| #[trigger] edge_count(removed, path[q], x) == (if cut_at(
            sorted_version(endpoint_positions(inv, removed)),
            q,
        ) && x == path[q + 1] {
            1int
        } else {
            0int
        }) + (if cut_at(sorted_version(endpoint_positions(inv, removed)), q - 1) && x == path[q - 1] {
            1int
        } else {
            0int
        }),
{
    let ri = sorted_version(endpoint_positions(inv, removed));
    let v = path[q];
    assert forall|x: usize| #[trigger] edge_count(removed, v, x) == (if cut_at(ri, q) && x == path[q + 1] {
        1int
    } else {
        0int
    }) + (if cut_at(ri, q - 1) && x == path[q - 1] {
        1int
    } else {
        0int
    }) by {
        if cut_at(ri, q) && cut_at(ri, q - 1) {
            let k1 = lemma_cut_edge(path, inv, s0, added, removed, q);
            let k2 = lemma_cut_edge(path, inv, s0, added, removed, q - 1);
            assert(path[q + 1] != path[q - 1]);
            lemma_double_end(removed, k1, k2, v, x);
        } else if cut_at(ri, q) {
            let k1 = lemma_cut_edge(path, inv, s0, added, removed, q);
            lemma_single_end(removed, k1, v, x);
        } else if cut_at(ri, q - 1) {
            let k2 = lemma_cut_edge(path, inv, s0, added, removed, q - 1);
            lemma_single_end(removed, k2, v, x);
        } else {
            lemma_count_le_degree(removed, v, x);
        }
    }
}

proof fn lemma_slot_facts(
    path: Seq<usize>,
    inv: Seq<usize>,
    s0: Seq<(usize, usize)>,
    added: Seq<(usize, usize)>,
    removed: Seq<(usize, usize)>,
    q: int,
)
    requires
        move_basics(path, inv, s0, added, removed),
        1 <= q < path.len() - 1,
    ensures
        slot_facts(
            path,
            apply_moves(s0, added, removed).unwrap(),
            added,
            removed,
            sorted_version(endpoint_positions(inv, removed)),
            added_positions(inv, added),
            q,
        ),
{
    let n = path.len() - 1;
    let e = endpoint_positions(inv, removed);
    let ri = sorted_version(e);
    let ai = added_positions(inv, added);
    let s1 = apply_moves(s0, added, removed).unwrap();
    let v = path[q];
    lemma_removed_paired(path, inv, added, removed);
    lemma_sorted_version_props(e);
    lemma_sorted_pairs(ri, e);
    lemma_position_counts(path, inv, removed, q, q);
    lemma_position_counts(path, inv, added, q, q);
    lemma_pairs_degree(e, q as usize);
    lemma_has_low_is_cut(e, ri, q);
    lemma_has_low_is_cut(e, ri, q - 1);
    assert(s0[path[q] as int] == neighbour_pair(path, q));
    assert(path[q] < n && path[q + 1] <= n && path[q - 1] < n) by {
        if q + 1 < n {
            assert(path[q + 1] < n);
        }
    }
    lemma_degree_balance(s0, added, removed, v as int);
    assert(degree(added, v) == cut_degree(ri, q));
    lemma_removed_counts(path, inv, s0, added, removed, q);
    assert forall|x: usize| x != NOEDGE implies #[trigger] slot_count(s1[v as int], x) == (if x == path[q - 1] {
        1int
    } else {
        0int
    }) + (if x == path[q + 1] {
        1int
    } else {
        0int
    }) - edge_count(removed, v, x) + edge_count(added, v, x) by {
        lemma_apply_moves_count(s0, added, removed, v as int, x);
    }
    if !ri.contains(q as usize) {
        lemma_cut_not_endpoint(ri, q);
        lemma_apply_moves_untouched(s0, added, removed, v as int);
    }
}

proof fn lemma_edge_facts(
    path: Seq<usize>,
    inv: Seq<usize>,
    s0: Seq<(usize, usize)>,
    added: Seq<(usize, usize)>,
    removed: Seq<(usize, usize)>,
    i: int,
)
    requires
        move_basics(path, inv, s0, added, removed),
        0 <= i < added.len(),
    ensures
        edge_facts(path, added, added_positions(inv, added), i),
{
    let n = path.len() - 1;
    let ai = added_positions(inv, added);
    let a = added[i].0;
    let b = added[i].1;
    assert(0 < a < n && 0 < b < n);
    lemma_city_position(path, inv, a);
    lemma_city_position(path, inv, b);
    assert forall|q: int| 1 <= q < path.len() - 1 implies #[trigger] ends_at(added[i], path[q]) == ends_at(
        ai[i],
        q as usize,
    ) by {
        assert(inv[path[q] as int] == q);
    }
    assert forall|q: int|
        1 <= q < path.len() - 1 && ends_at(ai[i], q as usize) >= 1 implies #[trigger] other_end(added[i], path[q])
        == path[other_end(ai[i], q as usize) as int] by {
        assert(inv[path[q] as int] == q);
    }
}

/// The indicator of `x == y`.
pub open spec fn is(x: usize, y: usize) -> int {
    if x == y {
        1int
    } else {
        0int
    }
}

/// At a city whose slots hold exactly `prev` and `y`, the walk arriving from
/// `prev` goes on to `y`.
pub(crate) proof fn lemma_walk_step(s: Seq<(usize, usize)>, prev: usize, cur: usize, y: usize)
    requires
        cur < s.len(),
        prev != NOEDGE,
        y != NOEDGE,
        forall|x: usize| #[trigger] slot_count(s[cur as int], x) == is(x, prev) + is(x, y),
    ensures
        walk_step(s, prev, cur) == Some((cur, y)),
{
    let e = s[cur as int];
    assert(slot_count(e, NOEDGE) == 0);
    assert(slot_count(e, e.0) >= 1);
    assert(slot_count(e, e.1) >= 1);
    assert(slot_count(e, prev) >= 1);
}

/// One step of the walk from a state whose city is not city 0.
proof fn lemma_walk_next(s: Seq<(usize, usize)>, k: nat, prev: usize, cur: usize, y: usize)
    requires
        walk_state(s, k) == Some((prev, cur)),
        cur != 0,
        walk_step(s, prev, cur) == Some((cur, y)),
    ensures
        walk_state(s, k + 1) == Some((cur, y)),
{
}

/// At the end of a stretch where one tour edge is cut, the slots after the
/// move hold the tour neighbour inside the stretch and the city at the other
/// end of the one added edge there.
proof fn lemma_end_slots_single(
    path: Seq<usize>,
    s1: Seq<(usize, usize)>,
    added: Seq<(usize, usize)>,
    removed: Seq<(usize, usize)>,
    ri: Seq<usize>,
    ai: Seq<(usize, usize)>,
    q: int,
    p: int,
)
    requires
        is_tour(path, (path.len() - 1) as nat),
        path.len() - 1 < NOEDGE,
        1 <= q < path.len() - 1,
        slot_facts(path, s1, added, removed, ri, ai, q),
        slots_full(s1),
        s1.len() == path.len() - 1,
        cut_degree(ri, q) == 1,
        0 <= p < added.len(),
        ai.len() == added.len(),
        edge_facts(path, added, ai, p),
        ends_at(ai[p], q as usize) >= 1,
    ensures
        forall|x: usize| #[trigger] slot_count(s1[path[q] as int], x) == is(
            x,
            path[if cut_at(ri, q) { q - 1 } else { q + 1 }],
        ) + is(x, path[other_end(ai[p], q as usize) as int]),
{
    let n = path.len() - 1;
    let v = path[q];
    assert(v < n);
    assert(ends_at(added[p], path[q]) == ends_at(ai[p], q as usize));
    assert(other_end(added[p], path[q]) == path[other_end(ai[p], q as usize) as int]);
    let o = other_end(ai[p], q as usize) as int;
    assert(path[o] < n);
    assert(path[q - 1] < n);
    assert(path[q + 1] <= n) by {
        if q + 1 < n {
            assert(path[q + 1] < n);
        }
    }
    assert forall|x: usize| #[trigger] slot_count(s1[v as int], x) == is(
        x,
        path[if cut_at(ri, q) { q - 1 } else { q + 1 }],
    ) + is(x, path[o]) by {
        if x == NOEDGE {
            assert(slot_full(s1[v as int], s1.len()));
        } else {
            lemma_single_end(added, p, v, x);
            assert(edge_count(removed, path[q], x) == (if cut_at(ri, q) && x == path[q + 1] {
                1int
            } else {
                0int
            }) + (if cut_at(ri, q - 1) && x == path[q - 1] {
                1int
            } else {
                0int
            }));
        }
    }
}

/// At a stretch made of the one position `q`, with both tour edges cut, the
/// slots after the move hold the other ends of the two added edges there.
proof fn lemma_end_slots_double(
    path: Seq<usize>,
    s1: Seq<(usize, usize)>,
    added: Seq<(usize, usize)>,
    removed: Seq<(usize, usize)>,
    ri: Seq<usize>,
    ai: Seq<(usize, usize)>,
    q: int,
    p1: int,
    p2: int,
)
    requires
        is_tour(path, (path.len() - 1) as nat),
        path.len() - 1 < NOEDGE,
        1 <= q < path.len() - 1,
        slot_facts(path, s1, added, removed, ri, ai, q),
        slots_full(s1),
        s1.len() == path.len() - 1,
        cut_degree(ri, q) == 2,
        0 <= p1 < added.len(),
        0 <= p2 < added.len(),
        p1 != p2,
        ai.len() == added.len(),
        edge_facts(path, added, ai, p1),
        edge_facts(path, added, ai, p2),
        ends_at(ai[p1], q as usize) == 1,
        ends_at(ai[p2], q as usize) == 1,
    ensures
        forall|x: usize| #[trigger] slot_count(s1[path[q] as int], x) == is(
            x,
            path[other_end(ai[p1], q as usize) as int],
        ) + is(x, path[other_end(ai[p2], q as usize) as int]),
{
    let n = path.len() - 1;
    let v = path[q];
    assert(v < n);
    assert(ends_at(added[p1], path[q]) == ends_at(ai[p1], q as usize));
    assert(ends_at(added[p2], path[q]) == ends_at(ai[p2], q as usize));
    assert(other_end(added[p1], path[q]) == path[other_end(ai[p1], q as usize) as int]);
    assert(other_end(added[p2], path[q]) == path[other_end(ai[p2], q as usize) as int]);
    let o1 = other_end(ai[p1], q as usize) as int;
    let o2 = other_end(ai[p2], q as usize) as int;
    assert(path[o1] < n);
    assert(path[o2] < n);
    assert(path[q - 1] < n);
    assert(path[q + 1] <= n) by {
        if q + 1 < n {
            assert(path[q + 1] < n);
        }
    }
    assert forall|x: usize| #[trigger] slot_count(s1[v as int], x) == is(x, path[o1]) + is(x, path[o2]) by {
        if x == NOEDGE {
            assert(slot_full(s1[v as int], s1.len()));
        } else {
            lemma_double_end(added, p1, p2, v, x);
            assert(edge_count(removed, path[q], x) == (if cut_at(ri, q) && x == path[q + 1] {
                1int
            } else {
                0int
            }) + (if cut_at(ri, q - 1) && x == path[q - 1] {
                1int
            } else {
                0int
            }));
        }
    }
}

/// Along a stretch run forwards from position `a` to position `b`: the walk
/// passes the positions in order, given the slots at `a` and untouched slots
/// strictly inside.
proof fn lemma_run_forward(path: Seq<usize>, s1: Seq<(usize, usize)>, a: int, b: int, k: nat, prev: usize)
    requires
        is_tour(path, (path.len() - 1) as nat),
        path.len() - 1 < NOEDGE,
        1 <= a <= b <= path.len() - 1,
        s1.len() == path.len() - 1,
        walk_state(s1, k) == Some((prev, path[a])),
        prev != NOEDGE,
        a < b ==> forall|x: usize| #[trigger] slot_count(s1[path[a] as int], x) == is(x, prev) + is(x, path[a + 1]),
        forall|j: int| a < j < b ==> #[trigger] s1[path[j] as int] == (path[j - 1], path[j + 1]),
    ensures
        forall|d: int| 0 < d <= b - a ==> #[trigger] walk_state(s1, (k + d) as nat) == Some((path[a + d - 1], path[a + d])),
    decreases b - a,
{
    let n = path.len() - 1;
    if a < b {
        lemma_run_forward(path, s1, a, b - 1, k, prev);
        let d = b - a;
        assert(path[b - 1] != 0 && path[b - 1] < n);
        assert(path[b] <= n) by {
            if b < n {
                assert(path[b] < n);
            }
        }
        if b - 1 == a {
            lemma_walk_step(s1, prev, path[a], path[a + 1]);
            lemma_walk_next(s1, k, prev, path[a], path[a + 1]);
        } else {
            assert(walk_state(s1, (k + (d - 1)) as nat) == Some((path[a + (d - 1) - 1], path[a + (d - 1)])));
            assert(s1[path[b - 1] as int] == (path[b - 2], path[b]));
            lemma_walk_next(s1, (k + (d - 1)) as nat, path[b - 2], path[b - 1], path[b]);
            assert((k + (d - 1)) as nat + 1 == (k + d) as nat);
        }
        assert forall|dd: int| 0 < dd <= b - a implies #[trigger] walk_state(s1, (k + dd) as nat) == Some(
            (path[a + dd - 1], path[a + dd]),
        ) by {
            if dd < d {
                assert(walk_state(s1, (k + dd) as nat) == Some((path[a + dd - 1], path[a + dd])));
            }
        }
    }
}

/// Along a stretch run backwards from position `a` down to position `b`.
proof fn lemma_run_backward(path: Seq<usize>, s1: Seq<(usize, usize)>, a: int, b: int, k: nat, prev: usize)
    requires
        is_tour(path, (path.len() - 1) as nat),
        path.len() - 1 < NOEDGE,
        1 <= b <= a < path.len() - 1,
        s1.len() == path.len() - 1,
        walk_state(s1, k) == Some((prev, path[a])),
        prev != NOEDGE,
        b < a ==> forall|x: usize| #[trigger] slot_count(s1[path[a] as int], x) == is(x, prev) + is(x, path[a - 1]),
        forall|j: int| b < j < a ==> #[trigger] s1[path[j] as int] == (path[j - 1], path[j + 1]),
    ensures
        forall|d: int| 0 < d <= a - b ==> #[trigger] walk_state(s1, (k + d) as nat) == Some((path[a - d + 1], path[a - d])),
    decreases a - b,
{
    let n = path.len() - 1;
    if b < a {
        lemma_run_backward(path, s1, a, b + 1, k, prev);
        let d = a - b;
        assert(path[b + 1] != 0 && path[b + 1] < n);
        assert(path[b] < n);
        if b + 1 == a {
            lemma_walk_step(s1, prev, path[a], path[a - 1]);
            lemma_walk_next(s1, k, prev, path[a], path[a - 1]);
        } else {
            assert(walk_state(s1, (k + (d - 1)) as nat) == Some((path[a - (d - 1) + 1], path[a - (d - 1)])));
            assert(s1[path[b + 1] as int] == (path[b], path[b + 2]));
            assert(path[b] != path[b + 2]);
            lemma_walk_next(s1, (k + (d - 1)) as nat, path[b + 2], path[b + 1], path[b]);
            assert((k + (d - 1)) as nat + 1 == (k + d) as nat);
        }
        assert forall|dd: int| 0 < dd <= a - b implies #[trigger] walk_state(s1, (k + dd) as nat) == Some(
            (path[a - dd + 1], path[a - dd]),
        ) by {
            if dd < d {
                assert(walk_state(s1, (k + dd) as nat) == Some((path[a - dd + 1], path[a - dd])));
            }
        }
    }
}

/// How many positions stretch `s` covers.
pub open spec fn stretch_size(ri: Seq<usize>, n: int, s: int) -> int {
    stretch_hi(ri, n, s) - stretch_lo(ri, s) + 1
}

/// How many positions the stretches flagged in `visited` cover together.
pub open spec fn visited_size(ri: Seq<usize>, n: int, visited: Seq<bool>) -> int
    decreases visited.len(),
{
    if visited.len() == 0 {
        0
    } else {
        visited_size(ri, n, visited.drop_last()) + if visited.last() {
            stretch_size(ri, n, visited.len() - 1)
        } else {
            0int
        }
    }
}

/// Every stretch covers at least one position.
proof fn lemma_stretch_size_positive(ri: Seq<usize>, n: int, s: int)
    requires
        cut_points(ri),
        0 <= s <= ri.len() / 2,
        ri[ri.len() - 1] <= n,
    ensures
        stretch_size(ri, n, s) >= 1,
{
    let m = ri.len() / 2;
    if s == 0 {
        assert(stretch_lo(ri, 0) == 0);
    } else if s < m {
        lemma_cut_stretch(ri, s);
    } else {
        assert(stretch_lo(ri, s) == ri[2 * s - 1]);
    }
}

proof fn lemma_visited_size_flag(ri: Seq<usize>, n: int, visited: Seq<bool>, s: int)
    requires
        0 <= s < visited.len(),
        !visited[s],
    ensures
        visited_size(ri, n, visited.update(s, true)) == visited_size(ri, n, visited) + stretch_size(ri, n, s),
    decreases visited.len(),
{
    let v2 = visited.update(s, true);
    if s == visited.len() - 1 {
        assert(v2.drop_last() =~= visited.drop_last());
    } else {
        assert(v2.drop_last() =~= visited.drop_last().update(s, true));
        lemma_visited_size_flag(ri, n, visited.drop_last(), s);
    }
}

/// Flagging more stretches covers more positions.
proof fn lemma_visited_size_mono(ri: Seq<usize>, n: int, v: Seq<bool>, w: Seq<bool>)
    requires
        cut_points(ri),
        ri[ri.len() - 1] <= n,
        v.len() == w.len(),
        v.len() <= ri.len() / 2 + 1,
        forall|s: int| 0 <= s < v.len() && v[s] ==> w[s],
    ensures
        visited_size(ri, n, v) <= visited_size(ri, n, w),
        forall|s: int| 0 <= s < v.len() && !v[s] && w[s] ==> visited_size(ri, n, v) + stretch_size(ri, n, s)
            <= visited_size(ri, n, w),
    decreases v.len(),
{
    if v.len() > 0 {
        let l = v.len() - 1;
        lemma_visited_size_mono(ri, n, v.drop_last(), w.drop_last());
        lemma_stretch_size_positive(ri, n, l);
        assert forall|s: int| 0 <= s < v.len() && !v[s] && w[s] implies visited_size(ri, n, v) + stretch_size(
            ri,
            n,
            s,
        ) <= visited_size(ri, n, w) by {
            if s < l {
                assert(!v.drop_last()[s] && w.drop_last()[s]);
            }
        }
    }
}

/// All stretches together cover the positions `0..=n`.
proof fn lemma_visited_size_all(ri: Seq<usize>, n: int, t: int)
    requires
        cut_points(ri),
        1 <= t <= ri.len() / 2 + 1,
    ensures
        visited_size(ri, n, Seq::new(t as nat, |s: int| true)) == stretch_hi(ri, n, t - 1) + 1,
    decreases t,
{
    let all = Seq::new(t as nat, |s: int| true);
    assert(all.last());
    if t == 1 {
        assert(all.drop_last() =~= Seq::<bool>::empty());
        assert(visited_size(ri, n, all.drop_last()) == 0);
    } else {
        assert(all.drop_last() =~= Seq::new((t - 1) as nat, |s: int| true));
        lemma_visited_size_all(ri, n, t - 1);
        let s = t - 1;
        assert(first_of_pair(ri, s - 1) == ri[2 * (s - 1)]);
        assert(second_of_pair(ri, s - 1) == first_of_pair(ri, s - 1) + 1);
        assert(second_of_pair(ri, s - 1) == ri[2 * s - 1]);
        assert(stretch_lo(ri, s) == stretch_hi(ri, n, s - 1) + 1);
    }
}

/// The used ends at the cut endpoints: those of the stretches flagged in
/// `visited`, all of them, except the one at `c` from which the walk is
/// about to leave.
pub open spec fn used_matches(
    ri: Seq<usize>,
    ai: Seq<(usize, usize)>,
    used: Seq<bool>,
    visited: Seq<bool>,
    c: usize,
) -> bool {
    forall|q: usize|
        ri.contains(q) ==> #[trigger] used_degree(ai, used, q) == if visited[stretch_of(ri, q)] {
            cut_degree(ri, q as int) - is(q, c)
        } else {
            0int
        }
}

/// The used ends at the cut endpoints are exactly those of the stretches
/// flagged in `visited`.
pub open spec fn used_matches_all(ri: Seq<usize>, ai: Seq<(usize, usize)>, used: Seq<bool>, visited: Seq<bool>) -> bool {
    forall|q: usize|
        ri.contains(q) ==> #[trigger] used_degree(ai, used, q) == if visited[stretch_of(ri, q)] {
            cut_degree(ri, q as int)
        } else {
            0int
        }
}

/// The cities met along a stretch of the tour from position `a` to position
/// `b`, both included (backwards when `b < a`).
pub open spec fn stretch_cities(path: Seq<usize>, a: int, b: int) -> Seq<usize> {
    if a <= b {
        path.subrange(a, b + 1)
    } else {
        path.subrange(b, a + 1).reverse()
    }
}

/// The cities met along the pieces of a plan, in order (a jump adds none:
/// the stretch after it starts at the city it reaches).
pub open spec fn plan_cities(path: Seq<usize>, pieces: Seq<Piece>) -> Seq<usize>
    decreases pieces.len(),
{
    if pieces.len() == 0 {
        Seq::empty()
    } else {
        (match pieces[0] {
            Piece::Stretch { start, end, offset } => stretch_cities(path, start as int, end as int),
            Piece::Jump { index, from, offset } => Seq::empty(),
        }) + plan_cities(path, pieces.drop_first())
    }
}

/// What the walks rely on, derived once from `move_basics`.
pub open spec fn move_setup(
    path: Seq<usize>,
    inv: Seq<usize>,
    s0: Seq<(usize, usize)>,
    added: Seq<(usize, usize)>,
    removed: Seq<(usize, usize)>,
) -> bool {
    let n = path.len() - 1;
    let ri = sorted_version(endpoint_positions(inv, removed));
    let ai = added_positions(inv, added);
    let s1 = apply_moves(s0, added, removed).unwrap();
    &&& move_basics(path, inv, s0, added, removed)
    &&& cut_points(ri)
    &&& ri.len() == 2 * removed.len()
    &&& forall|q: usize| #[trigger] ri.contains(q) ==> 1 <= q < n
    &&& ri[0] >= 1
    &&& ri[ri.len() - 1] < n
    &&& ai.len() == added.len()
    &&& s1.len() == n
    &&& slots_full(s1)
    &&& s1[0] == (path[1], path[n - 1])
    &&& forall|q: int| 1 <= q < n ==> #[trigger] slot_facts(path, s1, added, removed, ri, ai, q)
    &&& forall|i: int| 0 <= i < added.len() ==> #[trigger] edge_facts(path, added, ai, i)
}

pub(crate) proof fn lemma_move_setup(
    path: Seq<usize>,
    inv: Seq<usize>,
    s0: Seq<(usize, usize)>,
    added: Seq<(usize, usize)>,
    removed: Seq<(usize, usize)>,
)
    requires
        move_basics(path, inv, s0, added, removed),
    ensures
        move_setup(path, inv, s0, added, removed),
{
    let n = path.len() - 1;
    let e = endpoint_positions(inv, removed);
    let ri = sorted_version(e);
    let ai = added_positions(inv, added);
    let s1 = apply_moves(s0, added, removed).unwrap();
    lemma_removed_paired(path, inv, added, removed);
    lemma_sorted_version_props(e);
    lemma_sorted_pairs(ri, e);
    assert forall|q: usize| #[trigger] ri.contains(q) implies 1 <= q < n by {
        ri.to_multiset_ensures();
        e.to_multiset_ensures();
        assert(ri.to_multiset().count(q) > 0);
        assert(e.contains(q));
        let i = choose|i: int| 0 <= i < e.len() && e[i] == q;
        let j = i / 2;
        assert(0 < removed[j].0 < n && 0 < removed[j].1 < n);
        lemma_city_position(path, inv, removed[j].0);
        lemma_city_position(path, inv, removed[j].1);
    }
    assert(ri.contains(ri[0]));
    assert(ri.contains(ri[ri.len() - 1]));
    lemma_apply_moves_count(s0, added, removed, 0, 0);
    lemma_no_zero_counts(added, n as nat, 0);
    lemma_no_zero_counts(removed, n as nat, 0);
    assert(s0[path[0] as int] == neighbour_pair(path, 0));
    lemma_apply_moves_untouched(s0, added, removed, 0);
    assert forall|q: int| 1 <= q < n implies #[trigger] slot_facts(path, s1, added, removed, ri, ai, q) by {
        lemma_slot_facts(path, inv, s0, added, removed, q);
    }
    assert forall|i: int| 0 <= i < added.len() implies #[trigger] edge_facts(path, added, ai, i) by {
        lemma_edge_facts(path, inv, s0, added, removed, i);
    }
}

/// The jump of the fast walk from the cut endpoint `c`: it takes an added
/// edge with one end at `c`, and lands at a cut endpoint of a stretch not yet
/// visited (never the first one).
proof fn lemma_jump(
    path: Seq<usize>,
    inv: Seq<usize>,
    s0: Seq<(usize, usize)>,
    added: Seq<(usize, usize)>,
    removed: Seq<(usize, usize)>,
    used: Seq<bool>,
    visited: Seq<bool>,
    c: usize,
) -> (p: int)
    requires
        move_setup(path, inv, s0, added, removed),
        used.len() == added.len(),
        visited.len() == removed.len() + 1,
        visited[0],
        sorted_version(endpoint_positions(inv, removed)).contains(c),
        visited[stretch_of(sorted_version(endpoint_positions(inv, removed)), c)],
        used_matches(sorted_version(endpoint_positions(inv, removed)), added_positions(inv, added), used, visited, c),
    ensures
        ({
            let ri = sorted_version(endpoint_positions(inv, removed));
            let ai = added_positions(inv, added);
            let next = other_end(ai[p], c);
            &&& touching_from(ai, used, c, 0) == Some(p)
            &&& 0 <= p < ai.len()
            &&& !used[p]
            &&& ends_at(ai[p], c) == 1
            &&& next != c
            &&& ri.contains(next)
            &&& ends_at(ai[p], next) == 1
            &&& other_end(ai[p], next) == c
            &&& !visited[stretch_of(ri, next)]
            &&& ri.index_of_first(next).unwrap() != 0
        }),
{
    let n = path.len() - 1;
    let ri = sorted_version(endpoint_positions(inv, removed));
    let ai = added_positions(inv, added);
    let s1 = apply_moves(s0, added, removed).unwrap();
    assert(ri.contains(c));
    assert(1 <= c < n);
    assert(slot_facts(path, s1, added, removed, ri, ai, c as int));
    assert(used_degree(ai, used, c) == cut_degree(ri, c as int) - 1);
    lemma_used_degree_witness(ai, used, c);
    lemma_touching_props(ai, used, c, 0);
    let p = touching_from(ai, used, c, 0).unwrap();
    assert(ends_at(ai[p], c) > 0);
    lemma_used_degree_edge(ai, used, p, c);
    assert(edge_facts(path, added, ai, p));
    let next = other_end(ai[p], c);
    assert(1 <= next < n);
    lemma_used_degree_edge(ai, used, p, next);
    lemma_used_degree_bounds(ai, used, next);
    assert(slot_facts(path, s1, added, removed, ri, ai, next as int));
    if !ri.contains(next) {
        lemma_cut_not_endpoint(ri, next as int);
    }
    if visited[stretch_of(ri, next)] {
        assert(used_degree(ai, used, next) == cut_degree(ri, next as int) - is(next, c));
    }
    lemma_endpoint_index(ri, next);
    if ri.index_of_first(next).unwrap() == 0 {
        lemma_first_index(ri);
    }
    p
}

/// Where a jump that lands at the cut endpoint `next` (not the first, not
/// the last) leads: `next` and `across(ri, np)` are the two ends of stretch
/// `stretch_of(ri, next)`, an inner stretch, and they are its only cut endpoints.
pub(crate) proof fn lemma_landing(ri: Seq<usize>, next: usize)
    requires
        cut_points(ri),
        ri.contains(next),
        ri.index_of_first(next).unwrap() != 0,
        ri.index_of_first(next).unwrap() != ri.len() - 1,
    ensures
        ({
            let np = ri.index_of_first(next).unwrap();
            let s = stretch_of(ri, next);
            let c2 = across(ri, np);
            &&& 1 <= s < ri.len() / 2
            &&& np % 2 == 1 ==> next == ri[2 * s - 1] && c2 == ri[2 * s]
            &&& np % 2 == 0 ==> next == ri[2 * s] && c2 == ri[2 * s - 1] && ri[2 * s - 1] < ri[2 * s]
            &&& ri.contains(c2)
            &&& stretch_of(ri, c2) == s
            &&& forall|q: usize| #[trigger] ri.contains(q) && stretch_of(ri, q) == s ==> q == ri[2 * s - 1] || q == ri[2 * s]
        }),
{
    let np = ri.index_of_first(next).unwrap();
    lemma_endpoint_stretch(ri, next, 0);
    lemma_endpoint_index(ri, next);
    let s = stretch_of(ri, next);
    lemma_stretch_index(ri, s);
    assert(ri.contains(ri[2 * s]));
    assert(ri.contains(ri[2 * s - 1]));
    assert forall|q: usize| #[trigger] ri.contains(q) && stretch_of(ri, q) == s implies q == ri[2 * s - 1] || q
        == ri[2 * s] by {
        lemma_endpoint_index(ri, q);
    }
}

/// The last cut endpoint belongs to the last stretch, alone.
pub(crate) proof fn lemma_landing_last(ri: Seq<usize>)
    requires
        cut_points(ri),
    ensures
        ri.index_of_first(ri[ri.len() - 1]) == Some(ri.len() - 1),
        stretch_of(ri, ri[ri.len() - 1]) == ri.len() / 2,
        forall|q: usize| #[trigger] ri.contains(q) && stretch_of(ri, q) == ri.len() / 2 ==> q == ri[ri.len() - 1],
        cut_degree(ri, ri[ri.len() - 1] as int) == 1,
{
    let m = (ri.len() / 2) as int;
    lemma_stretch_index(ri, m);
    assert(2 * m - 1 == ri.len() - 1);
    lemma_cut_first_last(ri);
    assert forall|q: usize| #[trigger] ri.contains(q) && stretch_of(ri, q) == m implies q == ri[ri.len() - 1] by {
        lemma_endpoint_index(ri, q);
    }
}

/// The ends of the added edge `p` from `c` to `next`.
proof fn lemma_edge_ends(e: (usize, usize), c: usize, q: usize)
    requires
        ends_at(e, c) == 1,
        other_end(e, c) != c,
    ensures
        ends_at(e, q) == is(q, c) + is(q, other_end(e, c)),
{
}

/// After a jump to an inner stretch, the used ends match the stretches
/// visited with the new one, the walk now about to leave from its far end.
proof fn lemma_matches_inner(
    path: Seq<usize>,
    inv: Seq<usize>,
    s0: Seq<(usize, usize)>,
    added: Seq<(usize, usize)>,
    removed: Seq<(usize, usize)>,
    used: Seq<bool>,
    visited: Seq<bool>,
    c: usize,
    p: int,
)
    requires
        move_setup(path, inv, s0, added, removed),
        used.len() == added.len(),
        visited.len() == removed.len() + 1,
        ({
            let ri = sorted_version(endpoint_positions(inv, removed));
            let ai = added_positions(inv, added);
            let next = other_end(ai[p], c);
            &&& ri.contains(c)
            &&& visited[stretch_of(ri, c)]
            &&& used_matches(ri, ai, used, visited, c)
            &&& 0 <= p < ai.len()
            &&& !used[p]
            &&& ends_at(ai[p], c) == 1
            &&& next != c
            &&& ri.contains(next)
            &&& !visited[stretch_of(ri, next)]
            &&& ri.index_of_first(next).unwrap() != 0
            &&& ri.index_of_first(next).unwrap() != ri.len() - 1
        }),
    ensures
        ({
            let ri = sorted_version(endpoint_positions(inv, removed));
            let ai = added_positions(inv, added);
            let next = other_end(ai[p], c);
            let c2 = across(ri, ri.index_of_first(next).unwrap());
            used_matches(ri, ai, used.update(p, true), visited.update(stretch_of(ri, next), true), c2)
        }),
{
    let ri = sorted_version(endpoint_positions(inv, removed));
    let ai = added_positions(inv, added);
    let next = other_end(ai[p], c);
    let np = ri.index_of_first(next).unwrap();
    let sn = stretch_of(ri, next);
    let c2 = across(ri, np);
    let used1 = used.update(p, true);
    let visited1 = visited.update(sn, true);
    lemma_landing(ri, next);
    lemma_cut_stretch(ri, sn);
    lemma_endpoint_index(ri, c);
    assert(stretch_of(ri, c) != sn);
    assert forall|q: usize| ri.contains(q) implies #[trigger] used_degree(ai, used1, q) == if visited1[stretch_of(ri, q)] {
        cut_degree(ri, q as int) - is(q, c2)
    } else {
        0int
    } by {
        lemma_endpoint_index(ri, q);
        lemma_used_degree_flag(ai, used, p, q);
        lemma_edge_ends(ai[p], c, q);
        assert(used_degree(ai, used, q) == if visited[stretch_of(ri, q)] {
            cut_degree(ri, q as int) - is(q, c)
        } else {
            0int
        });
        let lo = ri[2 * sn - 1];
        let hi = ri[2 * sn];
        assert(cut_degree(ri, hi as int) >= 1);
        assert(cut_degree(ri, lo as int) >= 1);
        if lo < hi {
            assert(cut_degree(ri, hi as int) == 1);
            assert(cut_degree(ri, lo as int) == 1);
        } else {
            assert(cut_degree(ri, lo as int) == 2);
        }
        if stretch_of(ri, q) == sn {
            assert(q == lo || q == hi);
            if q == next {
                assert(used_degree(ai, used, q) == 0);
            } else {
                assert(q == c2);
            }
        } else {
            assert(q != next && q != c2);
            if q == c {
                assert(visited1[stretch_of(ri, q)]);
            }
        }
    }
}

/// After the jump to the last stretch, the used ends are exactly those of
/// the stretches visited, the last one included.
proof fn lemma_matches_last(
    path: Seq<usize>,
    inv: Seq<usize>,
    s0: Seq<(usize, usize)>,
    added: Seq<(usize, usize)>,
    removed: Seq<(usize, usize)>,
    used: Seq<bool>,
    visited: Seq<bool>,
    c: usize,
    p: int,
)
    requires
        move_setup(path, inv, s0, added, removed),
        used.len() == added.len(),
        visited.len() == removed.len() + 1,
        ({
            let ri = sorted_version(endpoint_positions(inv, removed));
            let ai = added_positions(inv, added);
            let next = other_end(ai[p], c);
            &&& ri.contains(c)
            &&& visited[stretch_of(ri, c)]
            &&& used_matches(ri, ai, used, visited, c)
            &&& 0 <= p < ai.len()
            &&& !used[p]
            &&& ends_at(ai[p], c) == 1
            &&& next != c
            &&& ri.contains(next)
            &&& !visited[stretch_of(ri, next)]
            &&& ri.index_of_first(next).unwrap() == ri.len() - 1
        }),
    ensures
        ({
            let ri = sorted_version(endpoint_positions(inv, removed));
            let ai = added_positions(inv, added);
            used_matches_all(ri, ai, used.update(p, true), visited.update(removed.len() as int, true))
        }),
{
    let ri = sorted_version(endpoint_positions(inv, removed));
    let ai = added_positions(inv, added);
    let next = other_end(ai[p], c);
    let m = removed.len() as int;
    let used1 = used.update(p, true);
    let visited1 = visited.update(m, true);
    lemma_endpoint_index(ri, next);
    lemma_endpoint_index(ri, c);
    lemma_landing_last(ri);
    assert(next == ri[ri.len() - 1]);
    assert(stretch_of(ri, c) != m);
    assert forall|q: usize| ri.contains(q) implies #[trigger] used_degree(ai, used1, q) == if visited1[stretch_of(ri, q)] {
        cut_degree(ri, q as int)
    } else {
        0int
    } by {
        lemma_endpoint_index(ri, q);
        lemma_used_degree_flag(ai, used, p, q);
        lemma_edge_ends(ai[p], c, q);
        assert(used_degree(ai, used, q) == if visited[stretch_of(ri, q)] {
            cut_degree(ri, q as int) - is(q, c)
        } else {
            0int
        });
    }
}

/// The city from which the walk reaches the far end `c2` of the stretch it
/// entered at `next`, having jumped there from the city `from`.
pub open spec fn before_end(path: Seq<usize>, from: usize, next: usize, c2: usize) -> usize {
    if next == c2 {
        from
    } else if next < c2 {
        path[c2 - 1]
    } else {
        path[c2 + 1]
    }
}

/// The slow walk over a jump from `c` and the stretch it lands in: it takes
/// the added edge to `next`, runs along the stretch to its far end `c2`, and
/// there the slots hold the city it came from and the city across the next
/// unused added edge.
proof fn lemma_through_stretch(
    path: Seq<usize>,
    inv: Seq<usize>,
    s0: Seq<(usize, usize)>,
    added: Seq<(usize, usize)>,
    removed: Seq<(usize, usize)>,
    used: Seq<bool>,
    visited: Seq<bool>,
    c: usize,
    p: int,
    k: nat,
    prev: usize,
)
    requires
        move_setup(path, inv, s0, added, removed),
        used.len() == added.len(),
        visited.len() == removed.len() + 1,
        ({
            let ri = sorted_version(endpoint_positions(inv, removed));
            let ai = added_positions(inv, added);
            let s1 = apply_moves(s0, added, removed).unwrap();
            let next = other_end(ai[p], c);
            let np = ri.index_of_first(next).unwrap();
            let c2 = across(ri, np);
            &&& ri.contains(c)
            &&& 0 <= p < ai.len()
            &&& !used[p]
            &&& ends_at(ai[p], c) == 1
            &&& next != c
            &&& ri.contains(next)
            &&& ends_at(ai[p], next) == 1
            &&& other_end(ai[p], next) == c
            &&& !visited[stretch_of(ri, next)]
            &&& np != 0
            &&& np != ri.len() - 1
            &&& used_matches(ri, ai, used.update(p, true), visited.update(stretch_of(ri, next), true), c2)
            &&& walk_state(s1, k) == Some((prev, path[c as int]))
            &&& prev != NOEDGE
            &&& forall|x: usize| #[trigger] slot_count(s1[path[c as int] as int], x) == is(x, prev) + is(x, path[next as int])
        }),
    ensures
        ({
            let ri = sorted_version(endpoint_positions(inv, removed));
            let ai = added_positions(inv, added);
            let s1 = apply_moves(s0, added, removed).unwrap();
            let next = other_end(ai[p], c);
            let c2 = across(ri, ri.index_of_first(next).unwrap());
            let sc = stretch_cities(path, next as int, c2 as int);
            let prev2 = before_end(path, path[c as int], next, c2);
            &&& sc.len() == stretch_size(ri, path.len() - 1, stretch_of(ri, next))
            &&& sc[0] == path[next as int]
            &&& sc.last() == path[c2 as int]
            &&& sc.len() >= 2 ==> sc[sc.len() - 2] == prev2
            &&& forall|t: int| 0 <= t < sc.len() ==> #[trigger] sc[t] != 0 && sc[t] < path.len() - 1
            &&& walk_state(s1, k + 1) == Some((path[c as int], path[next as int]))
            &&& forall|t: int| 0 < t < sc.len() ==> #[trigger] walk_state(s1, (k + 1 + t) as nat) == Some((sc[t - 1], sc[t]))
            &&& prev2 != NOEDGE
            &&& touching_from(ai, used.update(p, true), c2, 0) matches Some(p2) ==> forall|x: usize| #[trigger] slot_count(
                s1[path[c2 as int] as int],
                x,
            ) == is(x, prev2) + is(x, path[other_end(ai[p2], c2) as int])
        }),
{
    let n = path.len() - 1;
    let ri = sorted_version(endpoint_positions(inv, removed));
    let ai = added_positions(inv, added);
    let s1 = apply_moves(s0, added, removed).unwrap();
    let next = other_end(ai[p], c);
    let np = ri.index_of_first(next).unwrap();
    let c2 = across(ri, np);
    let sn = stretch_of(ri, next);
    let used1 = used.update(p, true);
    let visited1 = visited.update(sn, true);
    let sc = stretch_cities(path, next as int, c2 as int);
    let prev2 = before_end(path, path[c as int], next, c2);
    lemma_landing(ri, next);
    lemma_cut_stretch(ri, sn);
    let lo = ri[2 * sn - 1];
    let hi = ri[2 * sn];
    assert(ri.contains(lo) && ri.contains(hi));
    assert(1 <= lo && hi < n);
    assert(1 <= c < n);
    assert(path[c as int] != 0 && path[c as int] < n);
    assert(path[next as int] < n);
    // The jump.
    lemma_walk_step(s1, prev, path[c as int], path[next as int]);
    lemma_walk_next(s1, k, prev, path[c as int], path[next as int]);
    // No cut endpoint lies strictly inside the stretch.
    assert forall|j: int| lo < j < hi implies #[trigger] s1[path[j] as int] == (path[j - 1], path[j + 1]) by {
        if ri.contains(j as usize) {
            lemma_endpoint_index(ri, j as usize);
            let i = ri.index_of_first(j as usize).unwrap();
            if i < 2 * sn - 1 {
                lemma_cut_points_order(ri, i, 2 * sn - 1);
            } else if i > 2 * sn {
                lemma_cut_points_order(ri, 2 * sn, i);
            }
        }
        assert(slot_facts(path, s1, added, removed, ri, ai, j));
    }
    assert(edge_facts(path, added, ai, p));
    assert(slot_facts(path, s1, added, removed, ri, ai, next as int));
    assert(slot_facts(path, s1, added, removed, ri, ai, c2 as int));
    if lo < hi {
        assert(cut_degree(ri, hi as int) == 1);
        assert(cut_degree(ri, lo as int) == 1);
        if next == lo {
            // Entered at the first end: run forwards.
            lemma_end_slots_single(path, s1, added, removed, ri, ai, next as int, p);
            assert(!cut_at(ri, next as int));
            lemma_run_forward(path, s1, next as int, c2 as int, k + 1, path[c as int]);
            assert(sc =~= path.subrange(lo as int, hi + 1));
            assert forall|t: int| 0 < t < sc.len() implies #[trigger] walk_state(s1, (k + 1 + t) as nat) == Some(
                (sc[t - 1], sc[t]),
            ) by {
                assert(walk_state(s1, ((k + 1) + t) as nat) == Some((path[next + t - 1], path[next + t])));
            }
        } else {
            // Entered at the last end: run backwards.
            lemma_end_slots_single(path, s1, added, removed, ri, ai, next as int, p);
            lemma_run_backward(path, s1, next as int, c2 as int, k + 1, path[c as int]);
            assert(sc =~= path.subrange(lo as int, hi + 1).reverse());
            assert forall|t: int| 0 < t < sc.len() implies #[trigger] walk_state(s1, (k + 1 + t) as nat) == Some(
                (sc[t - 1], sc[t]),
            ) by {
                assert(walk_state(s1, ((k + 1) + t) as nat) == Some((path[next - t + 1], path[next - t])));
            }
        }
    } else {
        assert(sc =~= seq![path[next as int]]);
    }
    assert forall|t: int| 0 <= t < sc.len() implies #[trigger] sc[t] != 0 && sc[t] < path.len() - 1 by {
        if next <= c2 {
            assert(sc[t] == path[next + t]);
        } else {
            assert(sc[t] == path[next - t]);
        }
    }
    // The slots at the far end.
    match touching_from(ai, used1, c2, 0) {
        Some(p2) => {
            lemma_touching_props(ai, used1, c2, 0);
            assert(edge_facts(path, added, ai, p2));
            if lo < hi {
                lemma_end_slots_single(path, s1, added, removed, ri, ai, c2 as int, p2);
            } else {
                assert(cut_degree(ri, lo as int) == 2);
                lemma_used_degree_edge(ai, used1, p2, c2);
                lemma_used_degree_flag(ai, used, p, c2);
                lemma_endpoint_index(ri, c2);
                assert(used_degree(ai, used1, c2) == 1);
                assert(ends_at(ai[p2], c2) == 1);
                lemma_end_slots_double(path, s1, added, removed, ri, ai, c2 as int, p, p2);
            }
        },
        None => {},
    }
}

/// The walk states before and after a stretch fit together.
proof fn lemma_compose_walk(
    s1: Seq<(usize, usize)>,
    k: nat,
    prev: usize,
    cc: usize,
    sc: Seq<usize>,
    r: Seq<usize>,
    prev2: usize,
    c2c: usize,
)
    requires
        sc.len() >= 1,
        sc.last() == c2c,
        sc.len() >= 2 ==> sc[sc.len() - 2] == prev2,
        sc.len() == 1 ==> prev2 == cc,
        walk_state(s1, k) == Some((prev, cc)),
        walk_state(s1, k + 1) == Some((cc, sc[0])),
        forall|t: int| 0 < t < sc.len() ==> #[trigger] walk_state(s1, (k + 1 + t) as nat) == Some((sc[t - 1], sc[t])),
        forall|i: int|
            0 <= i < (seq![prev2, c2c] + r).len() - 1 ==> #[trigger] walk_state(s1, (k + sc.len() + i) as nat) == Some(
                ((seq![prev2, c2c] + r)[i], (seq![prev2, c2c] + r)[i + 1]),
            ),
    ensures
        forall|i: int|
            0 <= i < (seq![prev, cc] + sc + r).len() - 1 ==> #[trigger] walk_state(s1, (k + i) as nat) == Some(
                ((seq![prev, cc] + sc + r)[i], (seq![prev, cc] + sc + r)[i + 1]),
            ),
        (seq![prev, cc] + sc + r).last() == (seq![prev2, c2c] + r).last(),
        (seq![prev, cc] + sc + r).len() == (seq![prev2, c2c] + r).len() + sc.len(),
{
    let w = seq![prev, cc] + sc + r;
    let w2 = seq![prev2, c2c] + r;
    let l = sc.len() as int;
    assert forall|i: int| 0 <= i < w.len() - 1 implies #[trigger] walk_state(s1, (k + i) as nat) == Some((w[i], w[i + 1])) by {
        if i == 0 {
        } else if i < l {
            if i == 1 {
                assert(w[1] == cc && w[2] == sc[0]);
                assert((k + i) as nat == k + 1);
            } else {
                assert(walk_state(s1, (k + 1 + (i - 1)) as nat) == Some((sc[(i - 1) - 1], sc[i - 1])));
                assert((k + 1 + (i - 1)) as nat == (k + i) as nat);
                assert(w[i] == sc[i - 2] && w[i + 1] == sc[i - 1]);
            }
        } else {
            let j = i - l;
            assert(walk_state(s1, (k + sc.len() + j) as nat) == Some((w2[j], w2[j + 1])));
            assert((k + sc.len() + j) as nat == (k + i) as nat);
            if j == 0 {
                if l == 1 {
                    assert(w[i] == cc);
                } else {
                    assert(w[i] == sc[l - 2]);
                }
                assert(w[i + 1] == sc[l - 1]);
            } else {
                assert(w[i] == w2[j]);
                assert(w[i + 1] == w2[j + 1]);
            }
        }
    }
    if r.len() == 0 {
        assert(w.last() == sc.last());
    }
}

/// The walk along the slots takes the steps `w[0] -> w[1] -> ...` from its
/// state after `k` steps on.
pub open spec fn walk_follows(s1: Seq<(usize, usize)>, k: nat, w: Seq<usize>) -> bool {
    forall|i: int| 0 <= i < w.len() - 1 ==> #[trigger] walk_state(s1, (k + i) as nat) == Some((w[i], w[i + 1]))
}

proof fn lemma_plan_cities_two(path: Seq<usize>, jump: Piece, stretch: Piece, rest: Seq<Piece>)
    requires
        jump is Jump,
        stretch is Stretch,
    ensures
        plan_cities(path, seq![jump, stretch] + rest) == stretch_cities(
            path,
            stretch->Stretch_start as int,
            stretch->Stretch_end as int,
        ) + plan_cities(path, rest),
{
    let ps = seq![jump, stretch] + rest;
    assert(ps.drop_first() =~= seq![stretch] + rest);
    assert((seq![stretch] + rest).drop_first() =~= rest);
    assert(plan_cities(path, ps) == Seq::<usize>::empty() + plan_cities(path, ps.drop_first()));
    assert(Seq::<usize>::empty() + plan_cities(path, ps.drop_first()) =~= plan_cities(path, ps.drop_first()));
}

proof fn lemma_plan_cities_jump(path: Seq<usize>, jump: Piece)
    requires
        jump is Jump,
    ensures
        plan_cities(path, seq![jump]) == Seq::<usize>::empty(),
{
    let ps = seq![jump];
    assert(ps.drop_first() =~= Seq::<Piece>::empty());
    assert(ps[0] == jump);
    assert(plan_cities(path, ps.drop_first()) == Seq::<usize>::empty());
    assert(plan_cities(path, ps) == Seq::<usize>::empty() + plan_cities(path, ps.drop_first()));
    assert(plan_cities(path, ps) =~= Seq::<usize>::empty());
}

/// The fast walk from the cut endpoint `c` and the slow walk along the slots
/// from the city at `c` agree: the fast walk never gets stuck, its stretches
/// are the cities the slow walk meets, and at its end the used added edges
/// are exactly those at the stretches it visited.
#[verifier::spinoff_prover]
#[verifier::rlimit(60)]
proof fn lemma_walks_agree(
    path: Seq<usize>,
    inv: Seq<usize>,
    s0: Seq<(usize, usize)>,
    added: Seq<(usize, usize)>,
    removed: Seq<(usize, usize)>,
    used: Seq<bool>,
    visited: Seq<bool>,
    c: usize,
    off: usize,
    fuel: nat,
    k: nat,
    prev: usize,
) -> (res: (Seq<bool>, int))
    requires
        move_setup(path, inv, s0, added, removed),
        used.len() == added.len(),
        visited.len() == removed.len() + 1,
        visited[0],
        ({
            let ri = sorted_version(endpoint_positions(inv, removed));
            let ai = added_positions(inv, added);
            let s1 = apply_moves(s0, added, removed).unwrap();
            &&& ri.contains(c)
            &&& visited[stretch_of(ri, c)]
            &&& used_matches(ri, ai, used, visited, c)
            &&& count_unused(used) <= fuel
            &&& walk_state(s1, k) == Some((prev, path[c as int]))
            &&& prev != NOEDGE
            &&& touching_from(ai, used, c, 0) matches Some(p) ==> forall|x: usize| #[trigger] slot_count(
                s1[path[c as int] as int],
                x,
            ) == is(x, prev) + is(x, path[other_end(ai[p], c) as int])
        }),
    ensures
        ({
            let n = path.len() - 1;
            let ri = sorted_version(endpoint_positions(inv, removed));
            let ai = added_positions(inv, added);
            let s1 = apply_moves(s0, added, removed).unwrap();
            let fw = fast_walk(ri, ai, used, c, off, fuel);
            let visited2 = res.0;
            let pf = res.1;
            let w = seq![prev, path[c as int]] + plan_cities(path, fw.unwrap().1);
            &&& fw is Some
            &&& fw.unwrap().0.len() == used.len()
            &&& visited2.len() == visited.len()
            &&& visited2[removed.len() as int]
            &&& forall|s: int| 0 <= s < visited.len() && visited[s] ==> visited2[s]
            &&& used_matches_all(ri, ai, fw.unwrap().0, visited2)
            &&& plan_cities(path, fw.unwrap().1).len() == visited_size(ri, n, visited2) - visited_size(ri, n, visited)
                - stretch_size(ri, n, removed.len() as int)
            &&& walk_follows(s1, k, w)
            &&& walk_state(s1, (k + w.len() - 1) as nat) == Some((w.last(), path[ri[ri.len() - 1] as int]))
            &&& forall|i: int| 1 <= i < w.len() ==> #[trigger] w[i] != 0 && w[i] < n
            &&& 0 <= pf < ai.len()
            &&& ends_at(ai[pf], ri[ri.len() - 1]) >= 1
            &&& path[other_end(ai[pf], ri[ri.len() - 1]) as int] == w.last()
        }),
    decreases fuel,
{
    let n = path.len() - 1;
    let m = removed.len() as int;
    let ri = sorted_version(endpoint_positions(inv, removed));
    let ai = added_positions(inv, added);
    let s1 = apply_moves(s0, added, removed).unwrap();
    let p = lemma_jump(path, inv, s0, added, removed, used, visited, c);
    let next = other_end(ai[p], c);
    let np = ri.index_of_first(next).unwrap();
    let sn = stretch_of(ri, next);
    let used1 = used.update(p, true);
    lemma_count_positive(used, p);
    lemma_count_flip(used, p);
    lemma_endpoint_index(ri, next);
    lemma_endpoint_index(ri, c);
    assert(1 <= c < n);
    assert(1 <= next < n);
    let jump = Piece::Jump { index: p as usize, from: c, offset: off };
    let off1 = ((off + 1) % 10) as usize;
    if np == ri.len() - 1 {
        let visited2 = visited.update(m, true);
        lemma_matches_last(path, inv, s0, added, removed, used, visited, c, p);
        lemma_landing_last(ri);
        lemma_visited_size_flag(ri, n as int, visited, m);
        lemma_plan_cities_jump(path, jump);
        assert(fast_walk(ri, ai, used, c, off, fuel) == Some((used1, seq![jump], off1)));
        let w = seq![prev, path[c as int]] + plan_cities(path, seq![jump]);
        assert(w =~= seq![prev, path[c as int]]);
        lemma_walk_step(s1, prev, path[c as int], path[next as int]);
        lemma_walk_next(s1, k, prev, path[c as int], path[next as int]);
        assert(walk_follows(s1, k, w));
        (visited2, p)
    } else {
        let c2 = across(ri, np);
        let visited1 = visited.update(sn, true);
        lemma_landing(ri, next);
        lemma_matches_inner(path, inv, s0, added, removed, used, visited, c, p);
        lemma_through_stretch(path, inv, s0, added, removed, used, visited, c, p, k, prev);
        lemma_visited_size_flag(ri, n as int, visited, sn);
        let sc = stretch_cities(path, next as int, c2 as int);
        let prev2 = before_end(path, path[c as int], next, c2);
        let off2 = ((off1 + gap(next, c2)) % 10) as usize;
        let k2 = (k + sc.len()) as nat;
        assert(walk_state(s1, k2) == Some((prev2, path[c2 as int]))) by {
            if sc.len() == 1 {
                assert(k2 == k + 1);
            } else {
                assert(walk_state(s1, (k + 1 + (sc.len() - 1)) as nat) == Some((sc[sc.len() - 2], sc[sc.len() - 1])));
            }
        }
        lemma_endpoint_index(ri, c2);
        let r = lemma_walks_agree(path, inv, s0, added, removed, used1, visited1, c2, off2, (fuel - 1) as nat, k2, prev2);
        let fw2 = fast_walk(ri, ai, used1, c2, off2, (fuel - 1) as nat);
        let stretch = Piece::Stretch { start: next, end: c2, offset: off1 };
        assert(fast_walk(ri, ai, used, c, off, fuel) == Some((fw2.unwrap().0, seq![jump, stretch] + fw2.unwrap().1, fw2.unwrap().2)));
        lemma_plan_cities_two(path, jump, stretch, fw2.unwrap().1);
        let rest = plan_cities(path, fw2.unwrap().1);
        let w = seq![prev, path[c as int]] + plan_cities(path, seq![jump, stretch] + fw2.unwrap().1);
        assert(w =~= seq![prev, path[c as int]] + sc + rest);
        let w2 = seq![prev2, path[c2 as int]] + rest;
        assert forall|i: int| 0 <= i < w2.len() - 1 implies #[trigger] walk_state(s1, (k + sc.len() + i) as nat) == Some(
            (w2[i], w2[i + 1]),
        ) by {
            assert(walk_state(s1, (k2 + i) as nat) == Some((w2[i], w2[i + 1])));
        }
        lemma_compose_walk(s1, k, prev, path[c as int], sc, rest, prev2, path[c2 as int]);
        assert(walk_follows(s1, k, w));
        assert((k + w.len() - 1) as nat == (k2 + w2.len() - 1) as nat);
        assert forall|i: int| 1 <= i < w.len() implies #[trigger] w[i] != 0 && w[i] < n by {
            if i == 1 {
            } else if i < 2 + sc.len() {
                assert(w[i] == sc[i - 2]);
            } else {
                assert(w[i] == w2[i - sc.len()]);
            }
        }
        assert forall|s: int| 0 <= s < visited.len() && visited[s] implies r.0[s] by {
            assert(visited1[s]);
        }
        r
    }
}

/// The walk first comes back to city 0 at one step only.
proof fn lemma_closes_unique(s: Seq<(usize, usize)>, a: nat, b: nat)
    requires
        closes_at(s, a),
        closes_at(s, b),
    ensures
        a == b,
{
    if a < b {
        assert(walk_state(s, a).unwrap().1 != 0);
    } else if b < a {
        assert(walk_state(s, b).unwrap().1 != 0);
    }
}

proof fn lemma_plan_cities_concat(path: Seq<usize>, a: Seq<Piece>, b: Seq<Piece>)
    ensures
        plan_cities(path, a + b) == plan_cities(path, a) + plan_cities(path, b),
    decreases a.len(),
{
    if a.len() == 0 {
        assert(a + b =~= b);
        assert(plan_cities(path, a) + plan_cities(path, b) =~= plan_cities(path, b));
    } else {
        assert((a + b).drop_first() =~= a.drop_first() + b);
        assert((a + b)[0] == a[0]);
        lemma_plan_cities_concat(path, a.drop_first(), b);
        let h = match a[0] {
            Piece::Stretch { start, end, offset } => stretch_cities(path, start as int, end as int),
            Piece::Jump { index, from, offset } => Seq::<usize>::empty(),
        };
        assert(plan_cities(path, a + b) == h + plan_cities(path, a.drop_first() + b));
        assert(h + (plan_cities(path, a.drop_first()) + plan_cities(path, b)) =~= (h + plan_cities(path, a.drop_first()))
            + plan_cities(path, b));
    }
}

proof fn lemma_plan_cities_stretch(path: Seq<usize>, st: Piece)
    requires
        st is Stretch,
    ensures
        plan_cities(path, seq![st]) == stretch_cities(path, st->Stretch_start as int, st->Stretch_end as int),
{
    let ps = seq![st];
    assert(ps.drop_first() =~= Seq::<Piece>::empty());
    assert(ps[0] == st);
    assert(plan_cities(path, ps.drop_first()) == Seq::<usize>::empty());
    assert(plan_cities(path, ps) =~= stretch_cities(path, st->Stretch_start as int, st->Stretch_end as int));
}

proof fn lemma_visited_size_none(ri: Seq<usize>, n: int, t: nat)
    ensures
        visited_size(ri, n, Seq::new(t, |s: int| false)) == 0,
    decreases t,
{
    if t > 0 {
        assert(Seq::new(t, |s: int| false).drop_last() =~= Seq::new((t - 1) as nat, |s: int| false));
        lemma_visited_size_none(ri, n, (t - 1) as nat);
    }
}

/// The walk from city 0 along the first stretch.
proof fn lemma_first_stretch(
    path: Seq<usize>,
    inv: Seq<usize>,
    s0: Seq<(usize, usize)>,
    added: Seq<(usize, usize)>,
    removed: Seq<(usize, usize)>,
)
    requires
        move_setup(path, inv, s0, added, removed),
    ensures
        ({
            let ri = sorted_version(endpoint_positions(inv, removed));
            let s1 = apply_moves(s0, added, removed).unwrap();
            forall|d: int| 0 <= d < ri[0] ==> #[trigger] walk_state(s1, d as nat) == Some((path[d], path[d + 1]))
        }),
{
    let n = path.len() - 1;
    let ri = sorted_version(endpoint_positions(inv, removed));
    let ai = added_positions(inv, added);
    let s1 = apply_moves(s0, added, removed).unwrap();
    let r0 = ri[0] as int;
    assert(walk_state(s1, 0) == Some((path[0], path[1])));
    assert forall|j: int| 1 <= j < r0 implies #[trigger] s1[path[j] as int] == (path[j - 1], path[j + 1]) by {
        if ri.contains(j as usize) {
            let i = choose|i: int| 0 <= i < ri.len() && ri[i] == j;
            assert(ri[0] <= ri[i]);
        }
        assert(slot_facts(path, s1, added, removed, ri, ai, j));
    }
    if r0 > 1 {
        assert(s1[path[1] as int] == (path[0], path[2]));
        assert forall|x: usize| #[trigger] slot_count(s1[path[1] as int], x) == is(x, path[0]) + is(x, path[2]) by {
        }
        lemma_run_forward(path, s1, 1, r0, 0, path[0]);
        assert forall|d: int| 0 <= d < r0 implies #[trigger] walk_state(s1, d as nat) == Some((path[d], path[d + 1])) by {
            if d > 0 {
                assert(walk_state(s1, (0 + d) as nat) == Some((path[1 + d - 1], path[1 + d])));
            }
        }
    }
}

/// At the end of the fast walk, every stretch was visited exactly when every
/// added edge was used.
proof fn lemma_all_visited_iff_all_used(
    path: Seq<usize>,
    inv: Seq<usize>,
    s0: Seq<(usize, usize)>,
    added: Seq<(usize, usize)>,
    removed: Seq<(usize, usize)>,
    used: Seq<bool>,
    visited: Seq<bool>,
)
    requires
        move_setup(path, inv, s0, added, removed),
        used.len() == added.len(),
        visited.len() == removed.len() + 1,
        used_matches_all(sorted_version(endpoint_positions(inv, removed)), added_positions(inv, added), used, visited),
    ensures
        count_unused(used) == 0 <==> forall|s: int| 0 <= s < visited.len() ==> visited[s],
{
    let n = path.len() - 1;
    let m = removed.len() as int;
    let ri = sorted_version(endpoint_positions(inv, removed));
    let ai = added_positions(inv, added);
    let s1 = apply_moves(s0, added, removed).unwrap();
    lemma_count_zero(used);
    lemma_cut_first_last(ri);
    lemma_landing_last(ri);
    lemma_first_index(ri);
    if count_unused(used) == 0 {
        assert forall|s: int| 0 <= s < visited.len() implies visited[s] by {
            let q = if s < m { ri[2 * s] } else { ri[2 * m - 1] };
            assert(ri.contains(q));
            if s == 0 {
            } else if s < m {
                lemma_stretch_index(ri, s);
                lemma_cut_stretch(ri, s);
            }
            assert(stretch_of(ri, q) == s);
            assert(cut_degree(ri, q as int) >= 1);
            assert(slot_facts(path, s1, added, removed, ri, ai, q as int));
            lemma_used_degree_bounds(ai, used, q);
            assert(used_degree(ai, used, q) >= 1);
        }
    }
    if forall|s: int| 0 <= s < visited.len() ==> visited[s] {
        assert forall|i: int| 0 <= i < used.len() implies used[i] by {
            if !used[i] {
                assert(edge_facts(path, added, ai, i));
                let q = ai[i].0;
                lemma_used_degree_edge(ai, used, i, q);
                lemma_used_degree_bounds(ai, used, q);
                assert(slot_facts(path, s1, added, removed, ri, ai, q as int));
                if !ri.contains(q) {
                    lemma_cut_not_endpoint(ri, q as int);
                }
                lemma_endpoint_index(ri, q);
                assert(visited[stretch_of(ri, q)]);
            }
        }
    }
}

/// The pieces of a move's fast plan whether or not it uses every added
/// edge: the first stretch, the walk, and the last stretch.
pub open spec fn full_plan(inv: Seq<usize>, n: usize, added: Seq<(usize, usize)>, removed: Seq<(usize, usize)>) -> Seq<Piece> {
    let ri = sorted_version(endpoint_positions(inv, removed));
    let w = fast_walk_report(inv, added, removed).unwrap();
    seq![Piece::Stretch { start: 0, end: ri[0], offset: 0 }] + w.1 + seq![
        Piece::Stretch { start: ri.last(), end: n, offset: w.2 },
    ]
}

/// The slow walk of a move follows the cities of its full fast plan, which
/// start and end at city 0 and meet it nowhere else; they number one more
/// than the cities exactly when the fast walk used every added edge.
#[verifier::rlimit(60)]
proof fn lemma_move_walk(
    path: Seq<usize>,
    inv: Seq<usize>,
    s0: Seq<(usize, usize)>,
    added: Seq<(usize, usize)>,
    removed: Seq<(usize, usize)>,
)
    requires
        move_basics(path, inv, s0, added, removed),
    ensures
        ({
            let n = (path.len() - 1) as usize;
            let s1 = apply_moves(s0, added, removed).unwrap();
            let x = plan_cities(path, full_plan(inv, n, added, removed));
            &&& fast_walk_report(inv, added, removed) is Some
            &&& walk_follows(s1, 0, x)
            &&& x.len() >= 3
            &&& x.last() == 0
            &&& forall|i: int| 0 < i < x.len() - 1 ==> #[trigger] x[i] != 0
            &&& (x.len() == n + 1 <==> count_unused(fast_walk_report(inv, added, removed).unwrap().0) == 0)
        }),
{
    lemma_move_setup(path, inv, s0, added, removed);
    let n = path.len() - 1;
    let m = removed.len() as int;
    let ri = sorted_version(endpoint_positions(inv, removed));
    let ai = added_positions(inv, added);
    let s1 = apply_moves(s0, added, removed).unwrap();
    let r0 = ri[0];
    let rl = ri[ri.len() - 1];
    lemma_first_stretch(path, inv, s0, added, removed);
    lemma_cut_first_last(ri);
    lemma_first_index(ri);
    lemma_landing_last(ri);
    let used0 = Seq::new(ai.len(), |i: int| false);
    let visited0 = Seq::new((m + 1) as nat, |s: int| false).update(0, true);
    assert(visited0[0]);
    // The walk is at the end of the first stretch.
    let k0 = (r0 - 1) as nat;
    assert(walk_state(s1, k0) == Some((path[r0 - 1], path[r0 as int]))) by {
        assert(walk_state(s1, (r0 - 1) as nat) == Some((path[r0 - 1], path[r0 - 1 + 1])));
    }
    lemma_used_degree_bounds(ai, used0, 0);
    assert forall|q: usize| ri.contains(q) implies #[trigger] used_degree(ai, used0, q) == if visited0[stretch_of(ri, q)] {
        cut_degree(ri, q as int) - is(q, r0)
    } else {
        0int
    } by {
        lemma_used_degree_bounds(ai, used0, q);
        lemma_endpoint_index(ri, q);
        if stretch_of(ri, q) == 0 {
            assert(q == r0);
        }
    }
    lemma_count_all_unused(ai.len());
    assert(ri.contains(r0));
    match touching_from(ai, used0, r0, 0) {
        Some(p) => {
            lemma_touching_props(ai, used0, r0, 0);
            assert(edge_facts(path, added, ai, p));
            assert(slot_facts(path, s1, added, removed, ri, ai, r0 as int));
            lemma_end_slots_single(path, s1, added, removed, ri, ai, r0 as int, p);
        },
        None => {},
    }
    assert(path[r0 - 1] < n) by {
        assert(r0 - 1 < n);
    }
    let res = lemma_walks_agree(
        path,
        inv,
        s0,
        added,
        removed,
        used0,
        visited0,
        r0,
        (r0 % 10) as usize,
        ai.len(),
        k0,
        path[r0 - 1],
    );
    let visited2 = res.0;
    let pf = res.1;
    let fw = fast_walk(ri, ai, used0, r0, (r0 % 10) as usize, ai.len());
    assert(fast_walk_report(inv, added, removed) == fw);
    let pieces = fw.unwrap().1;
    let pc = plan_cities(path, pieces);
    let w = seq![path[r0 - 1], path[r0 as int]] + pc;
    // The last stretch.
    let kf = (k0 + w.len() - 1) as nat;
    assert(slot_facts(path, s1, added, removed, ri, ai, rl as int));
    assert(edge_facts(path, added, ai, pf));
    lemma_end_slots_single(path, s1, added, removed, ri, ai, rl as int, pf);
    assert forall|j: int| rl < j < n implies #[trigger] s1[path[j] as int] == (path[j - 1], path[j + 1]) by {
        if ri.contains(j as usize) {
            let i = choose|i: int| 0 <= i < ri.len() && ri[i] == j;
            lemma_cut_points_order(ri, i, ri.len() - 1);
        }
        assert(slot_facts(path, s1, added, removed, ri, ai, j));
    }
    assert(w.last() < n);
    assert forall|x: usize| #[trigger] slot_count(s1[path[rl as int] as int], x) == is(x, w.last()) + is(x, path[rl + 1]) by {
        assert(slot_count(s1[path[rl as int] as int], x) == is(x, path[rl + 1]) + is(x, path[other_end(ai[pf], rl) as int]));
    }
    lemma_run_forward(path, s1, rl as int, n as int, kf, w.last());
    // The whole list of cities.
    let first = Piece::Stretch { start: 0, end: r0, offset: 0 };
    let last = Piece::Stretch { start: rl, end: n as usize, offset: fw.unwrap().2 };
    lemma_plan_cities_concat(path, seq![first] + pieces, seq![last]);
    lemma_plan_cities_concat(path, seq![first], pieces);
    lemma_plan_cities_stretch(path, first);
    lemma_plan_cities_stretch(path, last);
    let x = plan_cities(path, full_plan(inv, n as usize, added, removed));
    let a = path.subrange(0, r0 + 1);
    let b = path.subrange(rl as int, n + 1);
    assert(x =~= a + pc + b);
    let la = a.len() as int;
    let lp = pc.len() as int;
    assert forall|i: int| 0 <= i < x.len() - 1 implies #[trigger] walk_state(s1, i as nat) == Some((x[i], x[i + 1])) by {
        if i < r0 - 1 {
            assert(walk_state(s1, i as nat) == Some((path[i], path[i + 1])));
        } else if i < k0 + w.len() - 1 {
            let j = i - k0;
            assert(walk_state(s1, (k0 + j) as nat) == Some((w[j], w[j + 1])));
            if j == 0 {
                assert(x[i] == path[r0 - 1]);
            } else {
                assert(x[i] == w[j]);
            }
            assert(x[i + 1] == w[j + 1]);
        } else if i == kf {
            assert(x[i] == w.last());
            assert(x[i + 1] == path[rl as int]);
        } else {
            let d = i - kf;
            assert(walk_state(s1, (kf + d) as nat) == Some((path[rl + d - 1], path[rl + d])));
            assert(x[i] == path[rl + d - 1]);
            assert(x[i + 1] == path[rl + d]);
        }
    }
    assert forall|i: int| 0 < i < x.len() - 1 implies #[trigger] x[i] != 0 by {
        if i <= r0 {
            assert(x[i] == path[i]);
        } else if i < la + lp {
            assert(x[i] == w[i - k0]);
        } else {
            assert(x[i] == path[rl + (i - la - lp)]);
        }
    }
    assert(x.last() == path[n as int]);
    // The count.
    lemma_visited_size_none(ri, n as int, (m + 1) as nat);
    lemma_visited_size_flag(ri, n as int, Seq::new((m + 1) as nat, |s: int| false), 0);
    assert(x.len() == visited_size(ri, n as int, visited2));
    lemma_all_visited_iff_all_used(path, inv, s0, added, removed, fw.unwrap().0, visited2);
    let all = Seq::new((m + 1) as nat, |s: int| true);
    lemma_visited_size_all(ri, n as int, m + 1);
    if forall|s: int| 0 <= s < visited2.len() ==> visited2[s] {
        assert(visited2 =~= all);
    } else {
        let s = choose|s: int| 0 <= s < visited2.len() && !visited2[s];
        lemma_visited_size_mono(ri, n as int, visited2, all);
        lemma_stretch_size_positive(ri, n as int, s);
    }
}

/// For a move as the optimisers make them, the two ways of testing it agree:
/// the walk along the slots after the move closes a tour through all cities
/// exactly when the fast walk over the positions uses every added edge, and
/// then the tour met is the list of cities of the fast plan. The fast walk
/// never gets stuck.
pub(crate) proof fn lemma_move_agreement(
    path: Seq<usize>,
    inv: Seq<usize>,
    s0: Seq<(usize, usize)>,
    added: Seq<(usize, usize)>,
    removed: Seq<(usize, usize)>,
)
    requires
        move_basics(path, inv, s0, added, removed),
    ensures
        ({
            let n = (path.len() - 1) as usize;
            let s1 = apply_moves(s0, added, removed).unwrap();
            &&& fast_walk_report(inv, added, removed) is Some
            &&& (walk_result(s1) is Some <==> fast_plan(inv, n, added, removed) is Some)
            &&& fast_plan(inv, n, added, removed) is Some ==> walk_result(s1).unwrap() == plan_cities(
                path,
                fast_plan(inv, n, added, removed).unwrap(),
            )
        }),
{
    lemma_move_setup(path, inv, s0, added, removed);
    lemma_move_walk(path, inv, s0, added, removed);
    let n = (path.len() - 1) as usize;
    let s1 = apply_moves(s0, added, removed).unwrap();
    let x = plan_cities(path, full_plan(inv, n, added, removed));
    let l = (x.len() - 2) as nat;
    assert(closes_at(s1, l)) by {
        assert(walk_follows(s1, 0, x));
        assert(walk_state(s1, (0 + (l as int)) as nat) == Some((x[l as int], x[l as int + 1])));
        assert((0 + (l as int)) as nat == l);
        assert forall|j: nat| j < l implies (#[trigger] walk_state(s1, j)) is Some && walk_state(s1, j).unwrap().1 != 0 by {
            assert(walk_state(s1, (0 + (j as int)) as nat) == Some((x[j as int], x[j as int + 1])));
            assert((0 + (j as int)) as nat == j);
        }
    }
    if closes_at(s1, (s1.len() - 1) as nat) {
        lemma_closes_unique(s1, l, (s1.len() - 1) as nat);
    }
    if x.len() == n + 1 {
        assert(walk_cities(s1, (s1.len() + 1) as nat) =~= x) by {
            assert forall|i: int| 0 <= i < x.len() implies #[trigger] walk_cities(s1, (s1.len() + 1) as nat)[i] == x[i] by {
                if i > 0 {
                    assert(walk_state(s1, (0 + (i - 1)) as nat) == Some((x[i - 1], x[i - 1 + 1])));
                }
            }
        }
    }
}

/// Every slot of `t` holds what the same slot of `s` holds, or nothing.
pub open spec fn slots_within(t: Seq<(usize, usize)>, s: Seq<(usize, usize)>) -> bool {
    &&& t.len() == s.len()
    &&& forall|v: int| 0 <= v < t.len() ==> (#[trigger] t[v]).0 == s[v].0 || t[v].0 == NOEDGE
    &&& forall|v: int| 0 <= v < t.len() ==> (#[trigger] t[v]).1 == s[v].1 || t[v].1 == NOEDGE
}

/// Edges that can be removed one after the other were there to begin with.
proof fn lemma_unlink_all_edges(s: Seq<(usize, usize)>, edges: Seq<(usize, usize)>)
    requires
        unlink_all(s, edges) is Some,
        s.len() <= NOEDGE,
    ensures
        slots_within(unlink_all(s, edges).unwrap(), s),
        forall|j: int|
            0 <= j < edges.len() ==> (#[trigger] edges[j]).0 < s.len() && edges[j].1 < s.len() && slot_count(
                s[edges[j].0 as int],
                edges[j].1,
            ) >= 1,
    decreases edges.len(),
{
    if edges.len() > 0 {
        let d = edges.drop_last();
        lemma_unlink_all_edges(s, d);
        let s1 = unlink_all(s, d).unwrap();
        let e = edges.last();
        let a = e.0;
        let b = e.1;
        assert(a < s1.len() && take_out(s1[a as int], b) is Some);
        let s2 = s1.update(a as int, take_out(s1[a as int], b).unwrap());
        assert(b < s2.len() && take_out(s2[b as int], a) is Some);
        assert(slot_count(s[a as int], b) >= 1);
        assert forall|j: int| 0 <= j < edges.len() implies (#[trigger] edges[j]).0 < s.len() && edges[j].1 < s.len()
            && slot_count(s[edges[j].0 as int], edges[j].1) >= 1 by {
            if j < d.len() {
                assert(d[j] == edges[j]);
            }
        }
    }
}

/// Edges that can be added one after the other join cities in range.
proof fn lemma_link_all_edges(s: Seq<(usize, usize)>, edges: Seq<(usize, usize)>)
    requires
        link_all(s, edges) is Some,
        0 < s.len() <= NOEDGE,
    ensures
        forall|j: int| 0 <= j < edges.len() ==> (#[trigger] edges[j]).0 < s.len() && edges[j].1 < s.len(),
    decreases edges.len(),
{
    if edges.len() > 0 {
        let d = edges.drop_last();
        lemma_link_all_edges(s, d);
        lemma_link_all_count(s, d, 0, 0);
        let s1 = link_all(s, d).unwrap();
        assert forall|j: int| 0 <= j < edges.len() implies (#[trigger] edges[j]).0 < s.len() && edges[j].1 < s.len() by {
            if j < d.len() {
                assert(d[j] == edges[j]);
            }
        }
    }
}

/// A move that can be carried out on a tour's slots, with no edge at city
/// 0, removes tour edges and joins cities other than 0.
pub(crate) proof fn lemma_applied_move(
    path: Seq<usize>,
    inv: Seq<usize>,
    s0: Seq<(usize, usize)>,
    added: Seq<(usize, usize)>,
    removed: Seq<(usize, usize)>,
)
    requires
        path.len() >= 2,
        is_tour(path, (path.len() - 1) as nat),
        path.len() - 1 < NOEDGE,
        positions_match(path, inv),
        s0.len() == path.len() - 1,
        forall|i: int| 0 <= i < path.len() - 1 ==> #[trigger] s0[path[i] as int] == neighbour_pair(path, i),
        removed.len() > 0,
        !touches_zero(added),
        !touches_zero(removed),
        apply_moves(s0, added, removed) is Some,
    ensures
        tour_move(path, inv, added, removed),
{
    let n = path.len() - 1;
    lemma_unlink_all_edges(s0, removed);
    lemma_link_all_edges(unlink_all(s0, removed).unwrap(), added);
    lemma_unlink_all_count(s0, removed, 0, 0);
    assert forall|j: int| 0 <= j < removed.len() implies 0 < (#[trigger] removed[j]).0 < n && 0 < removed[j].1 < n by {
        assert(!(removed[j].0 == 0 || removed[j].1 == 0));
    }
    assert forall|j: int| 0 <= j < added.len() implies 0 < (#[trigger] added[j]).0 < n && 0 < added[j].1 < n by {
        assert(!(added[j].0 == 0 || added[j].1 == 0));
    }
    assert forall|j: int| 0 <= j < removed.len() implies #[trigger] on_tour(inv, removed[j]) by {
        let a = removed[j].0;
        let b = removed[j].1;
        lemma_city_position(path, inv, a);
        lemma_city_position(path, inv, b);
        let i = inv[a as int] as int;
        assert(s0[path[i] as int] == neighbour_pair(path, i));
        assert(slot_count(s0[a as int], b) >= 1);
        if b == path[i - 1] {
            assert(inv[path[i - 1] as int] == i - 1) by {
                if i - 1 == 0 {
                    assert(path[0] == 0);
                }
            }
        } else {
            assert(b == path[i + 1]);
            assert(i + 1 < n) by {
                if i + 1 == n {
                    assert(path[n as int] == 0);
                }
            }
        }
    }
}

/// Read from step `count` on, the pieces are consistent moves along the tour
/// `path` with the added edges `added`: each piece's offset is the number of
/// steps before it, modulo 10; each jump leaves the city at its position
/// `from` along the added edge `index` and lands where the stretch after it
/// starts.
pub open spec fn plan_steps(path: Seq<usize>, added: Seq<(usize, usize)>, pieces: Seq<Piece>, count: int) -> bool
    decreases pieces.len(),
{
    if pieces.len() == 0 {
        true
    } else {
        match pieces[0] {
            Piece::Stretch { start, end, offset } => offset == count % 10 && plan_steps(
                path,
                added,
                pieces.drop_first(),
                count + gap(start, end),
            ),
            Piece::Jump { index, from, offset } => {
                &&& offset == count % 10
                &&& index < added.len()
                &&& ends_at(added[index as int], path[from as int]) >= 1
                &&& pieces.len() >= 2
                &&& pieces[1] is Stretch
                &&& other_end(added[index as int], path[from as int]) == path[pieces[1]->Stretch_start as int]
                &&& plan_steps(path, added, pieces.drop_first(), count + 1)
            },
        }
    }
}

/// The pieces of the fast walk, followed by a stretch from the last cut
/// endpoint, are consistent moves.
#[verifier::spinoff_prover]
proof fn lemma_walk_steps(
    path: Seq<usize>,
    added: Seq<(usize, usize)>,
    ri: Seq<usize>,
    ai: Seq<(usize, usize)>,
    used: Seq<bool>,
    c: usize,
    off: usize,
    fuel: nat,
    count: int,
    last_end: usize,
)
    requires
        ai.len() == added.len(),
        added.len() <= usize::MAX,
        used.len() == added.len(),
        forall|i: int| 0 <= i < added.len() ==> #[trigger] edge_facts(path, added, ai, i),
        forall|q: usize| #[trigger] ri.contains(q) ==> 1 <= q < path.len() - 1,
        ri.len() >= 1,
        count >= 0,
        off == count % 10,
        fast_walk(ri, ai, used, c, off, fuel) is Some,
        1 <= c < path.len() - 1,
    ensures
        ({
            let fw = fast_walk(ri, ai, used, c, off, fuel).unwrap();
            plan_steps(path, added, fw.1 + seq![Piece::Stretch { start: ri.last(), end: last_end, offset: fw.2 }], count)
        }),
    decreases fuel,
{
    let p = touching_from(ai, used, c, 0).unwrap();
    lemma_touching_props(ai, used, c, 0);
    assert(edge_facts(path, added, ai, p));
    let next = other_end(ai[p], c);
    let np = ri.index_of_first(next).unwrap();
    ri.index_of_first_ensures(next);
    let used1 = used.update(p, true);
    let jump = Piece::Jump { index: p as usize, from: c, offset: off };
    let off1 = ((off + 1) % 10) as usize;
    let fw = fast_walk(ri, ai, used, c, off, fuel).unwrap();
    let fin = Piece::Stretch { start: ri.last(), end: last_end, offset: fw.2 };
    assert(ends_at(added[p], path[c as int]) >= 1);
    assert(other_end(added[p], path[c as int]) == path[next as int]);
    assert(off1 == (count + 1) % 10);
    assert((p as usize) as int == p);
    assert(jump->Jump_index as int == p);
    if np == ri.len() - 1 {
        lemma_steps_last(path, added, jump, fin, count);
        assert(fw == (used1, seq![jump], off1));
        assert(fw.1 + seq![fin] =~= seq![jump, fin]);
    } else {
        let c2 = across(ri, np);
        let off2 = ((off1 + gap(next, c2)) % 10) as usize;
        let stretch = Piece::Stretch { start: next, end: c2, offset: off1 };
        let fw2 = fast_walk(ri, ai, used1, c2, off2, (fuel - 1) as nat).unwrap();
        assert(ri.contains(c2)) by {
            if np % 2 == 1 {
                assert(ri.contains(ri[np + 1]));
            } else {
                assert(ri.contains(ri[np - 1]));
            }
        }
        assert(off2 == (count + 1 + gap(next, c2)) % 10) by {
            vstd::arithmetic::div_mod::lemma_add_mod_noop(count + 1, gap(next, c2), 10);
        }
        lemma_walk_steps(path, added, ri, ai, used1, c2, off2, (fuel - 1) as nat, count + 1 + gap(next, c2), last_end);
        let rest = fw2.1 + seq![fin];
        assert(fw.1 + seq![fin] =~= seq![jump, stretch] + rest);
        lemma_steps_prepend(path, added, jump, stretch, rest, count);
    }
}

/// A jump followed by the final stretch.
proof fn lemma_steps_last(path: Seq<usize>, added: Seq<(usize, usize)>, jump: Piece, fin: Piece, count: int)
    requires
        jump is Jump,
        fin is Stretch,
        jump->Jump_offset == count % 10,
        jump->Jump_index < added.len(),
        ends_at(added[jump->Jump_index as int], path[jump->Jump_from as int]) >= 1,
        other_end(added[jump->Jump_index as int], path[jump->Jump_from as int]) == path[fin->Stretch_start as int],
        fin->Stretch_offset == (count + 1) % 10,
    ensures
        plan_steps(path, added, seq![jump, fin], count),
{
    let fin_end = fin->Stretch_end;
    let fin_start = fin->Stretch_start;
    assert(seq![jump, fin].drop_first() =~= seq![fin]);
    assert(seq![fin].drop_first() =~= Seq::<Piece>::empty());
    assert(seq![fin][0] == fin);
    assert(plan_steps(path, added, Seq::<Piece>::empty(), count + 1 + gap(fin_start, fin_end)));
    assert(plan_steps(path, added, seq![fin], count + 1));
}

/// A jump and a stretch before consistent moves.
proof fn lemma_steps_prepend(
    path: Seq<usize>,
    added: Seq<(usize, usize)>,
    jump: Piece,
    stretch: Piece,
    rest: Seq<Piece>,
    count: int,
)
    requires
        jump is Jump,
        stretch is Stretch,
        jump->Jump_offset == count % 10,
        jump->Jump_index < added.len(),
        ends_at(added[jump->Jump_index as int], path[jump->Jump_from as int]) >= 1,
        other_end(added[jump->Jump_index as int], path[jump->Jump_from as int]) == path[stretch->Stretch_start as int],
        stretch->Stretch_offset == (count + 1) % 10,
        plan_steps(path, added, rest, count + 1 + gap(stretch->Stretch_start, stretch->Stretch_end)),
    ensures
        plan_steps(path, added, seq![jump, stretch] + rest, count),
{
    let all = seq![jump, stretch] + rest;
    assert(all.drop_first() =~= seq![stretch] + rest);
    assert((seq![stretch] + rest).drop_first() =~= rest);
    assert((seq![stretch] + rest)[0] == stretch);
    assert(all[0] == jump);
    assert(all[1] == stretch);
    assert(plan_steps(path, added, seq![stretch] + rest, count + 1));
}

/// The fast plan of a move is made of consistent moves from step 0 on.
pub(crate) proof fn lemma_plan_steps(
    path: Seq<usize>,
    inv: Seq<usize>,
    s0: Seq<(usize, usize)>,
    added: Seq<(usize, usize)>,
    removed: Seq<(usize, usize)>,
)
    requires
        move_basics(path, inv, s0, added, removed),
        added.len() <= usize::MAX,
    ensures
        plan_steps(path, added, full_plan(inv, (path.len() - 1) as usize, added, removed), 0),
{
    lemma_move_setup(path, inv, s0, added, removed);
    lemma_move_walk(path, inv, s0, added, removed);
    let n = (path.len() - 1) as usize;
    let ri = sorted_version(endpoint_positions(inv, removed));
    let ai = added_positions(inv, added);
    let r0 = ri[0];
    assert(ri.contains(r0));
    let used0 = Seq::new(ai.len(), |i: int| false);
    lemma_walk_steps(path, added, ri, ai, used0, r0, (r0 % 10) as usize, ai.len(), r0 as int, n);
    let w = fast_walk_report(inv, added, removed).unwrap();
    let first = Piece::Stretch { start: 0, end: r0, offset: 0 };
    let fin = Piece::Stretch { start: ri.last(), end: n, offset: w.2 };
    let fp = full_plan(inv, n, added, removed);
    assert(fp =~= seq![first] + (w.1 + seq![fin]));
    assert(fp.drop_first() =~= w.1 + seq![fin]);
    assert(gap(0, r0) == r0);
}

} // verus!
