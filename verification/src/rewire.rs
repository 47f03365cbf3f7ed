use vstd::prelude::*;
use crate::agreement::{
    degree, edge_count, edges_effect, ends_at, is, lemma_apply_moves_count, lemma_count_le_degree, lemma_counts_remove,
    lemma_link_all_count, lemma_put_in_count, lemma_take_out_count, lemma_unlink_all_count, lemma_walk_step, slot_count,
};
use crate::edge_moves::{
    apply_moves, closes_at, link, link_all, put_in, slot_full, slots_full, take_out, unlink, unlink_all,
    walk_cities, walk_result, walk_state, walk_step,
};
use crate::tour::{is_tour, lemma_tour_covers, neighbour_pair, position_of, same_edge};
use crate::two_edges::NOEDGE;

verus! {

/// The edges of the path `p`, one from each city to the next.
pub open spec fn path_edges(p: Seq<usize>) -> Seq<(usize, usize)> {
    Seq::new((p.len() - 1) as nat, |i: int| (p[i], p[i + 1]))
}

/// Every entry of the slots is a city below `s.len()` or empty.
pub open spec fn entries_in_range(s: Seq<(usize, usize)>) -> bool {
    forall|v: int|
        0 <= v < s.len() ==> ((#[trigger] s[v]).0 < s.len() || s[v].0 == NOEDGE) && (s[v].1 < s.len()
            || s[v].1 == NOEDGE)
}

/// The slots describe an undirected multigraph: `u` holds `v` as often as `v`
/// holds `u`, a city holds itself an even number of times, and every entry is
/// a city or empty.
pub open spec fn slots_symmetric(s: Seq<(usize, usize)>) -> bool {
    &&& s.len() < NOEDGE
    &&& entries_in_range(s)
    &&& forall|u: usize, v: usize|
        u < s.len() && v < s.len() ==> #[trigger] slot_count(s[u as int], v) == slot_count(s[v as int], u)
    &&& forall|v: usize| v < s.len() ==> #[trigger] slot_count(s[v as int], v) % 2 == 0
}

/// Counting an edge list from `v` to `x` or from `x` to `v` is the same, and
/// loops count twice.
pub(crate) proof fn lemma_edge_count_symmetric(edges: Seq<(usize, usize)>, v: usize, x: usize)
    ensures
        edge_count(edges, v, x) == edge_count(edges, x, v),
        edge_count(edges, v, v) % 2 == 0,
    decreases edges.len(),
{
    if edges.len() > 0 {
        lemma_edge_count_symmetric(edges.drop_last(), v, x);
    }
}

/// The city before position `k` of a closed tour over `n` cities, going round.
pub open spec fn before(n: nat, k: int) -> int {
    if k == 0 {
        n - 1
    } else {
        k - 1
    }
}

/// How often the first `t` edges of a closed tour leave the city at position
/// `k` for `x`.
proof fn lemma_prefix_counts(p: Seq<usize>, n: nat, k: int, x: usize, t: int)
    requires
        is_tour(p, n),
        0 <= k < n,
        0 <= t <= n,
    ensures
        edge_count(path_edges(p).take(t), p[k], x) == (if k < t {
            is(x, p[k + 1])
        } else {
            0int
        }) + (if before(n, k) < t {
            is(x, p[before(n, k)])
        } else {
            0int
        }),
    decreases t,
{
    if t > 0 {
        let e = path_edges(p);
        lemma_prefix_counts(p, n, k, x, t - 1);
        assert(e.take(t).drop_last() =~= e.take(t - 1));
        assert(e.take(t).last() == (p[t - 1], p[t]));
        assert(p[t - 1] == p[k] <==> t - 1 == k) by {
            if t - 1 < k {
                assert(p[t - 1] != p[k]);
            } else if k < t - 1 {
                assert(p[k] != p[t - 1]);
            }
        }
        assert(p[t] == p[k] <==> t - 1 == before(n, k)) by {
            if t < n {
                if t < k {
                    assert(p[t] != p[k]);
                } else if k < t {
                    assert(p[k] != p[t]);
                }
                if k == 0 {
                    assert(p[0] != p[t]);
                }
            } else {
                if k > 0 {
                    assert(p[0] != p[k]);
                }
            }
        }
    }
}

/// Along a closed tour, the edges leave the city at position `k` for `x` as
/// often as the pair of its two neighbours holds `x`.
proof fn lemma_path_edge_counts(p: Seq<usize>, n: nat)
    requires
        is_tour(p, n),
    ensures
        forall|k: int, x: usize|
            0 <= k < n ==> #[trigger] edge_count(path_edges(p), p[k], x) == slot_count(
                neighbour_pair(p, k),
                x,
            ),
{
    assert forall|k: int, x: usize| 0 <= k < n implies #[trigger] edge_count(path_edges(p), p[k], x)
        == slot_count(neighbour_pair(p, k), x) by {
        lemma_prefix_counts(p, n, k, x, n as int);
        assert(path_edges(p).take(n as int) =~= path_edges(p));
    }
}

/// Slots that hold, for each city of a closed tour, its two tour neighbours
/// count the tour's edges: city `u` holds `x` as often as the tour's edges leave
/// `u` for `x`.
pub proof fn lemma_tour_slot_counts(p: Seq<usize>, n: nat, s: Seq<(usize, usize)>)
    requires
        is_tour(p, n),
        s.len() == n,
        forall|i: int, x: usize|
            0 <= i < n ==> #[trigger] slot_count(s[p[i] as int], x) == slot_count(neighbour_pair(p, i), x),
    ensures
        forall|u: usize, x: usize| u < n ==> #[trigger] slot_count(s[u as int], x) == edge_count(path_edges(p), u, x),
{
    lemma_path_edge_counts(p, n);
    lemma_tour_covers(p, n);
    assert forall|u: usize, x: usize| u < n implies #[trigger] slot_count(s[u as int], x) == edge_count(
        path_edges(p),
        u,
        x,
    ) by {
        let k = position_of(p, n, u as int);
        assert(slot_count(s[p[k] as int], x) == slot_count(neighbour_pair(p, k), x));
        assert(edge_count(path_edges(p), p[k], x) == slot_count(neighbour_pair(p, k), x));
    }
}

/// The slots of a closed tour over fewer than `NOEDGE` cities describe an
/// undirected multigraph.
pub proof fn lemma_tour_slots_symmetric(p: Seq<usize>, n: nat, s: Seq<(usize, usize)>)
    requires
        is_tour(p, n),
        n < NOEDGE,
        s.len() == n,
        forall|i: int| 0 <= i < n ==> #[trigger] s[p[i] as int] == neighbour_pair(p, i),
    ensures
        slots_symmetric(s),
        forall|u: usize, x: usize| u < n ==> #[trigger] slot_count(s[u as int], x) == edge_count(path_edges(p), u, x),
        forall|v: int| 0 <= v < n ==> (#[trigger] s[v]).0 < n && s[v].1 < n,
{
    assert forall|i: int, x: usize| 0 <= i < n implies #[trigger] slot_count(s[p[i] as int], x) == slot_count(
        neighbour_pair(p, i),
        x,
    ) by {
        assert(s[p[i] as int] == neighbour_pair(p, i));
    }
    lemma_tour_slot_counts(p, n, s);
    lemma_tour_covers(p, n);
    assert forall|u: usize, v: usize| u < s.len() && v < s.len() implies #[trigger] slot_count(s[u as int], v)
        == slot_count(s[v as int], u) by {
        lemma_edge_count_symmetric(path_edges(p), u, v);
    }
    assert forall|v: usize| v < s.len() implies #[trigger] slot_count(s[v as int], v) % 2 == 0 by {
        lemma_edge_count_symmetric(path_edges(p), v, v);
    }
    assert forall|v: int| 0 <= v < n implies (#[trigger] s[v]).0 < n && s[v].1 < n by {
        let k = position_of(p, n, v);
        assert(s[p[k] as int] == neighbour_pair(p, k));
        if k == 0 {
            assert(p[1] < n) by {
                if n > 1 {
                    assert(p[1] < n);
                }
            }
            assert(p[n - 1] < n);
        } else {
            assert(p[k - 1] < n);
            assert(p[k + 1] < n) by {
                if k + 1 < n {
                    assert(p[k + 1] < n);
                }
            }
        }
    }
}

proof fn lemma_unlink_in_range(s: Seq<(usize, usize)>, a: usize, b: usize)
    requires
        unlink(s, a, b) is Some,
        entries_in_range(s),
    ensures
        unlink(s, a, b).unwrap().len() == s.len(),
        entries_in_range(unlink(s, a, b).unwrap()),
{
    let s1 = s.update(a as int, take_out(s[a as int], b).unwrap());
    assert(entries_in_range(s1));
}

proof fn lemma_link_in_range(s: Seq<(usize, usize)>, a: usize, b: usize)
    requires
        link(s, a, b) is Some,
        entries_in_range(s),
    ensures
        link(s, a, b).unwrap().len() == s.len(),
        entries_in_range(link(s, a, b).unwrap()),
{
    let s1 = s.update(a as int, put_in(s[a as int], b).unwrap());
    assert(entries_in_range(s1));
}

proof fn lemma_unlink_all_in_range(s: Seq<(usize, usize)>, edges: Seq<(usize, usize)>)
    requires
        unlink_all(s, edges) is Some,
        entries_in_range(s),
    ensures
        unlink_all(s, edges).unwrap().len() == s.len(),
        entries_in_range(unlink_all(s, edges).unwrap()),
    decreases edges.len(),
{
    if edges.len() > 0 {
        lemma_unlink_all_in_range(s, edges.drop_last());
        lemma_unlink_in_range(unlink_all(s, edges.drop_last()).unwrap(), edges.last().0, edges.last().1);
    }
}

proof fn lemma_link_all_in_range(s: Seq<(usize, usize)>, edges: Seq<(usize, usize)>)
    requires
        link_all(s, edges) is Some,
        entries_in_range(s),
    ensures
        link_all(s, edges).unwrap().len() == s.len(),
        entries_in_range(link_all(s, edges).unwrap()),
    decreases edges.len(),
{
    if edges.len() > 0 {
        lemma_link_all_in_range(s, edges.drop_last());
        lemma_link_in_range(link_all(s, edges.drop_last()).unwrap(), edges.last().0, edges.last().1);
    }
}

/// A move carried out on slots that describe an undirected multigraph leaves
/// slots that describe one, in which `u` holds `x` as often as before, less
/// the removed edges from `u` to `x`, plus the added ones.
pub proof fn lemma_move_keeps_symmetric(
    s: Seq<(usize, usize)>,
    added: Seq<(usize, usize)>,
    removed: Seq<(usize, usize)>,
)
    requires
        slots_symmetric(s),
        apply_moves(s, added, removed) is Some,
    ensures
        apply_moves(s, added, removed).unwrap().len() == s.len(),
        slots_symmetric(apply_moves(s, added, removed).unwrap()),
        forall|u: usize, x: usize|
            u < s.len() && x != NOEDGE ==> #[trigger] slot_count(apply_moves(s, added, removed).unwrap()[u as int], x)
                == slot_count(s[u as int], x) - edge_count(removed, u, x) + edge_count(added, u, x),
{
    let s1 = apply_moves(s, added, removed).unwrap();
    lemma_unlink_all_in_range(s, removed);
    lemma_link_all_in_range(unlink_all(s, removed).unwrap(), added);
    assert forall|u: usize, x: usize| u < s.len() && x != NOEDGE implies #[trigger] slot_count(s1[u as int], x)
        == slot_count(s[u as int], x) - edge_count(removed, u, x) + edge_count(added, u, x) by {
        lemma_apply_moves_count(s, added, removed, u as int, x);
        assert(edges_effect(removed, u, x) == edge_count(removed, u, x));
        assert(edges_effect(added, u, x) == edge_count(added, u, x));
    }
    assert forall|u: usize, v: usize| u < s1.len() && v < s1.len() implies #[trigger] slot_count(s1[u as int], v)
        == slot_count(s1[v as int], u) by {
        assert(slot_count(s1[u as int], v) == slot_count(s[u as int], v) - edge_count(removed, u, v) + edge_count(added, u, v));
        assert(slot_count(s1[v as int], u) == slot_count(s[v as int], u) - edge_count(removed, v, u) + edge_count(added, v, u));
        assert(slot_count(s[u as int], v) == slot_count(s[v as int], u));
        lemma_edge_count_symmetric(removed, u, v);
        lemma_edge_count_symmetric(added, u, v);
    }
    assert forall|v: usize| v < s1.len() implies #[trigger] slot_count(s1[v as int], v) % 2 == 0 by {
        assert(slot_count(s1[v as int], v) == slot_count(s[v as int], v) - edge_count(removed, v, v) + edge_count(added, v, v));
        assert(slot_count(s[v as int], v) % 2 == 0);
        lemma_edge_count_symmetric(removed, v, v);
        lemma_edge_count_symmetric(added, v, v);
    }
}

/// The city the walk stands on after `k` moves (city 0 before the first).
pub open spec fn walk_city(s: Seq<(usize, usize)>, k: nat) -> usize {
    if k == 0 {
        0usize
    } else {
        walk_state(s, (k - 1) as nat).unwrap().1
    }
}

/// Before it closes, each move of the walk goes from the city it stands on to
/// a city below `s.len()` held in that city's slots.
proof fn lemma_walk_moves(s: Seq<(usize, usize)>, k: nat)
    requires
        slots_symmetric(s),
        s.len() >= 1,
        closes_at(s, (s.len() - 1) as nat),
        k <= s.len() - 1,
    ensures
        walk_state(s, k) == Some((walk_city(s, k), walk_city(s, k + 1))),
        walk_city(s, k) < s.len(),
        walk_city(s, k + 1) < s.len(),
        slot_count(s[walk_city(s, k) as int], walk_city(s, k + 1)) >= 1,
    decreases k,
{
    let n = s.len();
    if k < n - 1 {
        assert(walk_state(s, k) is Some);
    }
    if k == 0 {
        assert(entries_in_range(s) ==> (s[0].0 < n || s[0].0 == NOEDGE));
    } else {
        lemma_walk_moves(s, (k - 1) as nat);
        assert(walk_state(s, (k - 1) as nat).unwrap().1 != 0);
        let cur = walk_city(s, k);
        assert(entries_in_range(s) ==> (s[cur as int].0 < n || s[cur as int].0 == NOEDGE) && (s[cur as int].1
            < n || s[cur as int].1 == NOEDGE));
    }
}

/// Between its first and its last city, the walk arrives at each city from
/// one of the two cities its slots hold and leaves it for the other.
proof fn lemma_walk_inner_slots(s: Seq<(usize, usize)>, k: nat)
    requires
        slots_symmetric(s),
        s.len() >= 1,
        closes_at(s, (s.len() - 1) as nat),
        1 <= k <= s.len() - 1,
    ensures
        forall|x: usize| #[trigger] slot_count(s[walk_city(s, k) as int], x) == is(x, walk_city(s, (k - 1) as nat)) + is(
            x,
            walk_city(s, k + 1),
        ),
{
    lemma_walk_moves(s, k);
    lemma_walk_moves(s, (k - 1) as nat);
    let prev = walk_city(s, (k - 1) as nat);
    let cur = walk_city(s, k);
    assert(slot_count(s[prev as int], cur) == slot_count(s[cur as int], prev));
    assert(walk_state(s, (k - 1) as nat).unwrap().1 != 0);
    assert(walk_step(s, prev, cur) == Some((cur, walk_city(s, k + 1))));
}

/// The walk meets no city twice before it closes.
proof fn lemma_walk_distinct(s: Seq<(usize, usize)>, j: nat)
    requires
        slots_symmetric(s),
        s.len() >= 1,
        closes_at(s, (s.len() - 1) as nat),
        j <= s.len() - 1,
    ensures
        forall|i: nat| i < j ==> walk_city(s, i) != #[trigger] walk_city(s, j),
    decreases j,
{
    let n = s.len();
    if j > 0 {
        lemma_walk_distinct(s, (j - 1) as nat);
        assert(walk_city(s, j) != 0) by {
            assert(walk_state(s, (j - 1) as nat).unwrap().1 != 0);
        }
        assert forall|i: nat| i < j implies walk_city(s, i) != #[trigger] walk_city(s, j) by {
            if i > 0 && walk_city(s, i) == walk_city(s, j) {
                let ci = walk_city(s, i);
                lemma_walk_moves(s, (j - 1) as nat);
                lemma_walk_moves(s, i);
                lemma_walk_moves(s, (i - 1) as nat);
                let cj1 = walk_city(s, (j - 1) as nat);
                assert(slot_count(s[cj1 as int], ci) == slot_count(s[ci as int], cj1));
                lemma_walk_inner_slots(s, i);
                assert(slot_count(s[ci as int], cj1) >= 1);
                if j == i + 1 {
                    assert(walk_city(s, (i - 1) as nat) != ci) by {
                        lemma_walk_distinct(s, i);
                    }
                    assert(slot_count(s[ci as int], ci) == 1);
                    assert(slot_count(s[ci as int], ci) % 2 == 0);
                } else {
                    if cj1 == walk_city(s, (i - 1) as nat) {
                        assert(walk_city(s, (i - 1) as nat) != walk_city(s, (j - 1) as nat));
                    } else {
                        assert(cj1 == walk_city(s, i + 1));
                        if i + 1 < j - 1 {
                            assert(walk_city(s, i + 1) != walk_city(s, (j - 1) as nat));
                        } else {
                            lemma_walk_inner_slots(s, i + 1);
                            let c1 = walk_city(s, i + 1);
                            lemma_walk_moves(s, i + 1);
                            assert(slot_count(s[c1 as int], ci) == 2);
                            assert(slot_count(s[c1 as int], ci) == slot_count(s[ci as int], c1));
                            assert(walk_city(s, (i - 1) as nat) == c1);
                            lemma_walk_distinct(s, i + 1);
                            assert(walk_city(s, (i - 1) as nat) != walk_city(s, i + 1));
                        }
                    }
                }
            }
        }
    }
}

/// City 0 holds the first city the walk goes to and the last one it leaves.
proof fn lemma_walk_first_slots(s: Seq<(usize, usize)>)
    requires
        slots_symmetric(s),
        s.len() >= 1,
        closes_at(s, (s.len() - 1) as nat),
    ensures
        forall|x: usize| #[trigger] slot_count(s[0], x) == is(x, walk_city(s, 1)) + is(
            x,
            walk_city(s, (s.len() - 1) as nat),
        ),
{
    let n = s.len();
    lemma_walk_moves(s, 0);
    lemma_walk_moves(s, (n - 1) as nat);
    let last = walk_city(s, (n - 1) as nat);
    assert(walk_city(s, n as nat) == 0);
    assert(slot_count(s[last as int], 0) == slot_count(s[0], last));
    assert(slot_count(s[0], 0) % 2 == 0);
    if n == 2 {
        lemma_walk_inner_slots(s, 1);
        assert(slot_count(s[last as int], 0) == 2);
    } else if n > 2 {
        lemma_walk_distinct(s, (n - 1) as nat);
        assert(walk_city(s, 1) != walk_city(s, (n - 1) as nat));
    }
}

/// When the walk along slots that describe an undirected multigraph first
/// comes back to city 0 after as many moves as there are cities, the cities it
/// meets form a closed tour, and each city's slots hold exactly its two
/// neighbours along that tour.
pub proof fn lemma_closed_walk_tour(s: Seq<(usize, usize)>)
    requires
        slots_symmetric(s),
        s.len() >= 1,
        closes_at(s, (s.len() - 1) as nat),
    ensures
        is_tour(walk_cities(s, (s.len() + 1) as nat), s.len()),
        forall|k: int, x: usize|
            0 <= k < s.len() ==> #[trigger] slot_count(s[walk_cities(s, (s.len() + 1) as nat)[k] as int], x)
                == slot_count(neighbour_pair(walk_cities(s, (s.len() + 1) as nat), k), x),
{
    let n = s.len();
    let c = walk_cities(s, (n + 1) as nat);
    assert forall|i: int| 0 <= i <= n implies #[trigger] c[i] == walk_city(s, i as nat) by {}
    assert forall|i: int| 0 <= i < n implies #[trigger] c[i] < n by {
        if i > 0 {
            lemma_walk_moves(s, (i - 1) as nat);
        }
    }
    assert forall|i: int, j: int| 0 <= i < j < n implies #[trigger] c[i] != #[trigger] c[j] by {
        lemma_walk_distinct(s, j as nat);
        assert(walk_city(s, i as nat) != walk_city(s, j as nat));
    }
    assert(c[n as int] == 0);
    assert(is_tour(c, n));
    assert forall|k: int, x: usize| 0 <= k < n implies #[trigger] slot_count(s[c[k] as int], x) == slot_count(
        neighbour_pair(c, k),
        x,
    ) by {
        if k == 0 {
            lemma_walk_first_slots(s);
            assert(slot_count(s[0], x) == is(x, walk_city(s, 1)) + is(x, walk_city(s, (n - 1) as nat)));
        } else {
            lemma_walk_inner_slots(s, k as nat);
            assert(slot_count(s[walk_city(s, k as nat) as int], x) == is(x, walk_city(s, (k - 1) as nat)) + is(
                x,
                walk_city(s, (k + 1) as nat),
            ));
        }
    }
}

/// A list of edges none of which is the edge `a`-`b` (in either direction)
/// never leaves `a` for `b`.
pub proof fn lemma_edge_count_absent(edges: Seq<(usize, usize)>, a: usize, b: usize)
    requires
        forall|j: int| 0 <= j < edges.len() ==> !same_edge(#[trigger] edges[j], (a, b)),
    ensures
        edge_count(edges, a, b) == 0,
    decreases edges.len(),
{
    if edges.len() > 0 {
        assert(edges.last() == edges[edges.len() - 1]);
        lemma_edge_count_absent(edges.drop_last(), a, b);
    }
}

/// The ends at `v` of the first `t + 1` edges: those of the first `t`, and
/// those of edge `t`; no prefix has more than the whole list.
proof fn lemma_degree_prefix(edges: Seq<(usize, usize)>, v: usize, t: int)
    requires
        0 <= t <= edges.len(),
    ensures
        degree(edges.take(t), v) <= degree(edges, v),
        t < edges.len() ==> degree(edges.take(t + 1), v) == degree(edges.take(t), v) + is(edges[t].0, v) + is(
            edges[t].1,
            v,
        ),
    decreases edges.len(),
{
    if t < edges.len() {
        assert(edges.take(t + 1).drop_last() =~= edges.take(t));
        assert(edges.take(t + 1).last() == edges[t]);
        lemma_degree_prefix(edges.drop_last(), v, t);
        assert(edges.drop_last().take(t) =~= edges.take(t));
    } else {
        assert(edges.take(t) =~= edges);
    }
}

/// Removing, one after the other, distinct edges whose two ends are different
/// cities that hold each other succeeds on every prefix.
proof fn lemma_unlink_prefix(s: Seq<(usize, usize)>, removed: Seq<(usize, usize)>, t: int)
    requires
        s.len() < NOEDGE,
        0 <= t <= removed.len(),
        forall|i: int|
            0 <= i < removed.len() ==> (#[trigger] removed[i]).0 < s.len() && removed[i].1 < s.len()
                && removed[i].0 != removed[i].1 && slot_count(s[removed[i].0 as int], removed[i].1) >= 1
                && slot_count(s[removed[i].1 as int], removed[i].0) >= 1,
        forall|i: int, j: int| 0 <= j < i < removed.len() ==> !same_edge(#[trigger] removed[i], #[trigger] removed[j]),
    ensures
        unlink_all(s, removed.take(t)) is Some,
    decreases t,
{
    if t > 0 {
        lemma_unlink_prefix(s, removed, t - 1);
        let pre = removed.take(t - 1);
        let st = unlink_all(s, pre).unwrap();
        let a = removed[t - 1].0;
        let b = removed[t - 1].1;
        assert(removed.take(t).drop_last() =~= pre);
        assert(removed.take(t).last() == removed[t - 1]);
        assert forall|j: int| 0 <= j < pre.len() implies !same_edge(#[trigger] pre[j], (a, b)) by {
            assert(!same_edge(removed[t - 1], removed[j]));
        }
        assert forall|j: int| 0 <= j < pre.len() implies !same_edge(#[trigger] pre[j], (b, a)) by {
            assert(!same_edge(removed[t - 1], removed[j]));
        }
        lemma_edge_count_absent(pre, a, b);
        lemma_edge_count_absent(pre, b, a);
        lemma_unlink_all_count(s, pre, a as int, b);
        lemma_unlink_all_count(s, pre, b as int, a);
        assert(slot_count(st[a as int], b) >= 1);
        let s1 = st.update(a as int, take_out(st[a as int], b).unwrap());
        assert(s1[b as int] == st[b as int]);
        assert(slot_count(st[b as int], a) >= 1);
    }
}

/// Adding, one after the other, edges between cities below `s.len()` succeeds
/// on every prefix when no city gets more ends than it has empty slots.
proof fn lemma_link_prefix(s: Seq<(usize, usize)>, added: Seq<(usize, usize)>, t: int)
    requires
        s.len() < NOEDGE,
        0 <= t <= added.len(),
        forall|i: int| 0 <= i < added.len() ==> (#[trigger] added[i]).0 < s.len() && added[i].1 < s.len(),
        forall|v: usize| v < s.len() ==> degree(added, v) <= #[trigger] slot_count(s[v as int], NOEDGE),
    ensures
        link_all(s, added.take(t)) is Some,
    decreases t,
{
    if t > 0 {
        lemma_link_prefix(s, added, t - 1);
        let pre = added.take(t - 1);
        let st = link_all(s, pre).unwrap();
        let a = added[t - 1].0;
        let b = added[t - 1].1;
        assert(added.take(t).drop_last() =~= pre);
        assert(added.take(t).last() == added[t - 1]);
        assert forall|j: int| 0 <= j < pre.len() implies !same_edge(#[trigger] pre[j], (a, NOEDGE)) by {
            assert(pre[j] == added[j]);
        }
        assert forall|j: int| 0 <= j < pre.len() implies !same_edge(#[trigger] pre[j], (b, NOEDGE)) by {
            assert(pre[j] == added[j]);
        }
        lemma_edge_count_absent(pre, a, NOEDGE);
        lemma_edge_count_absent(pre, b, NOEDGE);
        lemma_link_all_count(s, pre, a as int, NOEDGE);
        lemma_link_all_count(s, pre, b as int, NOEDGE);
        lemma_degree_prefix(added, a, t - 1);
        lemma_degree_prefix(added, a, t);
        lemma_degree_prefix(added, b, t - 1);
        lemma_degree_prefix(added, b, t);
        assert(slot_count(s[a as int], NOEDGE) >= degree(added, a));
        assert(slot_count(s[b as int], NOEDGE) >= degree(added, b));
        assert(slot_count(st[a as int], NOEDGE) >= 1);
        let s1 = st.update(a as int, put_in(st[a as int], b).unwrap());
        if a == b {
            lemma_put_in_count(st[a as int], b, NOEDGE);
            assert(slot_count(s1[b as int], NOEDGE) >= 1);
        } else {
            assert(s1[b as int] == st[b as int]);
            assert(slot_count(st[b as int], NOEDGE) >= 1);
        }
    }
}

/// On full slots that describe an undirected multigraph, a move that removes
/// distinct edges of the graph (none a loop) and adds edges between its
/// cities, with as many added as removed ends at every city, can be carried
/// out and leaves every slot full.
pub proof fn lemma_balanced_move_fills(
    s: Seq<(usize, usize)>,
    added: Seq<(usize, usize)>,
    removed: Seq<(usize, usize)>,
)
    requires
        slots_symmetric(s),
        forall|v: int| 0 <= v < s.len() ==> #[trigger] slot_count(s[v], NOEDGE) == 0,
        forall|i: int|
            0 <= i < removed.len() ==> (#[trigger] removed[i]).0 < s.len() && removed[i].1 < s.len()
                && removed[i].0 != removed[i].1 && slot_count(s[removed[i].0 as int], removed[i].1) >= 1,
        forall|i: int, j: int| 0 <= j < i < removed.len() ==> !same_edge(#[trigger] removed[i], #[trigger] removed[j]),
        forall|i: int| 0 <= i < added.len() ==> (#[trigger] added[i]).0 < s.len() && added[i].1 < s.len(),
        forall|v: usize| v < s.len() ==> #[trigger] degree(added, v) == degree(removed, v),
    ensures
        apply_moves(s, added, removed) is Some,
        slots_full(apply_moves(s, added, removed).unwrap()),
{
    let n = s.len();
    assert forall|i: int| 0 <= i < removed.len() implies slot_count(s[(#[trigger] removed[i]).1 as int], removed[i].0) >= 1 by {
        assert(slot_count(s[removed[i].0 as int], removed[i].1) == slot_count(s[removed[i].1 as int], removed[i].0));
    }
    lemma_unlink_prefix(s, removed, removed.len() as int);
    assert(removed.take(removed.len() as int) =~= removed);
    let sr = unlink_all(s, removed).unwrap();
    lemma_unlink_all_in_range(s, removed);
    assert forall|v: usize| v < sr.len() implies degree(added, v) <= #[trigger] slot_count(sr[v as int], NOEDGE) by {
        lemma_unlink_all_count(s, removed, v as int, NOEDGE);
        assert forall|j: int| 0 <= j < removed.len() implies !same_edge(#[trigger] removed[j], (v, NOEDGE)) by {}
        lemma_edge_count_absent(removed, v, NOEDGE);
    }
    lemma_link_prefix(sr, added, added.len() as int);
    assert(added.take(added.len() as int) =~= added);
    let s1 = link_all(sr, added).unwrap();
    lemma_link_all_in_range(sr, added);
    assert forall|v: int| 0 <= v < s1.len() implies #[trigger] slot_full(s1[v], s1.len()) by {
        lemma_unlink_all_count(s, removed, v, NOEDGE);
        lemma_link_all_count(sr, added, v, NOEDGE);
        assert forall|j: int| 0 <= j < removed.len() implies !same_edge(#[trigger] removed[j], (v as usize, NOEDGE)) by {}
        lemma_edge_count_absent(removed, v as usize, NOEDGE);
        assert forall|j: int| 0 <= j < added.len() implies !same_edge(#[trigger] added[j], (v as usize, NOEDGE)) by {}
        lemma_edge_count_absent(added, v as usize, NOEDGE);
        assert(degree(added, v as usize) == degree(removed, v as usize));
        assert(slot_count(s1[v], NOEDGE) == 0);
    }
}

/// Listing the same edges in another order keeps every city's number of ends.
pub proof fn lemma_degree_permuted(a: Seq<(usize, usize)>, b: Seq<(usize, usize)>, v: usize)
    requires
        a.to_multiset() == b.to_multiset(),
    ensures
        degree(a, v) == degree(b, v),
    decreases a.len(),
{
    broadcast use vstd::seq_lib::group_to_multiset_ensures;

    if a.len() == 0 {
        assert(a.to_multiset().len() == 0);
        assert(b.to_multiset().len() == b.len());
    } else {
        let x = a.last();
        let rest = a.drop_last();
        assert(rest.push(x) =~= a);
        assert(a.to_multiset() =~= rest.to_multiset().insert(x));
        assert(b.to_multiset().count(x) > 0);
        assert(b.contains(x));
        let j = choose|j: int| 0 <= j < b.len() && b[j] == x;
        lemma_counts_remove(b, j, v, v);
        assert(b.remove(j).to_multiset() =~= b.to_multiset().remove(x));
        assert(rest.to_multiset().insert(x).remove(x) =~= rest.to_multiset());
        lemma_degree_permuted(rest, b.remove(j), v);
    }
}

/// An edge listed in `edges` is left by `edges` at least once.
pub(crate) proof fn lemma_listed_edge_counted(edges: Seq<(usize, usize)>, j: int)
    requires
        0 <= j < edges.len(),
    ensures
        edge_count(edges, edges[j].0, edges[j].1) >= 1,
{
    lemma_counts_remove(edges, j, edges[j].0, edges[j].1);
    lemma_count_le_degree(edges.remove(j), edges[j].0, edges[j].1);
}

/// Both ends of an edge of a closed tour over `0..n` are cities below `n`.
pub proof fn lemma_tour_edge_in_range(p: Seq<usize>, n: nat, a: usize, b: usize)
    requires
        is_tour(p, n),
        edge_count(path_edges(p), a, b) >= 1,
    ensures
        a < n,
        b < n,
{
    if a >= n || b >= n {
        assert forall|j: int| 0 <= j < path_edges(p).len() implies !same_edge(#[trigger] path_edges(p)[j], (a, b)) by {
            assert(p[j] < n);
            if j + 1 < n {
                assert(p[j + 1] < n);
            }
        }
        lemma_edge_count_absent(path_edges(p), a, b);
    }
}

/// The city a sequential move's chain stands on after `i` hops: `start`, then
/// the second city of each hop.
pub open spec fn chain_city(start: usize, hops: Seq<(usize, usize)>, i: int) -> usize {
    if i == 0 {
        start
    } else {
        hops[i - 1].1
    }
}

/// The edges a sequential move adds: from each city of its chain to the first
/// city of the next hop, and from the chain's last city to `start2`.
pub open spec fn chain_added(start: usize, start2: usize, hops: Seq<(usize, usize)>) -> Seq<(usize, usize)> {
    Seq::new(hops.len(), |i: int| (chain_city(start, hops, i), hops[i].0)).push(
        (chain_city(start, hops, hops.len() as int), start2),
    )
}

/// The edges a sequential move removes: `start`-`start2`, then every hop.
pub open spec fn chain_removed(start: usize, start2: usize, hops: Seq<(usize, usize)>) -> Seq<(usize, usize)> {
    seq![(start, start2)] + hops
}

/// A sequential move adds as many ends at every city as it removes.
pub proof fn lemma_chain_balanced(start: usize, start2: usize, hops: Seq<(usize, usize)>, v: usize)
    ensures
        degree(chain_added(start, start2, hops), v) == degree(chain_removed(start, start2, hops), v),
    decreases hops.len(),
{
    let m = hops.len() as int;
    let a = chain_added(start, start2, hops);
    let r = chain_removed(start, start2, hops);
    if m == 0 {
        assert(a =~= r);
    } else {
        let h = hops.drop_last();
        lemma_chain_balanced(start, start2, h, v);
        let body = Seq::new(hops.len(), |i: int| (chain_city(start, hops, i), hops[i].0));
        let body_h = Seq::new(h.len(), |i: int| (chain_city(start, h, i), h[i].0));
        assert(body.drop_last() =~= body_h);
        assert(a.drop_last() =~= body);
        assert(chain_added(start, start2, h).drop_last() =~= body_h);
        assert(chain_city(start, hops, m - 1) == chain_city(start, h, m - 1));
        assert(r.drop_last() =~= chain_removed(start, start2, h));
        assert(r.last() == hops[m - 1]);
        let ah = chain_added(start, start2, h);
        let c = chain_city(start, hops, m - 1);
        assert(degree(a, v) == degree(body, v) + ends_at(a.last(), v));
        assert(a.last() == (hops[m - 1].1, start2));
        assert(body.last() == (c, hops[m - 1].0));
        assert(degree(body, v) == degree(body_h, v) + ends_at(body.last(), v));
        assert(ah.last() == (c, start2));
        assert(degree(ah, v) == degree(body_h, v) + ends_at(ah.last(), v));
        assert(degree(r, v) == degree(chain_removed(start, start2, h), v) + ends_at(hops[m - 1], v));
    }
}

/// `q` is a closed tour over `0..n` whose edges are those of the closed tour
/// `p` less the edges `removed` plus the edges `added` (counted with
/// multiplicity, in either direction).
pub open spec fn rewired_from(
    q: Seq<usize>,
    p: Seq<usize>,
    added: Seq<(usize, usize)>,
    removed: Seq<(usize, usize)>,
    n: nat,
) -> bool {
    &&& is_tour(q, n)
    &&& forall|u: usize, x: usize|
        u < n && x < n ==> #[trigger] edge_count(path_edges(q), u, x) == edge_count(path_edges(p), u, x)
            - edge_count(removed, u, x) + edge_count(added, u, x)
}

/// The walk along slots that hold, at each inner city of `q`, the cities
/// before and after it in `q`, and that leave city 0 for `q[1]`, follows `q`.
proof fn lemma_walk_follows(s: Seq<(usize, usize)>, q: Seq<usize>, k: nat)
    requires
        1 <= s.len() < NOEDGE,
        q.len() == s.len() + 1,
        q[0] == 0,
        q[s.len() as int] == 0,
        forall|i: int| 0 < i < s.len() ==> #[trigger] q[i] != 0 && q[i] < s.len(),
        forall|i: int, x: usize|
            1 <= i < s.len() ==> #[trigger] slot_count(s[q[i] as int], x) == is(x, q[i - 1]) + is(x, q[i + 1]),
        s[0].0 == q[1],
        k <= s.len() - 1,
    ensures
        walk_state(s, k) == Some((q[k as int], q[k as int + 1])),
    decreases k,
{
    let n = s.len();
    if k > 0 {
        lemma_walk_follows(s, q, (k - 1) as nat);
        let prev = q[k - 1];
        let cur = q[k as int];
        let y = q[k as int + 1];
        assert(prev < n) by {
            if k - 1 > 0 {
                assert(q[k - 1] < n);
            }
        }
        assert(y < n) by {
            if k + 1 < n {
                assert(q[k as int + 1] < n);
            }
        }
        assert(cur != 0 && cur < n);
        assert forall|x: usize| #[trigger] slot_count(s[cur as int], x) == is(x, prev) + is(x, y) by {
            assert(slot_count(s[q[k as int] as int], x) == is(x, q[k - 1]) + is(x, q[k as int + 1]));
        }
        lemma_walk_step(s, prev, cur, y);
    } else {
        assert(q[1] < n) by {
            if n > 1 {
                assert(q[1] < n);
            }
        }
    }
}

/// When the slots hold, at every city of the closed tour `q`, exactly its two
/// neighbours along `q` (in either order), the walk along them closes after as
/// many moves as there are cities.
proof fn lemma_tour_slots_close(s: Seq<(usize, usize)>, q: Seq<usize>)
    requires
        1 <= s.len() < NOEDGE,
        is_tour(q, s.len()),
        forall|k: int, x: usize|
            0 <= k < s.len() && x < s.len() ==> #[trigger] slot_count(s[q[k] as int], x) == slot_count(
                neighbour_pair(q, k),
                x,
            ),
    ensures
        walk_result(s) is Some,
{
    let n = s.len();
    assert forall|k: int, x: usize| 0 <= k < n implies #[trigger] slot_count(s[q[k] as int], x) == slot_count(
        neighbour_pair(q, k),
        x,
    ) by {
        let a = neighbour_pair(q, k).0;
        let b = neighbour_pair(q, k).1;
        assert(a < n && b < n) by {
            if k == 0 {
                assert(q[n - 1] < n);
                if n > 1 {
                    assert(q[1] < n);
                }
            } else {
                assert(q[k - 1] < n);
                if k + 1 < n {
                    assert(q[k as int + 1] < n);
                }
            }
        }
        assert(slot_count(s[q[k] as int], a) == slot_count(neighbour_pair(q, k), a));
        assert(slot_count(s[q[k] as int], b) == slot_count(neighbour_pair(q, k), b));
    }
    assert forall|i: int| 0 < i < n implies #[trigger] q[i] != 0 && q[i] < n by {
        assert(q[0] != q[i]);
    }
    let w = if s[0].0 == q[1] {
        q
    } else {
        Seq::new((n + 1) as nat, |i: int| q[n - i])
    };
    assert(slot_count(s[q[0] as int], s[0].0) == slot_count(neighbour_pair(q, 0), s[0].0));
    assert forall|i: int| 0 < i < n implies #[trigger] w[i] != 0 && w[i] < n by {
        if s[0].0 != q[1] {
            assert(w[i] == q[n - i]);
        }
    }
    assert forall|i: int, x: usize| 1 <= i < n implies #[trigger] slot_count(s[w[i] as int], x) == is(x, w[i - 1])
        + is(x, w[i + 1]) by {
        if s[0].0 == q[1] {
            assert(slot_count(s[q[i] as int], x) == slot_count(neighbour_pair(q, i), x));
        } else {
            let j = n - i;
            assert(w[i] == q[j]);
            assert(w[i - 1] == q[j + 1]);
            assert(w[i + 1] == q[j - 1]);
            assert(slot_count(s[q[j] as int], x) == slot_count(neighbour_pair(q, j), x));
        }
    }
    assert forall|j: nat| j <= n - 1 implies #[trigger] walk_state(s, j) == Some((w[j as int], w[j as int + 1])) by {
        lemma_walk_follows(s, w, j);
    }
    assert forall|j: nat| j < n - 1 implies (#[trigger] walk_state(s, j)) is Some && walk_state(s, j).unwrap().1 != 0 by {
        assert(walk_state(s, j) == Some((w[j as int], w[j as int + 1])));
        assert(w[j as int + 1] != 0);
    }
    assert(walk_state(s, (n - 1) as nat) == Some((w[n - 1], w[n as int])));
    assert(closes_at(s, (n - 1) as nat));
}

/// A move carried out on slots that describe the closed tour `p` gives slots
/// whose walk closes into a single tour whenever some closed tour `q` has the
/// edges of `p` less the removed ones plus the added ones.
pub proof fn lemma_rewired_tour_found(
    p: Seq<usize>,
    n: nat,
    s: Seq<(usize, usize)>,
    added: Seq<(usize, usize)>,
    removed: Seq<(usize, usize)>,
    q: Seq<usize>,
)
    requires
        is_tour(p, n),
        n < NOEDGE,
        s.len() == n,
        forall|i: int| 0 <= i < n ==> #[trigger] s[p[i] as int] == neighbour_pair(p, i),
        apply_moves(s, added, removed) is Some,
        rewired_from(q, p, added, removed, n),
    ensures
        walk_result(apply_moves(s, added, removed).unwrap()) is Some,
{
    lemma_tour_slots_symmetric(p, n, s);
    lemma_move_keeps_symmetric(s, added, removed);
    let s1 = apply_moves(s, added, removed).unwrap();
    lemma_path_edge_counts(q, n);
    assert forall|k: int, x: usize| 0 <= k < n && x < n implies #[trigger] slot_count(s1[q[k] as int], x)
        == slot_count(neighbour_pair(q, k), x) by {
        let u = q[k];
        assert(u < n);
        assert(slot_count(s1[u as int], x) == slot_count(s[u as int], x) - edge_count(removed, u, x) + edge_count(added, u, x));
        assert(slot_count(s[u as int], x) == edge_count(path_edges(p), u, x));
        assert(edge_count(path_edges(q), u, x) == edge_count(path_edges(p), u, x) - edge_count(removed, u, x)
            + edge_count(added, u, x));
        assert(edge_count(path_edges(q), q[k], x) == slot_count(neighbour_pair(q, k), x));
    }
    lemma_tour_slots_close(s1, q);
}

} // verus!
