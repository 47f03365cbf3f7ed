use vstd::prelude::*;
use crate::agreement::{
    cut_at, cut_degree, cut_points, degree, edge_count, edge_facts, ends_at, first_of_pair, is, lemma_cut_first_last,
    lemma_cut_points_order, lemma_cut_stretch, lemma_endpoint_index, lemma_endpoint_stretch, lemma_landing,
    lemma_first_index, lemma_landing_last, lemma_stretch_index, lemma_used_degree_bounds, lemma_used_degree_edge, lemma_used_degree_flag,
    lemma_used_degree_witness, move_setup, second_of_pair, slot_count, slot_facts, stretch_hi, stretch_lo,
    stretch_of, used_degree, used_matches_all,
};
use crate::components::{
    adjacent, connected, cycle_count, label_used, lemma_connected_same_label, lemma_cycle_count_by_labels, lemma_connected_refl, lemma_connected_step, lemma_connected_symm, lemma_connected_trans,
};
use crate::cycles::{
    across, added_positions, count_unused, cycle_from, cycle_report, lemma_count_all_unused, lemma_count_flip,
    lemma_count_positive, endpoint_positions, extra_cycles, lemma_touching_props,
    lemma_unused_props, main_walk, other_end, sorted_version, touching_from, unused_from,
};
use crate::edge_moves::apply_moves;
use crate::rewire::{
    lemma_edge_count_absent, lemma_edge_count_symmetric, lemma_listed_edge_counted, lemma_move_keeps_symmetric,
    lemma_tour_slots_symmetric, slots_symmetric,
};
use crate::tour::{is_tour, lemma_tour_covers, position_of, same_edge};

verus! {

/// The stretch of tour that position `q` lies in: one more for every cut tour
/// edge before it.
pub open spec fn stretch_at(ri: Seq<usize>, q: nat) -> int
    decreases q,
{
    if q == 0 {
        0
    } else {
        stretch_at(ri, (q - 1) as nat) + if cut_at(ri, q - 1) {
            1int
        } else {
            0int
        }
    }
}

/// No tour edge is cut between the two ends of a stretch.
pub(crate) proof fn lemma_no_cut_inside(ri: Seq<usize>, n: int, s: int, x: int)
    requires
        cut_points(ri),
        ri[ri.len() - 1] < n,
        0 <= s <= ri.len() / 2,
        stretch_lo(ri, s) <= x < stretch_hi(ri, n, s),
    ensures
        !cut_at(ri, x),
{
    let m = ri.len() / 2;
    if cut_at(ri, x) {
        let j = choose|j: int| 0 <= j < ri.len() / 2 && #[trigger] first_of_pair(ri, j) == x;
        if j < s {
            assert(second_of_pair(ri, s - 1) == first_of_pair(ri, s - 1) + 1);
            if j < s - 1 {
                lemma_cut_points_order(ri, 2 * j, 2 * s - 2);
            }
        } else {
            if j > s {
                lemma_cut_points_order(ri, 2 * s, 2 * j);
            }
        }
    }
}

/// Every position from `0` to `n` lies in a stretch, and `stretch_at` names it.
pub(crate) proof fn lemma_stretch_at(ri: Seq<usize>, n: int, q: int) -> (s: int)
    requires
        cut_points(ri),
        ri[0] >= 1,
        ri[ri.len() - 1] < n,
        0 <= q <= n,
    ensures
        0 <= s <= ri.len() / 2,
        stretch_lo(ri, s) <= q <= stretch_hi(ri, n, s),
        stretch_at(ri, q as nat) == s,
    decreases q,
{
    let m = ri.len() / 2;
    if q == 0 {
        0
    } else {
        let s0 = lemma_stretch_at(ri, n, q - 1);
        if q - 1 < stretch_hi(ri, n, s0) {
            lemma_no_cut_inside(ri, n, s0, q - 1);
            s0
        } else {
            assert(s0 < m);
            assert(first_of_pair(ri, s0) == q - 1);
            assert(cut_at(ri, q - 1));
            assert(second_of_pair(ri, s0) == first_of_pair(ri, s0) + 1);
            if s0 + 1 < m {
                lemma_cut_points_order(ri, 2 * s0 + 1, 2 * s0 + 2);
            }
            s0 + 1
        }
    }
}

/// A cut endpoint lies in the stretch `stretch_of` names.
pub(crate) proof fn lemma_stretch_at_endpoint(ri: Seq<usize>, n: int, q: usize)
    requires
        cut_points(ri),
        ri[0] >= 1,
        ri[ri.len() - 1] < n,
        ri.contains(q),
    ensures
        stretch_at(ri, q as nat) == stretch_of(ri, q),
{
    lemma_endpoint_stretch(ri, q, n);
    let s = stretch_of(ri, q);
    let t = lemma_stretch_at(ri, n, q as int);
    if t < s {
        lemma_stretch_order(ri, n, t, s);
    } else if s < t {
        lemma_stretch_order(ri, n, s, t);
    }
}

/// Earlier stretches lie before later ones.
proof fn lemma_stretch_order(ri: Seq<usize>, n: int, a: int, b: int)
    requires
        cut_points(ri),
        ri[0] >= 1,
        ri[ri.len() - 1] < n,
        0 <= a < b <= ri.len() / 2,
    ensures
        stretch_hi(ri, n, a) < stretch_lo(ri, b),
{
    assert(second_of_pair(ri, b - 1) == first_of_pair(ri, b - 1) + 1);
    if a < b - 1 {
        lemma_cut_points_order(ri, 2 * a, 2 * b - 2);
    }
}

/// A position with a cut tour edge at it is a cut endpoint.
pub(crate) proof fn lemma_cut_degree_endpoint(ri: Seq<usize>, q: int)
    requires
        cut_points(ri),
        q >= 0,
        cut_degree(ri, q) >= 1,
    ensures
        ri.contains(q as usize),
{
    if cut_at(ri, q) {
        let j = choose|j: int| 0 <= j < ri.len() / 2 && #[trigger] first_of_pair(ri, j) == q;
        assert(ri[2 * j] == q);
    } else {
        let j = choose|j: int| 0 <= j < ri.len() / 2 && #[trigger] first_of_pair(ri, j) == q - 1;
        assert(second_of_pair(ri, j) == first_of_pair(ri, j) + 1);
        assert(ri[2 * j + 1] == q);
    }
}

/// After the move, the cities at two neighbouring positions whose tour edge is
/// not cut are next to each other.
pub(crate) proof fn lemma_uncut_adjacent(
    path: Seq<usize>,
    inv: Seq<usize>,
    s0: Seq<(usize, usize)>,
    added: Seq<(usize, usize)>,
    removed: Seq<(usize, usize)>,
    q: int,
)
    requires
        move_setup(path, inv, s0, added, removed),
        0 <= q < path.len() - 1,
        !cut_at(sorted_version(endpoint_positions(inv, removed)), q),
    ensures
        adjacent(apply_moves(s0, added, removed).unwrap(), path[q] as int, path[q + 1] as int),
{
    let n = path.len() - 1;
    let ri = sorted_version(endpoint_positions(inv, removed));
    let ai = added_positions(inv, added);
    let s1 = apply_moves(s0, added, removed).unwrap();
    assert(path[q] < n);
    assert(path[q + 1] < n) by {
        if q + 1 < n {
            assert(path[q + 1] < n);
        }
    }
    if q > 0 {
        assert(slot_facts(path, s1, added, removed, ri, ai, q));
        let x = path[q + 1];
        assert(x != crate::two_edges::NOEDGE);
        assert(slot_count(s1[path[q] as int], x) >= 1) by {
            crate::agreement::lemma_count_le_degree(added, path[q], x);
        }
    } else {
        assert(s1[0] == (path[1], path[n - 1]));
    }
}

/// Along positions `a..b` with no cut edge between them, every city is
/// connected to the one at `a`.
pub(crate) proof fn lemma_run_connected(
    path: Seq<usize>,
    inv: Seq<usize>,
    s0: Seq<(usize, usize)>,
    added: Seq<(usize, usize)>,
    removed: Seq<(usize, usize)>,
    a: int,
    q: int,
)
    requires
        move_setup(path, inv, s0, added, removed),
        0 <= a <= q <= path.len() - 1,
        forall|x: int| a <= x < q ==> !cut_at(sorted_version(endpoint_positions(inv, removed)), x),
    ensures
        connected(apply_moves(s0, added, removed).unwrap(), path[a] as int, path[q] as int),
    decreases q - a,
{
    let s1 = apply_moves(s0, added, removed).unwrap();
    let n = path.len() - 1;
    if q == a {
        assert(path[a] < n) by {
            if a < n {
                assert(path[a] < n);
            }
        }
        lemma_connected_refl(s1, path[a] as int);
    } else {
        lemma_run_connected(path, inv, s0, added, removed, a, q - 1);
        lemma_uncut_adjacent(path, inv, s0, added, removed, q - 1);
        lemma_connected_step(s1, path[a] as int, path[q - 1] as int, path[q] as int);
    }
}

/// Next to each other is symmetric in the slots `s`.
pub open spec fn adjacency_symmetric(s: Seq<(usize, usize)>) -> bool {
    forall|a: int, b: int| #[trigger] adjacent(s, a, b) ==> adjacent(s, b, a)
}

/// The used ends at the cut endpoints, during a walk that is at `c` about to
/// leave, and that still has to come back to `o`: those of the visited
/// stretches, all of them but one at `c` and one at `o`.
pub open spec fn walk_inv(
    ri: Seq<usize>,
    ai: Seq<(usize, usize)>,
    used: Seq<bool>,
    visited: Seq<bool>,
    c: usize,
    o: usize,
) -> bool {
    forall|q: usize|
        #[trigger] ri.contains(q) ==> used_degree(ai, used, q) == if visited[stretch_of(ri, q)] {
            cut_degree(ri, q as int) - is(q, c) - is(q, o)
        } else {
            0int
        }
}

/// One move of a walk from the cut endpoint `c`: the first unused added edge
/// at `c`, whose other end is a cut endpoint next to `c` after the move.
proof fn lemma_walk_step(
    path: Seq<usize>,
    inv: Seq<usize>,
    s0: Seq<(usize, usize)>,
    added: Seq<(usize, usize)>,
    removed: Seq<(usize, usize)>,
    used: Seq<bool>,
    visited: Seq<bool>,
    c: usize,
    o: usize,
) -> (p: int)
    requires
        move_setup(path, inv, s0, added, removed),
        used.len() == added.len(),
        visited.len() == removed.len() + 1,
        sorted_version(endpoint_positions(inv, removed)).contains(c),
        visited[stretch_of(sorted_version(endpoint_positions(inv, removed)), c)],
        walk_inv(sorted_version(endpoint_positions(inv, removed)), added_positions(inv, added), used, visited, c, o),
    ensures
        ({
            let ri = sorted_version(endpoint_positions(inv, removed));
            let ai = added_positions(inv, added);
            let next = other_end(ai[p], c);
            &&& touching_from(ai, used, c, 0) == Some(p)
            &&& 0 <= p < ai.len()
            &&& !used[p]
            &&& ends_at(ai[p], c) >= 1
            &&& forall|q: usize| #[trigger] ends_at(ai[p], q) == is(q, c) + is(q, next)
            &&& ri.contains(next)
            &&& used_degree(ai, used, next) + ends_at(ai[p], next) <= cut_degree(ri, next as int)
            &&& adjacent(apply_moves(s0, added, removed).unwrap(), path[c as int] as int, path[next as int] as int)
        }),
{
    let n = path.len() - 1;
    let ri = sorted_version(endpoint_positions(inv, removed));
    let ai = added_positions(inv, added);
    let s1 = apply_moves(s0, added, removed).unwrap();
    assert(1 <= c < n);
    assert(slot_facts(path, s1, added, removed, ri, ai, c as int));
    lemma_used_degree_witness(ai, used, c);
    lemma_touching_props(ai, used, c, 0);
    let p = touching_from(ai, used, c, 0).unwrap();
    assert(edge_facts(path, added, ai, p));
    let next = other_end(ai[p], c);
    assert(1 <= next < n);
    assert(slot_facts(path, s1, added, removed, ri, ai, next as int));
    lemma_used_degree_edge(ai, used, p, next);
    crate::agreement::lemma_used_degree_bounds(ai, used, next);
    assert(ends_at(ai[p], next) >= 1);
    assert(degree(ai, next) == cut_degree(ri, next as int));
    lemma_cut_degree_endpoint(ri, next as int);
    // The added edge joins the two cities.
    let a = path[c as int];
    let b = path[next as int];
    assert(a < n && b < n);
    assert(ends_at(added[p], a) == ends_at(ai[p], c));
    assert(other_end(added[p], a) == b);
    lemma_listed_edge_counted(added, p);
    lemma_edge_count_symmetric(added, added[p].0, added[p].1);
    assert(edge_count(added, a, b) >= 1);
    assert(b != crate::two_edges::NOEDGE);
    assert(slot_count(s1[a as int], b) >= 1);
    p
}

/// An inner stretch's two ends are connected after the move.
proof fn lemma_stretch_ends_connected(
    path: Seq<usize>,
    inv: Seq<usize>,
    s0: Seq<(usize, usize)>,
    added: Seq<(usize, usize)>,
    removed: Seq<(usize, usize)>,
    t: int,
)
    requires
        move_setup(path, inv, s0, added, removed),
        adjacency_symmetric(apply_moves(s0, added, removed).unwrap()),
        0 <= t <= removed.len(),
    ensures
        ({
            let ri = sorted_version(endpoint_positions(inv, removed));
            let s1 = apply_moves(s0, added, removed).unwrap();
            let lo = stretch_lo(ri, t);
            let hi = stretch_hi(ri, path.len() - 1, t);
            &&& connected(s1, path[lo] as int, path[hi] as int)
            &&& connected(s1, path[hi] as int, path[lo] as int)
            &&& forall|q: int| lo <= q <= hi ==> connected(s1, path[lo] as int, #[trigger] path[q] as int)
            &&& forall|q: int| lo <= q <= hi ==> connected(s1, path[hi] as int, #[trigger] path[q] as int)
        }),
{
    let n = path.len() - 1;
    let ri = sorted_version(endpoint_positions(inv, removed));
    let s1 = apply_moves(s0, added, removed).unwrap();
    let lo = stretch_lo(ri, t);
    let hi = stretch_hi(ri, n as int, t);
    if t >= 1 {
        assert(ri.contains(ri[2 * t - 1]));
    }
    if t < removed.len() {
        assert(ri.contains(ri[2 * t]));
    }
    if 1 <= t < removed.len() {
        lemma_cut_stretch(ri, t);
    }
    assert forall|q: int| lo <= q <= hi implies connected(s1, path[lo] as int, #[trigger] path[q] as int) by {
        assert forall|x: int| lo <= x < q implies !cut_at(ri, x) by {
            lemma_no_cut_inside(ri, n as int, t, x);
        }
        lemma_run_connected(path, inv, s0, added, removed, lo, q);
    }
    assert(connected(s1, path[lo] as int, path[hi] as int));
    lemma_connected_symm(s1, path[lo] as int, path[hi] as int);
    assert forall|q: int| lo <= q <= hi implies connected(s1, path[hi] as int, #[trigger] path[q] as int) by {
        assert(connected(s1, path[lo] as int, path[q] as int));
        lemma_connected_trans(s1, path[hi] as int, path[lo] as int, path[q] as int);
    }
}

/// The two ends of an inner stretch `t`, and its cut degrees: one at each end,
/// two when the stretch is a single position.
proof fn lemma_inner_ends(ri: Seq<usize>, t: int, q: usize)
    requires
        cut_points(ri),
        1 <= t < ri.len() / 2,
        ri.contains(q),
        stretch_of(ri, q) == t,
    ensures
        q == ri[2 * t - 1] || q == ri[2 * t],
        ri[2 * t - 1] < ri[2 * t] ==> cut_degree(ri, q as int) == 1,
        ri[2 * t - 1] == ri[2 * t] ==> cut_degree(ri, q as int) == 2,
{
    lemma_endpoint_stretch(ri, q, 0);
    lemma_cut_stretch(ri, t);
}

/// A walk of `cycle_from`, from the cut endpoint `c` of a stretch it visits,
/// that must come back to `o` (the other end of the stretch of `start`):
/// when it ends, the used ends are exactly those of the visited stretches,
/// and every cut endpoint of a stretch it visits is connected to `start`.
#[verifier::rlimit(100)]
proof fn lemma_cycle_walk(
    path: Seq<usize>,
    inv: Seq<usize>,
    s0: Seq<(usize, usize)>,
    added: Seq<(usize, usize)>,
    removed: Seq<(usize, usize)>,
    used: Seq<bool>,
    visited: Seq<bool>,
    vb: Seq<bool>,
    start: usize,
    c: usize,
    o: usize,
    fuel: nat,
) -> (visited2: Seq<bool>)
    requires
        move_setup(path, inv, s0, added, removed),
        adjacency_symmetric(apply_moves(s0, added, removed).unwrap()),
        used.len() == added.len(),
        visited.len() == removed.len() + 1,
        vb.len() == removed.len() + 1,
        ({
            let ri = sorted_version(endpoint_positions(inv, removed));
            let ai = added_positions(inv, added);
            let s1 = apply_moves(s0, added, removed).unwrap();
            &&& ri.contains(start)
            &&& ri.contains(c)
            &&& ri.contains(o)
            &&& stretch_of(ri, o) == stretch_of(ri, start)
            &&& across(ri, ri.index_of_first(o).unwrap()) == start
            &&& visited[stretch_of(ri, c)]
            &&& !vb[stretch_of(ri, c)]
            &&& visited[stretch_of(ri, start)]
            &&& !vb[stretch_of(ri, start)]
            &&& forall|t: int| 0 <= t < visited.len() && #[trigger] vb[t] ==> visited[t]
            &&& walk_inv(ri, ai, used, visited, c, o)
            &&& forall|q: usize|
                #[trigger] ri.contains(q) && visited[stretch_of(ri, q)] && !vb[stretch_of(ri, q)] ==> connected(
                    s1,
                    path[start as int] as int,
                    path[q as int] as int,
                )
            &&& vb[0]
            &&& vb[removed.len() as int]
            &&& fuel >= count_unused(used)
        }),
    ensures
        ({
            let ri = sorted_version(endpoint_positions(inv, removed));
            let ai = added_positions(inv, added);
            let s1 = apply_moves(s0, added, removed).unwrap();
            let u2 = cycle_from(ri, ai, used, start, c, fuel).unwrap().0;
            &&& cycle_from(ri, ai, used, start, c, fuel) is Some
            &&& count_unused(u2) < count_unused(used)
            &&& forall|j: int|
                0 <= j < cycle_from(ri, ai, used, start, c, fuel).unwrap().1.len() ==> {
                    let st = #[trigger] cycle_from(ri, ai, used, start, c, fuel).unwrap().1[j];
                    &&& ri.contains(st.0)
                    &&& ri.contains(st.1)
                    &&& stretch_of(ri, st.0) == stretch_of(ri, st.1)
                    &&& visited2[stretch_of(ri, st.0)]
                    &&& !vb[stretch_of(ri, st.0)]
                }
            &&& visited2.len() == visited.len()
            &&& forall|t: int| 0 <= t < visited.len() && #[trigger] visited[t] ==> visited2[t]
            &&& u2.len() == used.len()
            &&& used_matches_all(ri, ai, u2, visited2)
            &&& forall|q: usize|
                #[trigger] ri.contains(q) && visited2[stretch_of(ri, q)] && !vb[stretch_of(ri, q)] ==> connected(
                    s1,
                    path[start as int] as int,
                    path[q as int] as int,
                )
        }),
    decreases fuel,
{
    let n = path.len() - 1;
    let m = removed.len() as int;
    let ri = sorted_version(endpoint_positions(inv, removed));
    let ai = added_positions(inv, added);
    let s1 = apply_moves(s0, added, removed).unwrap();
    let p = lemma_walk_step(path, inv, s0, added, removed, used, visited, c, o);
    let next = other_end(ai[p], c);
    let used2 = used.update(p, true);
    lemma_count_positive(used, p);
    lemma_count_flip(used, p);
    lemma_first_index(ri);
    lemma_landing_last(ri);
    lemma_endpoint_index(ri, next);
    let np = ri.index_of_first(next).unwrap();
    let tt = stretch_of(ri, next);
    lemma_endpoint_stretch(ri, next, n as int);
    assert forall|q: usize| #[trigger] ri.contains(q) implies used_degree(ai, used2, q) == used_degree(ai, used, q)
        + ends_at(ai[p], q) by {
        lemma_used_degree_flag(ai, used, p, q);
    }
    assert(connected(s1, path[start as int] as int, path[c as int] as int));
    lemma_connected_step(s1, path[start as int] as int, path[c as int] as int, path[next as int] as int);
    if visited[tt] {
        assert(next == o) by {
            if next == c {
                assert(ends_at(ai[p], next) == 2);
            }
        }
        assert(np != 0 && !(np % 2 == 1 && np + 1 >= ri.len())) by {
            lemma_endpoint_stretch(ri, o, n as int);
        }
        assert(cycle_from(ri, ai, used, start, c, fuel) == Some((used2, seq![(next, across(ri, np))])));
        assert forall|q: usize| #[trigger] ri.contains(q) implies used_degree(ai, used2, q) == if visited[stretch_of(
            ri,
            q,
        )] {
            cut_degree(ri, q as int)
        } else {
            0int
        } by {
            assert(ends_at(ai[p], q) == is(q, c) + is(q, next));
        }
        assert(used_matches_all(ri, ai, used2, visited));
        visited
    } else {
        assert(np != 0 && !(np % 2 == 1 && np + 1 >= ri.len())) by {
            if np == 0 {
                assert(next == ri[0]);
            }
            if np % 2 == 1 && np + 1 >= ri.len() {
                assert(np == ri.len() - 1);
                assert(next == ri[ri.len() - 1]);
            }
        }
        lemma_landing(ri, next);
        let c2 = across(ri, np);
        assert(c2 != start);
        assert(next != c);
        let visited1 = visited.update(tt, true);
        assert(1 <= tt < m);
        assert forall|q: usize| #[trigger] ri.contains(q) implies used_degree(ai, used2, q) == if visited1[stretch_of(
            ri,
            q,
        )] {
            cut_degree(ri, q as int) - is(q, c2) - is(q, o)
        } else {
            0int
        } by {
            assert(ends_at(ai[p], q) == is(q, c) + is(q, next));
            lemma_endpoint_stretch(ri, q, n as int);
            if stretch_of(ri, q) == tt {
                assert(q != c);
                assert(q != o);
                lemma_inner_ends(ri, tt, q);
                lemma_inner_ends(ri, tt, next);
                lemma_inner_ends(ri, tt, c2);
                assert(used_degree(ai, used, q) == 0);
                if ri[2 * tt - 1] < ri[2 * tt] {
                    assert(next != c2);
                } else {
                    assert(next == c2);
                }
            } else {
                assert(q != next);
                assert(q != c2);
                assert(visited1[stretch_of(ri, q)] == visited[stretch_of(ri, q)]);
                if !visited[stretch_of(ri, q)] {
                    assert(q != c);
                }
            }
        }
        // Connecting the new stretch.
        lemma_stretch_ends_connected(path, inv, s0, added, removed, tt);
        lemma_stretch_index(ri, tt);
        assert forall|q: usize|
            #[trigger] ri.contains(q) && visited1[stretch_of(ri, q)] && !vb[stretch_of(ri, q)] implies connected(
            s1,
            path[start as int] as int,
            path[q as int] as int,
        ) by {
            if stretch_of(ri, q) == tt {
                lemma_inner_ends(ri, tt, q);
                lemma_inner_ends(ri, tt, next);
                let lo = stretch_lo(ri, tt);
                let hi = stretch_hi(ri, n as int, tt);
                assert(lo == ri[2 * tt - 1] && hi == ri[2 * tt]);
                assert(lo <= q <= hi);
                if next == ri[2 * tt - 1] {
                    assert(connected(s1, path[lo] as int, path[q as int] as int));
                    lemma_connected_trans(s1, path[start as int] as int, path[next as int] as int, path[q as int] as int);
                } else {
                    assert(connected(s1, path[hi] as int, path[q as int] as int));
                    lemma_connected_trans(s1, path[start as int] as int, path[next as int] as int, path[q as int] as int);
                }
            } else {
                lemma_endpoint_stretch(ri, q, n as int);
                assert(visited1[stretch_of(ri, q)] == visited[stretch_of(ri, q)]);
            }
        }
        assert(ri.contains(c2));
        assert(stretch_of(ri, c2) == tt);
        assert(visited1[stretch_of(ri, c2)]);
        assert(!vb[tt]);
        lemma_endpoint_stretch(ri, start, n as int);
        assert(visited1[stretch_of(ri, start)]);
        assert(forall|t: int| 0 <= t < visited1.len() && #[trigger] vb[t] ==> visited1[t]);
        assert(walk_inv(ri, ai, used2, visited1, c2, o));
        let v2 = lemma_cycle_walk(path, inv, s0, added, removed, used2, visited1, vb, start, c2, o, (fuel - 1) as nat);
        assert(cycle_from(ri, ai, used, start, c, fuel) is Some);
        let rr = cycle_from(ri, ai, used2, start, c2, (fuel - 1) as nat).unwrap();
        assert(cycle_from(ri, ai, used, start, c, fuel).unwrap().1 == seq![(next, c2)] + rr.1);
        assert(v2[tt]);
        assert(cycle_from(ri, ai, used, start, c, fuel).unwrap().0 == cycle_from(
            ri,
            ai,
            used2,
            start,
            c2,
            (fuel - 1) as nat,
        ).unwrap().0);
        assert forall|t: int| 0 <= t < visited.len() && #[trigger] visited[t] implies v2[t] by {
            assert(visited1[t]);
        }
        v2
    }
}

/// The walk of `main_walk`, from the cut endpoint `c` of a stretch it visits:
/// when it ends, the last stretch is visited, the used ends are exactly those
/// of the visited stretches, and every cut endpoint of a visited stretch is
/// connected to city 0.
#[verifier::rlimit(100)]
proof fn lemma_main_walk(
    path: Seq<usize>,
    inv: Seq<usize>,
    s0: Seq<(usize, usize)>,
    added: Seq<(usize, usize)>,
    removed: Seq<(usize, usize)>,
    used: Seq<bool>,
    visited: Seq<bool>,
    c: usize,
    fuel: nat,
) -> (visited2: Seq<bool>)
    requires
        move_setup(path, inv, s0, added, removed),
        adjacency_symmetric(apply_moves(s0, added, removed).unwrap()),
        used.len() == added.len(),
        visited.len() == removed.len() + 1,
        ({
            let ri = sorted_version(endpoint_positions(inv, removed));
            let ai = added_positions(inv, added);
            let s1 = apply_moves(s0, added, removed).unwrap();
            &&& ri.contains(c)
            &&& visited[stretch_of(ri, c)]
            &&& !visited[removed.len() as int]
            &&& walk_inv(ri, ai, used, visited, c, 0usize)
            &&& forall|q: usize|
                #[trigger] ri.contains(q) && visited[stretch_of(ri, q)] ==> connected(s1, 0int, path[q as int] as int)
            &&& visited[0]
            &&& fuel >= count_unused(used)
        }),
    ensures
        ({
            let ri = sorted_version(endpoint_positions(inv, removed));
            let ai = added_positions(inv, added);
            let s1 = apply_moves(s0, added, removed).unwrap();
            let u2 = main_walk(ri, ai, used, c, fuel).unwrap();
            &&& main_walk(ri, ai, used, c, fuel) is Some
            &&& visited2.len() == visited.len()
            &&& forall|t: int| 0 <= t < visited.len() && #[trigger] visited[t] ==> visited2[t]
            &&& visited2[removed.len() as int]
            &&& u2.len() == used.len()
            &&& used_matches_all(ri, ai, u2, visited2)
            &&& forall|q: usize|
                #[trigger] ri.contains(q) && visited2[stretch_of(ri, q)] ==> connected(s1, 0int, path[q as int] as int)
        }),
    decreases fuel,
{
    let n = path.len() - 1;
    let m = removed.len() as int;
    let ri = sorted_version(endpoint_positions(inv, removed));
    let ai = added_positions(inv, added);
    let s1 = apply_moves(s0, added, removed).unwrap();
    let p = lemma_walk_step(path, inv, s0, added, removed, used, visited, c, 0usize);
    let next = other_end(ai[p], c);
    let used2 = used.update(p, true);
    lemma_count_positive(used, p);
    lemma_count_flip(used, p);
    lemma_first_index(ri);
    lemma_endpoint_index(ri, next);
    let np = ri.index_of_first(next).unwrap();
    let tt = stretch_of(ri, next);
    lemma_endpoint_stretch(ri, next, n as int);
    lemma_endpoint_stretch(ri, c, n as int);
    assert(!ri.contains(0usize));
    assert forall|q: usize| #[trigger] ri.contains(q) implies used_degree(ai, used2, q) == used_degree(ai, used, q)
        + ends_at(ai[p], q) by {
        lemma_used_degree_flag(ai, used, p, q);
    }
    assert(connected(s1, 0int, path[c as int] as int));
    lemma_connected_step(s1, 0int, path[c as int] as int, path[next as int] as int);
    assert(!visited[tt]) by {
        if visited[tt] {
            if next == c {
                assert(ends_at(ai[p], next) == 2);
            }
        }
    }
    assert(next != c);
    let visited1 = visited.update(tt, true);
    assert(np != 0) by {
        if np == 0 {
            assert(next == ri[0]);
        }
    }
    lemma_landing_last(ri);
    if np == ri.len() - 1 {
        assert(main_walk(ri, ai, used, c, fuel) == Some(used2));
        assert(tt == m);
        assert forall|q: usize| #[trigger] ri.contains(q) implies used_degree(ai, used2, q) == if visited1[stretch_of(
            ri,
            q,
        )] {
            cut_degree(ri, q as int)
        } else {
            0int
        } by {
            assert(ends_at(ai[p], q) == is(q, c) + is(q, next));
            lemma_endpoint_stretch(ri, q, n as int);
            if stretch_of(ri, q) == tt {
                assert(q == next);
            } else {
                assert(q != next);
                assert(visited1[stretch_of(ri, q)] == visited[stretch_of(ri, q)]);
                if !visited[stretch_of(ri, q)] {
                    assert(q != c);
                }
            }
        }
        assert(used_matches_all(ri, ai, used2, visited1));
        assert forall|q: usize| #[trigger] ri.contains(q) && visited1[stretch_of(ri, q)] implies connected(
            s1,
            0int,
            path[q as int] as int,
        ) by {
            lemma_endpoint_stretch(ri, q, n as int);
            if stretch_of(ri, q) == tt {
                assert(q == next);
            } else {
                assert(visited1[stretch_of(ri, q)] == visited[stretch_of(ri, q)]);
            }
        }
        assert forall|t: int| 0 <= t < visited.len() && #[trigger] visited[t] implies visited1[t] by {}
        visited1
    } else {
        assert(!(np % 2 == 1 && np + 1 >= ri.len()));
        lemma_landing(ri, next);
        let c2 = across(ri, np);
        assert(main_walk(ri, ai, used, c, fuel) == main_walk(ri, ai, used2, c2, (fuel - 1) as nat));
        assert(1 <= tt < m);
        assert forall|q: usize| #[trigger] ri.contains(q) implies used_degree(ai, used2, q) == if visited1[stretch_of(
            ri,
            q,
        )] {
            cut_degree(ri, q as int) - is(q, c2) - is(q, 0usize)
        } else {
            0int
        } by {
            assert(ends_at(ai[p], q) == is(q, c) + is(q, next));
            lemma_endpoint_stretch(ri, q, n as int);
            if stretch_of(ri, q) == tt {
                assert(q != c);
                lemma_inner_ends(ri, tt, q);
                lemma_inner_ends(ri, tt, next);
                lemma_inner_ends(ri, tt, c2);
                assert(used_degree(ai, used, q) == 0);
                if ri[2 * tt - 1] < ri[2 * tt] {
                    assert(next != c2);
                } else {
                    assert(next == c2);
                }
            } else {
                assert(q != next);
                assert(q != c2);
                assert(visited1[stretch_of(ri, q)] == visited[stretch_of(ri, q)]);
                if !visited[stretch_of(ri, q)] {
                    assert(q != c);
                }
            }
        }
        lemma_stretch_ends_connected(path, inv, s0, added, removed, tt);
        lemma_stretch_index(ri, tt);
        assert forall|q: usize| #[trigger] ri.contains(q) && visited1[stretch_of(ri, q)] implies connected(
            s1,
            0int,
            path[q as int] as int,
        ) by {
            lemma_endpoint_stretch(ri, q, n as int);
            if stretch_of(ri, q) == tt {
                lemma_inner_ends(ri, tt, q);
                lemma_inner_ends(ri, tt, next);
                let lo = stretch_lo(ri, tt);
                let hi = stretch_hi(ri, n as int, tt);
                assert(lo == ri[2 * tt - 1] && hi == ri[2 * tt]);
                assert(lo <= q <= hi);
                if next == ri[2 * tt - 1] {
                    assert(connected(s1, path[lo] as int, path[q as int] as int));
                } else {
                    assert(connected(s1, path[hi] as int, path[q as int] as int));
                }
                lemma_connected_trans(s1, 0int, path[next as int] as int, path[q as int] as int);
            } else {
                assert(visited1[stretch_of(ri, q)] == visited[stretch_of(ri, q)]);
            }
        }
        assert(ri.contains(c2));
        assert(stretch_of(ri, c2) == tt);
        assert(visited1[stretch_of(ri, c2)]);
        assert(!visited1[m]);
        assert(walk_inv(ri, ai, used2, visited1, c2, 0usize));
        let v2 = lemma_main_walk(path, inv, s0, added, removed, used2, visited1, c2, (fuel - 1) as nat);
        assert forall|t: int| 0 <= t < visited.len() && #[trigger] visited[t] implies v2[t] by {
            assert(visited1[t]);
        }
        v2
    }
}

/// Some visited stretch carries the label `l`.
pub open spec fn owner_used(visited: Seq<bool>, owner: Seq<int>, l: int) -> bool {
    exists|t: int| 0 <= t < visited.len() && visited[t] && owner[t] == l
}

/// The labels of the visited stretches: each below `k`, and every label below
/// `k` carried by some visited stretch.
pub open spec fn labels_ok(visited: Seq<bool>, owner: Seq<int>, k: int) -> bool {
    &&& owner.len() == visited.len()
    &&& forall|t: int| 0 <= t < visited.len() && #[trigger] visited[t] ==> 0 <= owner[t] < k
    &&& forall|l: int| 0 <= l < k ==> #[trigger] owner_used(visited, owner, l)
}

/// What the walks have shown so far: the used ends are those of the visited
/// stretches; each visited stretch carries the label of its walk; a used
/// added edge joins stretches with the same label; and every cut endpoint of a
/// visited stretch is connected to the anchor city of its label.
pub open spec fn walks_done(
    path: Seq<usize>,
    s1: Seq<(usize, usize)>,
    ri: Seq<usize>,
    ai: Seq<(usize, usize)>,
    used: Seq<bool>,
    visited: Seq<bool>,
    owner: Seq<int>,
    anchors: Seq<int>,
) -> bool {
    &&& used.len() == ai.len()
    &&& visited.len() == ri.len() / 2 + 1
    &&& visited[0]
    &&& visited[(ri.len() / 2) as int]
    &&& used_matches_all(ri, ai, used, visited)
    &&& labels_ok(visited, owner, anchors.len() as int)
    &&& forall|l: int| 0 <= l < anchors.len() ==> 0 <= #[trigger] anchors[l] < s1.len()
    &&& forall|i: int|
        0 <= i < ai.len() && #[trigger] used[i] ==> owner[stretch_of(ri, ai[i].0)] == owner[stretch_of(ri, ai[i].1)]
    &&& forall|q: usize|
        #[trigger] ri.contains(q) && visited[stretch_of(ri, q)] ==> connected(
            s1,
            anchors[owner[stretch_of(ri, q)]],
            path[q as int] as int,
        )
}

/// An added edge's ends are cut endpoints, and their stretches are visited
/// once the edge is used (and not before it is, when the used ends match the
/// visited stretches).
proof fn lemma_edge_ends(
    path: Seq<usize>,
    inv: Seq<usize>,
    s0: Seq<(usize, usize)>,
    added: Seq<(usize, usize)>,
    removed: Seq<(usize, usize)>,
    used: Seq<bool>,
    visited: Seq<bool>,
    i: int,
    q: usize,
)
    requires
        move_setup(path, inv, s0, added, removed),
        used.len() == added.len(),
        visited.len() == removed.len() + 1,
        0 <= i < added.len(),
        q == added_positions(inv, added)[i].0 || q == added_positions(inv, added)[i].1,
        used_matches_all(sorted_version(endpoint_positions(inv, removed)), added_positions(inv, added), used, visited),
    ensures
        sorted_version(endpoint_positions(inv, removed)).contains(q),
        1 <= q < path.len() - 1,
        used[i] ==> visited[stretch_of(sorted_version(endpoint_positions(inv, removed)), q)],
        !used[i] ==> !visited[stretch_of(sorted_version(endpoint_positions(inv, removed)), q)],
{
    let ri = sorted_version(endpoint_positions(inv, removed));
    let ai = added_positions(inv, added);
    let s1 = apply_moves(s0, added, removed).unwrap();
    assert(edge_facts(path, added, ai, i));
    assert(slot_facts(path, s1, added, removed, ri, ai, q as int));
    lemma_used_degree_edge(ai, used, i, q);
    lemma_used_degree_bounds(ai, used, q);
    assert(ends_at(ai[i], q) >= 1);
    lemma_cut_degree_endpoint(ri, q as int);
}

/// The further walks of `extra_cycles`: each starts at an unused added edge,
/// visits stretches not visited before, and gets a label of its own; at the
/// end every stretch is visited and every added edge used.
proof fn lemma_extra_walks(
    path: Seq<usize>,
    inv: Seq<usize>,
    s0: Seq<(usize, usize)>,
    added: Seq<(usize, usize)>,
    removed: Seq<(usize, usize)>,
    used: Seq<bool>,
    visited: Seq<bool>,
    owner: Seq<int>,
    anchors: Seq<int>,
    fuel: nat,
) -> (res: (Seq<bool>, Seq<int>, Seq<int>))
    requires
        move_setup(path, inv, s0, added, removed),
        adjacency_symmetric(apply_moves(s0, added, removed).unwrap()),
        walks_done(
            path,
            apply_moves(s0, added, removed).unwrap(),
            sorted_version(endpoint_positions(inv, removed)),
            added_positions(inv, added),
            used,
            visited,
            owner,
            anchors,
        ),
        fuel >= count_unused(used),
    ensures
        ({
            let ri = sorted_version(endpoint_positions(inv, removed));
            let ai = added_positions(inv, added);
            let s1 = apply_moves(s0, added, removed).unwrap();
            let ex = extra_cycles(ri, ai, used, fuel).unwrap();
            let all = Seq::new(ai.len(), |i: int| true);
            &&& extra_cycles(ri, ai, used, fuel) is Some
            &&& walks_done(path, s1, ri, ai, all, res.0, res.1, res.2)
            &&& forall|t: int| 0 <= t < res.0.len() ==> #[trigger] res.0[t]
            &&& res.2.len() == anchors.len() + ex.len()
            &&& forall|t: int| 0 <= t < visited.len() && #[trigger] visited[t] ==> res.1[t] == owner[t]
            &&& forall|i: int, j: int|
                0 <= i < ex.len() && 0 <= j < ex[i].len() ==> {
                    let st = #[trigger] ex[i][j];
                    &&& ri.contains(st.0)
                    &&& ri.contains(st.1)
                    &&& stretch_of(ri, st.0) == stretch_of(ri, st.1)
                    &&& res.1[stretch_of(ri, st.0)] == anchors.len() + i
                }
        }),
    decreases fuel,
{
    let n = path.len() - 1;
    let m = removed.len() as int;
    let ri = sorted_version(endpoint_positions(inv, removed));
    let ai = added_positions(inv, added);
    let s1 = apply_moves(s0, added, removed).unwrap();
    let all = Seq::new(ai.len(), |i: int| true);
    lemma_unused_props(used, 0);
    match unused_from(used, 0) {
        None => {
            assert(used =~= all);
            assert forall|t: int| 0 <= t < visited.len() implies #[trigger] visited[t] by {
                if 1 <= t < m {
                    lemma_stretch_index(ri, t);
                    lemma_cut_stretch(ri, t);
                    let q = ri[2 * t];
                    assert(ri.contains(q));
                    assert(slot_facts(path, s1, added, removed, ri, ai, q as int));
                    lemma_used_degree_bounds(ai, used, q);
                }
            }
            (visited, owner, anchors)
        },
        Some(cs) => {
            let start = ai[cs].0;
            let k = anchors.len() as int;
            lemma_count_positive(used, cs);
            lemma_edge_ends(path, inv, s0, added, removed, used, visited, cs, start);
            let s_0 = stretch_of(ri, start);
            lemma_endpoint_index(ri, start);
            lemma_endpoint_stretch(ri, start, n as int);
            let nps = ri.index_of_first(start).unwrap();
            assert(1 <= s_0 < m);
            assert(nps != 0 && nps != ri.len() - 1);
            lemma_landing(ri, start);
            let o = across(ri, nps);
            lemma_stretch_index(ri, s_0);
            lemma_cut_stretch(ri, s_0);
            assert(across(ri, ri.index_of_first(o).unwrap()) == start);
            let visited1 = visited.update(s_0, true);
            assert forall|q: usize| #[trigger] ri.contains(q) implies used_degree(ai, used, q) == if visited1[stretch_of(
                ri,
                q,
            )] {
                cut_degree(ri, q as int) - is(q, start) - is(q, o)
            } else {
                0int
            } by {
                lemma_endpoint_stretch(ri, q, n as int);
                if stretch_of(ri, q) == s_0 {
                    lemma_inner_ends(ri, s_0, q);
                    lemma_inner_ends(ri, s_0, start);
                    lemma_inner_ends(ri, s_0, o);
                } else {
                    assert(visited1[stretch_of(ri, q)] == visited[stretch_of(ri, q)]);
                    assert(q != start && q != o);
                }
            }
            lemma_stretch_ends_connected(path, inv, s0, added, removed, s_0);
            assert(path[start as int] < n);
            lemma_connected_refl(s1, path[start as int] as int);
            assert forall|q: usize|
                #[trigger] ri.contains(q) && visited1[stretch_of(ri, q)] && !visited[stretch_of(ri, q)] implies connected(
                s1,
                path[start as int] as int,
                path[q as int] as int,
            ) by {
                lemma_endpoint_stretch(ri, q, n as int);
                if stretch_of(ri, q) != s_0 {
                    assert(visited1[stretch_of(ri, q)] == visited[stretch_of(ri, q)]);
                }
                lemma_inner_ends(ri, s_0, q);
                lemma_inner_ends(ri, s_0, start);
            }
            let fuel_c = count_unused(used);
            assert(forall|t: int| 0 <= t < visited1.len() && #[trigger] visited[t] ==> visited1[t]);
            let v2 = lemma_cycle_walk(path, inv, s0, added, removed, used, visited1, visited, start, start, o, fuel_c);
            let r = cycle_from(ri, ai, used, start, start, fuel_c).unwrap();
            let u2 = r.0;
            let owner2 = Seq::new((m + 1) as nat, |t: int| if v2[t] && !visited[t] { k } else { owner[t] });
            let anchors2 = anchors.push(path[start as int] as int);
            assert(v2[s_0]);
            // The labels.
            assert forall|l: int| 0 <= l < k + 1 implies #[trigger] owner_used(v2, owner2, l) by {
                if l < k {
                    assert(owner_used(visited, owner, l));
                    let t = choose|t: int| 0 <= t < visited.len() && visited[t] && owner[t] == l;
                    assert(v2[t] && owner2[t] == l);
                } else {
                    assert(v2[s_0] && owner2[s_0] == l);
                }
            }
            assert(labels_ok(v2, owner2, k + 1));
            assert forall|l: int| 0 <= l < anchors2.len() implies 0 <= #[trigger] anchors2[l] < s1.len() by {
                if l < k {
                    assert(anchors2[l] == anchors[l]);
                }
            }
            // A used edge joins stretches with the same label.
            assert forall|i: int| 0 <= i < ai.len() && #[trigger] u2[i] implies owner2[stretch_of(ri, ai[i].0)]
                == owner2[stretch_of(ri, ai[i].1)] by {
                lemma_edge_ends(path, inv, s0, added, removed, used, visited, i, ai[i].0);
                lemma_edge_ends(path, inv, s0, added, removed, used, visited, i, ai[i].1);
                lemma_edge_ends(path, inv, s0, added, removed, u2, v2, i, ai[i].0);
                lemma_edge_ends(path, inv, s0, added, removed, u2, v2, i, ai[i].1);
                lemma_endpoint_stretch(ri, ai[i].0, n as int);
                lemma_endpoint_stretch(ri, ai[i].1, n as int);
            }
            // Connections to the anchors.
            assert forall|q: usize| #[trigger] ri.contains(q) && v2[stretch_of(ri, q)] implies connected(
                s1,
                anchors2[owner2[stretch_of(ri, q)]],
                path[q as int] as int,
            ) by {
                lemma_endpoint_stretch(ri, q, n as int);
                let t = stretch_of(ri, q);
                if visited[t] {
                    assert(owner2[t] == owner[t]);
                    assert(anchors2[owner[t]] == anchors[owner[t]]);
                } else {
                    assert(owner2[t] == k);
                }
            }
            assert(walks_done(path, s1, ri, ai, u2, v2, owner2, anchors2));
            let res2 = lemma_extra_walks(path, inv, s0, added, removed, u2, v2, owner2, anchors2, (fuel - 1) as nat);
            let rest = extra_cycles(ri, ai, u2, (fuel - 1) as nat).unwrap();
            let ex = extra_cycles(ri, ai, used, fuel).unwrap();
            assert(ex == seq![r.1] + rest);
            assert forall|i: int, j: int| 0 <= i < ex.len() && 0 <= j < ex[i].len() implies {
                let st = #[trigger] ex[i][j];
                &&& ri.contains(st.0)
                &&& ri.contains(st.1)
                &&& stretch_of(ri, st.0) == stretch_of(ri, st.1)
                &&& res2.1[stretch_of(ri, st.0)] == anchors.len() + i
            } by {
                if i == 0 {
                    assert(ex[0] == r.1);
                    let st = r.1[j];
                    lemma_endpoint_stretch(ri, st.0, n as int);
                    let t = stretch_of(ri, st.0);
                    assert(v2[t] && !visited[t]);
                    assert(owner2[t] == k);
                    assert(res2.1[t] == owner2[t]);
                } else {
                    assert(ex[i] == rest[i - 1]);
                }
            }
            assert forall|t: int| 0 <= t < visited.len() && #[trigger] visited[t] implies res2.1[t] == owner[t] by {
                assert(v2[t]);
                assert(owner2[t] == owner[t]);
            }
            res2
        },
    }
}

/// The position of city `v` in the closed tour `path` over `0..n` as `inv`
/// records it (city 0 at the last position).
proof fn lemma_inv_position(path: Seq<usize>, inv: Seq<usize>, v: int)
    requires
        path.len() >= 2,
        is_tour(path, (path.len() - 1) as nat),
        crate::tour::positions_match(path, inv),
        0 <= v < path.len() - 1,
    ensures
        1 <= inv[v] <= path.len() - 1,
        path[inv[v] as int] == v,
        v == 0 <==> inv[v] == path.len() - 1,
{
    let n = (path.len() - 1) as nat;
    if v != 0 {
        lemma_tour_covers(path, n);
        let q = position_of(path, n, v);
        assert(path[q] == v);
        assert(q != 0);
        assert(inv[path[q] as int] == q);
    }
}

/// The slots after a move describe an undirected multigraph.
proof fn lemma_moved_adjacency_symmetric(
    path: Seq<usize>,
    inv: Seq<usize>,
    s0: Seq<(usize, usize)>,
    added: Seq<(usize, usize)>,
    removed: Seq<(usize, usize)>,
)
    requires
        move_setup(path, inv, s0, added, removed),
    ensures
        adjacency_symmetric(apply_moves(s0, added, removed).unwrap()),
        slots_symmetric(apply_moves(s0, added, removed).unwrap()),
{
    let n = (path.len() - 1) as nat;
    lemma_tour_slots_symmetric(path, n, s0);
    lemma_move_keeps_symmetric(s0, added, removed);
    let s1 = apply_moves(s0, added, removed).unwrap();
    assert forall|a: int, b: int| #[trigger] adjacent(s1, a, b) implies adjacent(s1, b, a) by {
        assert(slot_count(s1[a as usize as int], b as usize) >= 1);
        assert(slot_count(s1[a as usize as int], b as usize) == slot_count(s1[b as usize as int], a as usize));
    }
}

/// A cut endpoint of stretch `t`, and every position of the stretch is
/// connected to it.
proof fn lemma_stretch_has_end(
    path: Seq<usize>,
    inv: Seq<usize>,
    s0: Seq<(usize, usize)>,
    added: Seq<(usize, usize)>,
    removed: Seq<(usize, usize)>,
    t: int,
) -> (e: usize)
    requires
        move_setup(path, inv, s0, added, removed),
        adjacency_symmetric(apply_moves(s0, added, removed).unwrap()),
        0 <= t <= removed.len(),
    ensures
        ({
            let ri = sorted_version(endpoint_positions(inv, removed));
            let s1 = apply_moves(s0, added, removed).unwrap();
            &&& ri.contains(e)
            &&& stretch_of(ri, e) == t
            &&& 1 <= e < path.len() - 1
            &&& forall|q: int|
                stretch_lo(ri, t) <= q <= stretch_hi(ri, path.len() - 1, t) ==> connected(
                    s1,
                    path[e as int] as int,
                    #[trigger] path[q] as int,
                )
        }),
{
    let n = path.len() - 1;
    let m = removed.len() as int;
    let ri = sorted_version(endpoint_positions(inv, removed));
    lemma_stretch_ends_connected(path, inv, s0, added, removed, t);
    if t < m {
        if t == 0 {
            lemma_first_index(ri);
        } else {
            lemma_stretch_index(ri, t);
        }
        assert(ri.contains(ri[2 * t]));
        ri[2 * t]
    } else {
        lemma_landing_last(ri);
        assert(ri.contains(ri[2 * m - 1]));
        ri[2 * m - 1]
    }
}

/// The number of cycles that `count_cycles` reports (the one through city 0
/// and one for each further walk of `cycle_report`) is the number of cycles
/// of the graph that the slots hold after the move.
#[verifier::rlimit(100)]
pub(crate) proof fn lemma_count_is_cycles(
    path: Seq<usize>,
    inv: Seq<usize>,
    s0: Seq<(usize, usize)>,
    added: Seq<(usize, usize)>,
    removed: Seq<(usize, usize)>,
)
    requires
        move_setup(path, inv, s0, added, removed),
    ensures
        cycle_report(inv, added, removed) is Some,
        cycle_count(apply_moves(s0, added, removed).unwrap()) == 1 + cycle_report(inv, added, removed).unwrap().len(),
        forall|i: int, j: int|
            0 <= i < cycle_report(inv, added, removed).unwrap().len() && 0 <= j < cycle_report(
                inv,
                added,
                removed,
            ).unwrap()[i].len() ==> {
                let st = #[trigger] cycle_report(inv, added, removed).unwrap()[i][j];
                let s1 = apply_moves(s0, added, removed).unwrap();
                &&& 1 <= st.0 < path.len() - 1
                &&& 1 <= st.1 < path.len() - 1
                &&& connected(s1, path[st.0 as int] as int, path[st.1 as int] as int)
                &&& !connected(s1, 0int, path[st.0 as int] as int)
            },
        forall|i: int, j: int, i2: int, j2: int|
            #![trigger cycle_report(inv, added, removed).unwrap()[i][j], cycle_report(inv, added, removed).unwrap()[i2][j2]]
            0 <= i < cycle_report(inv, added, removed).unwrap().len() && 0 <= j < cycle_report(
                inv,
                added,
                removed,
            ).unwrap()[i].len() && 0 <= i2 < cycle_report(inv, added, removed).unwrap().len() && 0 <= j2
                < cycle_report(inv, added, removed).unwrap()[i2].len() ==> (connected(
                apply_moves(s0, added, removed).unwrap(),
                path[cycle_report(inv, added, removed).unwrap()[i][j].0 as int] as int,
                path[cycle_report(inv, added, removed).unwrap()[i2][j2].0 as int] as int,
            ) <==> i == i2),
{
    let n = path.len() - 1;
    let m = removed.len() as int;
    let ri = sorted_version(endpoint_positions(inv, removed));
    let ai = added_positions(inv, added);
    let s1 = apply_moves(s0, added, removed).unwrap();
    lemma_moved_adjacency_symmetric(path, inv, s0, added, removed);
    let (um, vm) = lemma_main_done(path, inv, s0, added, removed);
    let owner0 = Seq::new((m + 1) as nat, |t: int| 0int);
    let anchors0 = seq![0int];
    lemma_count_unused_le(um);
    let res = lemma_extra_walks(path, inv, s0, added, removed, um, vm, owner0, anchors0, ai.len());
    let vf = res.0;
    let of = res.1;
    let af = res.2;
    let k = af.len();
    assert(k == 1 + cycle_report(inv, added, removed).unwrap().len());
    assert(of[0] == 0 && of[m] == 0);
    let all = Seq::new(ai.len(), |i: int| true);
    // The labels of the cities.
    let label = Seq::new(n as nat, |v: int| of[stretch_at(ri, inv[v] as nat)]);
    assert forall|v: int| 0 <= v < n implies 0 <= #[trigger] label[v] < k by {
        lemma_inv_position(path, inv, v);
        let t = lemma_stretch_at(ri, n as int, inv[v] as int);
        assert(vf[t]);
        assert(label[v] == of[t]);
    }
    // Neighbours get the same label.
    lemma_stretch_at(ri, n as int, 0);
    let t_n = lemma_stretch_at(ri, n as int, n as int);
    assert(t_n == m) by {
        if t_n < m {
            assert(ri.contains(ri[2 * t_n]));
        }
    }
    assert(!cut_at(ri, n - 1)) by {
        if cut_at(ri, n - 1) {
            let j = choose|j: int| 0 <= j < ri.len() / 2 && #[trigger] first_of_pair(ri, j) == n - 1;
            assert(second_of_pair(ri, j) == first_of_pair(ri, j) + 1);
            assert(ri.contains(ri[2 * j + 1]));
        }
    }
    assert(!cut_at(ri, 0)) by {
        if cut_at(ri, 0) {
            let j = choose|j: int| 0 <= j < ri.len() / 2 && #[trigger] first_of_pair(ri, j) == 0;
            assert(ri.contains(ri[2 * j]));
        }
    }
    assert(stretch_at(ri, 1) == 0);
    assert(stretch_at(ri, (n - 1) as nat) == m);
    assert forall|a: int, b: int| #[trigger] adjacent(s1, a, b) implies label[a] == label[b] by {
        lemma_adjacent_same_label(path, inv, s0, added, removed, vf, of, af, a, b);
    }
    // Cities with the same label are connected.
    assert forall|a: int| 0 <= a < n implies connected(s1, af[label[a]], a) by {
        lemma_inv_position(path, inv, a);
        let qa = inv[a] as int;
        let t = lemma_stretch_at(ri, n as int, qa);
        let e = lemma_stretch_has_end(path, inv, s0, added, removed, t);
        assert(connected(s1, path[e as int] as int, path[qa] as int));
        assert(connected(s1, af[of[t]], path[e as int] as int));
        lemma_connected_trans(s1, af[of[t]], path[e as int] as int, a);
    }
    assert forall|a: int, b: int|
        0 <= a < s1.len() && 0 <= b < s1.len() && #[trigger] label[a] == #[trigger] label[b] implies connected(
        s1,
        a,
        b,
    ) by {
        assert(connected(s1, af[label[a]], a));
        assert(connected(s1, af[label[b]], b));
        lemma_connected_symm(s1, af[label[a]], a);
        lemma_connected_trans(s1, a, af[label[a]], b);
    }
    // Every label is used.
    assert forall|l: int| 0 <= l < k implies #[trigger] label_used(label, l) by {
        assert(owner_used(vf, of, l));
        let t = choose|t: int| 0 <= t < vf.len() && vf[t] && of[t] == l;
        let e = lemma_stretch_has_end(path, inv, s0, added, removed, t);
        let v = path[e as int] as int;
        assert(0 <= v < n);
        lemma_inv_position(path, inv, v);
        assert(inv[v] == e) by {
            assert(path[e as int] != 0) by {
                assert(path[0] != path[e as int]);
            }
            assert(inv[path[e as int] as int] == e);
        }
        lemma_stretch_at_endpoint(ri, n as int, e);
        assert(label[v] == l);
    }
    lemma_cycle_count_by_labels(s1, label, k);
    // The parts: the steps of each further cycle.
    let rep = cycle_report(inv, added, removed).unwrap();
    assert(rep == extra_cycles(ri, ai, um, ai.len()).unwrap());
    assert forall|e: usize| #[trigger] ri.contains(e) implies 1 <= e < n && label[path[e as int] as int] == of[stretch_of(
        ri,
        e,
    )] by {
        assert(1 <= e < n);
        assert(path[e as int] != 0) by {
            assert(path[0] != path[e as int]);
        }
        lemma_inv_position(path, inv, path[e as int] as int);
        assert(inv[path[e as int] as int] == e);
        lemma_stretch_at_endpoint(ri, n as int, e);
    }
    lemma_inv_position(path, inv, 0);
    assert(label[0] == 0);
    assert forall|i: int, j: int| 0 <= i < rep.len() && 0 <= j < rep[i].len() implies {
        let st = #[trigger] rep[i][j];
        &&& 1 <= st.0 < path.len() - 1
        &&& 1 <= st.1 < path.len() - 1
        &&& connected(s1, path[st.0 as int] as int, path[st.1 as int] as int)
        &&& !connected(s1, 0int, path[st.0 as int] as int)
    } by {
        let st = rep[i][j];
        assert(ri.contains(st.0) && ri.contains(st.1));
        assert(label[path[st.0 as int] as int] == 1 + i);
        assert(label[path[st.1 as int] as int] == 1 + i);
        if connected(s1, 0int, path[st.0 as int] as int) {
            lemma_connected_same_label(s1, label, 0int, path[st.0 as int] as int);
        }
    }
    assert forall|i: int, j: int, i2: int, j2: int|
        #![trigger rep[i][j], rep[i2][j2]]
        0 <= i < rep.len() && 0 <= j < rep[i].len() && 0 <= i2 < rep.len() && 0 <= j2 < rep[i2].len() implies (
        connected(s1, path[rep[i][j].0 as int] as int, path[rep[i2][j2].0 as int] as int) <==> i == i2) by {
        let a = path[rep[i][j].0 as int] as int;
        let b = path[rep[i2][j2].0 as int] as int;
        assert(ri.contains(rep[i][j].0) && ri.contains(rep[i2][j2].0));
        assert(label[a] == 1 + i);
        assert(label[b] == 1 + i2);
        if connected(s1, a, b) {
            lemma_connected_same_label(s1, label, a, b);
        }
    }
}


/// The walk through city 0 leaves the used ends, labels and connections that
/// the further walks start from.
#[verifier::rlimit(100)]
proof fn lemma_main_done(
    path: Seq<usize>,
    inv: Seq<usize>,
    s0: Seq<(usize, usize)>,
    added: Seq<(usize, usize)>,
    removed: Seq<(usize, usize)>,
) -> (res: (Seq<bool>, Seq<bool>))
    requires
        move_setup(path, inv, s0, added, removed),
        adjacency_symmetric(apply_moves(s0, added, removed).unwrap()),
    ensures
        ({
            let ri = sorted_version(endpoint_positions(inv, removed));
            let ai = added_positions(inv, added);
            let s1 = apply_moves(s0, added, removed).unwrap();
            &&& main_walk(ri, ai, Seq::new(ai.len(), |i: int| false), ri[0], ai.len()) is Some
            &&& res.0 == main_walk(ri, ai, Seq::new(ai.len(), |i: int| false), ri[0], ai.len()).unwrap()
            &&& walks_done(
                path,
                s1,
                ri,
                ai,
                res.0,
                res.1,
                Seq::new((removed.len() + 1) as nat, |t: int| 0int),
                seq![0int],
            )
        }),
{
    let n = path.len() - 1;
    let m = removed.len() as int;
    let ri = sorted_version(endpoint_positions(inv, removed));
    let ai = added_positions(inv, added);
    let s1 = apply_moves(s0, added, removed).unwrap();
    let used0 = Seq::new(ai.len(), |i: int| false);
    let visited0 = Seq::new((m + 1) as nat, |t: int| false).update(0, true);
    lemma_first_index(ri);
    lemma_cut_first_last(ri);
    assert(ri.contains(ri[0]));
    assert forall|q: usize| #[trigger] ri.contains(q) implies used_degree(ai, used0, q) == if visited0[stretch_of(
        ri,
        q,
    )] {
        cut_degree(ri, q as int) - is(q, ri[0]) - is(q, 0usize)
    } else {
        0int
    } by {
        lemma_used_degree_bounds(ai, used0, q);
        lemma_endpoint_stretch(ri, q, n as int);
        lemma_endpoint_index(ri, q);
    }
    lemma_stretch_ends_connected(path, inv, s0, added, removed, 0);
    assert forall|q: usize| #[trigger] ri.contains(q) && visited0[stretch_of(ri, q)] implies connected(
        s1,
        0int,
        path[q as int] as int,
    ) by {
        lemma_endpoint_stretch(ri, q, n as int);
        lemma_endpoint_index(ri, q);
        assert(q == ri[0]);
        assert(stretch_lo(ri, 0) == 0);
    }
    lemma_count_all_unused(ai.len());
    let vm = lemma_main_walk(path, inv, s0, added, removed, used0, visited0, ri[0], ai.len());
    let um = main_walk(ri, ai, used0, ri[0], ai.len()).unwrap();
    let owner0 = Seq::new((m + 1) as nat, |t: int| 0int);
    let anchors0 = seq![0int];
    assert(vm[0]);
    assert(owner_used(vm, owner0, 0));
    assert(ri.len() / 2 == m);
    assert(vm.len() == m + 1);
    assert(vm[m]);
    assert(um.len() == ai.len());
    assert(labels_ok(vm, owner0, 1));
    assert forall|q: usize| #[trigger] ri.contains(q) && vm[stretch_of(ri, q)] implies connected(
        s1,
        anchors0[owner0[stretch_of(ri, q)]],
        path[q as int] as int,
    ) by {
        lemma_endpoint_stretch(ri, q, n as int);
        assert(owner0[stretch_of(ri, q)] == 0);
    }
    assert(vm.len() == ri.len() / 2 + 1);
    assert(vm[(ri.len() / 2) as int]);
    assert(used_matches_all(ri, ai, um, vm));
    assert(forall|l: int| 0 <= l < anchors0.len() ==> 0 <= #[trigger] anchors0[l] < s1.len());
    assert forall|i: int| 0 <= i < ai.len() && #[trigger] um[i] implies owner0[stretch_of(ri, ai[i].0)]
        == owner0[stretch_of(ri, ai[i].1)] by {
        lemma_edge_ends(path, inv, s0, added, removed, um, vm, i, ai[i].0);
        lemma_edge_ends(path, inv, s0, added, removed, um, vm, i, ai[i].1);
        lemma_endpoint_stretch(ri, ai[i].0, n as int);
        lemma_endpoint_stretch(ri, ai[i].1, n as int);
    }
    assert(walks_done(path, s1, ri, ai, um, vm, owner0, anchors0));
    (um, vm)
}

/// Two cities next to each other after the move carry the same label.
proof fn lemma_adjacent_same_label(
    path: Seq<usize>,
    inv: Seq<usize>,
    s0: Seq<(usize, usize)>,
    added: Seq<(usize, usize)>,
    removed: Seq<(usize, usize)>,
    vf: Seq<bool>,
    of: Seq<int>,
    af: Seq<int>,
    a: int,
    b: int,
)
    requires
        move_setup(path, inv, s0, added, removed),
        walks_done(
            path,
            apply_moves(s0, added, removed).unwrap(),
            sorted_version(endpoint_positions(inv, removed)),
            added_positions(inv, added),
            Seq::new(added.len(), |i: int| true),
            vf,
            of,
            af,
        ),
        of[0] == of[removed.len() as int],
        adjacent(apply_moves(s0, added, removed).unwrap(), a, b),
    ensures
        ({
            let ri = sorted_version(endpoint_positions(inv, removed));
            of[stretch_at(ri, inv[a] as nat)] == of[stretch_at(ri, inv[b] as nat)]
        }),
{
    let n = path.len() - 1;
    let m = removed.len() as int;
    let ri = sorted_version(endpoint_positions(inv, removed));
    let ai = added_positions(inv, added);
    let s1 = apply_moves(s0, added, removed).unwrap();
    let all = Seq::new(added.len(), |i: int| true);
    lemma_cut_first_last(ri);
    lemma_stretch_at(ri, n as int, 0);
    let t_n = lemma_stretch_at(ri, n as int, n as int);
    assert(t_n == m) by {
        if t_n < m {
            assert(ri.contains(ri[2 * t_n]));
        }
    }
    assert(!cut_at(ri, n - 1)) by {
        if cut_at(ri, n - 1) {
            let j = choose|j: int| 0 <= j < ri.len() / 2 && #[trigger] first_of_pair(ri, j) == n - 1;
            assert(second_of_pair(ri, j) == first_of_pair(ri, j) + 1);
            assert(ri.contains(ri[2 * j + 1]));
        }
    }
    assert(!cut_at(ri, 0)) by {
        if cut_at(ri, 0) {
            let j = choose|j: int| 0 <= j < ri.len() / 2 && #[trigger] first_of_pair(ri, j) == 0;
            assert(ri.contains(ri[2 * j]));
        }
    }
    assert(ri.contains(ri[0]));
    assert(n >= 3);
    lemma_inv_position(path, inv, a);
    lemma_inv_position(path, inv, b);
    let qa = inv[a] as int;
    let qb = inv[b] as int;
    if a == 0 {
        assert(s1[0] == (path[1], path[n - 1]));
        assert(b == path[1] || b == path[n - 1]);
        assert(path[1] != 0) by {
            assert(path[0] != path[1]);
        }
        assert(path[n - 1] != 0) by {
            assert(path[0] != path[n - 1]);
        }
        if b == path[1] {
            assert(inv[path[1] as int] == 1);
        } else {
            assert(inv[path[n - 1] as int] == n - 1);
        }
    } else {
        assert(slot_facts(path, s1, added, removed, ri, ai, qa));
        assert(path[qa] == a);
        let bb = b as usize;
        assert(bb != crate::two_edges::NOEDGE);
        assert(slot_count(s1[a], bb) >= 1);
        if edge_count(added, path[qa], bb) >= 1 {
            if forall|j: int| 0 <= j < added.len() ==> !same_edge(#[trigger] added[j], (path[qa], bb)) {
                lemma_edge_count_absent(added, path[qa], bb);
            }
            let j = choose|j: int| 0 <= j < added.len() && same_edge(#[trigger] added[j], (path[qa], bb));
            assert(edge_facts(path, added, ai, j));
            assert(ends_at(added[j], path[qa]) >= 1);
            assert(ends_at(ai[j], qa as usize) >= 1);
            let o = other_end(ai[j], qa as usize);
            assert(other_end(added[j], path[qa]) == bb);
            assert(path[o as int] == b);
            assert(1 <= o < n);
            assert(inv[path[o as int] as int] == o);
            lemma_edge_ends(path, inv, s0, added, removed, all, vf, j, ai[j].0);
            lemma_edge_ends(path, inv, s0, added, removed, all, vf, j, ai[j].1);
            lemma_stretch_at_endpoint(ri, n as int, ai[j].0);
            lemma_stretch_at_endpoint(ri, n as int, ai[j].1);
            assert(all[j]);
        } else {
            if qa - 1 == 0 {
                assert(path[0] == 0);
            }
            if qa + 1 == n {
                assert(path[n as int] == 0);
            }
            if b == path[qa - 1] && !cut_at(ri, qa - 1) {
                if qa - 1 >= 1 {
                    assert(inv[path[qa - 1] as int] == qa - 1);
                }
            } else {
                assert(b == path[qa + 1] && !cut_at(ri, qa));
                if qa + 1 < n {
                    assert(path[qa + 1] != 0) by {
                        assert(path[0] != path[qa + 1]);
                    }
                    assert(inv[path[qa + 1] as int] == qa + 1);
                }
            }
        }
    }
}

/// No more edges are unused than there are edges.
proof fn lemma_count_unused_le(used: Seq<bool>)
    ensures
        count_unused(used) <= used.len(),
    decreases used.len(),
{
    if used.len() > 0 {
        lemma_count_unused_le(used.drop_last());
    }
}

} // verus!
