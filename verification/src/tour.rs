use vstd::prelude::*;
use crate::cycles::{
    count_cycles_at, cycle_report, cycles_defined, plan_defined, duplicates_spec, fast_plan, fast_plan_at,
    lemma_single_cycle_iff_plan, Piece,
};
use crate::edge_moves::{
    all_slots_full, lemma_full_slots_walk_ok, slots_full, try_apply_changes, apply_changes, apply_moves, closes_at, slot_pairs, walk_cities, walk_ok, walk_result,
    walk_ok_within, walk_slots, walk_slots_checked, walk_state,
};
use crate::two_edges::{TwoEdges, NOEDGE};
use crate::components::{connected, cycle_count};
use crate::cycle_count::lemma_count_is_cycles;
use crate::rewire::{
    lemma_rewired_tour_found, rewired_from, chain_added, chain_city, chain_removed, lemma_chain_balanced, lemma_degree_permuted, lemma_listed_edge_counted,
    lemma_tour_edge_in_range, lemma_balanced_move_fills, lemma_edge_count_absent, lemma_closed_walk_tour, lemma_move_keeps_symmetric, lemma_tour_slot_counts, lemma_tour_slots_symmetric, path_edges,
};
use crate::agreement::{
    lemma_move_setup, degree, edge_count, slot_count, lemma_applied_move, lemma_apply_moves_count, lemma_move_agreement, lemma_plan_steps, plan_cities, plan_steps,
};

verus! {

/// `path` is a closed tour of the cities `0..n`: it starts and ends at city 0
/// and visits every city exactly once in between.
pub open spec fn is_tour(path: Seq<usize>, n: nat) -> bool {
    &&& n >= 1
    &&& path.len() == n + 1
    &&& path[0] == 0
    &&& path[n as int] == 0
    &&& forall|i: int| 0 <= i < n ==> #[trigger] path[i] < n
    &&& forall|i: int, j: int| 0 <= i < j < n ==> #[trigger] path[i] != #[trigger] path[j]
}

/// The position among the first `n` entries of `path` at which city `v` stands.
pub open spec fn position_of(path: Seq<usize>, n: nat, v: int) -> int {
    choose|i: int| 0 <= i < n && path[i] == v
}

/// Every city `0..n` occurs in the first `n` entries of a closed tour.
pub proof fn lemma_tour_covers(path: Seq<usize>, n: nat)
    requires
        is_tour(path, n),
    ensures
        forall|v: int|
            0 <= v < n ==> 0 <= #[trigger] position_of(path, n, v) < n && path[position_of(path, n, v)] == v,
{
    let dom = vstd::set_lib::set_int_range(0, n as int);
    let f = |i: int| path[i] as int;
    let img = dom.map(f);
    vstd::set_lib::lemma_int_range(0, n as int);
    assert(vstd::relations::injective_on(f, dom)) by {
        assert forall|x1: int, x2: int|
            dom.contains(x1) && dom.contains(x2) && #[trigger] f(x1) == #[trigger] f(x2) implies x1
            == x2 by {
            if x1 < x2 {
                assert(path[x1] != path[x2]);
            } else if x2 < x1 {
                assert(path[x2] != path[x1]);
            }
        }
    }
    vstd::set_lib::lemma_map_size(dom, img, f);
    assert(img.subset_of(dom)) by {
        assert forall|y: int| img.contains(y) implies dom.contains(y) by {
            let x = choose|x: int| dom.contains(x) && y == f(x);
            assert(path[x] < n);
        }
    }
    vstd::set_lib::lemma_subset_equality(img, dom);
    assert forall|v: int| 0 <= v < n implies 0 <= #[trigger] position_of(path, n, v) < n
        && path[position_of(path, n, v)] == v by {
        assert(dom.contains(v));
        assert(img.contains(v));
        let x = choose|x: int| dom.contains(x) && v == f(x);
        assert(path[x] == v);
    }
}

/// The two cities next to the city at position `i` of the closed tour `path`
/// (the city at position 0 is city 0, whose neighbours are the second and the
/// second-to-last entries).
pub open spec fn neighbour_pair(path: Seq<usize>, i: int) -> (usize, usize) {
    if i == 0 {
        (path[1], path[path.len() - 2])
    } else {
        (path[i - 1], path[i + 1])
    }
}

/// Whether `tour` is a closed tour of the cities `0..n`: the checks that a
/// tour must pass before its length is computed.
pub fn verify_tour(n: usize, tour: &[usize]) -> (ok: bool)
    ensures
        ok == is_tour(tour@, n as nat),
{
    if n == 0 || tour.len() == 0 || tour.len() - 1 != n {
        return false;
    }
    if tour[0] != 0 || tour[n] != 0 {
        return false;
    }
    let mut seen: Vec<bool> = Vec::new();
    let mut k: usize = 0;
    while k < n
        invariant
            k <= n,
            seen.len() == k,
            forall|j: int| 0 <= j < k ==> !seen[j],
        decreases n - k,
    {
        seen.push(false);
        k = k + 1;
    }
    let mut i: usize = 0;
    while i < n
        invariant
            i <= n,
            n >= 1,
            tour.len() == n + 1,
            seen.len() == n,
            forall|a: int| 0 <= a < i ==> #[trigger] tour@[a] < n,
            forall|a: int, b: int| 0 <= a < b < i ==> #[trigger] tour@[a] != #[trigger] tour@[b],
            forall|v: int| 0 <= v < n ==> (#[trigger] seen[v] <==> exists|a: int| 0 <= a < i && tour@[a] == v),
        decreases n - i,
    {
        let v = tour[i];
        if v >= n {
            return false;
        }
        if seen[v] {
            proof {
                let a = choose|a: int| 0 <= a < i && tour@[a] == v;
                assert(tour@[a] == tour@[i as int]);
            }
            return false;
        }
        seen.set(v, true);
        proof {
            assert forall|w: int| 0 <= w < n implies (#[trigger] seen[w] <==> exists|a: int|
                0 <= a < i + 1 && tour@[a] == w) by {
                if w == v {
                    assert(tour@[i as int] == w);
                } else {
                    if exists|a: int| 0 <= a < i + 1 && tour@[a] == w {
                        let a = choose|a: int| 0 <= a < i + 1 && tour@[a] == w;
                        assert(a != i);
                    }
                }
            }
            assert forall|a: int, b: int| 0 <= a < b < i + 1 implies #[trigger] tour@[a]
                != #[trigger] tour@[b] by {
                if b == i {
                    if tour@[a] == tour@[b] {
                        assert(seen[v as int]);
                    }
                }
            }
        }
        i = i + 1;
    }
    true
}

/// For each city, the two slots holding its neighbours along `path`: the
/// city at position `i` gets `[path[i - 1], path[i + 1]]`, city 0 gets
/// `[path[1], path[n - 1]]`.
pub fn path_to_edges(path: &[usize]) -> (ret: Vec<TwoEdges>)
    requires
        path.len() >= 2,
        is_tour(path@, (path.len() - 1) as nat),
        path.len() - 1 < NOEDGE,
    ensures
        ret.len() == path.len() - 1,
        forall|i: int|
            0 <= i < path.len() - 1 ==> {
                let e = #[trigger] ret[path@[i] as int].edges;
                &&& e[0] == neighbour_pair(path@, i).0
                &&& e[1] == neighbour_pair(path@, i).1
            },
{
    let n = path.len() - 1;
    let mut ret: Vec<TwoEdges> = Vec::new();
    let mut k: usize = 0;
    while k < n
        invariant
            k <= n,
            ret.len() == k,
            forall|j: int| 0 <= j < k ==> #[trigger] ret[j].edges[0] == NOEDGE && ret[j].edges[1] == NOEDGE,
        decreases n - k,
    {
        ret.push(TwoEdges::new());
        k = k + 1;
    }
    let ghost p = path@;
    assert forall|i: int| 0 <= i < n implies #[trigger] ret[p[i] as int].edges[0] == NOEDGE
        && ret[p[i] as int].edges[1] == NOEDGE by {
        assert(p[i] < n);
        assert(ret[p[i] as int].edges[0] == NOEDGE);
    }
    let mut k: usize = 0;
    while k < n
        invariant
            k <= n,
            n == path.len() - 1,
            p == path@,
            n < NOEDGE,
            is_tour(p, n as nat),
            ret.len() == n,
            forall|i: int|
                0 <= i < n ==> {
                    let e = #[trigger] ret[p[i] as int].edges;
                    &&& e[0] == (if i == 0 {
                        if k >= 1 {
                            p[1]
                        } else {
                            NOEDGE
                        }
                    } else {
                        if k >= i {
                            p[i - 1]
                        } else {
                            NOEDGE
                        }
                    })
                    &&& e[1] == (if i == 0 {
                        if k == n {
                            p[n - 1]
                        } else {
                            NOEDGE
                        }
                    } else {
                        if k >= i + 1 {
                            p[i + 1]
                        } else {
                            NOEDGE
                        }
                    })
                },
        decreases n - k,
    {
        let first = path[k];
        let second = path[k + 1];
        assert(first < n);
        let ghost r0 = ret@;
        let mut e1 = ret[first];
        e1.add(second);
        ret.set(first, e1);
        let ghost r1 = ret@;
        assert(second < n) by {
            if k + 1 < n {
            } else {
                assert(second == 0);
            }
        }
        let mut e2 = ret[second];
        e2.add(first);
        ret.set(second, e2);
        proof {
            assert forall|i: int| 0 <= i < n implies {
                let e = #[trigger] ret[p[i] as int].edges;
                &&& e[0] == (if i == 0 {
                    if k + 1 >= 1 {
                        p[1]
                    } else {
                        NOEDGE
                    }
                } else {
                    if k + 1 >= i {
                        p[i - 1]
                    } else {
                        NOEDGE
                    }
                })
                &&& e[1] == (if i == 0 {
                    if k + 1 == n {
                        p[n - 1]
                    } else {
                        NOEDGE
                    }
                } else {
                    if k + 1 >= i + 1 {
                        p[i + 1]
                    } else {
                        NOEDGE
                    }
                })
            } by {
                let sp = if k + 1 < n {
                    k + 1
                } else {
                    0
                };
                assert(p[sp as int] == second);
                if i != k && i != sp {
                    assert(p[i] != first);
                    assert(p[i] != second);
                }
            }
        }
        k = k + 1;
    }
    ret
}


/// `x` and `y` are the same edge, in the same or the opposite direction.
pub open spec fn same_edge(x: (usize, usize), y: (usize, usize)) -> bool {
    x == y || (x.0 == y.1 && x.1 == y.0)
}

/// Some edge is removed twice, or is both added and removed.
pub open spec fn repeats_edge(added: Seq<(usize, usize)>, removed: Seq<(usize, usize)>) -> bool {
    ||| exists|i: int, j: int|
        0 <= j < i < removed.len() && same_edge(#[trigger] removed[i], #[trigger] removed[j])
    ||| exists|i: int, j: int|
        0 <= i < added.len() && 0 <= j < removed.len() && same_edge(
            #[trigger] added[i],
            #[trigger] removed[j],
        )
}

/// Some edge of `edges` ends at city 0.
pub open spec fn touches_zero(edges: Seq<(usize, usize)>) -> bool {
    exists|i: int| 0 <= i < edges.len() && (#[trigger] edges[i].0 == 0 || edges[i].1 == 0)
}

/// Along the slots of a closed tour, the walk from city 0 retraces the tour.
proof fn lemma_tour_walk(path: Seq<usize>, s: Seq<(usize, usize)>, k: nat)
    requires
        path.len() >= 2,
        is_tour(path, (path.len() - 1) as nat),
        path.len() - 1 < NOEDGE,
        s.len() == path.len() - 1,
        forall|i: int| 0 <= i < path.len() - 1 ==> #[trigger] s[path[i] as int] == neighbour_pair(path, i),
    ensures
        walk_state(s, k) == if k < path.len() - 1 {
            Some((path[k as int], path[k as int + 1]))
        } else {
            Some((path[path.len() - 2], 0usize))
        },
    decreases k,
{
    let n = path.len() - 1;
    if k == 0 {
        assert(s[0] == s[path[0] as int]);
        if n == 1 {
            assert(path[1] == 0);
        }
    } else {
        lemma_tour_walk(path, s, (k - 1) as nat);
        if k < n {
            let c = path[k as int];
            assert(c != 0) by {
                assert(path[0] != path[k as int]);
            }
            assert(s[c as int] == neighbour_pair(path, k as int));
        } else if k == n {
            let c = path[k - 1];
            if k - 1 >= 1 {
                assert(c != 0) by {
                    assert(path[0] != path[k - 1]);
                }
                assert(s[c as int] == neighbour_pair(path, k - 1));
            } else {
                assert(n == 1);
                assert(s[0] == s[path[0] as int]);
            }
        }
    }
}

/// The walk along the slots of a closed tour closes after exactly `n` moves and
/// meets the tour's cities in order.
proof fn lemma_tour_walk_result(path: Seq<usize>, s: Seq<(usize, usize)>)
    requires
        path.len() >= 2,
        is_tour(path, (path.len() - 1) as nat),
        path.len() - 1 < NOEDGE,
        s.len() == path.len() - 1,
        forall|i: int| 0 <= i < path.len() - 1 ==> #[trigger] s[path[i] as int] == neighbour_pair(path, i),
    ensures
        walk_ok(s),
        walk_result(s) == Some(path),
{
    let n = path.len() - 1;
    assert forall|k: nat| #[trigger] walk_state(s, k) is Some by {
        lemma_tour_walk(path, s, k);
    }
    assert forall|j: nat| j < n - 1 implies (#[trigger] walk_state(s, j)) is Some && walk_state(s, j).unwrap().1 != 0 by {
        lemma_tour_walk(path, s, j);
        assert(path[0] != path[j as int + 1]);
    }
    lemma_tour_walk(path, s, (n - 1) as nat);
    assert(closes_at(s, (n - 1) as nat));
    assert forall|i: int| 0 <= i < n + 1 implies #[trigger] walk_cities(s, (n + 1) as nat)[i] == path[i] by {
        if i > 0 {
            lemma_tour_walk(path, s, (i - 1) as nat);
        }
    }
    assert(walk_cities(s, (n + 1) as nat) =~= path);
}

/// Whether some edge is removed twice, or is both added and removed (in either
/// direction).
pub fn has_repeated_edge(added: &[(usize, usize)], removed: &[(usize, usize)]) -> (dup: bool)
    ensures
        dup == repeats_edge(added@, removed@),
{
    let mut duplicate = false;
    let mut i: usize = 0;
    while i < removed.len()
        invariant
            i <= removed.len(),
            duplicate == exists|a: int, b: int|
                0 <= b < a < i && same_edge(#[trigger] removed@[a], #[trigger] removed@[b]),
        decreases removed.len() - i,
    {
        let mut j: usize = 0;
        while j < i
            invariant
                j <= i < removed.len(),
                duplicate == ((exists|a: int, b: int|
                    0 <= b < a < i && same_edge(#[trigger] removed@[a], #[trigger] removed@[b]))
                    || exists|b: int| 0 <= b < j && same_edge(removed@[i as int], #[trigger] removed@[b])),
            decreases i - j,
        {
            if removed[i].0 == removed[j].0 && removed[i].1 == removed[j].1 {
                duplicate = true;
            }
            if removed[i].0 == removed[j].1 && removed[i].1 == removed[j].0 {
                duplicate = true;
            }
            j = j + 1;
        }
        i = i + 1;
    }
    let ghost dup_removed = duplicate;
    let mut i: usize = 0;
    while i < added.len()
        invariant
            i <= added.len(),
            duplicate == (dup_removed || exists|a: int, b: int|
                0 <= a < i && 0 <= b < removed.len() && same_edge(
                    #[trigger] added@[a],
                    #[trigger] removed@[b],
                )),
        decreases added.len() - i,
    {
        let mut j: usize = 0;
        while j < removed.len()
            invariant
                i < added.len(),
                j <= removed.len(),
                duplicate == (dup_removed || (exists|a: int, b: int|
                    0 <= a < i && 0 <= b < removed.len() && same_edge(
                        #[trigger] added@[a],
                        #[trigger] removed@[b],
                    )) || exists|b: int| 0 <= b < j && same_edge(added@[i as int], #[trigger] removed@[b])),
            decreases removed.len() - j,
        {
            if added[i].0 == removed[j].0 && added[i].1 == removed[j].1 {
                duplicate = true;
            }
            if added[i].0 == removed[j].1 && added[i].1 == removed[j].0 {
                duplicate = true;
            }
            j = j + 1;
        }
        i = i + 1;
    }
    duplicate
}

/// The penalty table with shift `slot` charges the step that leaves (or, in
/// the table for reversed stretches, arrives at) position `i`: its step number
/// `i + 1 + slot` is a multiple of ten.
pub open spec fn table_penalises(slot: int, i: int) -> bool {
    (i + 1 + slot) % 10 == 0
}

/// Which of the ten penalty tables serves the stretch of tour from position
/// `start` to position `end` whose steps are counted from `offset` on: with
/// `end > start` the table for steps counted from `start`, shifted by
/// `offset`; otherwise the table for the reversed stretch (table 0 when
/// `offset + start % 10` passes 29, which it may only by a multiple of ten).
/// The table so chosen charges exactly the steps of the stretch whose number,
/// counted on from `offset`, is a multiple of ten.
pub fn dist_offset_slot(start: usize, end: usize, offset: usize) -> (slot: usize)
    requires
        start <= i32::MAX,
        end > start ==> offset + 10 <= i32::MAX,
        end <= start ==> offset <= i32::MAX,
        end <= start ==> offset + start % 10 <= 29 || (offset + start % 10 - 29) % 10 == 0,
    ensures
        slot < 10,
        end > start ==> slot == (offset + 10 - start % 10) % 10,
        end <= start ==> slot == (29 - start % 10 - offset) % 10,
        end > start ==> forall|i: int|
            start <= i < end ==> (#[trigger] table_penalises(slot as int, i) <==> (offset + (i - start) + 1)
                % 10 == 0),
        end <= start ==> forall|i: int|
            end <= i < start ==> (#[trigger] table_penalises(slot as int, i) <==> (offset + (start - i))
                % 10 == 0),
{
    let slot = if end > start {
        (offset + 10 - start % 10) % 10
    } else if offset + start % 10 <= 29 {
        (29 - start % 10 - offset) % 10
    } else {
        0
    };
    proof {
        if end > start {
            assert forall|i: int| start <= i < end implies (#[trigger] table_penalises(slot as int, i)
                <==> (offset + (i - start) + 1) % 10 == 0) by {
                lemma_same_step_class(i + 1 + slot, offset + (i - start) + 1, start as int, offset as int);
            }
        } else {
            assert forall|i: int| end <= i < start implies (#[trigger] table_penalises(slot as int, i)
                <==> (offset + (start - i)) % 10 == 0) by {
                lemma_reverse_step_class(i, slot as int, start as int, offset as int);
            }
        }
    }
    slot
}

/// Two step numbers whose difference is a multiple of ten are penalised
/// together.
proof fn lemma_same_step_class(a: int, b: int, start: int, offset: int)
    requires
        start >= 0,
        0 <= offset,
        a - b == (offset + 10 - start % 10) % 10 + start - offset,
    ensures
        a % 10 == 0 <==> b % 10 == 0,
{
    let q = (offset + 10 - start % 10) / 10;
    assert((offset + 10 - start % 10) % 10 == offset + 10 - start % 10 - 10 * q);
    assert(start == 10 * (start / 10) + start % 10);
    assert(a - b == 10 * (1 - q + start / 10));
    lemma_mod_shift(b, 1 - q + start / 10);
}

/// Position `i + 1` under table `slot` and step `offset + start - i` of the
/// reversed stretch are penalised together.
proof fn lemma_reverse_step_class(i: int, slot: int, start: int, offset: int)
    requires
        start >= 0,
        offset >= 0,
        slot == (29 - start % 10 - offset) % 10,
    ensures
        (i + 1 + slot) % 10 == 0 <==> (offset + (start - i)) % 10 == 0,
{
    let q = (29 - start % 10 - offset) / 10;
    assert(slot == 29 - start % 10 - offset - 10 * q);
    assert(start == 10 * (start / 10) + start % 10);
    assert((i + 1 + slot) + (offset + (start - i)) == 10 * (3 - q + start / 10));
    lemma_mod_negate(offset + (start - i), 3 - q + start / 10);
}

/// Adding a multiple of ten keeps divisibility by ten.
proof fn lemma_mod_shift(b: int, k: int)
    ensures
        (b + 10 * k) % 10 == 0 <==> b % 10 == 0,
{
    vstd::arithmetic::div_mod::lemma_mod_multiples_vanish(k, b, 10);
}

/// `10 * k - b` is divisible by ten exactly when `b` is.
proof fn lemma_mod_negate(b: int, k: int)
    ensures
        (10 * k - b) % 10 == 0 <==> b % 10 == 0,
{
    vstd::arithmetic::div_mod::lemma_mod_multiples_vanish(k, -b, 10);
    assert((-b) % 10 == 0 <==> b % 10 == 0) by {
        vstd::arithmetic::div_mod::lemma_fundamental_div_mod(b, 10);
        vstd::arithmetic::div_mod::lemma_fundamental_div_mod(-b, 10);
        if b % 10 == 0 {
            vstd::arithmetic::div_mod::lemma_mod_multiples_basic(-(b / 10), 10);
            assert(-b == (-(b / 10)) * 10);
        }
        if (-b) % 10 == 0 {
            vstd::arithmetic::div_mod::lemma_mod_multiples_basic(-((-b) / 10), 10);
            assert(b == (-((-b) / 10)) * 10);
        }
    }
}

/// Whether the step with number `cur_pos` that leaves the city `cur_node` is
/// penalised: every tenth step is, unless it leaves a prime city.
pub fn penalised_step(cur_pos: usize, cur_node: usize, primes: &[bool]) -> (r: bool)
    requires
        cur_pos % 10 == 0 ==> cur_node < primes.len(),
    ensures
        r == (cur_pos % 10 == 0 && !primes@[cur_node as int]),
{
    cur_pos % 10 == 0 && !primes[cur_node]
}

/// Counting the multiples of ten up to `i + 1`.
proof fn lemma_tenths_step(i: int)
    requires
        i >= 0,
    ensures
        (i + 1) % 10 == 0 ==> (i + 1) / 10 == i / 10 + 1 && i == 10 * (i / 10) + 9,
        (i + 1) % 10 != 0 ==> (i + 1) / 10 == i / 10,
{
    vstd::arithmetic::div_mod::lemma_fundamental_div_mod(i, 10);
    vstd::arithmetic::div_mod::lemma_fundamental_div_mod(i + 1, 10);
}

/// A closed tour through cities `0..n`, with each city's position in it and,
/// for each city, the two cities next to it.
#[derive(Clone)]
pub struct Tour {
    path: Vec<usize>,
    inv: Vec<usize>,
    per_nodes_edges: Vec<TwoEdges>,
}

/// `slots[v]` holds the two tour neighbours of every city `v`: the one before it
/// in the first slot, the one after it in the second (for city 0: the second
/// city of the path, then the second-to-last).
pub open spec fn slots_match(path: Seq<usize>, slots: Seq<TwoEdges>) -> bool {
    &&& slots.len() == path.len() - 1
    &&& forall|i: int|
        0 <= i < path.len() - 1 ==> {
            let e = #[trigger] slots[path[i] as int].edges;
            &&& e[0] == neighbour_pair(path, i).0
            &&& e[1] == neighbour_pair(path, i).1
        }
}

/// `inv` gives each city's position in `path`; city 0 gets the last position.
pub open spec fn positions_match(path: Seq<usize>, inv: Seq<usize>) -> bool {
    &&& inv.len() == path.len() - 1
    &&& inv[0] == path.len() - 1
    &&& forall|i: int| 1 <= i < path.len() - 1 ==> #[trigger] inv[path[i] as int] == i
}

impl Tour {
    /// The invariant: a closed tour over fewer than `NOEDGE` cities, with
    /// positions and neighbour slots that agree with it.
    pub closed spec fn wf(&self) -> bool {
        &&& self.path.len() >= 2
        &&& is_tour(self.path@, (self.path.len() - 1) as nat)
        &&& self.path.len() - 1 < NOEDGE
        &&& positions_match(self.path@, self.inv@)
        &&& forall|v: int| 0 <= v < self.inv@.len() ==> #[trigger] self.inv@[v] <= self.path.len() - 1
        &&& slots_match(self.path@, self.per_nodes_edges@)
    }

    /// Every city's position in the path (city 0: the last position).
    pub closed spec fn positions(&self) -> Seq<usize> {
        self.inv@
    }

    /// In a well-formed tour, `positions` gives each city's position in the
    /// path, and no position lies past the end of the path.
    pub proof fn lemma_positions(&self)
        requires
            self.wf(),
        ensures
            positions_match(self@, self.positions()),
            forall|v: int| 0 <= v < self.positions().len() ==> #[trigger] self.positions()[v] <= self@.len() - 1,
    {
    }

    /// Every city's neighbour slots, as pairs.
    pub closed spec fn slots(&self) -> Seq<(usize, usize)> {
        slot_pairs(self.per_nodes_edges@)
    }

    /// In a well-formed tour, the slots of the city at position `i` hold the
    /// city before it and the city after it (for city 0: the second city and the
    /// second-to-last).
    pub proof fn lemma_slots_follow_path(&self)
        requires
            self.wf(),
        ensures
            self@.len() >= 2,
            is_tour(self@, (self@.len() - 1) as nat),
            self.slots().len() == self@.len() - 1,
            forall|i: int|
                0 <= i < self@.len() - 1 ==> #[trigger] self.slots()[self@[i] as int]
                    == neighbour_pair(self@, i),
    {
        assert forall|i: int| 0 <= i < self@.len() - 1 implies #[trigger] self.slots()[self@[i]
            as int] == neighbour_pair(self@, i) by {
            assert(self.path@[i] < self.path@.len() - 1);
        }
    }

    /// Being next to each other is symmetric: the city at position `i` is in
    /// the slots of each of its two neighbours.
    pub proof fn lemma_neighbours_symmetric(&self, i: int)
        requires
            self.wf(),
            0 <= i < self@.len() - 1,
        ensures
            ({
                let (a, b) = neighbour_pair(self@, i);
                let v = self@[i];
                &&& (self.slots()[a as int].0 == v || self.slots()[a as int].1 == v)
                &&& (self.slots()[b as int].0 == v || self.slots()[b as int].1 == v)
            }),
    {
        self.lemma_slots_follow_path();
        let n = self@.len() - 1;
        let p = self@;
        if i == 0 {
            if n == 1 {
                assert(p[1] == 0);
            } else {
                assert(self.slots()[p[1] as int] == neighbour_pair(p, 1));
                assert(self.slots()[p[n - 1] as int] == neighbour_pair(p, n - 1));
            }
        } else {
            assert(self.slots()[p[i - 1] as int] == neighbour_pair(p, i - 1));
            if i + 1 < n {
                assert(self.slots()[p[i + 1] as int] == neighbour_pair(p, i + 1));
            } else {
                assert(p[i + 1] == 0);
                assert(self.slots()[p[0] as int] == neighbour_pair(p, 0));
            }
        }
    }

    /// Testing a move on the slots (`test_changes`) and testing it on the
    /// positions (`test_changes_fast`) agree. Take a move that removes at
    /// least one edge, has no edge at city 0, and, unless it repeats an edge,
    /// can be carried out on the slots and leaves every city two neighbours.
    /// Then both tests may be made on it; when no edge repeats, the slots
    /// give a tour exactly when the fast test gives a plan, that tour is the
    /// list of cities of the plan, piece by piece, and the plan numbers its
    /// steps as the tour does (so that both tests charge the same penalties);
    /// when an edge repeats, both tests refuse the move.
    pub proof fn lemma_fast_matches_slow(&self, added: Seq<(usize, usize)>, removed: Seq<(usize, usize)>)
        requires
            self.wf(),
            added.len() <= usize::MAX,
            removed.len() > 0,
            !touches_zero(added),
            !touches_zero(removed),
            !repeats_edge(added, removed) ==> apply_moves(self.slots(), added, removed) is Some && slots_full(
                apply_moves(self.slots(), added, removed).unwrap(),
            ),
        ensures
            duplicates_spec(added, removed) == repeats_edge(added, removed),
            !repeats_edge(added, removed) ==> walk_ok(apply_moves(self.slots(), added, removed).unwrap())
                && plan_defined(self.positions(), added, removed),
            !repeats_edge(added, removed) ==> (walk_result(apply_moves(self.slots(), added, removed).unwrap()) is Some
                <==> fast_plan(self.positions(), (self@.len() - 1) as usize, added, removed) is Some),
            !repeats_edge(added, removed) && fast_plan(self.positions(), (self@.len() - 1) as usize, added, removed) is Some
                ==> walk_result(apply_moves(self.slots(), added, removed).unwrap()).unwrap() == plan_cities(
                self@,
                fast_plan(self.positions(), (self@.len() - 1) as usize, added, removed).unwrap(),
            ) && plan_steps(self@, added, fast_plan(self.positions(), (self@.len() - 1) as usize, added, removed).unwrap(), 0),
    {
        if !repeats_edge(added, removed) {
            self.lemma_slots_follow_path();
            let s0 = self.slots();
            lemma_applied_move(self@, self.positions(), s0, added, removed);
            lemma_move_agreement(self@, self.positions(), s0, added, removed);
            lemma_plan_steps(self@, self.positions(), s0, added, removed);
            let s1 = apply_moves(s0, added, removed).unwrap();
            lemma_apply_moves_count(s0, added, removed, 0, 0);
            lemma_full_slots_walk_ok(s1);
            assert forall|i: int| 0 <= i < removed.len() implies #[trigger] removed[i].0 < self.inv@.len()
                && removed[i].1 < self.inv@.len() by {
                assert(0 < removed[i].0 < self@.len() - 1);
            }
            assert forall|i: int| 0 <= i < added.len() implies #[trigger] added[i].0 < self.inv@.len()
                && added[i].1 < self.inv@.len() by {
                assert(0 < added[i].0 < self@.len() - 1);
            }
        }
    }

    /// Counting cycles agrees with testing the move on the slots: for a move
    /// as in `lemma_fast_matches_slow` that repeats no edge, and whose cycles
    /// can be counted, `count_cycles` finds no cycle besides the one through
    /// city 0 exactly when the slots give a tour.
    pub proof fn lemma_count_matches_slow(&self, added: Seq<(usize, usize)>, removed: Seq<(usize, usize)>)
        requires
            self.wf(),
            added.len() <= usize::MAX,
            removed.len() > 0,
            !touches_zero(added),
            !touches_zero(removed),
            !repeats_edge(added, removed),
            apply_moves(self.slots(), added, removed) is Some,
            slots_full(apply_moves(self.slots(), added, removed).unwrap()),
            cycles_defined(self.positions(), added, removed),
        ensures
            cycle_report(self.positions(), added, removed).unwrap().len() == 0 <==> walk_result(
                apply_moves(self.slots(), added, removed).unwrap(),
            ) is Some,
    {
        self.lemma_fast_matches_slow(added, removed);
        lemma_single_cycle_iff_plan(self.positions(), (self@.len() - 1) as usize, added, removed);
    }

    /// A move that can be carried out on the slots gives a single tour there
    /// exactly when some closed tour through all the cities has the tour's
    /// edges less the removed ones plus the added ones (counted with
    /// multiplicity, in either direction); the tour the slots give is then such
    /// a tour.
    pub proof fn lemma_rewired_tour(&self, added: Seq<(usize, usize)>, removed: Seq<(usize, usize)>)
        requires
            self.wf(),
            apply_moves(self.slots(), added, removed) is Some,
        ensures
            walk_result(apply_moves(self.slots(), added, removed).unwrap()) is Some ==> rewired_from(
                walk_result(apply_moves(self.slots(), added, removed).unwrap()).unwrap(),
                self@,
                added,
                removed,
                (self@.len() - 1) as nat,
            ),
            (exists|q: Seq<usize>| #[trigger] rewired_from(q, self@, added, removed, (self@.len() - 1) as nat)) ==> walk_result(
                apply_moves(self.slots(), added, removed).unwrap(),
            ) is Some,
    {
        self.lemma_slots_follow_path();
        let n = (self@.len() - 1) as nat;
        let s0 = self.slots();
        if exists|q: Seq<usize>| #[trigger] rewired_from(q, self@, added, removed, n) {
            let q = choose|q: Seq<usize>| rewired_from(q, self@, added, removed, n);
            lemma_rewired_tour_found(self@, n, s0, added, removed, q);
        }
        lemma_tour_slots_symmetric(self@, n, s0);
        lemma_move_keeps_symmetric(s0, added, removed);
        let s1 = apply_moves(s0, added, removed).unwrap();
        if walk_result(s1) is Some {
            lemma_closed_walk_tour(s1);
            let q = walk_cities(s1, (n + 1) as nat);
            assert(walk_result(s1).unwrap() == q);
            lemma_tour_slot_counts(q, n, s1);
            assert forall|u: usize, x: usize| u < n && x < n implies #[trigger] edge_count(path_edges(q), u, x)
                == edge_count(path_edges(self@), u, x) - edge_count(removed, u, x) + edge_count(added, u, x) by {
                assert(slot_count(s1[u as int], x) == edge_count(path_edges(q), u, x));
                assert(slot_count(s0[u as int], x) == edge_count(path_edges(self@), u, x));
                assert(slot_count(s1[u as int], x) == slot_count(s0[u as int], x) - edge_count(removed, u, x)
                    + edge_count(added, u, x));
            }
        }
    }

    /// A move built as the k-opt moves are built (each removed pair an edge of
    /// the tour, each added pair two cities of the tour, no edge at city 0, and
    /// as many added as removed ends at every city, so that every city keeps two
    /// neighbours) can be carried out on the slots and leaves them full unless it
    /// repeats an edge; and the test on the slots (`test_changes`) refuses it
    /// exactly when the test on the positions (`test_changes_fast`) does.
    pub proof fn lemma_balanced_move_agrees(&self, added: Seq<(usize, usize)>, removed: Seq<(usize, usize)>)
        requires
            self.wf(),
            added.len() <= usize::MAX,
            removed.len() > 0,
            !touches_zero(added),
            !touches_zero(removed),
            forall|i: int|
                0 <= i < removed.len() ==> edge_count(path_edges(self@), (#[trigger] removed[i]).0, removed[i].1) >= 1,
            forall|i: int|
                0 <= i < added.len() ==> (#[trigger] added[i]).0 < self@.len() - 1 && added[i].1 < self@.len() - 1,
            forall|v: usize| #[trigger] degree(added, v) == degree(removed, v),
        ensures
            !repeats_edge(added, removed) ==> apply_moves(self.slots(), added, removed) is Some && slots_full(
                apply_moves(self.slots(), added, removed).unwrap(),
            ),
            (repeats_edge(added, removed) || walk_result(apply_moves(self.slots(), added, removed).unwrap()) is None)
                <==> (duplicates_spec(added, removed) || fast_plan(
                self.positions(),
                (self@.len() - 1) as usize,
                added,
                removed,
            ) is None),
    {
        self.lemma_slots_follow_path();
        let n = (self@.len() - 1) as nat;
        let p = self@;
        let s0 = self.slots();
        lemma_tour_slots_symmetric(p, n, s0);
        if !repeats_edge(added, removed) {
            assert forall|i: int| 0 <= i < removed.len() implies (#[trigger] removed[i]).0 < s0.len() && removed[i].1
                < s0.len() && removed[i].0 != removed[i].1 && slot_count(s0[removed[i].0 as int], removed[i].1)
                >= 1 by {
                let a = removed[i].0;
                let b = removed[i].1;
                assert(a != 0 && b != 0) by {
                    if a == 0 || b == 0 {
                        assert(touches_zero(removed));
                    }
                }
                assert(a < n && b < n) by {
                    if a >= n || b >= n {
                        assert forall|j: int| 0 <= j < path_edges(p).len() implies !same_edge(
                            #[trigger] path_edges(p)[j],
                            (a, b),
                        ) by {
                            assert(p[j] < n);
                            if j + 1 < n {
                                assert(p[j + 1] < n);
                            }
                        }
                        lemma_edge_count_absent(path_edges(p), a, b);
                    }
                }
                assert(a != b) by {
                    if a == b {
                        lemma_tour_covers(p, n);
                        let k = position_of(p, n, a as int);
                        assert(k != 0);
                        assert(s0[p[k] as int] == neighbour_pair(p, k));
                        assert(p[k - 1] != p[k]);
                        if k + 1 < n {
                            assert(p[k] != p[k + 1]);
                        }
                        assert(slot_count(s0[a as int], a) == 0);
                    }
                }
            }
            assert forall|v: int| 0 <= v < s0.len() implies #[trigger] slot_count(s0[v], NOEDGE) == 0 by {
                assert(s0[v].0 < n && s0[v].1 < n);
            }
            assert forall|i: int, j: int| 0 <= j < i < removed.len() implies !same_edge(
                #[trigger] removed[i],
                #[trigger] removed[j],
            ) by {}
            lemma_balanced_move_fills(s0, added, removed);
        }
        self.lemma_fast_matches_slow(added, removed);
    }

    /// For a move as in `lemma_balanced_move_agrees` that repeats no edge (its
    /// cycles can then always be counted), `count_cycles` finds no cycle besides the
    /// one through city 0 exactly when `test_changes_fast` gives a plan, and
    /// exactly when some closed tour through all the cities has the tour's
    /// edges less the removed ones plus the added ones.
    pub proof fn lemma_balanced_count_agrees(&self, added: Seq<(usize, usize)>, removed: Seq<(usize, usize)>)
        requires
            self.wf(),
            added.len() <= usize::MAX,
            removed.len() > 0,
            !touches_zero(added),
            !touches_zero(removed),
            forall|i: int|
                0 <= i < removed.len() ==> edge_count(path_edges(self@), (#[trigger] removed[i]).0, removed[i].1) >= 1,
            forall|i: int|
                0 <= i < added.len() ==> (#[trigger] added[i]).0 < self@.len() - 1 && added[i].1 < self@.len() - 1,
            forall|v: usize| #[trigger] degree(added, v) == degree(removed, v),
            !repeats_edge(added, removed),
        ensures
            cycles_defined(self.positions(), added, removed),
            cycle_report(self.positions(), added, removed).unwrap().len() == 0 <==> fast_plan(
                self.positions(),
                (self@.len() - 1) as usize,
                added,
                removed,
            ) is Some,
            cycle_report(self.positions(), added, removed).unwrap().len() == 0 <==> exists|q: Seq<usize>|
                #[trigger] rewired_from(q, self@, added, removed, (self@.len() - 1) as nat),
    {
        self.lemma_count_is_cycle_count(added, removed);
        self.lemma_balanced_move_agrees(added, removed);
        self.lemma_count_matches_slow(added, removed);
        self.lemma_fast_matches_slow(added, removed);
        self.lemma_rewired_tour(added, removed);
    }

    /// The count of `count_cycles` is the number of cycles. Take a move as in
    /// `lemma_balanced_move_agrees` that repeats no edge. Then `count_cycles`
    /// may be called on it (its walks never get stuck); the slots after the
    /// move hold, at every city, exactly the tour's edges there less the
    /// removed ones plus the added ones (two in all); and
    /// `1 + cycle_report(..).len()`, the count `count_cycles` reports, is the
    /// number of cycles of that graph. Each part of the report lists the
    /// stretches of one further cycle: every pair in it names two positions
    /// whose cities lie on that cycle, which is not the one through city 0, and
    /// the pairs of two parts lie on the same cycle exactly when the parts are
    /// the same.
    pub proof fn lemma_count_is_cycle_count(&self, added: Seq<(usize, usize)>, removed: Seq<(usize, usize)>)
        requires
            self.wf(),
            added.len() <= usize::MAX,
            removed.len() > 0,
            !touches_zero(added),
            !touches_zero(removed),
            forall|i: int|
                0 <= i < removed.len() ==> edge_count(path_edges(self@), (#[trigger] removed[i]).0, removed[i].1) >= 1,
            forall|i: int|
                0 <= i < added.len() ==> (#[trigger] added[i]).0 < self@.len() - 1 && added[i].1 < self@.len() - 1,
            forall|v: usize| #[trigger] degree(added, v) == degree(removed, v),
            !repeats_edge(added, removed),
        ensures
            cycles_defined(self.positions(), added, removed),
            apply_moves(self.slots(), added, removed) is Some,
            slots_full(apply_moves(self.slots(), added, removed).unwrap()),
            forall|u: usize, x: usize|
                u < self@.len() - 1 && x < self@.len() - 1 ==> #[trigger] slot_count(
                    apply_moves(self.slots(), added, removed).unwrap()[u as int],
                    x,
                ) == edge_count(path_edges(self@), u, x) - edge_count(removed, u, x) + edge_count(added, u, x),
            cycle_count(apply_moves(self.slots(), added, removed).unwrap()) == 1 + cycle_report(
                self.positions(),
                added,
                removed,
            ).unwrap().len(),
            forall|i: int, j: int|
                0 <= i < cycle_report(self.positions(), added, removed).unwrap().len() && 0 <= j < cycle_report(
                    self.positions(),
                    added,
                    removed,
                ).unwrap()[i].len() ==> {
                    let st = #[trigger] cycle_report(self.positions(), added, removed).unwrap()[i][j];
                    let s1 = apply_moves(self.slots(), added, removed).unwrap();
                    &&& 1 <= st.0 < self@.len() - 1
                    &&& 1 <= st.1 < self@.len() - 1
                    &&& connected(s1, self@[st.0 as int] as int, self@[st.1 as int] as int)
                    &&& !connected(s1, 0int, self@[st.0 as int] as int)
                },
            forall|i: int, j: int, i2: int, j2: int|
                #![trigger cycle_report(self.positions(), added, removed).unwrap()[i][j], cycle_report(self.positions(), added, removed).unwrap()[i2][j2]]
                0 <= i < cycle_report(self.positions(), added, removed).unwrap().len() && 0 <= j < cycle_report(
                    self.positions(),
                    added,
                    removed,
                ).unwrap()[i].len() && 0 <= i2 < cycle_report(self.positions(), added, removed).unwrap().len() && 0
                    <= j2 < cycle_report(self.positions(), added, removed).unwrap()[i2].len() ==> (connected(
                    apply_moves(self.slots(), added, removed).unwrap(),
                    self@[cycle_report(self.positions(), added, removed).unwrap()[i][j].0 as int] as int,
                    self@[cycle_report(self.positions(), added, removed).unwrap()[i2][j2].0 as int] as int,
                ) <==> i == i2),
    {
        self.lemma_balanced_move_agrees(added, removed);
        self.lemma_slots_follow_path();
        self.lemma_positions();
        let n = (self@.len() - 1) as nat;
        let s0 = self.slots();
        lemma_tour_slots_symmetric(self@, n, s0);
        lemma_move_keeps_symmetric(s0, added, removed);
        lemma_applied_move(self@, self.positions(), s0, added, removed);
        lemma_move_setup(self@, self.positions(), s0, added, removed);
        lemma_count_is_cycles(self@, self.positions(), s0, added, removed);
        assert forall|i: int| 0 <= i < removed.len() implies #[trigger] removed[i].0 < self.positions().len()
            && removed[i].1 < self.positions().len() by {
            lemma_tour_edge_in_range(self@, n, removed[i].0, removed[i].1);
        }
    }

    /// The sequential moves of the k-opt search, listed in any order: cut the
    /// tour edge from the city at position `pos` to the next one (neither of
    /// them city 0), then for each hop add an edge from the chain's current
    /// city to the hop's first city (not city 0) and cut the tour edge from
    /// there to the hop's second city (not city 0), and finally close the
    /// chain back to the city after `pos`. On such a move the test on the slots
    /// (`test_changes`) refuses exactly when the test on the positions
    /// (`test_changes_fast`) does.
    pub proof fn lemma_chain_move_agrees(
        &self,
        pos: int,
        hops: Seq<(usize, usize)>,
        added: Seq<(usize, usize)>,
        removed: Seq<(usize, usize)>,
    )
        requires
            self.wf(),
            1 <= pos,
            pos + 1 < self@.len() - 1,
            forall|i: int|
                0 <= i < hops.len() ==> (#[trigger] hops[i]).0 != 0 && hops[i].0 < self@.len() - 1 && hops[i].1 != 0
                    && edge_count(path_edges(self@), hops[i].0, hops[i].1) >= 1,
            added.len() <= usize::MAX,
            added.to_multiset() == chain_added(self@[pos], self@[pos + 1], hops).to_multiset(),
            removed.to_multiset() == chain_removed(self@[pos], self@[pos + 1], hops).to_multiset(),
        ensures
            !repeats_edge(added, removed) ==> apply_moves(self.slots(), added, removed) is Some && slots_full(
                apply_moves(self.slots(), added, removed).unwrap(),
            ),
            (repeats_edge(added, removed) || walk_result(apply_moves(self.slots(), added, removed).unwrap()) is None)
                <==> (duplicates_spec(added, removed) || fast_plan(
                self.positions(),
                (self@.len() - 1) as usize,
                added,
                removed,
            ) is None),
    {
        broadcast use vstd::seq_lib::group_to_multiset_ensures;

        let p = self@;
        let n = (p.len() - 1) as nat;
        let start = p[pos];
        let start2 = p[pos + 1];
        let ca = chain_added(start, start2, hops);
        let cr = chain_removed(start, start2, hops);
        assert(start != 0 && start2 != 0 && start < n && start2 < n) by {
            assert(p[0] != p[pos]);
            assert(p[0] != p[pos + 1]);
        }
        assert forall|i: int| 0 <= i < hops.len() implies hops[i].1 < n by {
            lemma_tour_edge_in_range(p, n, (#[trigger] hops[i]).0, hops[i].1);
        }
        assert forall|i: int| 0 <= i <= hops.len() implies #[trigger] chain_city(start, hops, i) != 0 && chain_city(start, hops, i) < n by {
            if i > 0 {
                assert(hops[i - 1].1 < n);
            }
        }
        assert forall|j: int| 0 <= j < ca.len() implies (#[trigger] ca[j]).0 != 0 && ca[j].1 != 0 && ca[j].0 < n
            && ca[j].1 < n by {
            if j < hops.len() {
                assert(chain_city(start, hops, j) != 0);
            } else {
                assert(chain_city(start, hops, hops.len() as int) != 0);
            }
        }
        assert(path_edges(p)[pos] == (start, start2));
        lemma_listed_edge_counted(path_edges(p), pos);
        assert forall|j: int| 0 <= j < cr.len() implies (#[trigger] cr[j]).0 != 0 && cr[j].1 != 0 && edge_count(
            path_edges(p),
            cr[j].0,
            cr[j].1,
        ) >= 1 by {
            if j > 0 {
                assert(cr[j] == hops[j - 1]);
            }
        }
        assert forall|i: int| 0 <= i < added.len() implies (#[trigger] added[i]).0 != 0 && added[i].1 != 0
            && added[i].0 < n && added[i].1 < n by {
            assert(added.contains(added[i]));
            assert(added.to_multiset().count(added[i]) > 0);
            assert(ca.contains(added[i]));
        }
        assert forall|i: int| 0 <= i < removed.len() implies (#[trigger] removed[i]).0 != 0 && removed[i].1 != 0
            && edge_count(path_edges(p), removed[i].0, removed[i].1) >= 1 by {
            assert(removed.contains(removed[i]));
            assert(removed.to_multiset().count(removed[i]) > 0);
            assert(cr.contains(removed[i]));
        }
        assert(!touches_zero(added));
        assert(!touches_zero(removed));
        assert(removed.len() > 0) by {
            assert(removed.to_multiset().len() == cr.to_multiset().len());
        }
        assert forall|v: usize| #[trigger] degree(added, v) == degree(removed, v) by {
            lemma_degree_permuted(added, ca, v);
            lemma_degree_permuted(removed, cr, v);
            lemma_chain_balanced(start, start2, hops, v);
        }
        self.lemma_balanced_move_agrees(added, removed);
    }

    /// Testing the empty move (nothing added, nothing removed) gives the tour
    /// itself back.
    pub proof fn lemma_empty_move_keeps_tour(&self)
        requires
            self.wf(),
        ensures
            !repeats_edge(Seq::empty(), Seq::empty()),
            apply_moves(self.slots(), Seq::empty(), Seq::empty()) == Some(self.slots()),
            walk_ok(self.slots()),
            walk_result(self.slots()) == Some(self@),
    {
        self.lemma_slots_follow_path();
        lemma_tour_walk_result(self@, self.slots());
    }

    /// The tour's path: city 0, every other city once, city 0 again.
    pub closed spec fn view(&self) -> Seq<usize> {
        self.path@
    }

    /// Builds the positions and neighbour slots of the closed tour `path`
    /// over the cities `0..n_nodes`.
    pub fn new(path: Vec<usize>, n_nodes: usize) -> (t: Tour)
        requires
            is_tour(path@, n_nodes as nat),
            n_nodes < NOEDGE,
        ensures
            t.wf(),
            t@ == path@,
    {
        let per_nodes_edges = path_to_edges(path.as_slice());
        let mut inv: Vec<usize> = Vec::new();
        let mut k: usize = 0;
        while k < n_nodes
            invariant
                k <= n_nodes,
                inv.len() == k,
                forall|v: int| 0 <= v < k ==> #[trigger] inv@[v] == 0,
            decreases n_nodes - k,
        {
            inv.push(0);
            k = k + 1;
        }
        let mut i: usize = 0;
        while i < path.len()
            invariant
                i <= path.len(),
                path.len() == n_nodes + 1,
                is_tour(path@, n_nodes as nat),
                inv.len() == n_nodes,
                forall|a: int| 1 <= a < i && a < n_nodes ==> #[trigger] inv[path@[a] as int] == a,
                i == n_nodes + 1 ==> inv[0] == n_nodes,
                forall|v: int| 0 <= v < n_nodes ==> #[trigger] inv@[v] <= n_nodes,
            decreases path.len() - i,
        {
            let v = path[i];
            inv.set(v, i);
            proof {
                assert forall|a: int| 1 <= a < i + 1 && a < n_nodes implies #[trigger] inv[path@[a]
                    as int] == a by {
                    if a != i && i < n_nodes {
                        assert(path@[a] != path@[i as int]);
                    }
                    if a != i && i == n_nodes {
                        assert(path@[a] != path@[0]);
                    }
                }
            }
            i = i + 1;
        }
        Tour { path, inv, per_nodes_edges }
    }

    /// A tour over the same cities along `path`.
    pub fn make_new(&self, path: Vec<usize>) -> (t: Tour)
        requires
            self.wf(),
            is_tour(path@, (self@.len() - 1) as nat),
        ensures
            t.wf(),
            t@ == path@,
    {
        Tour::new(path, self.path.len() - 1)
    }

    /// The same tour, with positions and neighbour slots built afresh.
    pub fn recompute(self) -> (t: Tour)
        requires
            self.wf(),
        ensures
            t.wf(),
            t@ == self@,
    {
        let n = self.path.len() - 1;
        Tour::new(self.path, n)
    }

    /// The tour's path.
    pub fn get_path(&self) -> (p: &[usize])
        requires
            self.wf(),
        ensures
            p@ == self@,
    {
        self.path.as_slice()
    }

    /// Each city's position in the path (city 0: the last position).
    pub fn get_inv(&self) -> (inv: &[usize])
        requires
            self.wf(),
        ensures
            positions_match(self@, inv@),
            inv@ == self.positions(),
    {
        self.inv.as_slice()
    }

    /// The two cities next to `node` along the tour: the one before it, then
    /// the one after it (for city 0: the second city, then the second-to-last).
    pub fn neighbours(&self, node: usize) -> (r: [usize; 2])
        requires
            self.wf(),
            node < self@.len() - 1,
        ensures
            forall|i: int|
                0 <= i < self@.len() - 1 && self@[i] == node ==> r[0] == neighbour_pair(self@, i).0
                    && r[1] == neighbour_pair(self@, i).1,
    {
        self.per_nodes_edges[node].edges
    }

    /// Follows the neighbour slots from city 0 and returns the cities met; for a
    /// well-formed tour this is always the tour's own path.
    pub fn check_nodes_edges(&self) -> (r: Option<Vec<usize>>)
        requires
            self.wf(),
        ensures
            r is Some,
            r.unwrap()@ == self@,
    {
        proof {
            self.lemma_slots_follow_path();
            lemma_tour_walk_result(self.path@, self.slots());
        }
        walk_slots(&self.per_nodes_edges)
    }

    /// Whether removing the edges `removed` and adding the edges `added` turns
    /// the tour into another closed tour through all cities; if it does, that
    /// tour's path (starting along the first slot of city 0). `None` when an
    /// edge is removed twice or both added and removed. The tour itself is
    /// left as it is.
    pub fn test_changes(&mut self, added: &[(usize, usize)], removed: &[(usize, usize)]) -> (r:
        Option<Vec<usize>>)
        requires
            old(self).wf(),
            !repeats_edge(added@, removed@) ==> apply_moves(old(self).slots(), added@, removed@) is Some
                && walk_ok(apply_moves(old(self).slots(), added@, removed@).unwrap()),
        ensures
            *final(self) == *old(self),
            repeats_edge(added@, removed@) ==> r is None,
            !repeats_edge(added@, removed@) ==> (r is Some <==> walk_result(
                apply_moves(old(self).slots(), added@, removed@).unwrap(),
            ) is Some),
            r is Some ==> r.unwrap()@ == walk_result(
                apply_moves(old(self).slots(), added@, removed@).unwrap(),
            ).unwrap(),
            r is Some ==> rewired_from(r.unwrap()@, old(self)@, added@, removed@, (old(self)@.len() - 1) as nat),
            !repeats_edge(added@, removed@) && (exists|q: Seq<usize>|
                #[trigger] rewired_from(q, old(self)@, added@, removed@, (old(self)@.len() - 1) as nat)) ==> r is Some,
    {
        let duplicate = has_repeated_edge(added, removed);
        if !duplicate {
            let mut scratch = self.copy_slots();
            apply_changes(&mut scratch, added, removed);
            let r = walk_slots(&scratch);
            proof {
                (*self).lemma_rewired_tour(added@, removed@);
            }
            r
        } else {
            None
        }
    }

    /// `test_changes` for any move: `None` exactly when a move that repeats no
    /// edge cannot be carried out on the slots, or the walk after it gets
    /// stuck within as many moves as there are cities (which is when
    /// `test_changes` may not be called); otherwise what `test_changes` gives.
    pub fn test_changes_checked(&mut self, added: &[(usize, usize)], removed: &[(usize, usize)]) -> (r:
        Option<Option<Vec<usize>>>)
        requires
            old(self).wf(),
        ensures
            *final(self) == *old(self),
            repeats_edge(added@, removed@) ==> r == Some(None::<Vec<usize>>),
            !repeats_edge(added@, removed@) ==> (r is None <==> !(apply_moves(old(self).slots(), added@, removed@) is Some
                && walk_ok_within(
                apply_moves(old(self).slots(), added@, removed@).unwrap(),
                (old(self)@.len() - 1) as nat,
            ))),
            !repeats_edge(added@, removed@) && r is Some ==> (r.unwrap() is Some <==> walk_result(
                apply_moves(old(self).slots(), added@, removed@).unwrap(),
            ) is Some),
            r matches Some(Some(p)) ==> p@ == walk_result(apply_moves(old(self).slots(), added@, removed@).unwrap()).unwrap(),
            r matches Some(Some(p)) ==> rewired_from(p@, old(self)@, added@, removed@, (old(self)@.len() - 1) as nat),
            !repeats_edge(added@, removed@) && r is Some && (exists|q: Seq<usize>|
                #[trigger] rewired_from(q, old(self)@, added@, removed@, (old(self)@.len() - 1) as nat)) ==> r.unwrap() is Some,
    {
        let duplicate = has_repeated_edge(added, removed);
        if duplicate {
            return Some(None);
        }
        let mut scratch = self.copy_slots();
        let applied = try_apply_changes(&mut scratch, added, removed);
        if !applied {
            return None;
        }
        proof {
            lemma_apply_moves_count(self.slots(), added@, removed@, 0, 0);
        }
        let r = walk_slots_checked(&scratch);
        proof {
            (*self).lemma_rewired_tour(added@, removed@);
        }
        r
    }

    /// Counts the cycles left by removing the edges `removed` and adding the
    /// edges `added` (1 when the result is a single tour), with the steps of every
    /// cycle besides the one through city 0, as `cycle_report` works them out on
    /// the cities' positions. A move rejected by `check_duplicates` gets a count
    /// of 1_000_000_000 and no steps.
    pub fn count_cycles(&self, added: &[(usize, usize)], removed: &[(usize, usize)]) -> (r: (
        usize,
        Vec<Vec<(usize, usize)>>,
    ))
        requires
            self.wf(),
            !duplicates_spec(added@, removed@) ==> cycles_defined(self.positions(), added@, removed@),
        ensures
            duplicates_spec(added@, removed@) ==> r.0 == 1_000_000_000 && r.1@.len() == 0,
            !duplicates_spec(added@, removed@) ==> {
                let rep = cycle_report(self.positions(), added@, removed@).unwrap();
                &&& r.0 == 1 + rep.len()
                &&& r.1@.len() == rep.len()
                &&& forall|i: int| 0 <= i < rep.len() ==> #[trigger] r.1@[i]@ == rep[i]
            },
    {
        self.count_cycles_checked(added, removed).unwrap()
    }

    /// `count_cycles` for any move: `None` exactly when the count cannot be
    /// made (`cycles_defined` fails for a move that `check_duplicates` lets
    /// through), which is when `count_cycles` may not be called.
    pub fn count_cycles_checked(&self, added: &[(usize, usize)], removed: &[(usize, usize)]) -> (r:
        Option<(usize, Vec<Vec<(usize, usize)>>)>)
        requires
            self.wf(),
        ensures
            duplicates_spec(added@, removed@) ==> r is Some && r.unwrap().0 == 1_000_000_000
                && r.unwrap().1@.len() == 0,
            !duplicates_spec(added@, removed@) ==> (r is Some <==> cycles_defined(
                self.positions(),
                added@,
                removed@,
            )),
            !duplicates_spec(added@, removed@) && r is Some ==> {
                let rep = cycle_report(self.positions(), added@, removed@).unwrap();
                &&& r.unwrap().0 == 1 + rep.len()
                &&& r.unwrap().1@.len() == rep.len()
                &&& forall|i: int| 0 <= i < rep.len() ==> #[trigger] r.unwrap().1@[i]@ == rep[i]
            },
    {
        count_cycles_at(self.inv.as_slice(), added, removed)
    }

    /// The pieces whose lengths add up to the length of the tour that removing
    /// `removed` and adding `added` would give, as `fast_plan` works them out on
    /// the cities' positions; `None` when `check_duplicates` holds or the move
    /// does not leave a single tour.
    pub fn test_changes_fast(&self, added: &[(usize, usize)], removed: &[(usize, usize)]) -> (r:
        Option<Vec<Piece>>)
        requires
            self.wf(),
            self@.len() - 1 <= i32::MAX,
            !duplicates_spec(added@, removed@) ==> plan_defined(self.positions(), added@, removed@),
        ensures
            duplicates_spec(added@, removed@) ==> r is None,
            !duplicates_spec(added@, removed@) ==> (r is Some <==> fast_plan(
                self.positions(),
                (self@.len() - 1) as usize,
                added@,
                removed@,
            ) is Some),
            r is Some ==> r.unwrap()@ == fast_plan(
                self.positions(),
                (self@.len() - 1) as usize,
                added@,
                removed@,
            ).unwrap(),
    {
        self.test_changes_fast_checked(added, removed).unwrap()
    }

    /// `test_changes_fast` for any move: `None` exactly when its walk cannot
    /// be made (`plan_defined` fails for a move that `check_duplicates` lets
    /// through), which is when `test_changes_fast` may not be called.
    pub fn test_changes_fast_checked(&self, added: &[(usize, usize)], removed: &[(usize, usize)]) -> (r:
        Option<Option<Vec<Piece>>>)
        requires
            self.wf(),
            self@.len() - 1 <= i32::MAX,
        ensures
            duplicates_spec(added@, removed@) ==> r == Some(None::<Vec<Piece>>),
            !duplicates_spec(added@, removed@) ==> (r is Some <==> plan_defined(
                self.positions(),
                added@,
                removed@,
            )),
            !duplicates_spec(added@, removed@) && r is Some ==> (r.unwrap() is Some <==> fast_plan(
                self.positions(),
                (self@.len() - 1) as usize,
                added@,
                removed@,
            ) is Some),
            r matches Some(Some(v)) ==> v@ == fast_plan(
                self.positions(),
                (self@.len() - 1) as usize,
                added@,
                removed@,
            ).unwrap(),
    {
        fast_plan_at(self.inv.as_slice(), self.path.len() - 1, added, removed)
    }

    /// Whether removing `removed` and then adding `added` can be done on the
    /// tour's slots and leaves both slots of every city filled; when it does,
    /// `test_changes` may be called with that move (its walk cannot get stuck).
    pub fn changes_fill_slots(&self, added: &[(usize, usize)], removed: &[(usize, usize)]) -> (ok: bool)
        requires
            self.wf(),
        ensures
            ok == (apply_moves(self.slots(), added@, removed@) is Some && slots_full(
                apply_moves(self.slots(), added@, removed@).unwrap(),
            )),
            ok ==> walk_ok(apply_moves(self.slots(), added@, removed@).unwrap()),
    {
        let mut scratch = self.copy_slots();
        let applied = try_apply_changes(&mut scratch, added, removed);
        if !applied {
            return false;
        }
        let full = all_slots_full(&scratch);
        proof {
            if full {
                lemma_full_slots_walk_ok(slot_pairs(scratch@));
            }
        }
        full
    }

    /// A copy of the neighbour slots.
    fn copy_slots(&self) -> (r: Vec<TwoEdges>)
        requires
            self.wf(),
        ensures
            r@ == self.per_nodes_edges@,
            r.len() >= 1,
    {
        let mut scratch: Vec<TwoEdges> = Vec::new();
        let mut k: usize = 0;
        while k < self.per_nodes_edges.len()
            invariant
                k <= self.per_nodes_edges.len(),
                scratch@ == self.per_nodes_edges@.take(k as int),
            decreases self.per_nodes_edges.len() - k,
        {
            scratch.push(self.per_nodes_edges[k]);
            k = k + 1;
            proof {
                assert(scratch@ =~= self.per_nodes_edges@.take(k as int));
            }
        }
        proof {
            assert(scratch@ =~= self.per_nodes_edges@);
        }
        scratch
    }

    /// Every tenth step of the tour: the city it leaves, the city it reaches,
    /// and whether it is penalised (the city it leaves is not prime).
    pub fn penalty_steps(&self, primes: &[bool]) -> (r: Vec<(usize, usize, bool)>)
        requires
            self.wf(),
            primes.len() >= self@.len() - 1,
        ensures
            r.len() == (self@.len() - 1) / 10,
            forall|k: int|
                0 <= k < r.len() ==> #[trigger] r[k] == (
                    self@[10 * k + 9],
                    self@[10 * k + 10],
                    !primes@[self@[10 * k + 9] as int],
                ),
    {
        let n = self.path.len() - 1;
        let mut out: Vec<(usize, usize, bool)> = Vec::new();
        let mut i: usize = 0;
        while i < n
            invariant
                self.wf(),
                n == self.path.len() - 1,
                primes.len() >= n,
                i <= n,
                out.len() == i / 10,
                forall|k: int|
                    0 <= k < out.len() ==> #[trigger] out[k] == (
                        self@[10 * k + 9],
                        self@[10 * k + 10],
                        !primes@[self@[10 * k + 9] as int],
                    ),
            decreases n - i,
        {
            proof {
                lemma_tenths_step(i as int);
            }
            if (i + 1) % 10 == 0 {
                let a = self.path[i];
                let b = self.path[i + 1];
                assert(a < n);
                out.push((a, b, !primes[a]));
            }
            i = i + 1;
        }
        out
    }

    /// One of the two cities next to `node`, picked at random.
    pub fn rand_neighbour(&self, node: usize) -> (r: usize)
        requires
            self.wf(),
            node < self@.len() - 1,
        ensures
            forall|i: int|
                0 <= i < self@.len() - 1 && self@[i] == node ==> r == neighbour_pair(self@, i).0
                    || r == neighbour_pair(self@, i).1,
    {
        self.per_nodes_edges[node].rand()
    }
}

} // verus!
