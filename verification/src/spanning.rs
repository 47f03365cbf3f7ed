use vstd::prelude::*;
use crate::union_find::{merge_classes, UnionFind};

verus! {

/// Kruskal's choice over `edges`, taken in the given order, on the points
/// `0..n`, after the first `k` edges: the representatives of the sets joined so
/// far, which edges were taken, and how many joins are still wanted. An edge
/// is taken when it joins two different sets; once `n - 1` edges are taken
/// (the points form one tree) no further edge is.
pub open spec fn kruskal_state(n: nat, edges: Seq<(usize, usize)>, k: nat) -> (Seq<int>, Seq<bool>, int)
    decreases k,
{
    if k == 0 {
        (Seq::new(n, |x: int| x), Seq::empty(), n - 1)
    } else {
        let prev = kruskal_state(n, edges, (k - 1) as nat);
        let e = edges[k - 1];
        if prev.2 <= 0 {
            (prev.0, prev.1.push(false), prev.2)
        } else if prev.0[e.0 as int] != prev.0[e.1 as int] {
            (merge_classes(prev.0, prev.0[e.0 as int], prev.0[e.1 as int]), prev.1.push(true), prev.2 - 1)
        } else {
            (prev.0, prev.1.push(false), prev.2)
        }
    }
}

/// Every endpoint of `edges` lies in `0..n`.
pub open spec fn edges_within(edges: Seq<(usize, usize)>, n: nat) -> bool {
    forall|i: int| 0 <= i < edges.len() ==> (#[trigger] edges[i]).0 < n && edges[i].1 < n
}

proof fn lemma_kruskal_len(n: nat, edges: Seq<(usize, usize)>, k: nat)
    requires
        k <= edges.len(),
    ensures
        kruskal_state(n, edges, k).0.len() == n,
        kruskal_state(n, edges, k).1.len() == k,
        kruskal_state(n, edges, k).2 <= n - 1,
    decreases k,
{
    if k > 0 {
        lemma_kruskal_len(n, edges, (k - 1) as nat);
    }
}

/// Which of `edges` (already in the order in which they should be tried, the
/// shortest first) Kruskal's algorithm takes into a spanning tree of the points
/// `0..n`: an edge is taken when it joins two sets not yet joined, and the
/// search stops once `n - 1` edges are taken. The taken edges close no cycle
/// and connect exactly the points that the edges connect.
pub fn spanning_picks(n: usize, edges: &[(usize, usize)]) -> (picks: Vec<bool>)
    requires
        n >= 1,
        edges_within(edges@, n as nat),
    ensures
        picks@ == kruskal_state(n as nat, edges@, edges@.len()).1,
        forall|k: int|
            0 <= k < edges@.len() ==> #[trigger] picks@[k] == (count_taken(picks@.take(k)) < n - 1 && !joined_by(
                edges@,
                picks@.take(k),
                edges@[k].0 as int,
                edges@[k].1 as int,
            )),
        forall|a: int, b: int|
            0 <= a < n && 0 <= b < n ==> (#[trigger] joined_by(edges@, picks@, a, b) <==> joined_by(
                edges@,
                Seq::new(edges@.len(), |i: int| true),
                a,
                b,
            )),
{
    proof {
        lemma_spanning_forest(n as nat, edges@);
        lemma_spanning_connects(n as nat, edges@);
    }
    let mut uf = UnionFind::new(n);
    let mut joins_left: usize = n - 1;
    let mut picks: Vec<bool> = Vec::new();
    let mut i: usize = 0;
    proof {
        assert(uf@ =~= kruskal_state(n as nat, edges@, 0).0);
    }
    while i < edges.len()
        invariant
            i <= edges.len(),
            n >= 1,
            edges_within(edges@, n as nat),
            uf.wf(),
            uf@ == kruskal_state(n as nat, edges@, i as nat).0,
            picks@ == kruskal_state(n as nat, edges@, i as nat).1,
            joins_left == kruskal_state(n as nat, edges@, i as nat).2,
        decreases edges.len() - i,
    {
        proof {
            lemma_kruskal_len(n as nat, edges@, i as nat);
        }
        let (a, b) = edges[i];
        assert(a < n && b < n) by {
            assert(edges@[i as int].0 < n && edges@[i as int].1 < n);
        }
        if joins_left == 0 {
            picks.push(false);
        } else if uf.join(a, b) {
            picks.push(true);
            joins_left = joins_left - 1;
        } else {
            picks.push(false);
        }
        i = i + 1;
    }
    picks
}

/// How many of `picks` are taken.
pub open spec fn count_taken(picks: Seq<bool>) -> int
    decreases picks.len(),
{
    if picks.len() == 0 {
        0
    } else {
        count_taken(picks.drop_last()) + if picks.last() {
            1int
        } else {
            0int
        }
    }
}

/// Some taken edge (among the first `picks.len()` of `edges`) joins `x` and `y`.
pub open spec fn taken_link(edges: Seq<(usize, usize)>, picks: Seq<bool>, x: int, y: int) -> bool {
    exists|j: int|
        0 <= j < picks.len() && j < edges.len() && #[trigger] picks[j] && ((edges[j].0 == x && edges[j].1 == y) || (
        edges[j].0 == y && edges[j].1 == x))
}

/// `w` is a chain of points, each joined to the next by a taken edge.
pub open spec fn taken_chain(edges: Seq<(usize, usize)>, picks: Seq<bool>, w: Seq<int>) -> bool {
    &&& w.len() >= 1
    &&& forall|i: int| 0 <= i < w.len() - 1 ==> taken_link(edges, picks, #[trigger] w[i], w[i + 1])
}

/// The taken edges already connect `a` and `b`.
pub open spec fn joined_by(edges: Seq<(usize, usize)>, picks: Seq<bool>, a: int, b: int) -> bool {
    exists|w: Seq<int>| #[trigger] taken_chain(edges, picks, w) && w[0] == a && w.last() == b
}

proof fn lemma_joined_refl(edges: Seq<(usize, usize)>, picks: Seq<bool>, a: int)
    ensures
        joined_by(edges, picks, a, a),
{
    assert(taken_chain(edges, picks, seq![a]));
}

proof fn lemma_joined_step(edges: Seq<(usize, usize)>, picks: Seq<bool>, a: int, b: int, c: int)
    requires
        joined_by(edges, picks, a, b),
        taken_link(edges, picks, b, c),
    ensures
        joined_by(edges, picks, a, c),
{
    let w = choose|w: Seq<int>| #[trigger] taken_chain(edges, picks, w) && w[0] == a && w.last() == b;
    let w2 = w.push(c);
    assert forall|i: int| 0 <= i < w2.len() - 1 implies taken_link(edges, picks, #[trigger] w2[i], w2[i + 1]) by {
        if i < w.len() - 1 {
            assert(w2[i] == w[i] && w2[i + 1] == w[i + 1]);
        } else {
            assert(w2[i] == b);
        }
    }
    assert(taken_chain(edges, picks, w2));
}

proof fn lemma_joined_along(edges: Seq<(usize, usize)>, picks: Seq<bool>, a: int, w: Seq<int>, k: int)
    requires
        taken_chain(edges, picks, w),
        joined_by(edges, picks, a, w[0]),
        1 <= k <= w.len(),
    ensures
        joined_by(edges, picks, a, w[k - 1]),
    decreases k,
{
    if k > 1 {
        lemma_joined_along(edges, picks, a, w, k - 1);
        assert(taken_link(edges, picks, w[k - 2], w[k - 1]));
        lemma_joined_step(edges, picks, a, w[k - 2], w[k - 1]);
    }
}

proof fn lemma_joined_trans(edges: Seq<(usize, usize)>, picks: Seq<bool>, a: int, b: int, c: int)
    requires
        joined_by(edges, picks, a, b),
        joined_by(edges, picks, b, c),
    ensures
        joined_by(edges, picks, a, c),
{
    let w = choose|w: Seq<int>| #[trigger] taken_chain(edges, picks, w) && w[0] == b && w.last() == c;
    lemma_joined_along(edges, picks, a, w, w.len() as int);
}

proof fn lemma_joined_symm(edges: Seq<(usize, usize)>, picks: Seq<bool>, a: int, b: int)
    requires
        joined_by(edges, picks, a, b),
    ensures
        joined_by(edges, picks, b, a),
{
    let w = choose|w: Seq<int>| #[trigger] taken_chain(edges, picks, w) && w[0] == a && w.last() == b;
    let r = w.reverse();
    assert forall|i: int| 0 <= i < r.len() - 1 implies taken_link(edges, picks, #[trigger] r[i], r[i + 1]) by {
        let j = w.len() - 2 - i;
        assert(r[i] == w[j + 1] && r[i + 1] == w[j]);
        assert(taken_link(edges, picks, w[j], w[j + 1]));
        let e = choose|e: int|
            0 <= e < picks.len() && e < edges.len() && #[trigger] picks[e] && ((edges[e].0 == w[j] && edges[e].1
                == w[j + 1]) || (edges[e].0 == w[j + 1] && edges[e].1 == w[j]));
        assert(picks[e]);
    }
    assert(taken_chain(edges, picks, r));
    assert(r[0] == b && r.last() == a);
}

/// Taking one more decision keeps every link (and so every chain) of before.
proof fn lemma_joined_more(edges: Seq<(usize, usize)>, picks: Seq<bool>, x: bool, a: int, b: int)
    requires
        joined_by(edges, picks, a, b),
    ensures
        joined_by(edges, picks.push(x), a, b),
{
    let p2 = picks.push(x);
    let w = choose|w: Seq<int>| #[trigger] taken_chain(edges, picks, w) && w[0] == a && w.last() == b;
    assert forall|i: int| 0 <= i < w.len() - 1 implies taken_link(edges, p2, #[trigger] w[i], w[i + 1]) by {
        assert(taken_link(edges, picks, w[i], w[i + 1]));
        let e = choose|e: int|
            0 <= e < picks.len() && e < edges.len() && #[trigger] picks[e] && ((edges[e].0 == w[i] && edges[e].1
                == w[i + 1]) || (edges[e].0 == w[i + 1] && edges[e].1 == w[i]));
        assert(p2[e]);
    }
    assert(taken_chain(edges, p2, w));
}

/// A decision not to take an edge changes no link.
proof fn lemma_links_skip(edges: Seq<(usize, usize)>, picks: Seq<bool>, x: int, y: int)
    ensures
        taken_link(edges, picks.push(false), x, y) == taken_link(edges, picks, x, y),
{
    let p2 = picks.push(false);
    if taken_link(edges, p2, x, y) {
        let e = choose|e: int|
            0 <= e < p2.len() && e < edges.len() && #[trigger] p2[e] && ((edges[e].0 == x && edges[e].1 == y) || (
            edges[e].0 == y && edges[e].1 == x));
        assert(e < picks.len());
        assert(picks[e]);
    }
    if taken_link(edges, picks, x, y) {
        let e = choose|e: int|
            0 <= e < picks.len() && e < edges.len() && #[trigger] picks[e] && ((edges[e].0 == x && edges[e].1 == y)
                || (edges[e].0 == y && edges[e].1 == x));
        assert(p2[e]);
    }
}

/// Points with different classes are joined only if a taken edge crosses classes.
proof fn lemma_chain_classes(edges: Seq<(usize, usize)>, picks: Seq<bool>, reps: Seq<int>, w: Seq<int>, k: int)
    requires
        taken_chain(edges, picks, w),
        forall|x: int, y: int| #[trigger] taken_link(edges, picks, x, y) ==> reps[x] == reps[y],
        1 <= k <= w.len(),
    ensures
        reps[w[0]] == reps[w[k - 1]],
    decreases k,
{
    if k > 1 {
        lemma_chain_classes(edges, picks, reps, w, k - 1);
        assert(taken_link(edges, picks, w[k - 2], w[k - 1]));
    }
}

/// Kruskal's state after `k` edges: points share a representative exactly
/// when the taken edges connect them, every taken edge lies inside a class,
/// and the joins still wanted are `n - 1` less the edges taken.
proof fn lemma_kruskal_classes(n: nat, edges: Seq<(usize, usize)>, k: nat)
    requires
        n >= 1,
        edges_within(edges, n),
        k <= edges.len(),
    ensures
        ({
            let st = kruskal_state(n, edges, k);
            &&& st.0.len() == n
            &&& st.1.len() == k
            &&& st.2 == n - 1 - count_taken(st.1)
            &&& forall|x: int, y: int| #[trigger] taken_link(edges, st.1, x, y) ==> st.0[x] == st.0[y]
            &&& forall|x: int, y: int|
                0 <= x < n && 0 <= y < n ==> (st.0[x] == st.0[y] <==> #[trigger] joined_by(edges, st.1, x, y))
        }),
    decreases k,
{
    lemma_kruskal_len(n, edges, k);
    let st = kruskal_state(n, edges, k);
    if k == 0 {
        assert forall|x: int, y: int| #[trigger] taken_link(edges, st.1, x, y) implies st.0[x] == st.0[y] by {}
        assert forall|x: int, y: int| 0 <= x < n && 0 <= y < n implies (st.0[x] == st.0[y] <==> #[trigger] joined_by(
            edges,
            st.1,
            x,
            y,
        )) by {
            if x == y {
                lemma_joined_refl(edges, st.1, x);
            }
            if joined_by(edges, st.1, x, y) {
                let w = choose|w: Seq<int>| #[trigger] taken_chain(edges, st.1, w) && w[0] == x && w.last() == y;
                lemma_chain_classes(edges, st.1, st.0, w, w.len() as int);
            }
        }
    } else {
        lemma_kruskal_classes(n, edges, (k - 1) as nat);
        let prev = kruskal_state(n, edges, (k - 1) as nat);
        let e = edges[k - 1];
        let a = e.0 as int;
        let b = e.1 as int;
        assert(a < n && b < n);
        let p = prev.1;
        assert(p.push(false).drop_last() =~= p);
        assert(p.push(true).drop_last() =~= p);
        if prev.2 <= 0 || prev.0[a] == prev.0[b] {
            assert(st.1 == p.push(false));
            assert forall|x: int, y: int| #[trigger] taken_link(edges, st.1, x, y) implies st.0[x] == st.0[y] by {
                lemma_links_skip(edges, p, x, y);
            }
            assert forall|x: int, y: int| 0 <= x < n && 0 <= y < n implies (st.0[x] == st.0[y] <==> #[trigger] joined_by(
                edges,
                st.1,
                x,
                y,
            )) by {
                if st.0[x] == st.0[y] {
                    assert(joined_by(edges, p, x, y));
                    lemma_joined_more(edges, p, false, x, y);
                }
                if joined_by(edges, st.1, x, y) {
                    let w = choose|w: Seq<int>| #[trigger] taken_chain(edges, st.1, w) && w[0] == x && w.last() == y;
                    lemma_chain_classes(edges, st.1, st.0, w, w.len() as int);
                }
            }
        } else {
            assert(st.1 == p.push(true));
            let p2 = st.1;
            crate::union_find::lemma_merge_classes(prev.0, a, b, a, b);
            assert(taken_link(edges, p2, a, b)) by {
                assert(p2[k - 1]);
            }
            assert forall|x: int, y: int| #[trigger] taken_link(edges, p2, x, y) implies st.0[x] == st.0[y] by {
                let j = choose|j: int|
                    0 <= j < p2.len() && j < edges.len() && #[trigger] p2[j] && ((edges[j].0 == x && edges[j].1 == y)
                        || (edges[j].0 == y && edges[j].1 == x));
                assert(x < n && y < n);
                crate::union_find::lemma_merge_classes(prev.0, a, b, x, y);
                if j < k - 1 {
                    assert(p[j]);
                    assert(taken_link(edges, p, x, y));
                }
            }
            assert forall|x: int, y: int| 0 <= x < n && 0 <= y < n implies (st.0[x] == st.0[y] <==> #[trigger] joined_by(
                edges,
                p2,
                x,
                y,
            )) by {
                crate::union_find::lemma_merge_classes(prev.0, a, b, x, y);
                if st.0[x] == st.0[y] {
                    if prev.0[x] == prev.0[y] {
                        assert(joined_by(edges, p, x, y));
                        lemma_joined_more(edges, p, true, x, y);
                    } else if prev.0[x] == prev.0[a] && prev.0[y] == prev.0[b] {
                        assert(joined_by(edges, p, x, a));
                        assert(joined_by(edges, p, b, y));
                        lemma_joined_more(edges, p, true, x, a);
                        lemma_joined_more(edges, p, true, b, y);
                        lemma_joined_step(edges, p2, x, a, b);
                        lemma_joined_trans(edges, p2, x, b, y);
                    } else {
                        assert(joined_by(edges, p, x, b));
                        assert(joined_by(edges, p, a, y));
                        lemma_joined_more(edges, p, true, x, b);
                        lemma_joined_more(edges, p, true, a, y);
                        lemma_joined_refl(edges, p2, a);
                        lemma_joined_step(edges, p2, a, a, b);
                        lemma_joined_symm(edges, p2, a, b);
                        lemma_joined_trans(edges, p2, x, b, a);
                        lemma_joined_trans(edges, p2, x, a, y);
                    }
                }
                if joined_by(edges, p2, x, y) {
                    let w = choose|w: Seq<int>| #[trigger] taken_chain(edges, p2, w) && w[0] == x && w.last() == y;
                    lemma_chain_classes(edges, p2, st.0, w, w.len() as int);
                }
            }
        }
    }
}

/// The earlier decisions stay as they were.
proof fn lemma_kruskal_prefix(n: nat, edges: Seq<(usize, usize)>, k: nat, kk: nat)
    requires
        k <= kk <= edges.len(),
    ensures
        kruskal_state(n, edges, k).1 == kruskal_state(n, edges, kk).1.take(k as int),
    decreases kk,
{
    lemma_kruskal_len(n, edges, kk);
    lemma_kruskal_len(n, edges, k);
    if kk == k {
        assert(kruskal_state(n, edges, kk).1.take(k as int) =~= kruskal_state(n, edges, kk).1);
    } else {
        lemma_kruskal_prefix(n, edges, k, (kk - 1) as nat);
        lemma_kruskal_len(n, edges, (kk - 1) as nat);
        assert(kruskal_state(n, edges, kk).1.take(k as int) =~= kruskal_state(n, edges, (kk - 1) as nat).1.take(
            k as int,
        ));
    }
}

/// Kruskal's choice: an edge is taken exactly when fewer than `n - 1` edges
/// have been taken before it and the edges taken before it do not already
/// connect its two ends. So the taken edges never close a cycle, and they
/// connect two points exactly when the edges looked at before connect them
/// (while fewer than `n - 1` are taken).
pub proof fn lemma_spanning_forest(n: nat, edges: Seq<(usize, usize)>)
    requires
        n >= 1,
        edges_within(edges, n),
    ensures
        ({
            let picks = kruskal_state(n, edges, edges.len()).1;
            &&& picks.len() == edges.len()
            &&& forall|k: int|
                0 <= k < edges.len() ==> #[trigger] picks[k] == (count_taken(picks.take(k)) < n - 1 && !joined_by(
                    edges,
                    picks.take(k),
                    edges[k].0 as int,
                    edges[k].1 as int,
                ))
        }),
{
    let picks = kruskal_state(n, edges, edges.len()).1;
    lemma_kruskal_len(n, edges, edges.len());
    assert forall|k: int| 0 <= k < edges.len() implies #[trigger] picks[k] == (count_taken(picks.take(k)) < n - 1
        && !joined_by(edges, picks.take(k), edges[k].0 as int, edges[k].1 as int)) by {
        lemma_kruskal_classes(n, edges, k as nat);
        lemma_kruskal_prefix(n, edges, k as nat, edges.len());
        lemma_kruskal_prefix(n, edges, (k + 1) as nat, edges.len());
        lemma_kruskal_len(n, edges, (k + 1) as nat);
        let prev = kruskal_state(n, edges, k as nat);
        assert(edges[k].0 < n && edges[k].1 < n);
        assert(kruskal_state(n, edges, (k + 1) as nat).1[k] == picks[k]);
    }
}

/// The distinct representatives among the points `0..n`.
spec fn rep_set(reps: Seq<int>, n: nat) -> Set<int> {
    Set::new(|r: int| exists|v: int| 0 <= v < n && reps[v] == r)
}

proof fn lemma_rep_set_finite(reps: Seq<int>, n: nat)
    ensures
        rep_set(reps, n).finite(),
        rep_set(reps, n).len() <= n,
{
    let dom = vstd::set_lib::set_int_range(0, n as int);
    let f = |v: int| reps[v];
    vstd::set_lib::lemma_int_range(0, n as int);
    assert(dom.map(f) =~= rep_set(reps, n)) by {
        assert forall|r: int| rep_set(reps, n).contains(r) implies dom.map(f).contains(r) by {
            let v = choose|v: int| 0 <= v < n && reps[v] == r;
            assert(dom.contains(v) && f(v) == r);
        }
    }
    vstd::set_lib::lemma_map_size_bound(dom, rep_set(reps, n), f);
}

/// Merging two different classes leaves one representative fewer.
proof fn lemma_rep_set_merge(reps: Seq<int>, n: nat, x: int, y: int)
    requires
        reps.len() == n,
        0 <= x < n,
        0 <= y < n,
        reps[x] != reps[y],
    ensures
        rep_set(merge_classes(reps, reps[x], reps[y]), n) == rep_set(reps, n).remove(reps[x]),
{
    let m = merge_classes(reps, reps[x], reps[y]);
    assert forall|r: int| rep_set(m, n).contains(r) <==> rep_set(reps, n).remove(reps[x]).contains(r) by {
        if rep_set(m, n).contains(r) {
            let v = choose|v: int| 0 <= v < n && m[v] == r;
            if reps[v] == reps[x] {
                assert(reps[y] == r);
            } else {
                assert(reps[v] == r);
            }
        }
        if rep_set(reps, n).remove(reps[x]).contains(r) {
            let v = choose|v: int| 0 <= v < n && reps[v] == r;
            assert(m[v] == r);
        }
    }
    assert(rep_set(m, n) =~= rep_set(reps, n).remove(reps[x]));
}

/// The number of classes after `k` edges is one more than the joins still
/// wanted.
proof fn lemma_class_count(n: nat, edges: Seq<(usize, usize)>, k: nat)
    requires
        n >= 1,
        edges_within(edges, n),
        k <= edges.len(),
    ensures
        rep_set(kruskal_state(n, edges, k).0, n).finite(),
        rep_set(kruskal_state(n, edges, k).0, n).len() == kruskal_state(n, edges, k).2 + 1,
    decreases k,
{
    let st = kruskal_state(n, edges, k);
    lemma_kruskal_len(n, edges, k);
    lemma_rep_set_finite(st.0, n);
    if k == 0 {
        vstd::set_lib::lemma_int_range(0, n as int);
        assert(rep_set(st.0, n) =~= vstd::set_lib::set_int_range(0, n as int)) by {
            assert forall|r: int| 0 <= r < n implies rep_set(st.0, n).contains(r) by {
                assert(st.0[r] == r);
            }
        }
    } else {
        lemma_class_count(n, edges, (k - 1) as nat);
        let prev = kruskal_state(n, edges, (k - 1) as nat);
        lemma_kruskal_len(n, edges, (k - 1) as nat);
        let e = edges[k - 1];
        assert(e.0 < n && e.1 < n);
        if prev.2 > 0 && prev.0[e.0 as int] != prev.0[e.1 as int] {
            lemma_rep_set_merge(prev.0, n, e.0 as int, e.1 as int);
            lemma_rep_set_finite(prev.0, n);
            assert(rep_set(prev.0, n).contains(prev.0[e.0 as int]));
        }
    }
}

/// The joins still wanted never grow.
proof fn lemma_joins_left_shrink(n: nat, edges: Seq<(usize, usize)>, k: nat, kk: nat)
    requires
        k <= kk <= edges.len(),
    ensures
        kruskal_state(n, edges, kk).2 <= kruskal_state(n, edges, k).2,
    decreases kk,
{
    if kk > k {
        lemma_joins_left_shrink(n, edges, k, (kk - 1) as nat);
    }
}

/// What a prefix of the decisions connects, all of them connect.
proof fn lemma_joined_prefix(edges: Seq<(usize, usize)>, picks: Seq<bool>, k: int, a: int, b: int)
    requires
        0 <= k <= picks.len(),
        joined_by(edges, picks.take(k), a, b),
    ensures
        joined_by(edges, picks, a, b),
    decreases picks.len() - k,
{
    if k < picks.len() {
        lemma_joined_more(edges, picks.take(k), picks[k], a, b);
        assert(picks.take(k).push(picks[k]) =~= picks.take(k + 1));
        lemma_joined_prefix(edges, picks, k + 1, a, b);
    } else {
        assert(picks.take(k) =~= picks);
    }
}

/// Kruskal's picks connect the two ends of every edge, as long as fewer than
/// `n - 1` edges were taken.
proof fn lemma_picks_join_ends(n: nat, edges: Seq<(usize, usize)>, k: int)
    requires
        n >= 1,
        edges_within(edges, n),
        0 <= k < edges.len(),
        kruskal_state(n, edges, edges.len()).2 > 0,
    ensures
        joined_by(edges, kruskal_state(n, edges, edges.len()).1, edges[k].0 as int, edges[k].1 as int),
{
    let picks = kruskal_state(n, edges, edges.len()).1;
    let e = edges[k];
    assert(e.0 < n && e.1 < n);
    lemma_kruskal_len(n, edges, edges.len());
    lemma_kruskal_prefix(n, edges, (k + 1) as nat, edges.len());
    lemma_kruskal_prefix(n, edges, k as nat, edges.len());
    lemma_kruskal_len(n, edges, (k + 1) as nat);
    lemma_joins_left_shrink(n, edges, k as nat, edges.len());
    let prev = kruskal_state(n, edges, k as nat);
    assert(kruskal_state(n, edges, (k + 1) as nat).1[k] == picks[k]);
    if picks[k] {
        assert(taken_link(edges, picks, e.0 as int, e.1 as int));
        lemma_joined_refl(edges, picks, e.0 as int);
        lemma_joined_step(edges, picks, e.0 as int, e.0 as int, e.1 as int);
    } else {
        lemma_kruskal_classes(n, edges, k as nat);
        assert(prev.0[e.0 as int] == prev.0[e.1 as int]);
        assert(joined_by(edges, prev.1, e.0 as int, e.1 as int));
        lemma_joined_prefix(edges, picks, k, e.0 as int, e.1 as int);
    }
}

/// A chain of taken edges is a chain of edges.
proof fn lemma_chain_to_all(edges: Seq<(usize, usize)>, picks: Seq<bool>, a: int, b: int)
    requires
        picks.len() == edges.len(),
        joined_by(edges, picks, a, b),
    ensures
        joined_by(edges, Seq::new(edges.len(), |i: int| true), a, b),
{
    let all = Seq::new(edges.len(), |i: int| true);
    let w = choose|w: Seq<int>| #[trigger] taken_chain(edges, picks, w) && w[0] == a && w.last() == b;
    assert forall|i: int| 0 <= i < w.len() - 1 implies taken_link(edges, all, #[trigger] w[i], w[i + 1]) by {
        assert(taken_link(edges, picks, w[i], w[i + 1]));
        let e = choose|e: int|
            0 <= e < picks.len() && e < edges.len() && #[trigger] picks[e] && ((edges[e].0 == w[i] && edges[e].1
                == w[i + 1]) || (edges[e].0 == w[i + 1] && edges[e].1 == w[i]));
        assert(all[e]);
    }
    assert(taken_chain(edges, all, w));
}

/// Along a chain of edges, the picks connect the start to every point of it,
/// provided they connect the two ends of every edge.
proof fn lemma_chain_to_picks(edges: Seq<(usize, usize)>, picks: Seq<bool>, w: Seq<int>, k: int)
    requires
        taken_chain(edges, Seq::new(edges.len(), |i: int| true), w),
        forall|j: int| 0 <= j < edges.len() ==> joined_by(edges, picks, #[trigger] edges[j].0 as int, edges[j].1 as int),
        1 <= k <= w.len(),
    ensures
        joined_by(edges, picks, w[0], w[k - 1]),
    decreases k,
{
    let all = Seq::new(edges.len(), |i: int| true);
    if k == 1 {
        lemma_joined_refl(edges, picks, w[0]);
    } else {
        lemma_chain_to_picks(edges, picks, w, k - 1);
        assert(taken_link(edges, all, w[k - 2], w[k - 1]));
        let e = choose|e: int|
            0 <= e < all.len() && e < edges.len() && #[trigger] all[e] && ((edges[e].0 == w[k - 2] && edges[e].1
                == w[k - 1]) || (edges[e].0 == w[k - 1] && edges[e].1 == w[k - 2]));
        assert(joined_by(edges, picks, edges[e].0 as int, edges[e].1 as int));
        if edges[e].0 == w[k - 2] {
            lemma_joined_trans(edges, picks, w[0], w[k - 2], w[k - 1]);
        } else {
            lemma_joined_symm(edges, picks, edges[e].0 as int, edges[e].1 as int);
            lemma_joined_trans(edges, picks, w[0], w[k - 2], w[k - 1]);
        }
    }
}

/// Kruskal's picks span: two points are connected by the picked edges
/// exactly when they are connected by the edges at all. Together with the
/// choice rule (no picked edge closes a cycle), the picks form a spanning
/// forest, a spanning tree where the edges connect all points.
pub proof fn lemma_spanning_connects(n: nat, edges: Seq<(usize, usize)>)
    requires
        n >= 1,
        edges_within(edges, n),
    ensures
        forall|a: int, b: int|
            0 <= a < n && 0 <= b < n ==> (#[trigger] joined_by(edges, kruskal_state(n, edges, edges.len()).1, a, b)
                <==> joined_by(edges, Seq::new(edges.len(), |i: int| true), a, b)),
{
    let st = kruskal_state(n, edges, edges.len());
    let picks = st.1;
    let all = Seq::new(edges.len(), |i: int| true);
    lemma_kruskal_len(n, edges, edges.len());
    lemma_kruskal_classes(n, edges, edges.len());
    lemma_class_count(n, edges, edges.len());
    assert(rep_set(st.0, n).contains(st.0[0]));
    if st.2 > 0 {
        assert forall|j: int| 0 <= j < edges.len() implies joined_by(
            edges,
            picks,
            #[trigger] edges[j].0 as int,
            edges[j].1 as int,
        ) by {
            lemma_picks_join_ends(n, edges, j);
        }
    }
    assert forall|a: int, b: int| 0 <= a < n && 0 <= b < n implies (#[trigger] joined_by(edges, picks, a, b)
        <==> joined_by(edges, all, a, b)) by {
        if joined_by(edges, picks, a, b) {
            lemma_chain_to_all(edges, picks, a, b);
        }
        if joined_by(edges, all, a, b) {
            if st.2 > 0 {
                let w = choose|w: Seq<int>| #[trigger] taken_chain(edges, all, w) && w[0] == a && w.last() == b;
                lemma_chain_to_picks(edges, picks, w, w.len() as int);
            } else {
                let s = rep_set(st.0, n);
                assert(s.contains(st.0[a]) && s.contains(st.0[b]));
                assert(s.remove(st.0[a]).len() == 0);
                if st.0[a] != st.0[b] {
                    assert(s.remove(st.0[a]).contains(st.0[b]));
                }
                assert(st.0[a] == st.0[b]);
            }
        }
    }
}

} // verus!
