use vstd::prelude::*;
use crate::cycles::{count_unused, lemma_count_all_unused, lemma_count_flip};
use crate::tour::{is_tour, lemma_tour_covers, neighbour_pair, position_of};

verus! {

/// The city after `v` in the closed tour `p` over `0..n`.
pub open spec fn succ_of(p: Seq<usize>, n: nat, v: int) -> usize {
    p[position_of(p, n, v) + 1]
}

/// The city before `v` in the closed tour `p` over `0..n`.
pub open spec fn pred_of(p: Seq<usize>, n: nat, v: int) -> usize {
    if v == 0 {
        p[n - 1]
    } else {
        p[position_of(p, n, v) - 1]
    }
}

/// Positions in a tour are unique: the city at position `i` has position `i`.
proof fn lemma_position_unique(p: Seq<usize>, n: nat, i: int)
    requires
        is_tour(p, n),
        0 <= i < n,
    ensures
        position_of(p, n, p[i] as int) == i,
{
    lemma_tour_covers(p, n);
    let j = position_of(p, n, p[i] as int);
    assert(p[j] == p[i]);
    if j < i {
        assert(p[j] != p[i]);
    } else if i < j {
        assert(p[i] != p[j]);
    }
}

/// Following a tour moves one position on (from the last position back to
/// the first).
proof fn lemma_succ_position(p: Seq<usize>, n: nat, v: int)
    requires
        is_tour(p, n),
        0 <= v < n,
    ensures
        0 <= succ_of(p, n, v) < n,
        position_of(p, n, succ_of(p, n, v) as int) == if position_of(p, n, v) + 1 < n {
            position_of(p, n, v) + 1
        } else {
            0
        },
{
    lemma_tour_covers(p, n);
    let q = position_of(p, n, v);
    assert(0 <= q < n);
    if q + 1 < n {
        lemma_position_unique(p, n, q + 1);
    } else {
        assert(p[q + 1] == 0);
        lemma_position_unique(p, n, 0);
    }
}

/// For each city, the city after it and the city before it in the tour `p`.
pub fn neighbour_tables(p: &[usize]) -> (r: (Vec<usize>, Vec<usize>))
    requires
        p.len() >= 2,
        is_tour(p@, (p.len() - 1) as nat),
    ensures
        r.0.len() == p.len() - 1,
        r.1.len() == p.len() - 1,
        forall|v: int| 0 <= v < p.len() - 1 ==> #[trigger] r.0@[v] == pred_of(p@, (p.len() - 1) as nat, v),
        forall|v: int| 0 <= v < p.len() - 1 ==> #[trigger] r.1@[v] == succ_of(p@, (p.len() - 1) as nat, v),
{
    let n = p.len() - 1;
    let ghost nn = n as nat;
    let mut inn: Vec<usize> = Vec::new();
    let mut out: Vec<usize> = Vec::new();
    let mut k: usize = 0;
    while k < n
        invariant
            k <= n,
            inn.len() == k,
            out.len() == k,
        decreases n - k,
    {
        inn.push(0);
        out.push(0);
        k = k + 1;
    }
    let mut i: usize = 0;
    while i < n
        invariant
            i <= n,
            n == p.len() - 1,
            nn == n,
            is_tour(p@, nn),
            inn.len() == n,
            out.len() == n,
            forall|j: int| 0 <= j < i ==> #[trigger] out@[p@[j] as int] == p@[j + 1],
            forall|j: int| 0 <= j < i ==> #[trigger] inn@[p@[j + 1] as int] == p@[j],
        decreases n - i,
    {
        let a = p[i];
        let b = p[i + 1];
        assert(b < n) by {
            if i + 1 == n {
                assert(b == 0);
            }
        }
        inn.set(b, a);
        out.set(a, b);
        proof {
            assert forall|j: int| 0 <= j < i + 1 implies #[trigger] out@[p@[j] as int] == p@[j + 1] by {
                if j < i {
                    assert(p@[j] != p@[i as int]);
                }
            }
            assert forall|j: int| 0 <= j < i + 1 implies #[trigger] inn@[p@[j + 1] as int] == p@[j] by {
                if j < i {
                    if j + 1 < n && i + 1 < n {
                        assert(p@[j + 1] != p@[i + 1]);
                    } else if i + 1 == n {
                        assert(p@[j + 1] != p@[0]);
                    }
                }
            }
        }
        i = i + 1;
    }
    proof {
        lemma_tour_covers(p@, nn);
        assert forall|v: int| 0 <= v < n implies #[trigger] inn@[v] == pred_of(p@, nn, v) && out@[v]
            == succ_of(p@, nn, v) by {
            let q = position_of(p@, nn, v);
            assert(out@[p@[q] as int] == p@[q + 1]);
            if v == 0 {
                assert(inn@[p@[(n - 1) + 1] as int] == p@[n - 1]);
            } else {
                assert(q != 0);
                assert(inn@[p@[(q - 1) + 1] as int] == p@[q - 1]);
            }
        }
    }
    (inn, out)
}


/// The city after each city in the tour `p`.
pub open spec fn succ_table(p: Seq<usize>, n: nat) -> Seq<usize> {
    Seq::new(n, |v: int| succ_of(p, n, v))
}

/// The city before each city in the tour `p`.
pub open spec fn pred_table(p: Seq<usize>, n: nat) -> Seq<usize> {
    Seq::new(n, |v: int| pred_of(p, n, v))
}

/// From `v` on along `succ`, the first city not yet used (looking at most
/// `fuel` steps ahead).
pub open spec fn skip_from(succ: Seq<usize>, used: Seq<bool>, v: usize, fuel: nat) -> usize
    decreases fuel,
{
    if fuel == 0 || !used[v as int] {
        v
    } else {
        skip_from(succ, used, succ[v as int], (fuel - 1) as nat)
    }
}

/// The priority of moving on to the city `succ[cur]` of one parent: `base`
/// (how often the other parent was followed) lowered by 1_000_000_000 when that
/// city is used already, raised by 5 when both parents put the same city
/// before it or both cities before it are used.
pub open spec fn erx_priority(
    succ: Seq<usize>,
    pred1: Seq<usize>,
    pred2: Seq<usize>,
    used: Seq<bool>,
    base: int,
    cur: usize,
) -> int {
    let nx = succ[cur as int] as int;
    let before1 = pred1[nx] as int;
    let before2 = pred2[nx] as int;
    if used[nx] {
        base - 1_000_000_000
    } else if before1 == before2 || (used[before1] && used[before2]) {
        base + 5
    } else {
        base
    }
}

/// The asymmetric edge-recombination child after `k` steps: the cities so far,
/// the used flags, and how often each parent was followed. Each step follows
/// the parent with the higher priority (the second one on a tie); when both
/// parents lead to used cities, it moves on along the first parent to the next
/// unused city.
pub open spec fn erxa_state(
    s1: Seq<usize>,
    p1: Seq<usize>,
    s2: Seq<usize>,
    p2: Seq<usize>,
    n: nat,
    k: nat,
) -> (Seq<usize>, Seq<bool>, int, int)
    decreases k,
{
    if k == 0 {
        (seq![0usize], Seq::new(n, |v: int| v == 0), 0, 0)
    } else {
        let st = erxa_state(s1, p1, s2, p2, n, (k - 1) as nat);
        let cur = st.0.last();
        let a = s1[cur as int];
        let b = s2[cur as int];
        if st.1[a as int] && st.1[b as int] {
            let nx = skip_from(s1, st.1, a, n);
            (st.0.push(nx), st.1.update(nx as int, true), st.2, st.3)
        } else if erx_priority(s1, p1, p2, st.1, st.3, cur) > erx_priority(s2, p1, p2, st.1, st.2, cur) {
            (st.0.push(a), st.1.update(a as int, true), st.2 + 1, st.3)
        } else {
            (st.0.push(b), st.1.update(b as int, true), st.2, st.3 + 1)
        }
    }
}

/// The child tour of the asymmetric edge recombination of the tours `t1` and
/// `t2` over `0..n`: `n - 1` steps from city 0, then back to city 0.
pub open spec fn erxa_path(t1: Seq<usize>, t2: Seq<usize>, n: nat) -> Seq<usize> {
    erxa_state(
        succ_table(t1, n),
        pred_table(t1, n),
        succ_table(t2, n),
        pred_table(t2, n),
        n,
        (n - 1) as nat,
    ).0.push(0)
}

proof fn lemma_exists_unused(used: Seq<bool>)
    requires
        count_unused(used) > 0,
    ensures
        exists|u: int| 0 <= u < used.len() && !used[u],
    decreases used.len(),
{
    if used.last() {
        lemma_exists_unused(used.drop_last());
        let u = choose|u: int| 0 <= u < used.drop_last().len() && !used.drop_last()[u];
        assert(!used[u]);
    } else {
        assert(!used[used.len() - 1]);
    }
}

/// How many steps along the tour lead from position `q` to position `target`.
spec fn steps_to(q: int, target: int, n: int) -> int {
    if target >= q {
        target - q
    } else {
        target - q + n
    }
}

/// Moves on along `succ` (the city after each city in `t1`) from `a` to the
/// first city not yet used.
fn skip_used(succ: &Vec<usize>, used: &Vec<bool>, a: usize, Ghost(t1): Ghost<Seq<usize>>) -> (r: usize)
    requires
        t1.len() >= 2,
        is_tour(t1, (t1.len() - 1) as nat),
        succ@ == succ_table(t1, (t1.len() - 1) as nat),
        used.len() == t1.len() - 1,
        a < used.len(),
        count_unused(used@) > 0,
    ensures
        r == skip_from(succ@, used@, a, used.len() as nat),
        r < used.len(),
        !used@[r as int],
{
    let ghost n = used.len() as nat;
    proof {
        lemma_exists_unused(used@);
        lemma_tour_covers(t1, n);
    }
    let ghost u = choose|u: int| 0 <= u < used.len() && !used@[u];
    let ghost qu = position_of(t1, n, u);
    let mut next = a;
    let ghost mut t: nat = 0;
    proof {
        assert(0 <= position_of(t1, n, a as int) < n);
    }
    while used[next]
        invariant
            n == used.len(),
            is_tour(t1, n),
            t1.len() == n + 1,
            succ@ == succ_table(t1, n),
            0 <= u < n,
            !used@[u],
            0 <= qu < n,
            t1[qu] == u,
            qu == position_of(t1, n, u),
            next < n,
            0 <= position_of(t1, n, next as int) < n,
            t + steps_to(position_of(t1, n, next as int), qu, n as int) == steps_to(
                position_of(t1, n, a as int),
                qu,
                n as int,
            ),
            steps_to(position_of(t1, n, a as int), qu, n as int) < n,
            skip_from(succ@, used@, a, n) == skip_from(succ@, used@, next, (n - t) as nat),
        decreases steps_to(position_of(t1, n, next as int), qu, n as int),
    {
        proof {
            lemma_tour_covers(t1, n);
            lemma_succ_position(t1, n, next as int);
            if position_of(t1, n, next as int) == qu {
                assert(t1[position_of(t1, n, next as int)] == next);
                assert(next == u);
            }
            assert(n - t >= 1);
        }
        next = succ[next];
        proof {
            t = t + 1;
        }
    }
    next
}


/// Asymmetric edge recombination of the tours `t1` and `t2` over the same
/// cities: starting from city 0, each step follows the parent whose next city
/// has the higher priority (see `erx_priority`); when both parents lead to
/// cities already used, it moves on along `t1` to the next unused city. The
/// child is always a closed tour over the same cities, and crossing a tour
/// with itself gives it back. There are fewer than 1_000_000_000 cities: a
/// used city is only marked down by that much, so a parent followed more often
/// could otherwise be chosen towards a used city.
pub fn erxta(t1: &[usize], t2: &[usize]) -> (r: Option<Vec<usize>>)
    requires
        t1.len() >= 2,
        is_tour(t1@, (t1.len() - 1) as nat),
        t2.len() == t1.len(),
        is_tour(t2@, (t1.len() - 1) as nat),
        t1.len() - 1 < 1_000_000_000,
    ensures
        r is Some,
        r.unwrap()@ == erxa_path(t1@, t2@, (t1.len() - 1) as nat),
        is_tour(r.unwrap()@, (t1.len() - 1) as nat),
        t1@ == t2@ ==> r.unwrap()@ == t1@,
{
    let n = t1.len() - 1;
    let ghost nn = n as nat;
    let (in1, out1) = neighbour_tables(t1);
    let (in2, out2) = neighbour_tables(t2);
    let ghost s1 = succ_table(t1@, nn);
    let ghost q1 = pred_table(t1@, nn);
    let ghost s2 = succ_table(t2@, nn);
    let ghost q2 = pred_table(t2@, nn);
    proof {
        assert(out1@ =~= s1);
        assert(in1@ =~= q1);
        assert(out2@ =~= s2);
        assert(in2@ =~= q2);
        lemma_tour_covers(t1@, nn);
        lemma_tour_covers(t2@, nn);
        assert forall|v: int| 0 <= v < n implies s1[v] < n && s2[v] < n && q1[v] < n && q2[v] < n by {
            lemma_succ_position(t1@, nn, v);
            lemma_succ_position(t2@, nn, v);
            if v != 0 {
                let a = position_of(t1@, nn, v);
                let b = position_of(t2@, nn, v);
                assert(t1@[a - 1] < n);
                assert(t2@[b - 1] < n);
            }
        }
    }
    let mut used: Vec<bool> = Vec::new();
    let mut k: usize = 0;
    while k < n
        invariant
            k <= n,
            used@ == Seq::new(k as nat, |i: int| false),
        decreases n - k,
    {
        used.push(false);
        k = k + 1;
        proof {
            assert(used@ =~= Seq::new(k as nat, |i: int| false));
        }
    }
    proof {
        lemma_count_all_unused(nn);
        lemma_count_flip(used@, 0);
    }
    used.set(0, true);
    let mut out_path: Vec<usize> = Vec::new();
    out_path.push(0);
    let mut used1: i32 = 0;
    let mut used2: i32 = 0;
    proof {
        assert(used@ =~= Seq::new(nn, |v: int| v == 0));
    }
    while out_path.len() < n
        invariant
            n == t1.len() - 1,
            nn == n,
            n < 1_000_000_000,
            is_tour(t1@, nn),
            is_tour(t2@, nn),
            out1@ == s1,
            in1@ == q1,
            out2@ == s2,
            in2@ == q2,
            s1 == succ_table(t1@, nn),
            s2 == succ_table(t2@, nn),
            q1 == pred_table(t1@, nn),
            q2 == pred_table(t2@, nn),
            forall|v: int| 0 <= v < n ==> #[trigger] s1[v] < n,
            forall|v: int| 0 <= v < n ==> #[trigger] s2[v] < n,
            forall|v: int| 0 <= v < n ==> #[trigger] q1[v] < n,
            forall|v: int| 0 <= v < n ==> #[trigger] q2[v] < n,
            used.len() == n,
            1 <= out_path.len() <= n,
            out_path@[0] == 0,
            (out_path@, used@, used1 as int, used2 as int) == erxa_state(
                s1,
                q1,
                s2,
                q2,
                nn,
                (out_path.len() - 1) as nat,
            ),
            forall|j: int| 0 <= j < out_path.len() ==> #[trigger] out_path@[j] < n,
            forall|j: int| 0 <= j < out_path.len() ==> #[trigger] used@[out_path@[j] as int],
            forall|i: int, j: int|
                0 <= i < j < out_path.len() ==> #[trigger] out_path@[i] != #[trigger] out_path@[j],
            count_unused(used@) + out_path.len() == n,
            0 <= used1,
            0 <= used2,
            used1 + used2 <= out_path.len(),
        decreases n - out_path.len(),
    {
        let ghost st_len = out_path.len();
        let ghost before = used@;
        let ghost path_before = out_path@;
        let cur = out_path[out_path.len() - 1];
        let a = out1[cur];
        let b = out2[cur];
        let mut priority1: i32 = used2;
        if used[a] {
            priority1 = priority1 - 1_000_000_000;
        } else {
            if in1[a] == in2[a] || (used[in1[a]] && used[in2[a]]) {
                priority1 = priority1 + 5;
            }
        }
        let mut priority2: i32 = used1;
        if used[b] {
            priority2 = priority2 - 1_000_000_000;
        } else {
            if in1[b] == in2[b] || (used[in1[b]] && used[in2[b]]) {
                priority2 = priority2 + 5;
            }
        }
        assert(priority1 as int == erx_priority(s1, q1, q2, used@, used2 as int, cur));
        assert(priority2 as int == erx_priority(s2, q1, q2, used@, used1 as int, cur));
        let next: usize;
        if used[a] && used[b] {
            next = skip_used(&out1, &used, a, Ghost(t1@));
            if next == 0 {
                proof {
                    assert(used@[out_path@[0] as int]);
                }
                return None;
            }
        } else if priority1 > priority2 {
            used1 = used1 + 1;
            next = a;
        } else {
            used2 = used2 + 1;
            next = b;
        }
        proof {
            assert(!used@[next as int]);
            lemma_count_flip(used@, next as int);
        }
        out_path.push(next);
        used.set(next, true);
        proof {
            assert(out_path@ == path_before.push(next));
            assert forall|j: int| 0 <= j < out_path.len() implies #[trigger] used@[out_path@[j] as int] by {
                if j < st_len {
                    assert(before[path_before[j] as int]);
                }
            }
            assert forall|i: int, j: int|
                0 <= i < j < out_path.len() implies #[trigger] out_path@[i] != #[trigger] out_path@[j] by {
                if j == st_len {
                    assert(before[path_before[i] as int]);
                }
            }
        }
    }
    let ghost body = out_path@;
    out_path.push(0);
    proof {
        assert forall|i: int, j: int| 0 <= i < j < nn implies #[trigger] out_path@[i] != #[trigger] out_path@[j] by {
            assert(body[i] != body[j]);
        }
        assert forall|i: int| 0 <= i < nn implies #[trigger] out_path@[i] < nn by {
            assert(body[i] < n);
        }
    }
    proof {
        if t1@ == t2@ {
            lemma_erxta_self(t1@, nn);
        }
    }
    Some(out_path)
}


/// The two cities next to each city in the tour `p`, as `neighbour_pair`
/// orders them.
pub open spec fn pair_table(p: Seq<usize>, n: nat) -> Seq<(usize, usize)> {
    Seq::new(n, |v: int| neighbour_pair(p, position_of(p, n, v)))
}

/// The four neighbours of `v` in both parents: its two in the first, then
/// its two in the second.
pub open spec fn quad(e1: Seq<(usize, usize)>, e2: Seq<(usize, usize)>, v: int) -> Seq<usize> {
    seq![e1[v].0, e1[v].1, e2[v].0, e2[v].1]
}

/// How many of the distinct-listed neighbours of `v` are used: both of its
/// neighbours in the first parent, and those in the second parent not listed
/// already.
pub open spec fn used_neighbours(
    e1: Seq<(usize, usize)>,
    e2: Seq<(usize, usize)>,
    used: Seq<bool>,
    v: int,
) -> int {
    let a0 = e1[v].0;
    let a1 = e1[v].1;
    let b0 = e2[v].0;
    let b1 = e2[v].1;
    (if used[a0 as int] { 1int } else { 0int }) + (if used[a1 as int] { 1int } else { 0int }) + (if b0
        != a0 && b0 != a1 && used[b0 as int] {
        1int
    } else {
        0int
    }) + (if b1 != a0 && b1 != a1 && b1 != b0 && used[b1 as int] {
        1int
    } else {
        0int
    })
}

/// Whether the `i`-th of the four neighbours occurs among the others.
pub open spec fn is_common(four: Seq<usize>, i: int) -> int {
    if exists|j: int| 0 <= j < 4 && j != i && four[j] == four[i] {
        1
    } else {
        0
    }
}

/// The priority of moving on to the `i`-th of the four neighbours: twice
/// whether it is shared, less how many of its own neighbours are used, plus how
/// often the other parent was followed.
pub open spec fn erxt_priority(
    e1: Seq<(usize, usize)>,
    e2: Seq<(usize, usize)>,
    used: Seq<bool>,
    u1: int,
    u2: int,
    four: Seq<usize>,
    i: int,
) -> int {
    2 * is_common(four, i) - used_neighbours(e1, e2, used, four[i] as int) + if i < 2 {
        u2
    } else {
        u1
    }
}

/// Among the unused of the four neighbours from index `i` on, the first with
/// the highest priority above `best_prio` (else `best`).
pub open spec fn erxt_pick(
    e1: Seq<(usize, usize)>,
    e2: Seq<(usize, usize)>,
    used: Seq<bool>,
    u1: int,
    u2: int,
    four: Seq<usize>,
    i: int,
    best: Option<int>,
    best_prio: int,
) -> Option<int>
    decreases 4 - i,
{
    if i >= 4 || i < 0 {
        best
    } else if used[four[i] as int] {
        erxt_pick(e1, e2, used, u1, u2, four, i + 1, best, best_prio)
    } else if erxt_priority(e1, e2, used, u1, u2, four, i) > best_prio {
        erxt_pick(e1, e2, used, u1, u2, four, i + 1, Some(i), erxt_priority(e1, e2, used, u1, u2, four, i))
    } else {
        erxt_pick(e1, e2, used, u1, u2, four, i + 1, best, best_prio)
    }
}

/// The edge-recombination child after `k` steps: the cities so far, the used
/// flags, and how often each parent was followed. Each step moves to the
/// unused neighbour (in either parent) of highest priority; when all four are
/// used, or the chosen one is city 1_000_000 (which stands for "none chosen"),
/// it moves on along the first parent to the next unused city.
pub open spec fn erxt_state(
    s1: Seq<usize>,
    e1: Seq<(usize, usize)>,
    e2: Seq<(usize, usize)>,
    n: nat,
    k: nat,
) -> (Seq<usize>, Seq<bool>, int, int)
    decreases k,
{
    if k == 0 {
        (seq![0usize], Seq::new(n, |v: int| v == 0), 0, 0)
    } else {
        let st = erxt_state(s1, e1, e2, n, (k - 1) as nat);
        let cur = st.0.last();
        let four = quad(e1, e2, cur as int);
        match erxt_pick(e1, e2, st.1, st.2, st.3, four, 0, None, -1_000_000_000) {
            None => {
                let nx = skip_from(s1, st.1, s1[cur as int], n);
                (st.0.push(nx), st.1.update(nx as int, true), st.2, st.3)
            },
            Some(i) => {
                let nx = if four[i] == 1_000_000 {
                    skip_from(s1, st.1, s1[cur as int], n)
                } else {
                    four[i]
                };
                if i < 2 {
                    (st.0.push(nx), st.1.update(nx as int, true), st.2 + 1, st.3)
                } else {
                    (st.0.push(nx), st.1.update(nx as int, true), st.2, st.3 + 1)
                }
            },
        }
    }
}

/// The child tour of the edge recombination of the tours `t1` and `t2` over
/// `0..n`: `n - 1` steps from city 0, then back to city 0.
pub open spec fn erxt_path(t1: Seq<usize>, t2: Seq<usize>, n: nat) -> Seq<usize> {
    erxt_state(succ_table(t1, n), pair_table(t1, n), pair_table(t2, n), n, (n - 1) as nat).0.push(0)
}

/// The neighbour pairs of each city in the tour `p`.
fn pair_table_vec(p: &[usize]) -> (r: Vec<(usize, usize)>)
    requires
        p.len() >= 2,
        is_tour(p@, (p.len() - 1) as nat),
    ensures
        r@ == pair_table(p@, (p.len() - 1) as nat),
{
    let n = p.len() - 1;
    let mut r: Vec<(usize, usize)> = Vec::new();
    let mut v: usize = 0;
    while v < n
        invariant
            v <= n,
            r.len() == v,
        decreases n - v,
    {
        r.push((0, 0));
        v = v + 1;
    }
    let mut i: usize = 0;
    while i < n
        invariant
            i <= n,
            n == p.len() - 1,
            is_tour(p@, n as nat),
            r.len() == n,
            forall|j: int| 0 <= j < i ==> #[trigger] r@[p@[j] as int] == neighbour_pair(p@, j),
        decreases n - i,
    {
        let pair = if i == 0 {
            (p[1], p[n - 1])
        } else {
            (p[i - 1], p[i + 1])
        };
        let ghost before = r@;
        r.set(p[i], pair);
        proof {
            assert forall|j: int| 0 <= j < i + 1 implies #[trigger] r@[p@[j] as int] == neighbour_pair(p@, j) by {
                if j < i {
                    assert(p@[j] != p@[i as int]);
                    assert(r@[p@[j] as int] == before[p@[j] as int]);
                }
            }
        }
        i = i + 1;
    }
    proof {
        lemma_tour_covers(p@, n as nat);
        assert forall|w: int| 0 <= w < n implies #[trigger] r@[w] == pair_table(p@, n as nat)[w] by {
            let q = position_of(p@, n as nat, w);
            assert(r@[p@[q] as int] == neighbour_pair(p@, q));
        }
        assert(r@ =~= pair_table(p@, n as nat));
    }
    r
}


/// The `i`-th of the four neighbours of `v`.
fn quad_entry(e1: &Vec<(usize, usize)>, e2: &Vec<(usize, usize)>, v: usize, i: usize) -> (r: usize)
    requires
        v < e1.len(),
        v < e2.len(),
        i < 4,
    ensures
        r == quad(e1@, e2@, v as int)[i as int],
{
    if i == 0 {
        e1[v].0
    } else if i == 1 {
        e1[v].1
    } else if i == 2 {
        e2[v].0
    } else {
        e2[v].1
    }
}

/// How many of the listed neighbours of `v` are used (see `used_neighbours`).
fn count_used_neighbours(
    e1: &Vec<(usize, usize)>,
    e2: &Vec<(usize, usize)>,
    used: &Vec<bool>,
    v: usize,
) -> (r: i32)
    requires
        v < e1.len(),
        v < e2.len(),
        e1@[v as int].0 < used.len(),
        e1@[v as int].1 < used.len(),
        e2@[v as int].0 < used.len(),
        e2@[v as int].1 < used.len(),
    ensures
        r as int == used_neighbours(e1@, e2@, used@, v as int),
        0 <= r <= 4,
{
    let (a0, a1) = e1[v];
    let (b0, b1) = e2[v];
    let mut c: i32 = 0;
    if used[a0] {
        c = c + 1;
    }
    if used[a1] {
        c = c + 1;
    }
    if b0 != a0 && b0 != a1 && used[b0] {
        c = c + 1;
    }
    if b1 != a0 && b1 != a1 && b1 != b0 && used[b1] {
        c = c + 1;
    }
    c
}

proof fn lemma_pair_table_bounds(p: Seq<usize>, n: nat)
    requires
        is_tour(p, n),
    ensures
        forall|v: int| 0 <= v < n ==> #[trigger] pair_table(p, n)[v].0 < n && pair_table(p, n)[v].1 < n,
{
    lemma_tour_covers(p, n);
    assert forall|v: int| 0 <= v < n implies #[trigger] pair_table(p, n)[v].0 < n && pair_table(p, n)[v].1 < n by {
        let q = position_of(p, n, v);
        if q == 0 {
            assert(p[n - 1] < n);
            if n > 1 {
                assert(p[1] < n);
            } else {
                assert(p[1] == 0);
            }
        } else {
            assert(p[q - 1] < n);
            if q + 1 < n {
                assert(p[q + 1] < n);
            } else {
                assert(p[q + 1] == 0);
            }
        }
    }
}

/// Edge recombination of the tours `t1` and `t2` over the same cities:
/// starting from city 0, each step moves to the unused neighbour (in either
/// parent) of highest priority (see `erxt_priority`); when all are used, it
/// moves on along `t1` to the next unused city. City 1_000_000 doubles as the
/// mark for "no neighbour chosen", so choosing it also moves on along `t1`.
/// The child is always a closed tour over the same cities, and crossing a tour
/// with itself gives it back. The counts of how often each parent was followed
/// are 32-bit, hence at most `i32::MAX` entries.
pub fn erxt(t1: &[usize], t2: &[usize]) -> (r: Option<Vec<usize>>)
    requires
        t1.len() >= 2,
        is_tour(t1@, (t1.len() - 1) as nat),
        t2.len() == t1.len(),
        is_tour(t2@, (t1.len() - 1) as nat),
        t1.len() <= i32::MAX,
    ensures
        r is Some,
        r.unwrap()@ == erxt_path(t1@, t2@, (t1.len() - 1) as nat),
        is_tour(r.unwrap()@, (t1.len() - 1) as nat),
        t1@ == t2@ ==> r.unwrap()@ == t1@,
{
    let n = t1.len() - 1;
    let ghost nn = n as nat;
    let (_in1, out1) = neighbour_tables(t1);
    let e1 = pair_table_vec(t1);
    let e2 = pair_table_vec(t2);
    let ghost s1 = succ_table(t1@, nn);
    proof {
        assert(out1@ =~= s1);
        lemma_tour_covers(t1@, nn);
        lemma_pair_table_bounds(t1@, nn);
        lemma_pair_table_bounds(t2@, nn);
        assert forall|v: int| 0 <= v < n implies #[trigger] s1[v] < n by {
            lemma_succ_position(t1@, nn, v);
        }
    }
    let mut used: Vec<bool> = Vec::new();
    let mut k: usize = 0;
    while k < n
        invariant
            k <= n,
            used@ == Seq::new(k as nat, |i: int| false),
        decreases n - k,
    {
        used.push(false);
        k = k + 1;
        proof {
            assert(used@ =~= Seq::new(k as nat, |i: int| false));
        }
    }
    proof {
        lemma_count_all_unused(nn);
        lemma_count_flip(used@, 0);
    }
    used.set(0, true);
    let mut out_path: Vec<usize> = Vec::new();
    out_path.push(0);
    let mut used1: i32 = 0;
    let mut used2: i32 = 0;
    proof {
        assert(used@ =~= Seq::new(nn, |v: int| v == 0));
    }
    while out_path.len() < n
        invariant
            n == t1.len() - 1,
            nn == n,
            n < i32::MAX,
            is_tour(t1@, nn),
            out1@ == s1,
            s1 == succ_table(t1@, nn),
            e1@ == pair_table(t1@, nn),
            e2@ == pair_table(t2@, nn),
            forall|v: int| 0 <= v < n ==> #[trigger] s1[v] < n,
            forall|v: int| 0 <= v < n ==> #[trigger] e1@[v].0 < n && e1@[v].1 < n,
            forall|v: int| 0 <= v < n ==> #[trigger] e2@[v].0 < n && e2@[v].1 < n,
            used.len() == n,
            1 <= out_path.len() <= n,
            out_path@[0] == 0,
            (out_path@, used@, used1 as int, used2 as int) == erxt_state(
                s1,
                e1@,
                e2@,
                nn,
                (out_path.len() - 1) as nat,
            ),
            forall|j: int| 0 <= j < out_path.len() ==> #[trigger] out_path@[j] < n,
            forall|j: int| 0 <= j < out_path.len() ==> #[trigger] used@[out_path@[j] as int],
            forall|i: int, j: int|
                0 <= i < j < out_path.len() ==> #[trigger] out_path@[i] != #[trigger] out_path@[j],
            count_unused(used@) + out_path.len() == n,
            0 <= used1,
            0 <= used2,
            used1 + used2 <= out_path.len(),
        decreases n - out_path.len(),
    {
        let ghost st_len = out_path.len();
        let ghost before = used@;
        let ghost path_before = out_path@;
        let cur = out_path[out_path.len() - 1];
        let ghost four = quad(e1@, e2@, cur as int);
        let mut next: usize = 1_000_000;
        let mut best_prio: i32 = -1_000_000_000;
        let mut source: usize = 5;
        let mut i: usize = 0;
        while i < 4
            invariant
                cur < n,
                n < i32::MAX,
                used.len() == n,
                used@ == before,
                four == quad(e1@, e2@, cur as int),
                forall|v: int| 0 <= v < n ==> #[trigger] e1@[v].0 < n && e1@[v].1 < n,
                forall|v: int| 0 <= v < n ==> #[trigger] e2@[v].0 < n && e2@[v].1 < n,
                e1.len() == n,
                e2.len() == n,
                0 <= used1 < n,
                0 <= used2 < n,
                i <= 4,
                -1_000_000_000 <= best_prio <= n + 1,
                source == 5 ==> next == 1_000_000,
                source == 5 ==> best_prio == -1_000_000_000,
                source != 5 ==> source < 4 && next == four[source as int] && !used@[next as int],
                erxt_pick(e1@, e2@, used@, used1 as int, used2 as int, four, 0, None, -1_000_000_000)
                    == erxt_pick(
                    e1@,
                    e2@,
                    used@,
                    used1 as int,
                    used2 as int,
                    four,
                    i as int,
                    if source == 5 {
                        None
                    } else {
                        Some(source as int)
                    },
                    best_prio as int,
                ),
            decreases 4 - i,
        {
            let maybe_next = quad_entry(&e1, &e2, cur, i);
            if !used[maybe_next] {
                let mut is_common: i32 = 0;
                let mut j: usize = 0;
                while j < 4
                    invariant
                        cur < n,
                        e1.len() == n,
                        e2.len() == n,
                        i < 4,
                        j <= 4,
                        four == quad(e1@, e2@, cur as int),
                        maybe_next == four[i as int],
                        is_common == (if exists|m: int| 0 <= m < j && m != i && four[m] == four[i as int] {
                            1int
                        } else {
                            0int
                        }),
                    decreases 4 - j,
                {
                    let other = quad_entry(&e1, &e2, cur, j);
                    if i != j && maybe_next == other {
                        is_common = 1;
                    }
                    j = j + 1;
                }
                let not_used_choices = count_used_neighbours(&e1, &e2, &used, maybe_next);
                let cur_prio: i32 = 2 * is_common - not_used_choices + if i < 2 {
                    used2
                } else {
                    used1
                };
                assert(cur_prio as int == erxt_priority(e1@, e2@, used@, used1 as int, used2 as int, four, i as int));
                if cur_prio > best_prio {
                    next = maybe_next;
                    source = i;
                    best_prio = cur_prio;
                }
            }
            i = i + 1;
        }
        if next == 1_000_000 {
            next = skip_used(&out1, &used, out1[cur], Ghost(t1@));
        }
        proof {
            assert(!used@[next as int]);
            lemma_count_flip(used@, next as int);
        }
        used.set(next, true);
        out_path.push(next);
        if source == 5 {
        } else if source < 2 {
            used1 = used1 + 1;
        } else {
            used2 = used2 + 1;
        }
        proof {
            assert(out_path@ == path_before.push(next));
            assert forall|j: int| 0 <= j < out_path.len() implies #[trigger] used@[out_path@[j] as int] by {
                if j < st_len {
                    assert(before[path_before[j] as int]);
                }
            }
            assert forall|i: int, j: int|
                0 <= i < j < out_path.len() implies #[trigger] out_path@[i] != #[trigger] out_path@[j] by {
                if j == st_len {
                    assert(before[path_before[i] as int]);
                }
            }
        }
    }
    let ghost body = out_path@;
    out_path.push(0);
    proof {
        assert forall|i: int, j: int| 0 <= i < j < nn implies #[trigger] out_path@[i] != #[trigger] out_path@[j] by {
            assert(body[i] != body[j]);
        }
        assert forall|i: int| 0 <= i < nn implies #[trigger] out_path@[i] < nn by {
            assert(body[i] < n);
        }
    }
    proof {
        if t1@ == t2@ {
            lemma_erxt_self(t1@, nn);
        }
    }
    Some(out_path)
}

/// When every unused one of the four neighbours is the city `w` and has a
/// priority above the starting bound, the pick is one of them.
proof fn lemma_pick_only(
    e1: Seq<(usize, usize)>,
    e2: Seq<(usize, usize)>,
    used: Seq<bool>,
    u1: int,
    u2: int,
    four: Seq<usize>,
    i: int,
    best: Option<int>,
    best_prio: int,
    w: usize,
)
    requires
        0 <= i <= 4,
        four.len() == 4,
        forall|m: int| 0 <= m < 4 ==> #[trigger] erxt_priority(e1, e2, used, u1, u2, four, m) > -1_000_000_000,
        forall|m: int| 0 <= m < 4 && !used[#[trigger] four[m] as int] ==> four[m] == w,
        best is Some ==> 0 <= best.unwrap() < 4 && four[best.unwrap()] == w,
        best is None ==> best_prio == -1_000_000_000 && exists|m: int| i <= m < 4 && !used[#[trigger] four[m] as int],
    ensures
        erxt_pick(e1, e2, used, u1, u2, four, i, best, best_prio) is Some,
        0 <= erxt_pick(e1, e2, used, u1, u2, four, i, best, best_prio).unwrap() < 4,
        four[erxt_pick(e1, e2, used, u1, u2, four, i, best, best_prio).unwrap()] == w,
    decreases 4 - i,
{
    if i < 4 {
        if used[four[i] as int] {
            if best is None {
                let m = choose|m: int| i <= m < 4 && !used[#[trigger] four[m] as int];
                assert(m != i);
            }
            lemma_pick_only(e1, e2, used, u1, u2, four, i + 1, best, best_prio, w);
        } else if erxt_priority(e1, e2, used, u1, u2, four, i) > best_prio {
            lemma_pick_only(
                e1,
                e2,
                used,
                u1,
                u2,
                four,
                i + 1,
                Some(i),
                erxt_priority(e1, e2, used, u1, u2, four, i),
                w,
            );
        } else {
            lemma_pick_only(e1, e2, used, u1, u2, four, i + 1, best, best_prio, w);
        }
    }
}

/// Crossing a tour with itself: after `k` steps the child holds the first
/// `k + 1` cities of the tour, exactly those are used, and neither parent has
/// been followed a negative number of times.
proof fn lemma_erxt_self_state(t: Seq<usize>, n: nat, k: nat)
    requires
        is_tour(t, n),
        k <= n - 1,
    ensures
        erxt_state(succ_table(t, n), pair_table(t, n), pair_table(t, n), n, k).0 == t.take(k as int + 1),
        erxt_state(succ_table(t, n), pair_table(t, n), pair_table(t, n), n, k).1 == Seq::new(
            n,
            |v: int| position_of(t, n, v) <= k,
        ),
        erxt_state(succ_table(t, n), pair_table(t, n), pair_table(t, n), n, k).2 >= 0,
        erxt_state(succ_table(t, n), pair_table(t, n), pair_table(t, n), n, k).3 >= 0,
        k == 0 ==> erxt_state(succ_table(t, n), pair_table(t, n), pair_table(t, n), n, k).2 == 0
            && erxt_state(succ_table(t, n), pair_table(t, n), pair_table(t, n), n, k).3 == 0,
    decreases k,
{
    let s1 = succ_table(t, n);
    let e = pair_table(t, n);
    lemma_tour_covers(t, n);
    if k == 0 {
        assert(seq![0usize] =~= t.take(1));
        assert forall|v: int| 0 <= v < n implies (v == 0) == (position_of(t, n, v) <= 0) by {
            lemma_position_unique(t, n, 0);
        }
        assert(Seq::new(n, |v: int| v == 0) =~= Seq::new(n, |v: int| position_of(t, n, v) <= 0));
    } else {
        lemma_erxt_self_state(t, n, (k - 1) as nat);
        let st = erxt_state(s1, e, e, n, (k - 1) as nat);
        let cur = st.0.last();
        assert(cur == t[k - 1]);
        let four = quad(e, e, cur as int);
        lemma_position_unique(t, n, k - 1);
        lemma_position_unique(t, n, k as int);
        assert(e[cur as int] == neighbour_pair(t, k - 1));
        let used = st.1;
        assert(!used[t[k as int] as int]);
        assert forall|m: int| 0 <= m < 4 implies #[trigger] erxt_priority(e, e, used, st.2, st.3, four, m)
            > -1_000_000_000 by {
            assert(0 <= used_neighbours(e, e, used, four[m] as int) <= 4);
            assert(is_common(four, m) >= 0);
        }
        let pick = erxt_pick(e, e, used, st.2, st.3, four, 0, None, -1_000_000_000);
        if k == 1 && n >= 3 {
            assert(four =~= seq![t[1], t[n - 1], t[1], t[n - 1]]);
            lemma_position_unique(t, n, 1);
            lemma_position_unique(t, n, 2);
            lemma_position_unique(t, n, n - 1);
            lemma_position_unique(t, n, n - 2);
            assert(t[1] != t[n - 1]) by {
                assert(t[1] != t[n - 1]);
            }
            assert(e[t[1] as int] == neighbour_pair(t, 1));
            assert(e[t[n - 1] as int] == neighbour_pair(t, n - 1));
            assert(used[0]);
            assert(!used[t[2] as int]);
            assert(!used[t[n - 2] as int]);
            assert(!used[t[n - 1] as int]);
            assert(t[0] != t[2]);
            assert(t[0] != t[n - 2]);
            assert(used_neighbours(e, e, used, t[1] as int) == 1);
            assert(used_neighbours(e, e, used, t[n - 1] as int) == 1);
            assert(is_common(four, 0) == 1) by {
                assert(four[2] == four[0]);
            }
            assert(is_common(four, 1) == 1) by {
                assert(four[3] == four[1]);
            }
            assert(is_common(four, 2) == 1) by {
                assert(four[0] == four[2]);
            }
            assert(is_common(four, 3) == 1) by {
                assert(four[1] == four[3]);
            }
            let p0 = erxt_priority(e, e, used, st.2, st.3, four, 0);
            assert(erxt_priority(e, e, used, st.2, st.3, four, 1) == p0);
            assert(erxt_priority(e, e, used, st.2, st.3, four, 2) == p0);
            assert(erxt_priority(e, e, used, st.2, st.3, four, 3) == p0);
            assert(erxt_pick(e, e, used, st.2, st.3, four, 4, Some(0), p0) == Some(0int));
            assert(erxt_pick(e, e, used, st.2, st.3, four, 3, Some(0), p0) == Some(0int));
            assert(erxt_pick(e, e, used, st.2, st.3, four, 2, Some(0), p0) == Some(0int));
            assert(erxt_pick(e, e, used, st.2, st.3, four, 1, Some(0), p0) == Some(0int));
            assert(pick == Some(0int));
        } else {
            if k == 1 {
                assert(n == 2);
                assert(t[n - 1] == t[1]);
            } else {
                assert(used[t[k - 2] as int]) by {
                    lemma_position_unique(t, n, k - 2);
                }
            }
            assert forall|m: int| 0 <= m < 4 && !used[four[m] as int] implies four[m] == t[k as int] by {}
            assert(!used[four[1] as int]);
            lemma_pick_only(e, e, used, st.2, st.3, four, 0, None, -1_000_000_000, t[k as int]);
        }
        assert(four[pick.unwrap()] == t[k as int]);
        assert(st.0.push(t[k as int]) =~= t.take(k as int + 1));
        assert forall|v: int| 0 <= v < n implies #[trigger] used.update(t[k as int] as int, true)[v] == (position_of(t, n, v)
            <= k) by {
            if v == t[k as int] {
            } else {
                assert(t[position_of(t, n, v)] == v);
            }
        }
        assert(used.update(t[k as int] as int, true) =~= Seq::new(n, |v: int| position_of(t, n, v) <= k));
    }
}

/// Crossing a tour with itself gives the same tour back.
pub proof fn lemma_erxt_self(t: Seq<usize>, n: nat)
    requires
        is_tour(t, n),
    ensures
        erxt_path(t, t, n) == t,
{
    lemma_erxt_self_state(t, n, (n - 1) as nat);
    assert(t.take(n as int).push(0) =~= t);
}

/// Crossing a tour with itself asymmetrically: after `k` steps the child holds
/// the first `k + 1` cities of the tour, and exactly those are used.
proof fn lemma_erxa_self_state(t: Seq<usize>, n: nat, k: nat)
    requires
        is_tour(t, n),
        k <= n - 1,
    ensures
        erxa_state(succ_table(t, n), pred_table(t, n), succ_table(t, n), pred_table(t, n), n, k).0 == t.take(
            k as int + 1,
        ),
        erxa_state(succ_table(t, n), pred_table(t, n), succ_table(t, n), pred_table(t, n), n, k).1 == Seq::new(
            n,
            |v: int| position_of(t, n, v) <= k,
        ),
    decreases k,
{
    let s1 = succ_table(t, n);
    let p1 = pred_table(t, n);
    lemma_tour_covers(t, n);
    if k == 0 {
        assert(seq![0usize] =~= t.take(1));
        assert forall|v: int| 0 <= v < n implies (v == 0) == (position_of(t, n, v) <= 0) by {
            lemma_position_unique(t, n, 0);
        }
        assert(Seq::new(n, |v: int| v == 0) =~= Seq::new(n, |v: int| position_of(t, n, v) <= 0));
    } else {
        lemma_erxa_self_state(t, n, (k - 1) as nat);
        let st = erxa_state(s1, p1, s1, p1, n, (k - 1) as nat);
        let cur = st.0.last();
        assert(cur == t[k - 1]);
        lemma_position_unique(t, n, k - 1);
        lemma_position_unique(t, n, k as int);
        assert(s1[cur as int] == t[k as int]);
        assert(!st.1[t[k as int] as int]);
        assert(st.0.push(t[k as int]) =~= t.take(k as int + 1));
        assert forall|v: int| 0 <= v < n implies #[trigger] st.1.update(t[k as int] as int, true)[v] == (position_of(t, n, v)
            <= k) by {
            if v != t[k as int] {
                assert(t[position_of(t, n, v)] == v);
            }
        }
        assert(st.1.update(t[k as int] as int, true) =~= Seq::new(n, |v: int| position_of(t, n, v) <= k));
    }
}

/// Crossing a tour with itself asymmetrically gives the same tour back.
pub proof fn lemma_erxta_self(t: Seq<usize>, n: nat)
    requires
        is_tour(t, n),
    ensures
        erxa_path(t, t, n) == t,
{
    lemma_erxa_self_state(t, n, (n - 1) as nat);
    assert(t.take(n as int).push(0) =~= t);
}

/// Following the successors from a city below `n` stays below `n`.
proof fn lemma_skip_in_range(succ: Seq<usize>, used: Seq<bool>, v: usize, fuel: nat, n: nat)
    requires
        v < n,
        succ.len() == n,
        forall|x: int| 0 <= x < n ==> #[trigger] succ[x] < n,
    ensures
        skip_from(succ, used, v, fuel) < n,
    decreases fuel,
{
    if fuel > 0 && used[v as int] {
        lemma_skip_in_range(succ, used, succ[v as int], (fuel - 1) as nat, n);
    }
}

/// The cities of the list `path` among `0..n`, as flags.
pub open spec fn met_flags(path: Seq<usize>, n: nat) -> Seq<bool> {
    Seq::new(n, |v: int| exists|m: int| 0 <= m < path.len() && path[m] as int == v)
}

/// Meeting one more city flags it.
proof fn lemma_met_push(path: Seq<usize>, x: usize, n: nat)
    requires
        x < n,
    ensures
        met_flags(path.push(x), n) == met_flags(path, n).update(x as int, true),
{
    let p2 = path.push(x);
    assert forall|v: int| 0 <= v < n implies #[trigger] met_flags(p2, n)[v] == met_flags(path, n).update(
        x as int,
        true,
    )[v] by {
        if v == x {
            assert(p2[path.len() as int] == x);
        } else {
            if exists|m: int| 0 <= m < path.len() && path[m] as int == v {
                let m = choose|m: int| 0 <= m < path.len() && path[m] as int == v;
                assert(p2[m] == path[m]);
            }
            if exists|m: int| 0 <= m < p2.len() && p2[m] as int == v {
                let m = choose|m: int| 0 <= m < p2.len() && p2[m] as int == v;
                assert(path[m] == p2[m]);
            }
        }
    }
    assert(met_flags(p2, n) =~= met_flags(path, n).update(x as int, true));
}

/// The edge-recombination child grows by one city a step, below `n`, with
/// the cities met flagged as used, and with both parents followed a
/// non-negative number of times.
proof fn lemma_erxt_state_shape(t1: Seq<usize>, t2: Seq<usize>, n: nat, k: nat)
    requires
        is_tour(t1, n),
        is_tour(t2, n),
    ensures
        ({
            let st = erxt_state(succ_table(t1, n), pair_table(t1, n), pair_table(t2, n), n, k);
            &&& st.0.len() == k + 1
            &&& st.0[0] == 0
            &&& forall|m: int| 0 <= m <= k ==> #[trigger] st.0[m] < n
            &&& st.1 == met_flags(st.0, n)
            &&& st.2 >= 0
            &&& st.3 >= 0
            &&& forall|kk: nat| kk <= k ==> #[trigger] erxt_state(
                succ_table(t1, n),
                pair_table(t1, n),
                pair_table(t2, n),
                n,
                kk,
            ).0 == st.0.take(kk as int + 1)
        }),
    decreases k,
{
    let s1 = succ_table(t1, n);
    let e1 = pair_table(t1, n);
    let e2 = pair_table(t2, n);
    let st = erxt_state(s1, e1, e2, n, k);
    if k == 0 {
        assert forall|v: int| 0 <= v < n implies #[trigger] st.1[v] == met_flags(st.0, n)[v] by {
            if v == 0 {
                assert(st.0[0] == 0usize);
            }
        }
        assert(st.1 =~= met_flags(st.0, n));
        assert forall|kk: nat| kk <= k implies #[trigger] erxt_state(s1, e1, e2, n, kk).0 == st.0.take(kk as int + 1) by {
            assert(st.0.take(1) =~= st.0);
        }
    } else {
        lemma_erxt_state_shape(t1, t2, n, (k - 1) as nat);
        let pr = erxt_state(s1, e1, e2, n, (k - 1) as nat);
        let cur = pr.0.last();
        assert(cur < n);
        lemma_pair_table_bounds(t1, n);
        lemma_pair_table_bounds(t2, n);
        let four = quad(e1, e2, cur as int);
        assert(forall|x: int| 0 <= x < n ==> #[trigger] s1[x] < n) by {
            assert forall|x: int| 0 <= x < n implies #[trigger] s1[x] < n by {
                lemma_succ_position(t1, n, x);
            }
        }
        assert(s1[cur as int] < n);
        lemma_skip_in_range(s1, pr.1, s1[cur as int], n, n);
        lemma_pick_best(e1, e2, pr.1, pr.2, pr.3, four, 0, None, -1_000_000_000);
        assert(forall|m: int| 0 <= m < 4 ==> #[trigger] four[m] < n);
        let nx = st.0.last();
        assert(st.0 == pr.0.push(nx));
        assert(nx < n);
        assert(st.1 == pr.1.update(nx as int, true));
        lemma_met_push(pr.0, nx, n);
        assert forall|kk: nat| kk <= k implies #[trigger] erxt_state(s1, e1, e2, n, kk).0 == st.0.take(kk as int + 1) by {
            if kk < k {
                assert(erxt_state(s1, e1, e2, n, kk).0 == pr.0.take(kk as int + 1));
                assert(pr.0.take(kk as int + 1) =~= st.0.take(kk as int + 1));
            } else {
                assert(st.0.take(kk as int + 1) =~= st.0);
            }
        }
    }
}

/// The pick among the four neighbours from index `i` on: either the best so
/// far stays, or it is an unused neighbour from `i` on that beats it; and no
/// unused neighbour from `i` on has a higher priority than what is picked.
proof fn lemma_pick_best(
    e1: Seq<(usize, usize)>,
    e2: Seq<(usize, usize)>,
    used: Seq<bool>,
    u1: int,
    u2: int,
    four: Seq<usize>,
    i: int,
    best: Option<int>,
    best_prio: int,
)
    requires
        0 <= i <= 4,
        four.len() == 4,
        best is None || (0 <= best.unwrap() < i),
    ensures
        ({
            let r = erxt_pick(e1, e2, used, u1, u2, four, i, best, best_prio);
            &&& r == best || (r is Some && i <= r.unwrap() < 4 && !used[four[r.unwrap()] as int]
                && erxt_priority(e1, e2, used, u1, u2, four, r.unwrap()) > best_prio)
            &&& forall|m: int|
                i <= m < 4 && !used[four[m] as int] ==> #[trigger] erxt_priority(e1, e2, used, u1, u2, four, m) <= if r
                    == best {
                    best_prio
                } else {
                    erxt_priority(e1, e2, used, u1, u2, four, r.unwrap())
                }
            &&& r != best ==> forall|m: int|
                i <= m < r.unwrap() && !used[four[m] as int] ==> #[trigger] erxt_priority(e1, e2, used, u1, u2, four, m)
                    < erxt_priority(e1, e2, used, u1, u2, four, r.unwrap())
        }),
    decreases 4 - i,
{
    if i < 4 {
        let pi = erxt_priority(e1, e2, used, u1, u2, four, i);
        if used[four[i] as int] {
            lemma_pick_best(e1, e2, used, u1, u2, four, i + 1, best, best_prio);
        } else if pi > best_prio {
            lemma_pick_best(e1, e2, used, u1, u2, four, i + 1, Some(i), pi);
        } else {
            lemma_pick_best(e1, e2, used, u1, u2, four, i + 1, best, best_prio);
        }
    }
}

/// Edge recombination prefers the neighbours both parents share. At each
/// step, take two unused neighbours of the current city listed by the same
/// parent, used as often as each other among their own neighbours, one of
/// them shared by both parents and the other not: the child does not move on
/// to the one that is not shared. (City 1_000_000 stands for "none chosen",
/// hence at most that many cities.)
pub proof fn lemma_erxt_prefers_shared(t1: Seq<usize>, t2: Seq<usize>, n: nat, k: int, i: int, j: int)
    requires
        is_tour(t1, n),
        is_tour(t2, n),
        n <= 1_000_000,
        0 <= k < n - 1,
        0 <= i < 4,
        0 <= j < 4,
        (i < 2) == (j < 2),
        ({
            let child = erxt_path(t1, t2, n);
            let e1 = pair_table(t1, n);
            let e2 = pair_table(t2, n);
            let four = quad(e1, e2, child[k] as int);
            let used = met_flags(child.take(k + 1), n);
            &&& !used[four[i] as int]
            &&& !used[four[j] as int]
            &&& is_common(four, i) == 1
            &&& is_common(four, j) == 0
            &&& used_neighbours(e1, e2, used, four[i] as int) == used_neighbours(e1, e2, used, four[j] as int)
        }),
    ensures
        erxt_path(t1, t2, n)[k + 1] != quad(pair_table(t1, n), pair_table(t2, n), erxt_path(t1, t2, n)[k] as int)[j],
{
    let s1 = succ_table(t1, n);
    let e1 = pair_table(t1, n);
    let e2 = pair_table(t2, n);
    let child = erxt_path(t1, t2, n);
    lemma_erxt_state_shape(t1, t2, n, (n - 1) as nat);
    let full = erxt_state(s1, e1, e2, n, (n - 1) as nat);
    assert(child == full.0.push(0));
    let st = erxt_state(s1, e1, e2, n, k as nat);
    let st2 = erxt_state(s1, e1, e2, n, (k + 1) as nat);
    assert(st.0 == full.0.take(k + 1));
    assert(st2.0 == full.0.take(k + 2));
    lemma_erxt_state_shape(t1, t2, n, k as nat);
    assert(child.take(k + 1) =~= st.0);
    assert(child[k] == st.0.last());
    assert(child[k + 1] == st2.0[k + 1]);
    let cur = st.0.last();
    let four = quad(e1, e2, cur as int);
    let used = st.1;
    lemma_pair_table_bounds(t1, n);
    lemma_pair_table_bounds(t2, n);
    assert(cur < n);
    assert(forall|m: int| 0 <= m < 4 ==> #[trigger] four[m] < n);
    lemma_pick_best(e1, e2, used, st.2, st.3, four, 0, None, -1_000_000_000);
    let r = erxt_pick(e1, e2, used, st.2, st.3, four, 0, None, -1_000_000_000);
    let pi = erxt_priority(e1, e2, used, st.2, st.3, four, i);
    let pj = erxt_priority(e1, e2, used, st.2, st.3, four, j);
    assert(0 <= used_neighbours(e1, e2, used, four[i] as int) <= 4);
    assert(pi > -1_000_000_000);
    assert(pi == pj + 2);
    assert(r is Some);
    let p = r.unwrap();
    assert(four[p] < 1_000_000);
    assert(st2.0 == st.0.push(four[p]));
    if four[p] == four[j] {
        if p != j {
            assert(is_common(four, j) == 1);
        }
    }
}

/// Whether `x` is next to city `c` in the tour `p`: right after it or right
/// before it.
pub open spec fn tour_neighbour(p: Seq<usize>, n: nat, c: int, x: int) -> bool {
    x == succ_of(p, n, c) as int || x == pred_of(p, n, c) as int
}

/// The neighbour pair of a city holds the cities right after and right before
/// it, both other than the city, and different from each other from three
/// cities on.
proof fn lemma_pair_is_neighbours(p: Seq<usize>, n: nat, c: int)
    requires
        is_tour(p, n),
        n >= 2,
        0 <= c < n,
    ensures
        ({
            let e = pair_table(p, n)[c];
            let s = succ_of(p, n, c);
            let b = pred_of(p, n, c);
            &&& (e.0 == s && e.1 == b) || (e.0 == b && e.1 == s)
            &&& s < n && b < n
            &&& s != c && b != c
            &&& n >= 3 ==> s != b
        }),
{
    lemma_tour_covers(p, n);
    lemma_position_unique(p, n, 0);
    let q = position_of(p, n, c);
    assert(0 <= q < n && p[q] == c);
    assert(p[0] < n && p[1] < n && p[n - 1] < n);
    if c == 0 {
        assert(q == 0);
        assert(p[1] != p[0]);
        assert(p[n - 1] != p[0]);
        if n >= 3 {
            assert(p[1] != p[n - 1]);
        }
    } else {
        assert(q != 0);
        assert(p[q - 1] < n);
        assert(p[q - 1] != p[q]);
        if q + 1 < n {
            assert(p[q + 1] < n);
            assert(p[q + 1] != p[q]);
            assert(p[q + 1] != p[q - 1]);
        } else {
            if n >= 3 {
                assert(p[q - 1] != p[0]);
            }
        }
    }
}

/// Edge recombination prefers the neighbours both parents share, said of
/// cities. At each step from the child's city `c`, take two unused cities
/// `x` and `y` that are both next to `c` in one parent, used as often as each
/// other among their own neighbours, where `x` is next to `c` in both parents
/// and `y` is not: the child does not move on to `y`. (City 1_000_000 stands
/// for "none chosen", hence at most that many cities.)
pub proof fn lemma_erxt_shared_city_first(t1: Seq<usize>, t2: Seq<usize>, n: nat, k: int, x: int, y: int)
    requires
        is_tour(t1, n),
        is_tour(t2, n),
        n <= 1_000_000,
        0 <= k < n - 1,
        ({
            let child = erxt_path(t1, t2, n);
            let c = child[k] as int;
            let used = met_flags(child.take(k + 1), n);
            &&& (tour_neighbour(t1, n, c, x) && tour_neighbour(t1, n, c, y)) || (tour_neighbour(t2, n, c, x)
                && tour_neighbour(t2, n, c, y))
            &&& tour_neighbour(t1, n, c, x) && tour_neighbour(t2, n, c, x)
            &&& !(tour_neighbour(t1, n, c, y) && tour_neighbour(t2, n, c, y))
            &&& !used[x]
            &&& !used[y]
            &&& used_neighbours(pair_table(t1, n), pair_table(t2, n), used, x) == used_neighbours(
                pair_table(t1, n),
                pair_table(t2, n),
                used,
                y,
            )
        }),
    ensures
        erxt_path(t1, t2, n)[k + 1] != y,
{
    let s1 = succ_table(t1, n);
    let e1 = pair_table(t1, n);
    let e2 = pair_table(t2, n);
    let child = erxt_path(t1, t2, n);
    lemma_erxt_state_shape(t1, t2, n, (n - 1) as nat);
    let full = erxt_state(s1, e1, e2, n, (n - 1) as nat);
    assert(child == full.0.push(0));
    assert(child[k] == full.0[k]);
    let c = child[k] as int;
    assert(0 <= c < n);
    lemma_pair_is_neighbours(t1, n, c);
    lemma_pair_is_neighbours(t2, n, c);
    let four = quad(e1, e2, c);
    if n >= 3 {
        if tour_neighbour(t1, n, c, x) && tour_neighbour(t1, n, c, y) {
            let i: int = if four[0] as int == x { 0 } else { 1 };
            let j: int = if four[0] as int == y { 0 } else { 1 };
            let w: int = if four[2] as int == x { 2 } else { 3 };
            assert(four[w] == four[i] && w != i);
            assert(is_common(four, i) == 1);
            assert(is_common(four, j) == 0);
            lemma_erxt_prefers_shared(t1, t2, n, k, i, j);
        } else {
            let i: int = if four[2] as int == x { 2 } else { 3 };
            let j: int = if four[2] as int == y { 2 } else { 3 };
            let w: int = if four[0] as int == x { 0 } else { 1 };
            assert(four[w] == four[i] && w != i);
            assert(is_common(four, i) == 1);
            assert(is_common(four, j) == 0);
            lemma_erxt_prefers_shared(t1, t2, n, k, i, j);
        }
    }
}

/// Edge recombination moves along a parent's edge whenever it can: at each
/// step, if some city next to the child's city `c` in either parent is still
/// unused, the child moves on to a city next to `c` in one of the parents.
/// (City 1_000_000 stands for "none chosen", hence at most that many cities.)
pub proof fn lemma_erxt_follows_an_edge(t1: Seq<usize>, t2: Seq<usize>, n: nat, k: int, x: int)
    requires
        is_tour(t1, n),
        is_tour(t2, n),
        n <= 1_000_000,
        0 <= k < n - 1,
        ({
            let child = erxt_path(t1, t2, n);
            let c = child[k] as int;
            let used = met_flags(child.take(k + 1), n);
            &&& tour_neighbour(t1, n, c, x) || tour_neighbour(t2, n, c, x)
            &&& !used[x]
        }),
    ensures
        ({
            let child = erxt_path(t1, t2, n);
            let c = child[k] as int;
            tour_neighbour(t1, n, c, child[k + 1] as int) || tour_neighbour(t2, n, c, child[k + 1] as int)
        }),
{
    let s1 = succ_table(t1, n);
    let e1 = pair_table(t1, n);
    let e2 = pair_table(t2, n);
    let child = erxt_path(t1, t2, n);
    lemma_erxt_state_shape(t1, t2, n, (n - 1) as nat);
    let full = erxt_state(s1, e1, e2, n, (n - 1) as nat);
    assert(child == full.0.push(0));
    let st = erxt_state(s1, e1, e2, n, k as nat);
    let st2 = erxt_state(s1, e1, e2, n, (k + 1) as nat);
    assert(st.0 == full.0.take(k + 1));
    assert(st2.0 == full.0.take(k + 2));
    lemma_erxt_state_shape(t1, t2, n, k as nat);
    assert(child.take(k + 1) =~= st.0);
    assert(child[k] == st.0.last());
    assert(child[k + 1] == st2.0[k + 1]);
    let cur = st.0.last();
    let c = cur as int;
    let four = quad(e1, e2, c);
    let used = st.1;
    lemma_pair_table_bounds(t1, n);
    lemma_pair_table_bounds(t2, n);
    assert(cur < n);
    lemma_pair_is_neighbours(t1, n, c);
    lemma_pair_is_neighbours(t2, n, c);
    assert(forall|m: int| 0 <= m < 4 ==> #[trigger] four[m] < n);
    let m: int = if four[0] as int == x {
        0
    } else if four[1] as int == x {
        1
    } else if four[2] as int == x {
        2
    } else {
        3
    };
    assert(four[m] as int == x);
    lemma_pick_best(e1, e2, used, st.2, st.3, four, 0, None, -1_000_000_000);
    let r = erxt_pick(e1, e2, used, st.2, st.3, four, 0, None, -1_000_000_000);
    assert(0 <= used_neighbours(e1, e2, used, four[m] as int) <= 4);
    assert(erxt_priority(e1, e2, used, st.2, st.3, four, m) > -1_000_000_000);
    assert(r is Some);
    let p = r.unwrap();
    assert(four[p] < 1_000_000);
    assert(st2.0 == st.0.push(four[p]));
}

/// The asymmetric child grows by one city a step, below `n`, with the cities
/// met flagged as used, and with both parents followed a non-negative number
/// of times (none before the first step).
proof fn lemma_erxa_state_shape(t1: Seq<usize>, t2: Seq<usize>, n: nat, k: nat)
    requires
        is_tour(t1, n),
        is_tour(t2, n),
    ensures
        ({
            let st = erxa_state(succ_table(t1, n), pred_table(t1, n), succ_table(t2, n), pred_table(t2, n), n, k);
            &&& st.0.len() == k + 1
            &&& st.0[0] == 0
            &&& forall|m: int| 0 <= m <= k ==> #[trigger] st.0[m] < n
            &&& st.1 == met_flags(st.0, n)
            &&& st.2 >= 0
            &&& st.3 >= 0
            &&& k == 0 ==> st.2 == 0 && st.3 == 0
            &&& st.2 + st.3 <= k
            &&& forall|kk: nat| kk <= k ==> #[trigger] erxa_state(
                succ_table(t1, n),
                pred_table(t1, n),
                succ_table(t2, n),
                pred_table(t2, n),
                n,
                kk,
            ).0 == st.0.take(kk as int + 1)
        }),
    decreases k,
{
    let s1 = succ_table(t1, n);
    let p1 = pred_table(t1, n);
    let s2 = succ_table(t2, n);
    let p2 = pred_table(t2, n);
    let st = erxa_state(s1, p1, s2, p2, n, k);
    if k == 0 {
        assert forall|v: int| 0 <= v < n implies #[trigger] st.1[v] == met_flags(st.0, n)[v] by {
            if v == 0 {
                assert(st.0[0] == 0usize);
            }
        }
        assert(st.1 =~= met_flags(st.0, n));
        assert forall|kk: nat| kk <= k implies #[trigger] erxa_state(s1, p1, s2, p2, n, kk).0 == st.0.take(
            kk as int + 1,
        ) by {
            assert(st.0.take(1) =~= st.0);
        }
    } else {
        lemma_erxa_state_shape(t1, t2, n, (k - 1) as nat);
        let pr = erxa_state(s1, p1, s2, p2, n, (k - 1) as nat);
        let cur = pr.0.last();
        assert(cur < n);
        assert(forall|x: int| 0 <= x < n ==> #[trigger] s1[x] < n) by {
            assert forall|x: int| 0 <= x < n implies #[trigger] s1[x] < n by {
                lemma_succ_position(t1, n, x);
            }
        }
        lemma_succ_position(t1, n, cur as int);
        lemma_succ_position(t2, n, cur as int);
        lemma_skip_in_range(s1, pr.1, s1[cur as int], n, n);
        let nx = st.0.last();
        assert(st.0 == pr.0.push(nx));
        assert(nx < n);
        assert(st.1 == pr.1.update(nx as int, true));
        lemma_met_push(pr.0, nx, n);
        assert forall|kk: nat| kk <= k implies #[trigger] erxa_state(s1, p1, s2, p2, n, kk).0 == st.0.take(
            kk as int + 1,
        ) by {
            if kk < k {
                assert(erxa_state(s1, p1, s2, p2, n, kk).0 == pr.0.take(kk as int + 1));
                assert(pr.0.take(kk as int + 1) =~= st.0.take(kk as int + 1));
            } else {
                assert(st.0.take(kk as int + 1) =~= st.0);
            }
        }
    }
}

/// The bonus the asymmetric crossover gives a city it may move on to: 5 when
/// both parents put the same city before it, or both cities before it are
/// used already; else none.
spec fn shared_before_bonus(t1: Seq<usize>, t2: Seq<usize>, n: nat, used: Seq<bool>, x: int) -> int {
    let b1 = pred_of(t1, n, x);
    let b2 = pred_of(t2, n, x);
    if b1 == b2 || (used[b1 as int] && used[b2 as int]) {
        5
    } else {
        0
    }
}

/// How many of the first `k` steps of `child` followed each parent's edge, as
/// a pair (first parent, second parent). A step counts only from a city whose
/// two successors are not both met already; it counts for the parent whose
/// successor the child moved on to, and where both parents have the same
/// successor, for the parent followed less often so far (the second one on a
/// tie).
pub open spec fn follow_counts(t1: Seq<usize>, t2: Seq<usize>, n: nat, child: Seq<usize>, k: nat) -> (int, int)
    decreases k,
{
    if k == 0 {
        (0, 0)
    } else {
        let m = k - 1;
        let prev = follow_counts(t1, t2, n, child, (k - 1) as nat);
        let used = met_flags(child.take(m + 1), n);
        let a = succ_of(t1, n, child[m] as int);
        let b = succ_of(t2, n, child[m] as int);
        if used[a as int] && used[b as int] {
            prev
        } else if child[m + 1] == a && (a != b || prev.1 > prev.0) {
            (prev.0 + 1, prev.1)
        } else if child[m + 1] == b {
            (prev.0, prev.1 + 1)
        } else {
            prev
        }
    }
}

/// The counters of the asymmetric crossover count how often the child
/// followed each parent.
proof fn lemma_erxa_followed(t1: Seq<usize>, t2: Seq<usize>, n: nat, k: nat)
    requires
        is_tour(t1, n),
        is_tour(t2, n),
        k <= n - 1,
    ensures
        ({
            let st = erxa_state(succ_table(t1, n), pred_table(t1, n), succ_table(t2, n), pred_table(t2, n), n, k);
            let child = erxa_path(t1, t2, n);
            &&& st.2 == follow_counts(t1, t2, n, child, k).0
            &&& st.3 == follow_counts(t1, t2, n, child, k).1
        }),
    decreases k,
{
    let s1 = succ_table(t1, n);
    let p1 = pred_table(t1, n);
    let s2 = succ_table(t2, n);
    let p2 = pred_table(t2, n);
    let child = erxa_path(t1, t2, n);
    lemma_erxa_state_shape(t1, t2, n, (n - 1) as nat);
    let full = erxa_state(s1, p1, s2, p2, n, (n - 1) as nat);
    assert(child == full.0.push(0));
    if k > 0 {
        lemma_erxa_followed(t1, t2, n, (k - 1) as nat);
        let m = k - 1;
        let st = erxa_state(s1, p1, s2, p2, n, m as nat);
        let st2 = erxa_state(s1, p1, s2, p2, n, k);
        assert(st.0 == full.0.take(m + 1));
        assert(st2.0 == full.0.take(k as int + 1));
        lemma_erxa_state_shape(t1, t2, n, m as nat);
        lemma_erxa_state_shape(t1, t2, n, k);
        assert(child.take(m + 1) =~= st.0);
        assert(child[m] == st.0.last());
        assert(child[m + 1] == st2.0[m + 1]);
        let cur = st.0.last();
        assert(s1[cur as int] == succ_of(t1, n, cur as int));
        assert(s2[cur as int] == succ_of(t2, n, cur as int));
    }
}

/// How the asymmetric crossover chooses between the two parents. At each
/// step from the child's city `cur`, when the two parents lead on to
/// different cities, both unused, the child follows the first parent exactly
/// when its city's bonus plus the number of times the second parent was
/// followed beats the other city's bonus plus the number of times the first
/// parent was followed (a city's bonus is 5 when both parents put the same
/// city before it, or both cities before it are met already, else 0); otherwise it follows the second parent. The numbers
/// of times are counted on the child itself (`follow_counts`), and are the
/// crossover's own counters. In particular, on the first step (nobody
/// followed yet) it follows the first parent exactly when only that parent's
/// city earns the bonus.
pub proof fn lemma_erxta_choice(t1: Seq<usize>, t2: Seq<usize>, n: nat, k: int)
    requires
        is_tour(t1, n),
        is_tour(t2, n),
        0 <= k < n - 1,
        ({
            let child = erxa_path(t1, t2, n);
            let used = met_flags(child.take(k + 1), n);
            let a = succ_of(t1, n, child[k] as int);
            let b = succ_of(t2, n, child[k] as int);
            &&& a != b
            &&& !used[a as int]
            &&& !used[b as int]
        }),
    ensures
        ({
            let child = erxa_path(t1, t2, n);
            let used = met_flags(child.take(k + 1), n);
            let a = succ_of(t1, n, child[k] as int);
            let b = succ_of(t2, n, child[k] as int);
            let st = erxa_state(succ_table(t1, n), pred_table(t1, n), succ_table(t2, n), pred_table(t2, n), n, k as nat);
            let followed1 = follow_counts(t1, t2, n, child, k as nat).0;
            let followed2 = follow_counts(t1, t2, n, child, k as nat).1;
            let a1 = pred_of(t1, n, a as int) as int;
            let a2 = pred_of(t2, n, a as int) as int;
            let b1 = pred_of(t1, n, b as int) as int;
            let b2 = pred_of(t2, n, b as int) as int;
            let bonus_a: int = if a1 == a2 || (used[a1] && used[a2]) {
                5
            } else {
                0
            };
            let bonus_b: int = if b1 == b2 || (used[b1] && used[b2]) {
                5
            } else {
                0
            };
            &&& st.2 == followed1
            &&& st.3 == followed2
            &&& child[k + 1] == a || child[k + 1] == b
            &&& child[k + 1] == a <==> followed2 + bonus_a > followed1 + bonus_b
            &&& followed1 >= 0
            &&& followed2 >= 0
            &&& k == 0 ==> (child[k + 1] == a <==> bonus_a == 5 && bonus_b == 0)
        }),
{
    let s1 = succ_table(t1, n);
    let p1 = pred_table(t1, n);
    let s2 = succ_table(t2, n);
    let p2 = pred_table(t2, n);
    let child = erxa_path(t1, t2, n);
    lemma_erxa_state_shape(t1, t2, n, (n - 1) as nat);
    let full = erxa_state(s1, p1, s2, p2, n, (n - 1) as nat);
    assert(child == full.0.push(0));
    let st = erxa_state(s1, p1, s2, p2, n, k as nat);
    let st2 = erxa_state(s1, p1, s2, p2, n, (k + 1) as nat);
    assert(st.0 == full.0.take(k + 1));
    assert(st2.0 == full.0.take(k + 2));
    lemma_erxa_state_shape(t1, t2, n, k as nat);
    assert(child.take(k + 1) =~= st.0);
    assert(child[k] == st.0.last());
    assert(child[k + 1] == st2.0[k + 1]);
    let cur = st.0.last();
    assert(cur < n);
    assert(s1[cur as int] == succ_of(t1, n, cur as int));
    assert(s2[cur as int] == succ_of(t2, n, cur as int));
    lemma_succ_position(t1, n, cur as int);
    lemma_succ_position(t2, n, cur as int);
    let a = s1[cur as int];
    let b = s2[cur as int];
    assert(p1[a as int] == pred_of(t1, n, a as int));
    assert(p2[a as int] == pred_of(t2, n, a as int));
    assert(p1[b as int] == pred_of(t1, n, b as int));
    assert(p2[b as int] == pred_of(t2, n, b as int));
    assert(erx_priority(s1, p1, p2, st.1, st.3, cur) == st.3 + shared_before_bonus(t1, t2, n, st.1, a as int));
    assert(erx_priority(s2, p1, p2, st.1, st.2, cur) == st.2 + shared_before_bonus(t1, t2, n, st.1, b as int));
    lemma_erxa_followed(t1, t2, n, k as nat);
}

/// The asymmetric crossover never follows a parent onto a city already in
/// the child while the other parent offers an unused one: at each step, when
/// exactly one of the two parents' next cities is unused, the child moves on
/// to it; and when both parents lead to the same unused city, the child
/// moves on to that city.
pub proof fn lemma_erxta_avoids_used(t1: Seq<usize>, t2: Seq<usize>, n: nat, k: int)
    requires
        is_tour(t1, n),
        is_tour(t2, n),
        n < 1_000_000_000,
        0 <= k < n - 1,
        ({
            let child = erxa_path(t1, t2, n);
            let used = met_flags(child.take(k + 1), n);
            let a = succ_of(t1, n, child[k] as int);
            let b = succ_of(t2, n, child[k] as int);
            used[a as int] != used[b as int] || (a == b && !used[a as int])
        }),
    ensures
        ({
            let child = erxa_path(t1, t2, n);
            let used = met_flags(child.take(k + 1), n);
            let a = succ_of(t1, n, child[k] as int);
            let b = succ_of(t2, n, child[k] as int);
            child[k + 1] == if used[a as int] {
                b
            } else {
                a
            }
        }),
{
    let s1 = succ_table(t1, n);
    let p1 = pred_table(t1, n);
    let s2 = succ_table(t2, n);
    let p2 = pred_table(t2, n);
    let child = erxa_path(t1, t2, n);
    lemma_erxa_state_shape(t1, t2, n, (n - 1) as nat);
    let full = erxa_state(s1, p1, s2, p2, n, (n - 1) as nat);
    assert(child == full.0.push(0));
    let st = erxa_state(s1, p1, s2, p2, n, k as nat);
    let st2 = erxa_state(s1, p1, s2, p2, n, (k + 1) as nat);
    assert(st.0 == full.0.take(k + 1));
    assert(st2.0 == full.0.take(k + 2));
    lemma_erxa_state_shape(t1, t2, n, k as nat);
    assert(child.take(k + 1) =~= st.0);
    assert(child[k] == st.0.last());
    assert(child[k + 1] == st2.0[k + 1]);
    let cur = st.0.last();
    assert(cur < n);
    assert(s1[cur as int] == succ_of(t1, n, cur as int));
    assert(s2[cur as int] == succ_of(t2, n, cur as int));
    lemma_succ_position(t1, n, cur as int);
    lemma_succ_position(t2, n, cur as int);
    let pa = erx_priority(s1, p1, p2, st.1, st.3, cur);
    let pb = erx_priority(s2, p1, p2, st.1, st.2, cur);
    assert(st.3 <= k && st.2 <= k);
    assert(st.1[s1[cur as int] as int] ==> pa <= k - 1_000_000_000);
    assert(!st.1[s1[cur as int] as int] ==> pa >= 0);
    assert(st.1[s2[cur as int] as int] ==> pb <= k - 1_000_000_000);
    assert(!st.1[s2[cur as int] as int] ==> pb >= 0);
}

/// The position `d` steps after position `q` round a tour of `n` cities
/// (`d` at most `n`).
pub open spec fn step_index(q: int, d: int, n: nat) -> int {
    if q + d < n {
        q + d
    } else {
        q + d - n
    }
}

/// The city `d` steps after city `v` along the closed tour `p` over `0..n`.
pub open spec fn along_tour(p: Seq<usize>, n: nat, v: int, d: int) -> usize {
    p[step_index(position_of(p, n, v), d, n)]
}

/// Skipping along a tour walks it city by city: what it reaches is `d` steps
/// on, every city passed on the way is used, and it stops at an unused city
/// unless the fuel ran out.
proof fn lemma_skip_walk(p: Seq<usize>, n: nat, used: Seq<bool>, v: usize, fuel: nat)
    requires
        is_tour(p, n),
        v < n,
        used.len() == n,
        fuel <= n,
    ensures
        exists|d: int|
            0 <= d <= fuel && skip_from(succ_table(p, n), used, v, fuel) == along_tour(p, n, v as int, d) && (
            forall|e: int| 0 <= e < d ==> used[#[trigger] along_tour(p, n, v as int, e) as int]) && (d == fuel
                || !used[skip_from(succ_table(p, n), used, v, fuel) as int]),
    decreases fuel,
{
    lemma_tour_covers(p, n);
    let s = succ_table(p, n);
    let r = skip_from(s, used, v, fuel);
    let q = position_of(p, n, v as int);
    assert(0 <= q < n && p[q] == v);
    if fuel == 0 || !used[v as int] {
        assert(r == along_tour(p, n, v as int, 0));
    } else {
        lemma_succ_position(p, n, v as int);
        let w = s[v as int];
        assert(w == succ_of(p, n, v as int));
        lemma_skip_walk(p, n, used, w, (fuel - 1) as nat);
        let d2 = choose|d: int|
            0 <= d <= fuel - 1 && skip_from(s, used, w, (fuel - 1) as nat) == along_tour(p, n, w as int, d) && (
            forall|e: int| 0 <= e < d ==> used[#[trigger] along_tour(p, n, w as int, e) as int]) && (d == fuel - 1
                || !used[skip_from(s, used, w, (fuel - 1) as nat) as int]);
        assert forall|e: int| 0 <= e <= d2 implies #[trigger] along_tour(p, n, v as int, e + 1) == along_tour(
            p,
            n,
            w as int,
            e,
        ) by {}
        assert(r == along_tour(p, n, v as int, d2 + 1));
        assert forall|e: int| 0 <= e < d2 + 1 implies used[#[trigger] along_tour(p, n, v as int, e) as int] by {
            if e > 0 {
                assert(along_tour(p, n, v as int, (e - 1) + 1) == along_tour(p, n, w as int, e - 1));
                assert(used[along_tour(p, n, w as int, e - 1) as int]);
            } else {
                assert(along_tour(p, n, v as int, 0) == v);
            }
        }
    }
}

/// A list of `m` cities among `0..n` leaves at least `n - m` of them unmet.
proof fn lemma_met_count(path: Seq<usize>, n: nat)
    requires
        forall|m: int| 0 <= m < path.len() ==> #[trigger] path[m] < n,
    ensures
        count_unused(met_flags(path, n)) + path.len() >= n,
    decreases path.len(),
{
    if path.len() == 0 {
        assert(met_flags(path, n) =~= Seq::new(n, |i: int| false));
        lemma_count_all_unused(n);
    } else {
        let front = path.drop_last();
        let x = path.last();
        lemma_met_count(front, n);
        assert(front.push(x) =~= path);
        lemma_met_push(front, x, n);
        if met_flags(front, n)[x as int] {
            assert(met_flags(front, n).update(x as int, true) =~= met_flags(front, n));
        } else {
            lemma_count_flip(met_flags(front, n), x as int);
        }
    }
}

/// Walking a tour from any city reaches every city within `n` steps.
proof fn lemma_walk_covers(p: Seq<usize>, n: nat, v: int, w: int)
    requires
        is_tour(p, n),
        0 <= v < n,
        0 <= w < n,
    ensures
        exists|e: int| 0 <= e < n && #[trigger] along_tour(p, n, v, e) == w,
{
    lemma_tour_covers(p, n);
    let pv = position_of(p, n, v);
    let pw = position_of(p, n, w);
    let e: int = if pw >= pv {
        pw - pv
    } else {
        pw - pv + n
    };
    assert(step_index(pv, e, n) == pw);
    assert(along_tour(p, n, v, e) == w);
}

/// When both parents lead from the child's city to cities already in the
/// child, the asymmetric crossover moves on along the first parent from its
/// next city to the first city not yet in the child: the city it reaches is
/// unused, and every city passed on the way is used.
pub proof fn lemma_erxta_skips_along_first(t1: Seq<usize>, t2: Seq<usize>, n: nat, k: int)
    requires
        is_tour(t1, n),
        is_tour(t2, n),
        0 <= k < n - 1,
        ({
            let child = erxa_path(t1, t2, n);
            let used = met_flags(child.take(k + 1), n);
            let a = succ_of(t1, n, child[k] as int);
            let b = succ_of(t2, n, child[k] as int);
            used[a as int] && used[b as int]
        }),
    ensures
        ({
            let child = erxa_path(t1, t2, n);
            let used = met_flags(child.take(k + 1), n);
            let a = succ_of(t1, n, child[k] as int);
            &&& !used[child[k + 1] as int]
            &&& exists|d: int|
                0 < d < n && child[k + 1] == along_tour(t1, n, a as int, d) && forall|e: int|
                    0 <= e < d ==> used[#[trigger] along_tour(t1, n, a as int, e) as int]
        }),
{
    let s1 = succ_table(t1, n);
    let p1 = pred_table(t1, n);
    let s2 = succ_table(t2, n);
    let p2 = pred_table(t2, n);
    let child = erxa_path(t1, t2, n);
    lemma_erxa_state_shape(t1, t2, n, (n - 1) as nat);
    let full = erxa_state(s1, p1, s2, p2, n, (n - 1) as nat);
    assert(child == full.0.push(0));
    let st = erxa_state(s1, p1, s2, p2, n, k as nat);
    let st2 = erxa_state(s1, p1, s2, p2, n, (k + 1) as nat);
    assert(st.0 == full.0.take(k + 1));
    assert(st2.0 == full.0.take(k + 2));
    lemma_erxa_state_shape(t1, t2, n, k as nat);
    assert(child.take(k + 1) =~= st.0);
    assert(child[k] == st.0.last());
    assert(child[k + 1] == st2.0[k + 1]);
    let cur = st.0.last();
    assert(cur < n);
    assert(s1[cur as int] == succ_of(t1, n, cur as int));
    assert(s2[cur as int] == succ_of(t2, n, cur as int));
    lemma_succ_position(t1, n, cur as int);
    let a = s1[cur as int];
    let used = st.1;
    let r = skip_from(s1, used, a, n);
    assert(child[k + 1] == r);
    lemma_skip_walk(t1, n, used, a, n);
    let d = choose|d: int|
        0 <= d <= n && r == along_tour(t1, n, a as int, d) && (forall|e: int|
            0 <= e < d ==> used[#[trigger] along_tour(t1, n, a as int, e) as int]) && (d == n || !used[r as int]);
    lemma_met_count(st.0, n);
    lemma_exists_unused(used);
    let u = choose|u: int| 0 <= u < used.len() && !used[u];
    lemma_walk_covers(t1, n, a as int, u);
    let eu = choose|e: int| 0 <= e < n && #[trigger] along_tour(t1, n, a as int, e) == u;
    assert(d != n);
    lemma_tour_covers(t1, n);
    assert(step_index(position_of(t1, n, a as int), 0, n) == position_of(t1, n, a as int));
    assert(along_tour(t1, n, a as int, 0) == a);
    assert(d != 0);
}

/// When every city next to the child's city in either parent is already in
/// the child, edge recombination moves on along the first parent from the
/// city after the child's city to the first city not yet in the child: the
/// city it reaches is unused, and every city passed on the way is used.
pub proof fn lemma_erxt_skips_along_first(t1: Seq<usize>, t2: Seq<usize>, n: nat, k: int)
    requires
        is_tour(t1, n),
        is_tour(t2, n),
        0 <= k < n - 1,
        ({
            let child = erxt_path(t1, t2, n);
            let c = child[k] as int;
            let used = met_flags(child.take(k + 1), n);
            &&& used[succ_of(t1, n, c) as int]
            &&& used[pred_of(t1, n, c) as int]
            &&& used[succ_of(t2, n, c) as int]
            &&& used[pred_of(t2, n, c) as int]
        }),
    ensures
        ({
            let child = erxt_path(t1, t2, n);
            let used = met_flags(child.take(k + 1), n);
            let a = succ_of(t1, n, child[k] as int);
            &&& !used[child[k + 1] as int]
            &&& exists|d: int|
                0 < d < n && child[k + 1] == along_tour(t1, n, a as int, d) && forall|e: int|
                    0 <= e < d ==> used[#[trigger] along_tour(t1, n, a as int, e) as int]
        }),
{
    let s1 = succ_table(t1, n);
    let e1 = pair_table(t1, n);
    let e2 = pair_table(t2, n);
    let child = erxt_path(t1, t2, n);
    lemma_erxt_state_shape(t1, t2, n, (n - 1) as nat);
    let full = erxt_state(s1, e1, e2, n, (n - 1) as nat);
    assert(child == full.0.push(0));
    let st = erxt_state(s1, e1, e2, n, k as nat);
    let st2 = erxt_state(s1, e1, e2, n, (k + 1) as nat);
    assert(st.0 == full.0.take(k + 1));
    assert(st2.0 == full.0.take(k + 2));
    lemma_erxt_state_shape(t1, t2, n, k as nat);
    assert(child.take(k + 1) =~= st.0);
    assert(child[k] == st.0.last());
    assert(child[k + 1] == st2.0[k + 1]);
    let cur = st.0.last();
    let c = cur as int;
    assert(cur < n);
    let four = quad(e1, e2, c);
    let used = st.1;
    lemma_pair_is_neighbours(t1, n, c);
    lemma_pair_is_neighbours(t2, n, c);
    assert(forall|m: int| 0 <= m < 4 ==> used[#[trigger] four[m] as int]);
    lemma_pick_best(e1, e2, used, st.2, st.3, four, 0, None, -1_000_000_000);
    assert(erxt_pick(e1, e2, used, st.2, st.3, four, 0, None, -1_000_000_000) is None);
    assert(s1[cur as int] == succ_of(t1, n, cur as int));
    lemma_succ_position(t1, n, cur as int);
    let a = s1[cur as int];
    let r = skip_from(s1, used, a, n);
    assert(child[k + 1] == r);
    lemma_skip_walk(t1, n, used, a, n);
    let d = choose|d: int|
        0 <= d <= n && r == along_tour(t1, n, a as int, d) && (forall|e: int|
            0 <= e < d ==> used[#[trigger] along_tour(t1, n, a as int, e) as int]) && (d == n || !used[r as int]);
    lemma_met_count(st.0, n);
    lemma_exists_unused(used);
    let u = choose|u: int| 0 <= u < used.len() && !used[u];
    lemma_walk_covers(t1, n, a as int, u);
    let eu = choose|e: int| 0 <= e < n && #[trigger] along_tour(t1, n, a as int, e) == u;
    assert(d != n);
    lemma_tour_covers(t1, n);
    assert(step_index(position_of(t1, n, a as int), 0, n) == position_of(t1, n, a as int));
    assert(along_tour(t1, n, a as int, 0) == a);
    assert(d != 0);
}

/// Of two unused neighbours of the child's city listed by the same parent,
/// the second not shared, the child does not move on to the second where
/// the first has the higher priority.
proof fn lemma_erxt_index_rank(t1: Seq<usize>, t2: Seq<usize>, n: nat, k: int, i: int, j: int)
    requires
        is_tour(t1, n),
        is_tour(t2, n),
        n <= 1_000_000,
        0 <= k < n - 1,
        0 <= i < 4,
        0 <= j < 4,
        (i < 2) == (j < 2),
        ({
            let child = erxt_path(t1, t2, n);
            let e1 = pair_table(t1, n);
            let e2 = pair_table(t2, n);
            let four = quad(e1, e2, child[k] as int);
            let used = met_flags(child.take(k + 1), n);
            &&& !used[four[i] as int]
            &&& !used[four[j] as int]
            &&& is_common(four, j) == 0
            &&& 2 * is_common(four, i) - used_neighbours(e1, e2, used, four[i] as int) > 0 - used_neighbours(
                e1,
                e2,
                used,
                four[j] as int,
            )
        }),
    ensures
        erxt_path(t1, t2, n)[k + 1] != quad(pair_table(t1, n), pair_table(t2, n), erxt_path(t1, t2, n)[k] as int)[j],
{
    let s1 = succ_table(t1, n);
    let e1 = pair_table(t1, n);
    let e2 = pair_table(t2, n);
    let child = erxt_path(t1, t2, n);
    lemma_erxt_state_shape(t1, t2, n, (n - 1) as nat);
    let full = erxt_state(s1, e1, e2, n, (n - 1) as nat);
    assert(child == full.0.push(0));
    let st = erxt_state(s1, e1, e2, n, k as nat);
    let st2 = erxt_state(s1, e1, e2, n, (k + 1) as nat);
    assert(st.0 == full.0.take(k + 1));
    assert(st2.0 == full.0.take(k + 2));
    lemma_erxt_state_shape(t1, t2, n, k as nat);
    assert(child.take(k + 1) =~= st.0);
    assert(child[k] == st.0.last());
    assert(child[k + 1] == st2.0[k + 1]);
    let cur = st.0.last();
    let four = quad(e1, e2, cur as int);
    let used = st.1;
    lemma_pair_table_bounds(t1, n);
    lemma_pair_table_bounds(t2, n);
    assert(cur < n);
    assert(forall|m: int| 0 <= m < 4 ==> #[trigger] four[m] < n);
    lemma_pick_best(e1, e2, used, st.2, st.3, four, 0, None, -1_000_000_000);
    let r = erxt_pick(e1, e2, used, st.2, st.3, four, 0, None, -1_000_000_000);
    let pi = erxt_priority(e1, e2, used, st.2, st.3, four, i);
    let pj = erxt_priority(e1, e2, used, st.2, st.3, four, j);
    assert(0 <= used_neighbours(e1, e2, used, four[i] as int) <= 4);
    assert(pi > -1_000_000_000);
    assert(pi > pj);
    assert(r is Some);
    let p = r.unwrap();
    assert(four[p] < 1_000_000);
    assert(st2.0 == st.0.push(four[p]));
    if four[p] == four[j] {
        if p != j {
            assert(is_common(four, j) == 1);
        }
    }
}

/// How edge recombination ranks two cities next to the child's city `c` in
/// the same parent. Each city scores 2 if it is next to `c` in both parents,
/// less the number of its own neighbours (in either parent) already in the
/// child. Of two unused such cities `x` and `y`, where `y` is next to `c` in
/// one parent only and `x` scores higher, the child does not move on to `y`.
/// (City 1_000_000 stands for "none chosen", hence at most that many cities.)
pub proof fn lemma_erxt_ranks_within_parent(t1: Seq<usize>, t2: Seq<usize>, n: nat, k: int, x: int, y: int)
    requires
        is_tour(t1, n),
        is_tour(t2, n),
        n <= 1_000_000,
        0 <= k < n - 1,
        ({
            let child = erxt_path(t1, t2, n);
            let c = child[k] as int;
            let used = met_flags(child.take(k + 1), n);
            let shared_x: int = if tour_neighbour(t1, n, c, x) && tour_neighbour(t2, n, c, x) {
                2
            } else {
                0
            };
            &&& (tour_neighbour(t1, n, c, x) && tour_neighbour(t1, n, c, y)) || (tour_neighbour(t2, n, c, x)
                && tour_neighbour(t2, n, c, y))
            &&& !(tour_neighbour(t1, n, c, y) && tour_neighbour(t2, n, c, y))
            &&& !used[x]
            &&& !used[y]
            &&& shared_x - used_neighbours(pair_table(t1, n), pair_table(t2, n), used, x) > 0 - used_neighbours(
                pair_table(t1, n),
                pair_table(t2, n),
                used,
                y,
            )
        }),
    ensures
        erxt_path(t1, t2, n)[k + 1] != y,
{
    let s1 = succ_table(t1, n);
    let e1 = pair_table(t1, n);
    let e2 = pair_table(t2, n);
    let child = erxt_path(t1, t2, n);
    lemma_erxt_state_shape(t1, t2, n, (n - 1) as nat);
    let full = erxt_state(s1, e1, e2, n, (n - 1) as nat);
    assert(child == full.0.push(0));
    assert(child[k] == full.0[k]);
    let c = child[k] as int;
    assert(0 <= c < n);
    lemma_pair_is_neighbours(t1, n, c);
    lemma_pair_is_neighbours(t2, n, c);
    let four = quad(e1, e2, c);
    if n >= 3 {
        let first = tour_neighbour(t1, n, c, x) && tour_neighbour(t1, n, c, y);
        let i: int = if first {
            if four[0] as int == x { 0 } else { 1 }
        } else {
            if four[2] as int == x { 2 } else { 3 }
        };
        let j: int = if first {
            if four[0] as int == y { 0 } else { 1 }
        } else {
            if four[2] as int == y { 2 } else { 3 }
        };
        assert(four[i] as int == x && four[j] as int == y);
        assert(is_common(four, j) == 0);
        if tour_neighbour(t1, n, c, x) && tour_neighbour(t2, n, c, x) {
            let w: int = if first {
                if four[2] as int == x { 2 } else { 3 }
            } else {
                if four[0] as int == x { 0 } else { 1 }
            };
            assert(four[w] == four[i] && w != i);
            assert(is_common(four, i) == 1);
        } else {
            assert(is_common(four, i) == 0);
        }
        lemma_erxt_index_rank(t1, t2, n, k, i, j);
    }
}

/// How many of the first `k` steps of the edge-recombination child `child`
/// followed each parent, as a pair (first parent, second parent). A step from
/// a city that still has an unmet neighbour in either parent counts for the
/// parent in which the next city is next to it; where it is next to it in
/// both, for the first parent unless the first parent was followed more
/// often so far.
pub open spec fn erxt_follow_counts(t1: Seq<usize>, t2: Seq<usize>, n: nat, child: Seq<usize>, k: nat) -> (
    int,
    int,
)
    decreases k,
{
    if k == 0 {
        (0, 0)
    } else {
        let m = k - 1;
        let prev = erxt_follow_counts(t1, t2, n, child, (k - 1) as nat);
        let used = met_flags(child.take(m + 1), n);
        let c = child[m] as int;
        let nx = child[m + 1] as int;
        let in1 = tour_neighbour(t1, n, c, nx);
        let in2 = tour_neighbour(t2, n, c, nx);
        if used[succ_of(t1, n, c) as int] && used[pred_of(t1, n, c) as int] && used[succ_of(t2, n, c) as int]
            && used[pred_of(t2, n, c) as int] {
            prev
        } else if in1 && (!in2 || prev.1 >= prev.0) {
            (prev.0 + 1, prev.1)
        } else if in2 {
            (prev.0, prev.1 + 1)
        } else {
            prev
        }
    }
}

/// The counters of edge recombination count how often the child followed
/// each parent.
proof fn lemma_erxt_followed(t1: Seq<usize>, t2: Seq<usize>, n: nat, k: nat)
    requires
        is_tour(t1, n),
        is_tour(t2, n),
        n <= 1_000_000,
        k <= n - 1,
    ensures
        ({
            let st = erxt_state(succ_table(t1, n), pair_table(t1, n), pair_table(t2, n), n, k);
            let f = erxt_follow_counts(t1, t2, n, erxt_path(t1, t2, n), k);
            st.2 == f.0 && st.3 == f.1
        }),
    decreases k,
{
    if k > 0 {
        lemma_erxt_followed(t1, t2, n, (k - 1) as nat);
        let s1 = succ_table(t1, n);
        let e1 = pair_table(t1, n);
        let e2 = pair_table(t2, n);
        let child = erxt_path(t1, t2, n);
        let m = k - 1;
        lemma_erxt_state_shape(t1, t2, n, (n - 1) as nat);
        let full = erxt_state(s1, e1, e2, n, (n - 1) as nat);
        assert(child == full.0.push(0));
        let st = erxt_state(s1, e1, e2, n, m as nat);
        let st2 = erxt_state(s1, e1, e2, n, k);
        assert(st.0 == full.0.take(m + 1));
        assert(st2.0 == full.0.take(k as int + 1));
        lemma_erxt_state_shape(t1, t2, n, m as nat);
        assert(child.take(m + 1) =~= st.0);
        assert(child[m] == st.0.last());
        assert(child[m + 1] == st2.0[m + 1]);
        let cur = st.0.last();
        let c = cur as int;
        let four = quad(e1, e2, c);
        let used = st.1;
        lemma_pair_table_bounds(t1, n);
        lemma_pair_table_bounds(t2, n);
        assert(cur < n);
        assert(forall|q: int| 0 <= q < 4 ==> #[trigger] four[q] < n);
        lemma_pair_is_neighbours(t1, n, c);
        lemma_pair_is_neighbours(t2, n, c);
        lemma_pick_best(e1, e2, used, st.2, st.3, four, 0, None, -1_000_000_000);
        let r = erxt_pick(e1, e2, used, st.2, st.3, four, 0, None, -1_000_000_000);
        if used[succ_of(t1, n, c) as int] && used[pred_of(t1, n, c) as int] && used[succ_of(t2, n, c) as int]
            && used[pred_of(t2, n, c) as int] {
            assert(forall|q: int| 0 <= q < 4 ==> used[#[trigger] four[q] as int]);
            assert(r is None);
        } else {
            let q0: int = if !used[four[0] as int] {
                0
            } else if !used[four[1] as int] {
                1
            } else if !used[four[2] as int] {
                2
            } else {
                3
            };
            assert(!used[four[q0] as int]);
            assert(0 <= used_neighbours(e1, e2, used, four[q0] as int) <= 4);
            assert(erxt_priority(e1, e2, used, st.2, st.3, four, q0) > -1_000_000_000);
            assert(r is Some);
            let p = r.unwrap();
            assert(four[p] < 1_000_000);
            assert(st2.0 == st.0.push(four[p]));
            let nx = four[p] as int;
            assert(child[m + 1] as int == nx);
            if p < 2 {
                assert(tour_neighbour(t1, n, c, nx));
                if tour_neighbour(t2, n, c, nx) {
                    let w: int = if four[2] as int == nx { 2 } else { 3 };
                    assert(four[w] == four[p] && w != p);
                    assert(is_common(four, p) == 1);
                    assert(is_common(four, w) == 1);
                    assert(erxt_priority(e1, e2, used, st.2, st.3, four, w) <= erxt_priority(
                        e1,
                        e2,
                        used,
                        st.2,
                        st.3,
                        four,
                        p,
                    ));
                    assert(st.3 >= st.2);
                }
            } else {
                assert(tour_neighbour(t2, n, c, nx));
                if tour_neighbour(t1, n, c, nx) {
                    let w: int = if four[0] as int == nx { 0 } else { 1 };
                    assert(four[w] == four[p] && w != p);
                    assert(is_common(four, p) == 1);
                    assert(is_common(four, w) == 1);
                    assert(erxt_priority(e1, e2, used, st.2, st.3, four, w) < erxt_priority(
                        e1,
                        e2,
                        used,
                        st.2,
                        st.3,
                        four,
                        p,
                    ));
                    assert(st.3 < st.2);
                }
            }
        }
    }
}

/// How edge recombination weighs the two parents against each other. Take
/// two unused cities next to the child's city `c`: `x` in the first parent,
/// `y` in the second parent only. As a neighbour listed by the first parent,
/// `x` scores 2 if it is next to `c` in the second parent too, less the
/// number of its own neighbours already in the child, plus how often the
/// second parent was followed so far (`erxt_follow_counts`); `y` scores less
/// the number of its own neighbours already in the child, plus how often the
/// first parent was followed. The child does not move on to `y` when `x`
/// scores at least as much (ties go to the first parent), nor, where `x` is
/// next to `c` in the first parent only, to `x` when `y` scores more. (City 1_000_000 stands for "none chosen", hence at
/// most that many cities.)
pub proof fn lemma_erxt_ranks_across_parents(t1: Seq<usize>, t2: Seq<usize>, n: nat, k: int, x: int, y: int)
    requires
        is_tour(t1, n),
        is_tour(t2, n),
        n <= 1_000_000,
        0 <= k < n - 1,
        ({
            let child = erxt_path(t1, t2, n);
            let c = child[k] as int;
            let used = met_flags(child.take(k + 1), n);
            &&& tour_neighbour(t1, n, c, x)
            &&& tour_neighbour(t2, n, c, y) && !tour_neighbour(t1, n, c, y)
            &&& !used[x]
            &&& !used[y]
        }),
    ensures
        ({
            let child = erxt_path(t1, t2, n);
            let used = met_flags(child.take(k + 1), n);
            let f = erxt_follow_counts(t1, t2, n, child, k as nat);
            let shared_x: int = if tour_neighbour(t2, n, child[k] as int, x) {
                2
            } else {
                0
            };
            let score_x = shared_x + f.1 - used_neighbours(pair_table(t1, n), pair_table(t2, n), used, x);
            let score_y = f.0 - used_neighbours(pair_table(t1, n), pair_table(t2, n), used, y);
            &&& score_x >= score_y ==> child[k + 1] != y
            &&& score_y > score_x && shared_x == 0 ==> child[k + 1] != x
        }),
{
    let s1 = succ_table(t1, n);
    let e1 = pair_table(t1, n);
    let e2 = pair_table(t2, n);
    let child = erxt_path(t1, t2, n);
    lemma_erxt_state_shape(t1, t2, n, (n - 1) as nat);
    let full = erxt_state(s1, e1, e2, n, (n - 1) as nat);
    assert(child == full.0.push(0));
    let st = erxt_state(s1, e1, e2, n, k as nat);
    let st2 = erxt_state(s1, e1, e2, n, (k + 1) as nat);
    assert(st.0 == full.0.take(k + 1));
    assert(st2.0 == full.0.take(k + 2));
    lemma_erxt_state_shape(t1, t2, n, k as nat);
    assert(child.take(k + 1) =~= st.0);
    assert(child[k] == st.0.last());
    assert(child[k + 1] == st2.0[k + 1]);
    lemma_erxt_followed(t1, t2, n, k as nat);
    let cur = st.0.last();
    let c = cur as int;
    let four = quad(e1, e2, c);
    let used = st.1;
    lemma_pair_table_bounds(t1, n);
    lemma_pair_table_bounds(t2, n);
    assert(cur < n);
    assert(forall|q: int| 0 <= q < 4 ==> #[trigger] four[q] < n);
    lemma_pair_is_neighbours(t1, n, c);
    lemma_pair_is_neighbours(t2, n, c);
    let i: int = if four[0] as int == x { 0 } else { 1 };
    let j: int = if four[2] as int == y { 2 } else { 3 };
    assert(four[i] as int == x && four[j] as int == y);
    if tour_neighbour(t2, n, c, x) {
        let w: int = if four[2] as int == x { 2 } else { 3 };
        assert(four[w] == four[i] && w != i);
        assert(is_common(four, i) == 1);
    } else {
        assert(is_common(four, i) == 0);
    }
    assert(is_common(four, j) == 0);
    lemma_pick_best(e1, e2, used, st.2, st.3, four, 0, None, -1_000_000_000);
    let r = erxt_pick(e1, e2, used, st.2, st.3, four, 0, None, -1_000_000_000);
    let pi = erxt_priority(e1, e2, used, st.2, st.3, four, i);
    let pj = erxt_priority(e1, e2, used, st.2, st.3, four, j);
    assert(0 <= used_neighbours(e1, e2, used, four[i] as int) <= 4);
    assert(pi > -1_000_000_000);
    assert(r is Some);
    let p = r.unwrap();
    assert(four[p] < 1_000_000);
    assert(st2.0 == st.0.push(four[p]));
    if four[p] as int == y {
        if p != j {
            assert(is_common(four, j) == 1);
        }
    }
    if four[p] as int == x && !tour_neighbour(t2, n, c, x) {
        if p != i {
            assert(is_common(four, i) == 1);
        }
    }
}

} // verus!
