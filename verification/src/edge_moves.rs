use vstd::prelude::*;
use crate::two_edges::{TwoEdges, NOEDGE};

verus! {

/// The two slots of `t` as a pair.
pub open spec fn pair_of(t: TwoEdges) -> (usize, usize) {
    (t.edges[0], t.edges[1])
}

/// The slots of every city, as pairs.
pub open spec fn slot_pairs(slots: Seq<TwoEdges>) -> Seq<(usize, usize)> {
    Seq::new(slots.len(), |v: int| pair_of(slots[v]))
}

/// The slots `e` after emptying the first one that holds `x`; `None` when
/// neither holds it.
pub open spec fn take_out(e: (usize, usize), x: usize) -> Option<(usize, usize)> {
    if e.0 == x {
        Some((NOEDGE, e.1))
    } else if e.1 == x {
        Some((e.0, NOEDGE))
    } else {
        None
    }
}

/// The slots `e` after putting `x` into the first empty one; `None` when both
/// are full.
pub open spec fn put_in(e: (usize, usize), x: usize) -> Option<(usize, usize)> {
    if e.0 == NOEDGE {
        Some((x, e.1))
    } else if e.1 == NOEDGE {
        Some((e.0, x))
    } else {
        None
    }
}

/// Removing the edge `a`-`b`: `b` leaves the slots of `a`, then `a` leaves the
/// slots of `b`. `None` when a city is out of range or lacks the other.
pub open spec fn unlink(s: Seq<(usize, usize)>, a: usize, b: usize) -> Option<Seq<(usize, usize)>> {
    if a < s.len() && take_out(s[a as int], b) is Some {
        let s1 = s.update(a as int, take_out(s[a as int], b).unwrap());
        if b < s1.len() && take_out(s1[b as int], a) is Some {
            Some(s1.update(b as int, take_out(s1[b as int], a).unwrap()))
        } else {
            None
        }
    } else {
        None
    }
}

/// Adding the edge `a`-`b`: `b` enters the slots of `a`, then `a` enters the
/// slots of `b`. `None` when a city is out of range or has no empty slot.
pub open spec fn link(s: Seq<(usize, usize)>, a: usize, b: usize) -> Option<Seq<(usize, usize)>> {
    if a < s.len() && put_in(s[a as int], b) is Some {
        let s1 = s.update(a as int, put_in(s[a as int], b).unwrap());
        if b < s1.len() && put_in(s1[b as int], a) is Some {
            Some(s1.update(b as int, put_in(s1[b as int], a).unwrap()))
        } else {
            None
        }
    } else {
        None
    }
}

/// Removing the edges of `edges` one after the other.
pub open spec fn unlink_all(s: Seq<(usize, usize)>, edges: Seq<(usize, usize)>) -> Option<
    Seq<(usize, usize)>,
>
    decreases edges.len(),
{
    if edges.len() == 0 {
        Some(s)
    } else {
        match unlink_all(s, edges.drop_last()) {
            Some(s1) => unlink(s1, edges.last().0, edges.last().1),
            None => None,
        }
    }
}

/// Adding the edges of `edges` one after the other.
pub open spec fn link_all(s: Seq<(usize, usize)>, edges: Seq<(usize, usize)>) -> Option<
    Seq<(usize, usize)>,
>
    decreases edges.len(),
{
    if edges.len() == 0 {
        Some(s)
    } else {
        match link_all(s, edges.drop_last()) {
            Some(s1) => link(s1, edges.last().0, edges.last().1),
            None => None,
        }
    }
}

/// The slots after removing every edge of `removed`, then adding every edge of
/// `added`; `None` when one of these steps is impossible.
pub open spec fn apply_moves(
    s: Seq<(usize, usize)>,
    added: Seq<(usize, usize)>,
    removed: Seq<(usize, usize)>,
) -> Option<Seq<(usize, usize)>> {
    match unlink_all(s, removed) {
        Some(s1) => link_all(s1, added),
        None => None,
    }
}

/// One step of the walk along the slots: from `cur`, reached from `prev`, to
/// the city in `cur`'s first slot unless that is `prev`, else to the city in its
/// second slot. `None` when `cur` is out of range or a needed slot is empty.
pub open spec fn walk_step(s: Seq<(usize, usize)>, prev: usize, cur: usize) -> Option<(usize, usize)> {
    if cur >= s.len() || s[cur as int].0 == NOEDGE {
        None
    } else if s[cur as int].0 != prev {
        Some((cur, s[cur as int].0))
    } else if s[cur as int].1 == NOEDGE {
        None
    } else {
        Some((cur, s[cur as int].1))
    }
}

/// The (previous, current) cities after `k` steps of the walk that starts from
/// city 0 into the city of its first slot; once back at city 0 the walk stays.
pub open spec fn walk_state(s: Seq<(usize, usize)>, k: nat) -> Option<(usize, usize)>
    decreases k,
{
    if k == 0 {
        if s.len() > 0 && s[0].0 != NOEDGE {
            Some((0usize, s[0].0))
        } else {
            None
        }
    } else {
        match walk_state(s, (k - 1) as nat) {
            Some(st) => if st.1 == 0 {
                Some(st)
            } else {
                walk_step(s, st.0, st.1)
            },
            None => None,
        }
    }
}

/// The walk never meets an out-of-range city or an empty slot it needs.
pub open spec fn walk_ok(s: Seq<(usize, usize)>) -> bool {
    forall|k: nat| #[trigger] walk_state(s, k) is Some
}

/// The walk is first back at city 0 after step `m`.
pub open spec fn closes_at(s: Seq<(usize, usize)>, m: nat) -> bool {
    &&& walk_state(s, m) is Some
    &&& walk_state(s, m).unwrap().1 == 0
    &&& forall|j: nat| j < m ==> (#[trigger] walk_state(s, j)) is Some && walk_state(s, j).unwrap().1 != 0
}

/// The cities met by the walk: city 0, then the current city after each of
/// the first `len - 1` steps.
pub open spec fn walk_cities(s: Seq<(usize, usize)>, len: nat) -> Seq<usize> {
    Seq::new(len, |i: int| if i == 0 { 0usize } else { walk_state(s, (i - 1) as nat).unwrap().1 })
}

/// The slots describe a single closed tour through all `s.len()` cities when
/// the walk first comes back to city 0 after exactly `s.len()` moves; the tour
/// is then the list of cities met.
pub open spec fn walk_result(s: Seq<(usize, usize)>) -> Option<Seq<usize>> {
    if s.len() >= 1 && closes_at(s, (s.len() - 1) as nat) {
        Some(walk_cities(s, (s.len() + 1) as nat))
    } else {
        None
    }
}

proof fn lemma_unlink_all_prefix(s: Seq<(usize, usize)>, edges: Seq<(usize, usize)>, k: int)
    requires
        0 <= k <= edges.len(),
        unlink_all(s, edges) is Some,
    ensures
        unlink_all(s, edges.take(k)) is Some,
    decreases edges.len(),
{
    if k == edges.len() {
        assert(edges.take(k) =~= edges);
    } else {
        lemma_unlink_all_prefix(s, edges.drop_last(), k);
        assert(edges.drop_last().take(k) =~= edges.take(k));
    }
}

proof fn lemma_link_all_prefix(s: Seq<(usize, usize)>, edges: Seq<(usize, usize)>, k: int)
    requires
        0 <= k <= edges.len(),
        link_all(s, edges) is Some,
    ensures
        link_all(s, edges.take(k)) is Some,
    decreases edges.len(),
{
    if k == edges.len() {
        assert(edges.take(k) =~= edges);
    } else {
        lemma_link_all_prefix(s, edges.drop_last(), k);
        assert(edges.drop_last().take(k) =~= edges.take(k));
    }
}

fn unlink_edge(slots: &mut Vec<TwoEdges>, a: usize, b: usize)
    requires
        unlink(slot_pairs(old(slots)@), a, b) is Some,
    ensures
        slot_pairs(final(slots)@) == unlink(slot_pairs(old(slots)@), a, b).unwrap(),
{
    let ghost s0 = slot_pairs(slots@);
    let mut e = slots[a];
    e.remove(b);
    slots.set(a, e);
    assert(slot_pairs(slots@) =~= s0.update(a as int, take_out(s0[a as int], b).unwrap()));
    let ghost s1 = slot_pairs(slots@);
    let mut f = slots[b];
    f.remove(a);
    slots.set(b, f);
    assert(slot_pairs(slots@) =~= s1.update(b as int, take_out(s1[b as int], a).unwrap()));
}

fn link_edge(slots: &mut Vec<TwoEdges>, a: usize, b: usize)
    requires
        link(slot_pairs(old(slots)@), a, b) is Some,
    ensures
        slot_pairs(final(slots)@) == link(slot_pairs(old(slots)@), a, b).unwrap(),
{
    let ghost s0 = slot_pairs(slots@);
    let mut e = slots[a];
    e.add(b);
    slots.set(a, e);
    assert(slot_pairs(slots@) =~= s0.update(a as int, put_in(s0[a as int], b).unwrap()));
    let ghost s1 = slot_pairs(slots@);
    let mut f = slots[b];
    f.add(a);
    slots.set(b, f);
    assert(slot_pairs(slots@) =~= s1.update(b as int, put_in(s1[b as int], a).unwrap()));
}

/// Removes the edges of `removed`, then adds those of `added`, in order.
pub(crate) fn apply_changes(
    slots: &mut Vec<TwoEdges>,
    added: &[(usize, usize)],
    removed: &[(usize, usize)],
)
    requires
        apply_moves(slot_pairs(old(slots)@), added@, removed@) is Some,
    ensures
        slot_pairs(final(slots)@) == apply_moves(slot_pairs(old(slots)@), added@, removed@).unwrap(),
{
    let ghost s0 = slot_pairs(slots@);
    let mut i: usize = 0;
    while i < removed.len()
        invariant
            i <= removed.len(),
            unlink_all(s0, removed@) is Some,
            link_all(unlink_all(s0, removed@).unwrap(), added@) is Some,
            unlink_all(s0, removed@.take(i as int)) is Some,
            slot_pairs(slots@) == unlink_all(s0, removed@.take(i as int)).unwrap(),
        decreases removed.len() - i,
    {
        proof {
            lemma_unlink_all_prefix(s0, removed@, i + 1);
            assert(removed@.take(i + 1).drop_last() =~= removed@.take(i as int));
        }
        let (a, b) = removed[i];
        unlink_edge(slots, a, b);
        i = i + 1;
    }
    proof {
        assert(removed@.take(removed.len() as int) =~= removed@);
    }
    let ghost s1 = slot_pairs(slots@);
    let mut j: usize = 0;
    while j < added.len()
        invariant
            j <= added.len(),
            link_all(s1, added@) is Some,
            link_all(s1, added@.take(j as int)) is Some,
            slot_pairs(slots@) == link_all(s1, added@.take(j as int)).unwrap(),
        decreases added.len() - j,
    {
        proof {
            lemma_link_all_prefix(s1, added@, j + 1);
            assert(added@.take(j + 1).drop_last() =~= added@.take(j as int));
        }
        let (a, b) = added[j];
        link_edge(slots, a, b);
        j = j + 1;
    }
    proof {
        assert(added@.take(added.len() as int) =~= added@);
    }
}

/// The walk does not get stuck during its first `m` moves.
pub open spec fn walk_ok_within(s: Seq<(usize, usize)>, m: nat) -> bool {
    forall|k: nat| k < m ==> #[trigger] walk_state(s, k) is Some
}

/// Once back at city 0 the walk stays there.
proof fn lemma_walk_stays(s: Seq<(usize, usize)>, j: nat, k: nat)
    requires
        walk_state(s, j) is Some,
        walk_state(s, j).unwrap().1 == 0,
        j <= k,
    ensures
        walk_state(s, k) == walk_state(s, j),
    decreases k - j,
{
    if j < k {
        lemma_walk_stays(s, j, (k - 1) as nat);
    }
}

/// `walk_slots` for any slots: `None` when the walk gets stuck (meets an
/// empty slot or a city out of range) during its first moves, as many as
/// there are cities; otherwise what `walk_slots` gives.
pub(crate) fn walk_slots_checked(slots: &Vec<TwoEdges>) -> (r: Option<Option<Vec<usize>>>)
    requires
        slots.len() >= 1,
    ensures
        r is None <==> !walk_ok_within(slot_pairs(slots@), slots.len() as nat),
        r matches Some(x) ==> (x is Some <==> walk_result(slot_pairs(slots@)) is Some),
        r matches Some(Some(p)) ==> p@ == walk_result(slot_pairs(slots@)).unwrap(),
{
    let ghost s = slot_pairs(slots@);
    let n = slots.len();
    let first = slots[0].get(0);
    if first.is_none() {
        proof {
            assert(walk_state(s, 0) is None);
            assert(!walk_ok_within(s, n as nat));
        }
        return None;
    }
    let mut cur = first.unwrap();
    let mut prev: usize = 0;
    let mut steps: usize = 1;
    let mut path: Vec<usize> = Vec::new();
    path.push(prev);
    path.push(cur);
    while cur != 0
        invariant
            n == slots.len(),
            s == slot_pairs(slots@),
            1 <= steps <= n,
            walk_state(s, (steps - 1) as nat) == Some((prev, cur)),
            forall|j: nat| j < steps ==> (#[trigger] walk_state(s, j)) is Some,
            forall|j: nat| j < steps - 1 ==> (#[trigger] walk_state(s, j)).unwrap().1 != 0,
            path@ == walk_cities(s, (steps + 1) as nat),
        decreases n - steps,
    {
        if steps == n {
            proof {
                assert(!closes_at(s, (n - 1) as nat));
                assert(walk_ok_within(s, n as nat));
            }
            return Some(None);
        }
        if cur >= n {
            proof {
                assert(walk_state(s, steps as nat) is None);
            }
            return None;
        }
        let a = slots[cur].get(0);
        if a.is_none() {
            proof {
                assert(walk_state(s, steps as nat) is None);
            }
            return None;
        }
        let a = a.unwrap();
        if a != prev {
            prev = cur;
            cur = a;
        } else {
            let b = slots[cur].get(1);
            if b.is_none() {
                proof {
                    assert(walk_state(s, steps as nat) is None);
                }
                return None;
            }
            prev = cur;
            cur = b.unwrap();
        }
        steps = steps + 1;
        path.push(cur);
        proof {
            assert(path@ =~= walk_cities(s, (steps + 1) as nat));
        }
    }
    proof {
        assert(closes_at(s, (steps - 1) as nat));
        assert forall|k: nat| k < n implies #[trigger] walk_state(s, k) is Some by {
            if k >= steps {
                lemma_walk_stays(s, (steps - 1) as nat, k);
            }
        }
    }
    if steps == n {
        Some(Some(path))
    } else {
        proof {
            if closes_at(s, (n - 1) as nat) {
                assert(walk_state(s, (steps - 1) as nat).unwrap().1 == 0);
            }
        }
        Some(None)
    }
}

/// Walks the slots from city 0 as `walk_state` describes and returns the
/// cities met when the walk closes after exactly as many moves as there are
/// cities. Since the walk can only close after that many moves to be a tour,
/// it gives up (with `None`) as soon as it has made that many moves without
/// closing.
pub(crate) fn walk_slots(slots: &Vec<TwoEdges>) -> (r: Option<Vec<usize>>)
    requires
        slots.len() >= 1,
        walk_ok(slot_pairs(slots@)),
    ensures
        r is Some <==> walk_result(slot_pairs(slots@)) is Some,
        r is Some ==> r.unwrap()@ == walk_result(slot_pairs(slots@)).unwrap(),
{
    let ghost s = slot_pairs(slots@);
    let n = slots.len();
    assert(walk_state(s, 0) is Some);
    let mut cur = slots[0].get(0).unwrap();
    let mut prev: usize = 0;
    let mut steps: usize = 1;
    let mut path: Vec<usize> = Vec::new();
    path.push(prev);
    path.push(cur);
    while cur != 0
        invariant
            n == slots.len(),
            s == slot_pairs(slots@),
            walk_ok(s),
            1 <= steps <= n,
            walk_state(s, (steps - 1) as nat) == Some((prev, cur)),
            forall|j: nat| j < steps - 1 ==> (#[trigger] walk_state(s, j)).unwrap().1 != 0,
            path@ == walk_cities(s, (steps + 1) as nat),
        decreases n - steps,
    {
        if steps == n {
            proof {
                assert(!closes_at(s, (n - 1) as nat));
            }
            return None;
        }
        assert(walk_state(s, steps as nat) is Some);
        assert(walk_state(s, steps as nat) == walk_step(s, prev, cur));
        if slots[cur].get(0).unwrap() != prev {
            prev = cur;
            cur = slots[cur].get(0).unwrap();
        } else {
            prev = cur;
            cur = slots[cur].get(1).unwrap();
        }
        steps = steps + 1;
        path.push(cur);
        proof {
            assert(path@ =~= walk_cities(s, (steps + 1) as nat));
        }
    }
    proof {
        assert(closes_at(s, (steps - 1) as nat));
    }
    if steps == n {
        Some(path)
    } else {
        proof {
            if closes_at(s, (n - 1) as nat) {
                assert(walk_state(s, (steps - 1) as nat).unwrap().1 == 0);
            }
        }
        None
    }
}


/// Both slots of every city hold a city in range.
pub open spec fn slots_full(s: Seq<(usize, usize)>) -> bool {
    forall|v: int| 0 <= v < s.len() ==> #[trigger] slot_full(s[v], s.len())
}

/// Both slots of `e` hold a city below `n`.
pub open spec fn slot_full(e: (usize, usize), n: nat) -> bool {
    e.0 != NOEDGE && e.1 != NOEDGE && e.0 < n && e.1 < n
}

proof fn lemma_full_walk(s: Seq<(usize, usize)>, k: nat)
    requires
        s.len() >= 1,
        slots_full(s),
    ensures
        walk_state(s, k) is Some,
        walk_state(s, k).unwrap().1 < s.len(),
    decreases k,
{
    if k > 0 {
        lemma_full_walk(s, (k - 1) as nat);
        let c = walk_state(s, (k - 1) as nat).unwrap().1;
        assert(slot_full(s[c as int], s.len()));
    } else {
        assert(slot_full(s[0], s.len()));
    }
}

/// When every slot is full, the walk never gets stuck.
pub proof fn lemma_full_slots_walk_ok(s: Seq<(usize, usize)>)
    requires
        s.len() >= 1,
        slots_full(s),
    ensures
        walk_ok(s),
{
    assert forall|k: nat| #[trigger] walk_state(s, k) is Some by {
        lemma_full_walk(s, k);
    }
}

/// Removes the edge `a`-`b` when that is possible; reports whether it was.
fn try_unlink_edge(slots: &mut Vec<TwoEdges>, a: usize, b: usize) -> (ok: bool)
    ensures
        ok == unlink(slot_pairs(old(slots)@), a, b) is Some,
        ok ==> slot_pairs(final(slots)@) == unlink(slot_pairs(old(slots)@), a, b).unwrap(),
{
    if a >= slots.len() || !slots[a].has(b) {
        return false;
    }
    let ghost s0 = slot_pairs(slots@);
    let s1_a = slots[a];
    let mut e = s1_a;
    e.remove(b);
    let ghost s1 = s0.update(a as int, take_out(s0[a as int], b).unwrap());
    let f0 = if b == a {
        e
    } else if b < slots.len() {
        slots[b]
    } else {
        return false;
    };
    if !f0.has(a) {
        return false;
    }
    unlink_edge(slots, a, b);
    true
}

/// Adds the edge `a`-`b` when that is possible; reports whether it was.
fn try_link_edge(slots: &mut Vec<TwoEdges>, a: usize, b: usize) -> (ok: bool)
    ensures
        ok == link(slot_pairs(old(slots)@), a, b) is Some,
        ok ==> slot_pairs(final(slots)@) == link(slot_pairs(old(slots)@), a, b).unwrap(),
{
    if a >= slots.len() || (slots[a].edges[0] != NOEDGE && slots[a].edges[1] != NOEDGE) {
        return false;
    }
    let mut e = slots[a];
    e.add(b);
    let f0 = if b == a {
        e
    } else if b < slots.len() {
        slots[b]
    } else {
        return false;
    };
    if f0.edges[0] != NOEDGE && f0.edges[1] != NOEDGE {
        return false;
    }
    link_edge(slots, a, b);
    true
}

/// Removes the edges of `removed`, then adds those of `added`, in order, as
/// long as each step is possible; reports whether all were.
pub(crate) fn try_apply_changes(
    slots: &mut Vec<TwoEdges>,
    added: &[(usize, usize)],
    removed: &[(usize, usize)],
) -> (ok: bool)
    ensures
        ok == apply_moves(slot_pairs(old(slots)@), added@, removed@) is Some,
        ok ==> slot_pairs(final(slots)@) == apply_moves(slot_pairs(old(slots)@), added@, removed@).unwrap(),
{
    let ghost s0 = slot_pairs(slots@);
    let mut i: usize = 0;
    while i < removed.len()
        invariant
            i <= removed.len(),
            s0 == slot_pairs(old(slots)@),
            unlink_all(s0, removed@.take(i as int)) is Some,
            slot_pairs(slots@) == unlink_all(s0, removed@.take(i as int)).unwrap(),
        decreases removed.len() - i,
    {
        proof {
            assert(removed@.take(i + 1).drop_last() =~= removed@.take(i as int));
            assert(removed@.take(i + 1).last() == removed@[i as int]);
        }
        let (a, b) = removed[i];
        let ghost cur = slot_pairs(slots@);
        if !try_unlink_edge(slots, a, b) {
            proof {
                assert(unlink(cur, a, b) is None);
                assert(unlink_all(s0, removed@.take(i + 1)) is None);
                if unlink_all(s0, removed@) is Some {
                    lemma_unlink_all_prefix(s0, removed@, i + 1);
                }
            }
            return false;
        }
        i = i + 1;
    }
    proof {
        assert(removed@.take(removed.len() as int) =~= removed@);
    }
    let ghost s1 = slot_pairs(slots@);
    let mut j: usize = 0;
    while j < added.len()
        invariant
            j <= added.len(),
            s0 == slot_pairs(old(slots)@),
            unlink_all(s0, removed@) == Some(s1),
            link_all(s1, added@.take(j as int)) is Some,
            slot_pairs(slots@) == link_all(s1, added@.take(j as int)).unwrap(),
        decreases added.len() - j,
    {
        proof {
            assert(added@.take(j + 1).drop_last() =~= added@.take(j as int));
            assert(added@.take(j + 1).last() == added@[j as int]);
        }
        let (a, b) = added[j];
        let ghost cur = slot_pairs(slots@);
        if !try_link_edge(slots, a, b) {
            proof {
                assert(link(cur, a, b) is None);
                assert(link_all(s1, added@.take(j + 1)) is None);
                if link_all(s1, added@) is Some {
                    lemma_link_all_prefix(s1, added@, j + 1);
                }
            }
            return false;
        }
        j = j + 1;
    }
    proof {
        assert(added@.take(added.len() as int) =~= added@);
    }
    true
}

/// Whether both slots of every city hold a city in range.
pub(crate) fn all_slots_full(slots: &Vec<TwoEdges>) -> (ok: bool)
    ensures
        ok == slots_full(slot_pairs(slots@)),
{
    let n = slots.len();
    let mut v: usize = 0;
    while v < n
        invariant
            v <= n,
            n == slots.len(),
            forall|w: int| 0 <= w < v ==> #[trigger] slot_full(slot_pairs(slots@)[w], n as nat),
        decreases n - v,
    {
        let e = slots[v].edges;
        assert(slot_pairs(slots@)[v as int] == (e[0], e[1]));
        if e[0] == NOEDGE || e[1] == NOEDGE || e[0] >= n || e[1] >= n {
            assert(!slot_full(slot_pairs(slots@)[v as int], slot_pairs(slots@).len()));
            return false;
        }
        v = v + 1;
    }
    true
}

} // verus!
