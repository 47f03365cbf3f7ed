use vstd::prelude::*;

verus! {

/// City `v` is held in one of the two slots of city `u`.
pub open spec fn adjacent(s: Seq<(usize, usize)>, u: int, v: int) -> bool {
    0 <= u < s.len() && 0 <= v < s.len() && (s[u].0 == v || s[u].1 == v)
}

/// `w` is a walk through the cities of `s`, each next to the one before.
pub open spec fn is_walk(s: Seq<(usize, usize)>, w: Seq<int>) -> bool {
    &&& w.len() >= 1
    &&& forall|i: int| 0 <= i < w.len() ==> 0 <= #[trigger] w[i] < s.len()
    &&& forall|i: int| 0 <= i < w.len() - 1 ==> adjacent(s, #[trigger] w[i], w[i + 1])
}

/// Some walk leads from `u` to `v`.
pub open spec fn connected(s: Seq<(usize, usize)>, u: int, v: int) -> bool {
    exists|w: Seq<int>| #[trigger] is_walk(s, w) && w[0] == u && w.last() == v
}

/// `v` is the smallest city of its cycle (of its connected part).
pub open spec fn leads(s: Seq<(usize, usize)>, v: int) -> bool {
    &&& 0 <= v < s.len()
    &&& forall|u: int| 0 <= u < v ==> !#[trigger] connected(s, u, v)
}

/// The number of cycles of the graph whose edges the slots `s` hold: one for
/// each connected part, counted by its smallest city.
pub open spec fn cycle_count(s: Seq<(usize, usize)>) -> nat {
    Set::new(|v: int| leads(s, v)).len()
}

/// Every city is connected to itself.
pub proof fn lemma_connected_refl(s: Seq<(usize, usize)>, u: int)
    requires
        0 <= u < s.len(),
    ensures
        connected(s, u, u),
{
    let w = seq![u];
    assert(is_walk(s, w));
}

/// A walk to `v` goes on to a city next to `v`.
pub proof fn lemma_connected_step(s: Seq<(usize, usize)>, u: int, v: int, x: int)
    requires
        connected(s, u, v),
        adjacent(s, v, x),
    ensures
        connected(s, u, x),
{
    let w = choose|w: Seq<int>| #[trigger] is_walk(s, w) && w[0] == u && w.last() == v;
    let w2 = w.push(x);
    assert(w2.last() == x);
    assert forall|i: int| 0 <= i < w2.len() - 1 implies adjacent(s, #[trigger] w2[i], w2[i + 1]) by {
        if i < w.len() - 1 {
            assert(w2[i] == w[i] && w2[i + 1] == w[i + 1]);
        } else {
            assert(w2[i] == v);
        }
    }
    assert(is_walk(s, w2));
}

/// Walks can be joined.
pub proof fn lemma_connected_trans(s: Seq<(usize, usize)>, u: int, v: int, x: int)
    requires
        connected(s, u, v),
        connected(s, v, x),
    ensures
        connected(s, u, x),
{
    let w = choose|w: Seq<int>| #[trigger] is_walk(s, w) && w[0] == v && w.last() == x;
    lemma_connected_along(s, u, w, w.len() as int);
}

proof fn lemma_connected_along(s: Seq<(usize, usize)>, u: int, w: Seq<int>, k: int)
    requires
        is_walk(s, w),
        connected(s, u, w[0]),
        1 <= k <= w.len(),
    ensures
        connected(s, u, w[k - 1]),
    decreases k,
{
    if k > 1 {
        lemma_connected_along(s, u, w, k - 1);
        assert(adjacent(s, w[k - 2], w[k - 1]));
        lemma_connected_step(s, u, w[k - 2], w[k - 1]);
    }
}

/// With slots that hold each other symmetrically, walks can be reversed.
pub proof fn lemma_connected_symm(s: Seq<(usize, usize)>, u: int, v: int)
    requires
        connected(s, u, v),
        forall|a: int, b: int| #[trigger] adjacent(s, a, b) ==> adjacent(s, b, a),
    ensures
        connected(s, v, u),
{
    let w = choose|w: Seq<int>| #[trigger] is_walk(s, w) && w[0] == u && w.last() == v;
    let r = w.reverse();
    assert forall|i: int| 0 <= i < r.len() - 1 implies adjacent(s, #[trigger] r[i], r[i + 1]) by {
        let j = w.len() - 2 - i;
        assert(r[i] == w[j + 1] && r[i + 1] == w[j]);
        assert(adjacent(s, w[j], w[j + 1]));
    }
    assert forall|i: int| 0 <= i < r.len() implies 0 <= #[trigger] r[i] < s.len() by {
        assert(r[i] == w[w.len() - 1 - i]);
    }
    assert(is_walk(s, r));
    assert(r[0] == v && r.last() == u);
}

/// Some city carries the label `l`.
pub open spec fn label_used(label: Seq<int>, l: int) -> bool {
    exists|v: int| 0 <= v < label.len() && label[v] == l
}

/// Cities connected by a walk get the same label when every two cities next
/// to each other do.
proof fn lemma_label_along(s: Seq<(usize, usize)>, label: Seq<int>, w: Seq<int>, k: int)
    requires
        label.len() == s.len(),
        forall|a: int, b: int| #[trigger] adjacent(s, a, b) ==> label[a] == label[b],
        is_walk(s, w),
        1 <= k <= w.len(),
    ensures
        label[w[0]] == label[w[k - 1]],
    decreases k,
{
    if k > 1 {
        lemma_label_along(s, label, w, k - 1);
        assert(adjacent(s, w[k - 2], w[k - 1]));
    }
}

/// Some city carries label `l` and none before it does, when some city
/// below `bound` carries it.
proof fn lemma_least_with_label(label: Seq<int>, l: int, bound: int) -> (v: int)
    requires
        0 <= bound <= label.len(),
        exists|x: int| 0 <= x < bound && label[x] == l,
    ensures
        0 <= v < bound,
        label[v] == l,
        forall|u: int| 0 <= u < v ==> label[u] != l,
    decreases bound,
{
    if exists|x: int| 0 <= x < bound - 1 && label[x] == l {
        lemma_least_with_label(label, l, bound - 1)
    } else {
        bound - 1
    }
}

/// When the cities are labelled `0..k` so that cities next to each other get
/// the same label, cities with the same label are connected, and every label
/// is used, there are exactly `k` cycles.
pub proof fn lemma_cycle_count_by_labels(s: Seq<(usize, usize)>, label: Seq<int>, k: nat)
    requires
        label.len() == s.len(),
        forall|v: int| 0 <= v < s.len() ==> 0 <= #[trigger] label[v] < k,
        forall|a: int, b: int| #[trigger] adjacent(s, a, b) ==> label[a] == label[b],
        forall|a: int, b: int|
            0 <= a < s.len() && 0 <= b < s.len() && #[trigger] label[a] == #[trigger] label[b] ==> connected(s, a, b),
        forall|l: int| 0 <= l < k ==> #[trigger] label_used(label, l),
    ensures
        cycle_count(s) == k,
{
    let n = s.len() as int;
    let lead = Set::new(|v: int| leads(s, v));
    let f = |v: int| label[v];
    assert forall|u: int, v: int| 0 <= u < n && 0 <= v < n && connected(s, u, v) implies label[u] == label[v] by {
        let w = choose|w: Seq<int>| #[trigger] is_walk(s, w) && w[0] == u && w.last() == v;
        lemma_label_along(s, label, w, w.len() as int);
    }
    assert forall|v: int| #[trigger] lead.contains(v) <==> (0 <= v < n && forall|u: int| 0 <= u < v ==> label[u]
        != label[v]) by {
        if 0 <= v < n {
            if forall|u: int| 0 <= u < v ==> label[u] != label[v] {
                assert forall|u: int| 0 <= u < v implies !#[trigger] connected(s, u, v) by {
                    if connected(s, u, v) {
                        assert(label[u] == label[v]);
                    }
                }
            }
            if leads(s, v) {
                assert forall|u: int| 0 <= u < v implies label[u] != label[v] by {
                    if label[u] == label[v] {
                        assert(connected(s, u, v));
                    }
                }
            }
        }
    }
    let dom = vstd::set_lib::set_int_range(0, n);
    vstd::set_lib::lemma_int_range(0, n);
    assert(lead.subset_of(dom));
    vstd::set_lib::lemma_len_subset(lead, dom);
    let img = lead.map(f);
    let labels = vstd::set_lib::set_int_range(0, k as int);
    vstd::set_lib::lemma_int_range(0, k as int);
    assert(vstd::relations::injective_on(f, lead)) by {
        assert forall|x1: int, x2: int| lead.contains(x1) && lead.contains(x2) && #[trigger] f(x1) == #[trigger] f(
            x2,
        ) implies x1 == x2 by {
            if x1 < x2 {
                assert(label[x1] != label[x2]);
            } else if x2 < x1 {
                assert(label[x2] != label[x1]);
            }
        }
    }
    vstd::set_lib::lemma_map_size(lead, img, f);
    assert forall|l: int| #[trigger] img.contains(l) <==> labels.contains(l) by {
        if labels.contains(l) {
            assert(label_used(label, l));
            let v = lemma_least_with_label(label, l, n);
            assert(lead.contains(v));
            assert(f(v) == l);
        }
        if img.contains(l) {
            let v = choose|v: int| lead.contains(v) && f(v) == l;
            assert(0 <= label[v] < k);
        }
    }
    assert(img =~= labels);
}

/// Cities connected by a walk get the same label when every two cities next
/// to each other do.
pub proof fn lemma_connected_same_label(s: Seq<(usize, usize)>, label: Seq<int>, a: int, b: int)
    requires
        label.len() == s.len(),
        forall|x: int, y: int| #[trigger] adjacent(s, x, y) ==> label[x] == label[y],
        connected(s, a, b),
    ensures
        label[a] == label[b],
{
    let w = choose|w: Seq<int>| #[trigger] is_walk(s, w) && w[0] == a && w.last() == b;
    lemma_label_along(s, label, w, w.len() as int);
}

} // verus!
