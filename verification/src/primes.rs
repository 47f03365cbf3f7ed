use vstd::prelude::*;

verus! {

/// `n` is a prime number: at least 2 and divisible by no number in `2..n`.
pub open spec fn is_prime(n: int) -> bool {
    &&& n >= 2
    &&& forall|d: int| 2 <= d < n ==> #[trigger] (n % d) != 0
}

/// `j` survives sieving by every number in `2..bound` that is smaller than `j`.
spec fn unmarked_below(j: int, bound: int) -> bool {
    &&& j >= 2
    &&& forall|d: int| 2 <= d < bound && d < j ==> #[trigger] (j % d) != 0
}

proof fn lemma_divides_transitive(j: int, i: int, d: int)
    requires
        2 <= d,
        2 <= i,
        0 <= j,
        j % i == 0,
        i % d == 0,
    ensures
        j % d == 0,
{
    let a = j / i;
    let b = i / d;
    assert(j == a * i) by (nonlinear_arith)
        requires
            j % i == 0,
            i >= 2,
            a == j / i,
    ;
    assert(i == b * d) by (nonlinear_arith)
        requires
            i % d == 0,
            d >= 2,
            b == i / d,
    ;
    assert(j == (a * b) * d) by (nonlinear_arith)
        requires
            j == a * i,
            i == b * d,
    ;
    assert((a * b) * d % d == 0) by (nonlinear_arith)
        requires
            d >= 2,
    ;
}

/// Table of primality for `0..limit`: entry `i` is `true` exactly when `i` is
/// prime (sieve of Eratosthenes).
pub fn get_primes(limit: usize) -> (res: Vec<bool>)
    requires
        limit >= 2,
    ensures
        res.len() == limit,
        forall|i: int| 0 <= i < limit ==> res[i] == is_prime(i),
{
    let mut res: Vec<bool> = Vec::new();
    let mut k: usize = 0;
    while k < limit
        invariant
            k <= limit,
            res.len() == k,
            forall|j: int| 0 <= j < k ==> res[j],
        decreases limit - k,
    {
        res.push(true);
        k = k + 1;
    }
    res.set(0, false);
    res.set(1, false);
    let mut i: usize = 2;
    while i < limit
        invariant
            2 <= i <= limit,
            res.len() == limit,
            forall|j: int| 0 <= j < limit ==> res[j] == unmarked_below(j, i as int),
        decreases limit - i,
    {
        if res[i] {
            let ghost before = res@;
            let mut j: usize = i;
            while j < limit - i
                invariant
                    2 <= i < limit,
                    i <= j < limit,
                    j % i == 0,
                    res.len() == limit,
                    before.len() == limit,
                    forall|m: int|
                        0 <= m < limit ==> #[trigger] res[m] == (before[m] && !(i < m <= j
                            && m % (i as int) == 0)),
                decreases limit - j,
            {
                proof {
                    lemma_divides_add(j as int, i as int);
                }
                let ghost prev = res@;
                j = j + i;
                res.set(j, false);
                assert forall|m: int| 0 <= m < limit implies #[trigger] res[m] == (before[m] && !(
                i < m <= j && m % (i as int) == 0)) by {
                    if m != j {
                        assert(res[m] == prev[m]);
                        if j - i < m < j {
                            lemma_between_multiples(m, i as int, (j - i) as int);
                        }
                    }
                }
            }
            proof {
                assert forall|m: int| 0 <= m < limit implies #[trigger] res[m] == unmarked_below(
                    m,
                    i + 1,
                ) by {
                    if i < m && m % (i as int) == 0 {
                        // m is a later multiple of i, reached by the inner loop
                        assert(m <= j) by {
                            lemma_next_multiple(m, i as int, j as int, limit as int);
                        }
                        assert(!unmarked_below(m, i + 1));
                    } else if unmarked_below(m, i as int) {
                        assert forall|d: int| 2 <= d < i + 1 && d < m implies #[trigger] (m % d)
                            != 0 by {
                            if d < i {
                            }
                        }
                    }
                }
            }
        } else {
            proof {
                // i is composite: a smaller divisor of i already removed its multiples
                assert(!unmarked_below(i as int, i as int));
                let d = choose|d: int| 2 <= d < i && d < i && #[trigger] ((i as int) % d) == 0;
                assert forall|m: int| 0 <= m < limit implies #[trigger] res[m] == unmarked_below(
                    m,
                    i + 1,
                ) by {
                    if i < m && m % (i as int) == 0 {
                        lemma_divides_transitive(m, i as int, d);
                        assert(m % d == 0);
                        assert(!unmarked_below(m, i as int));
                        assert(!unmarked_below(m, i + 1));
                    } else if unmarked_below(m, i as int) {
                        assert forall|e: int| 2 <= e < i + 1 && e < m implies #[trigger] (m % e)
                            != 0 by {
                            if e < i {
                            }
                        }
                    }
                }
            }
        }
        i = i + 1;
    }
    proof {
        assert forall|j: int| 0 <= j < limit implies res[j] == is_prime(j) by {
            if unmarked_below(j, limit as int) {
                assert forall|d: int| 2 <= d < j implies #[trigger] (j % d) != 0 by {
                    assert(d < limit);
                }
            }
        }
    }
    res
}

proof fn lemma_divides_add(j: int, i: int)
    requires
        i >= 1,
        j >= 0,
        j % i == 0,
    ensures
        (j + i) % i == 0,
{
    assert((j + i) % i == 0) by (nonlinear_arith)
        requires
            i >= 1,
            j >= 0,
            j % i == 0,
    ;
}

proof fn lemma_between_multiples(m: int, i: int, j: int)
    requires
        i >= 1,
        j >= 0,
        j % i == 0,
        j < m < j + i,
    ensures
        m % i != 0,
{
    assert(m % i != 0) by (nonlinear_arith)
        requires
            i >= 1,
            j >= 0,
            j % i == 0,
            j < m < j + i,
    ;
}

/// A multiple `m` of `i` above `i` that lies below `limit` is no later than the
/// last multiple `j` of `i` with `j + i >= limit`.
proof fn lemma_next_multiple(m: int, i: int, j: int, limit: int)
    requires
        i >= 2,
        i <= j,
        j % i == 0,
        j >= limit - i,
        m < limit,
        i < m,
        m % i == 0,
    ensures
        m <= j,
{
    if m > j {
        let a = m / i;
        let b = j / i;
        assert(m == a * i && j == b * i) by (nonlinear_arith)
            requires
                m % i == 0,
                j % i == 0,
                i >= 2,
                a == m / i,
                b == j / i,
        ;
        assert(a > b) by (nonlinear_arith)
            requires
                m == a * i,
                j == b * i,
                m > j,
                i >= 2,
        ;
        assert(m >= j + i) by (nonlinear_arith)
            requires
                m == a * i,
                j == b * i,
                a >= b + 1,
                i >= 2,
        ;
    }
}

} // verus!
