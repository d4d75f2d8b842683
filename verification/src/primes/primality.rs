//! Primes, and the numbers that the sieve crosses out.

use vstd::prelude::*;

verus! {

/// `n` is a prime: at least 2, with no divisor between 2 and itself.
pub open spec fn is_prime(n: int) -> bool {
    &&& n >= 2
    &&& forall|d: int| 2 <= d < n ==> #[trigger] (n % d) != 0
}

/// The odd prime `p` crosses out `n`: it divides `n`, and `n` is at least its square.
pub open spec fn crosses(p: int, n: int) -> bool {
    &&& 3 <= p
    &&& is_prime(p)
    &&& p * p <= n
    &&& n % p == 0
}

/// Some odd prime below `bound` crosses out `n`.
pub open spec fn crossed_out_below(n: int, bound: int) -> bool {
    exists|p: int| p < bound && #[trigger] crosses(p, n)
}

/// Some odd prime crosses out `n`.
pub open spec fn crossed_out(n: int) -> bool {
    exists|p: int| #[trigger] crosses(p, n)
}

/// How many `v` in `lo..hi` have property `p`.
pub open spec fn count_where(p: spec_fn(int) -> bool, lo: int, hi: int) -> nat
    decreases hi - lo,
{
    if hi <= lo {
        0
    } else {
        count_where(p, lo, hi - 1) + if p(hi - 1) {
            1nat
        } else {
            0nat
        }
    }
}

/// The `v` in `lo..hi` that have property `p`, in increasing order.
pub open spec fn list_where(p: spec_fn(int) -> bool, lo: int, hi: int) -> Seq<int>
    decreases hi - lo,
{
    if hi <= lo {
        Seq::empty()
    } else if p(hi - 1) {
        list_where(p, lo, hi - 1).push(hi - 1)
    } else {
        list_where(p, lo, hi - 1)
    }
}

/// The number of primes below `n`.
pub open spec fn prime_count(n: int) -> nat {
    count_where(|v: int| is_prime(v), 0, n)
}

/// The primes below `n`, in increasing order.
pub open spec fn primes_below(n: int) -> Seq<int> {
    list_where(|v: int| is_prime(v), 0, n)
}

/// If `e` divides `d` and `d` divides `n`, then `e` divides `n`.
pub proof fn lemma_divides_transitive(e: int, d: int, n: int)
    requires
        e > 0,
        d > 0,
        n >= 0,
        d % e == 0,
        n % d == 0,
    ensures
        n % e == 0,
{
    let a = n / d;
    let b = d / e;
    vstd::arithmetic::div_mod::lemma_fundamental_div_mod(n, d);
    vstd::arithmetic::div_mod::lemma_fundamental_div_mod(d, e);
    assert(n == e * (b * a)) by (nonlinear_arith)
        requires
            n == d * a,
            d == e * b,
    ;
    vstd::arithmetic::div_mod::lemma_fundamental_div_mod_converse(n, e, b * a, 0);
}

/// The least divisor of `n` from `k` on, when none lies between 2 and `k`.
proof fn least_divisor_from(n: int, k: int) -> (d: int)
    requires
        2 <= k <= n,
        forall|e: int| 2 <= e < k ==> #[trigger] (n % e) != 0,
    ensures
        k <= d <= n,
        n % d == 0,
        forall|e: int| 2 <= e < d ==> #[trigger] (n % e) != 0,
    decreases n - k,
{
    if n % k == 0 {
        k
    } else {
        if k == n {
            vstd::arithmetic::div_mod::lemma_mod_self_0(n);
        }
        least_divisor_from(n, k + 1)
    }
}

/// The least divisor of `n` above 1 is a prime, and when `n` is not itself a prime
/// its square is at most `n`.
pub proof fn lemma_least_prime_factor(n: int) -> (d: int)
    requires
        n >= 2,
    ensures
        2 <= d <= n,
        n % d == 0,
        is_prime(d),
        forall|e: int| 2 <= e < d ==> #[trigger] (n % e) != 0,
        !is_prime(n) ==> d * d <= n,
{
    let d = least_divisor_from(n, 2);
    assert forall|e: int| 2 <= e < d implies #[trigger] (d % e) != 0 by {
        if d % e == 0 {
            lemma_divides_transitive(e, d, n);
        }
    }
    if !is_prime(n) {
        let w = choose|w: int| 2 <= w < n && #[trigger] (n % w) == 0;
        assert(d < n);
        let k = n / d;
        vstd::arithmetic::div_mod::lemma_fundamental_div_mod(n, d);
        assert(n == d * k);
        assert(k >= 2) by (nonlinear_arith)
            requires
                n == d * k,
                d < n,
                d >= 2,
        ;
        assert(k <= n) by (nonlinear_arith)
            requires
                n == d * k,
                d >= 2,
                k >= 2,
        ;
        vstd::arithmetic::div_mod::lemma_fundamental_div_mod_converse(n, k, d, 0);
        assert(n % k == 0);
        assert(k >= d);
        assert(d * d <= n) by (nonlinear_arith)
            requires
                n == d * k,
                k >= d,
                d >= 2,
        ;
    }
    d
}

/// A prime above 2 is odd.
pub proof fn lemma_odd_prime(p: int)
    requires
        is_prime(p),
        p >= 3,
    ensures
        p % 2 == 1,
{
    assert(p % 2 != 0);
}

/// No odd prime crosses out a prime.
pub proof fn lemma_prime_not_crossed_out(n: int)
    requires
        is_prime(n),
    ensures
        !crossed_out(n),
{
    if crossed_out(n) {
        let p = choose|p: int| #[trigger] crosses(p, n);
        if p < n {
            assert(n % p != 0);
        } else {
            assert(p * p > n) by (nonlinear_arith)
                requires
                    p >= n,
                    n >= 2,
            ;
        }
    }
}

/// An odd number is crossed out by no odd prime exactly when it is 1 or a prime.
pub proof fn lemma_uncrossed_odd_is_prime(n: int)
    requires
        n >= 1,
        n % 2 == 1,
    ensures
        !crossed_out(n) <==> (n == 1 || is_prime(n)),
{
    if n == 1 {
        if crossed_out(n) {
            let p = choose|p: int| #[trigger] crosses(p, n);
            assert(p * p > 1) by (nonlinear_arith)
                requires
                    p >= 3,
            ;
        }
    } else if is_prime(n) {
        lemma_prime_not_crossed_out(n);
    } else {
        let d = lemma_least_prime_factor(n);
        if d == 2 {
            assert(n % 2 == 0);
        }
        assert(crosses(d, n));
    }
}

/// Properties that agree on `lo..hi` hold as often there.
pub proof fn lemma_count_where_agree(p: spec_fn(int) -> bool, q: spec_fn(int) -> bool, lo: int, hi: int)
    requires
        forall|v: int| lo <= v < hi ==> #[trigger] p(v) == q(v),
    ensures
        count_where(p, lo, hi) == count_where(q, lo, hi),
    decreases hi - lo,
{
    if hi > lo {
        lemma_count_where_agree(p, q, lo, hi - 1);
    }
}

/// Properties that agree on `lo..hi` pick out the same numbers there.
pub proof fn lemma_list_where_agree(p: spec_fn(int) -> bool, q: spec_fn(int) -> bool, lo: int, hi: int)
    requires
        forall|v: int| lo <= v < hi ==> #[trigger] p(v) == q(v),
    ensures
        list_where(p, lo, hi) == list_where(q, lo, hi),
    decreases hi - lo,
{
    if hi > lo {
        lemma_list_where_agree(p, q, lo, hi - 1);
    }
}

} // verus!
