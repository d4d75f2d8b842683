//! The sieve itself, which works with any flag storage. It only stores odd numbers:
//! flag `i` stands for the number `2 * i + 1`.

use vstd::prelude::*;

use crate::primes::primality::{
    count_where, crossed_out, crossed_out_below, crosses, is_prime, lemma_count_where_agree,
    lemma_least_prime_factor, lemma_list_where_agree, lemma_odd_prime, lemma_prime_not_crossed_out,
    lemma_uncrossed_odd_is_prime, list_where, prime_count, primes_below,
};
use crate::primes::storage::{all_set, is_struck, FlagStorage};

verus! {

/// The integer square root: the largest `r` with `r * r <= n`.
pub open spec fn is_isqrt(n: int, r: int) -> bool {
    &&& 0 <= r
    &&& r * r <= n
    &&& n < (r + 1) * (r + 1)
}

/// `x <= n / d` exactly when `x * d <= n`.
proof fn lemma_le_div(x: int, n: int, d: int)
    requires
        d > 0,
        n >= 0,
        x >= 0,
    ensures
        (x <= n / d) <==> (x * d <= n),
{
    vstd::arithmetic::div_mod::lemma_fundamental_div_mod(n, d);
    let q = n / d;
    let r = n % d;
    assert(n == d * q + r && 0 <= r < d);
    if x <= q {
        assert(x * d <= n) by (nonlinear_arith)
            requires
                x <= q,
                d > 0,
                n == d * q + r,
                0 <= r,
        ;
    } else {
        assert(x * d > n) by (nonlinear_arith)
            requires
                x >= q + 1,
                d > 0,
                n == d * q + r,
                r < d,
        ;
    }
}

/// The largest `r` with `r * r <= n`.
pub fn isqrt(n: usize) -> (r: usize)
    ensures
        is_isqrt(n as int, r as int),
{
    let mut r: usize = 0;
    loop
        invariant
            r * r <= n,
        decreases n - r,
    {
        assert(r < usize::MAX) by (nonlinear_arith)
            requires
                r * r <= n,
                n <= usize::MAX,
                usize::MAX >= 2,
        ;
        proof {
            lemma_le_div((r + 1) as int, n as int, (r + 1) as int);
        }
        if r + 1 > n / (r + 1) {
            return r;
        }
        assert(r + 1 <= n) by (nonlinear_arith)
            requires
                (r + 1) * (r + 1) <= n,
        ;
        r = r + 1;
    }
}

/// For an odd prime `p`, the flags that a reset from `p * p / 2` in steps of `p` strikes
/// are those of the odd multiples of `p` from `p * p` on.
proof fn lemma_strikes_are_multiples(p: int, i: int)
    requires
        p >= 3,
        p % 2 == 1,
        i >= 0,
    ensures
        is_struck((p * p) / 2, p, i) <==> ((2 * i + 1) % p == 0 && p * p <= 2 * i + 1),
{
    let sq = p * p;
    let k = p / 2;
    vstd::arithmetic::div_mod::lemma_fundamental_div_mod(p, 2);
    assert(sq == (2 * k * k + 2 * k) * 2 + 1) by (nonlinear_arith)
        requires
            p == 2 * k + 1,
            sq == p * p,
    ;
    vstd::arithmetic::div_mod::lemma_fundamental_div_mod_converse(sq, 2, 2 * k * k + 2 * k, 1);
    assert(sq >= 9) by (nonlinear_arith)
        requires
            p >= 3,
            sq == p * p,
    ;
    let n = 2 * i + 1;
    if i >= sq / 2 {
        let t = i - sq / 2;
        assert(n == sq + 2 * t);
        let a = t / p;
        let b = t % p;
        vstd::arithmetic::div_mod::lemma_fundamental_div_mod(t, p);
        // n = p * (p + 2a) + 2b, with 0 <= 2b < 2p
        assert(n == p * (p + 2 * a) + 2 * b) by (nonlinear_arith)
            requires
                n == sq + 2 * t,
                sq == p * p,
                t == p * a + b,
        ;
        if b == 0 {
            vstd::arithmetic::div_mod::lemma_fundamental_div_mod_converse(n, p, p + 2 * a, 0);
        } else if 2 * b < p {
            vstd::arithmetic::div_mod::lemma_fundamental_div_mod_converse(
                n,
                p,
                p + 2 * a,
                2 * b,
            );
        } else {
            assert(2 * b != p);
            assert(n == (p + 2 * a + 1) * p + (2 * b - p)) by (nonlinear_arith)
                requires
                    n == p * (p + 2 * a) + 2 * b,
            ;
            vstd::arithmetic::div_mod::lemma_fundamental_div_mod_converse(
                n,
                p,
                p + 2 * a + 1,
                2 * b - p,
            );
        }
    }
}

/// Crossing out with one more prime: when `p` is a prime and none lies in `factor..p`,
/// the primes below `p + 2` cross out what those below `factor` do, plus the multiples
/// of `p` from its square on.
proof fn lemma_cross_out_next(n: int, factor: int, p: int)
    requires
        3 <= factor <= p,
        is_prime(p),
        forall|r: int| factor <= r < p ==> !is_prime(r),
    ensures
        crossed_out_below(n, p + 2) <==> (crossed_out_below(n, factor) || (p * p <= n && n % p
            == 0)),
{
    if crossed_out_below(n, p + 2) {
        let r = choose|r: int| r < p + 2 && #[trigger] crosses(r, n);
        if r == p + 1 {
            assert((p + 1) % 2 == 0) by {
                lemma_odd_prime(p);
            }
        } else if r >= factor && r < p {
        } else if r < factor {
            assert(crossed_out_below(n, factor));
        }
    }
    if p * p <= n && n % p == 0 {
        assert(crosses(p, n));
    }
    if crossed_out_below(n, factor) {
        let r = choose|r: int| r < factor && #[trigger] crosses(r, n);
        assert(r < p + 2);
    }
}

/// While the sieve runs, a prime keeps its flag: it was set to begin with, as only
/// crossed-out numbers lose their flags, and no prime crosses out another prime.
proof fn lemma_prime_keeps_flag(flags: Seq<bool>, initial: Seq<bool>, factor: int, r: int)
    requires
        flags.len() == initial.len(),
        forall|i: int|
            0 <= i < initial.len() && !(#[trigger] initial[i]) ==> crossed_out(2 * i + 1),
        forall|i: int|
            0 <= i < initial.len() ==> #[trigger] flags[i] == (initial[i] && !crossed_out_below(
                2 * i + 1,
                factor,
            )),
        is_prime(r),
        r >= 3,
        0 <= r / 2 < flags.len(),
    ensures
        r % 2 == 1,
        flags[r / 2],
{
    lemma_odd_prime(r);
    lemma_prime_not_crossed_out(r);
    assert(2 * (r / 2) + 1 == r);
    if crossed_out_below(r, factor) {
        let p = choose|p: int| p < factor && #[trigger] crosses(p, r);
        assert(crossed_out(r));
    }
}

/// The sieve itself, which works with any flag storage. It only stores odd numbers.
pub struct PrimeSieve<T: FlagStorage> {
    sieve_size: usize,
    flags: T,
}

impl<T: FlagStorage> PrimeSieve<T> {
    /// The sieve's limit: it finds the primes below this number.
    pub closed spec fn size(&self) -> nat {
        self.sieve_size as nat
    }

    /// The flags of the odd numbers: flag `i` stands for `2 * i + 1`.
    pub closed spec fn flags(&self) -> Seq<bool> {
        self.flags.flags()
    }

    /// Number `n` is odd and its flag is set.
    pub open spec fn flagged(&self, n: int) -> bool {
        &&& n % 2 == 1
        &&& 0 <= n / 2 < self.flags().len()
        &&& self.flags()[n / 2]
    }

    /// The sieve is consistent: one flag per odd number up to the limit, and a flag is
    /// only ever cleared for a number that an odd prime crosses out.
    pub closed spec fn wf(&self) -> bool {
        &&& self.flags.inv()
        &&& self.flags().len() == self.size() / 2 + 1
        &&& forall|i: int|
            0 <= i < self.flags().len() && !(#[trigger] self.flags()[i]) ==> crossed_out(2 * i + 1)
    }

    /// How many primes the sieve counts: none below 3, where no odd prime can lie;
    /// from 3 on, the flagged numbers in `1..size`, the 1 standing in for 2.
    pub open spec fn flagged_count(&self) -> nat {
        if self.size() < 3 {
            0
        } else {
            count_where(|v: int| self.flagged(v), 1, self.size() as int)
        }
    }

    /// The primes the sieve lists: none below 3; from 3 on, 2 and then the flagged
    /// numbers in `3..size`, in increasing order.
    pub open spec fn listed_primes(&self) -> Seq<int> {
        if self.size() < 3 {
            Seq::empty()
        } else {
            seq![2int] + list_where(|v: int| self.flagged(v), 3, self.size() as int)
        }
    }

    /// Every odd number below the limit is flagged exactly when it is 1 or a prime.
    pub open spec fn is_sieved(&self) -> bool {
        forall|n: int|
            1 <= n < self.size() && n % 2 == 1 ==> (#[trigger] self.flagged(n) <==> (n == 1
                || is_prime(n)))
    }

    /// A sieve for the primes below `sieve_size`, with every odd number still flagged.
    pub fn new(sieve_size: usize) -> (sieve: Self)
        requires
            sieve_size / 2 + 1 <= isize::MAX,
        ensures
            sieve.wf(),
            sieve.size() == sieve_size,
            sieve.flags() == all_set((sieve_size / 2 + 1) as nat),
    {
        let num_flags = sieve_size / 2 + 1;
        PrimeSieve { sieve_size, flags: T::create_true(num_flags) }
    }

    fn is_num_flagged(&self, number: usize) -> (flagged: bool)
        requires
            self.wf(),
        ensures
            flagged == self.flagged(number as int),
    {
        if number % 2 == 0 {
            return false;
        }
        let index = number / 2;
        self.flags.get(index)
    }

    /// The first flagged number in `from..` below the limit, if any.
    fn next_flagged(&self, from: usize) -> (found: Option<usize>)
        requires
            self.wf(),
        ensures
            match found {
                Some(n) => {
                    &&& from <= n < self.size()
                    &&& self.flagged(n as int)
                    &&& forall|m: int| from <= m < n ==> !#[trigger] self.flagged(m)
                },
                None => forall|m: int| from <= m < self.size() ==> !#[trigger] self.flagged(m),
            },
    {
        let mut n = from;
        while n < self.sieve_size
            invariant
                self.wf(),
                from <= n || n >= self.size(),
                forall|m: int| from <= m < n ==> !#[trigger] self.flagged(m),
            decreases self.sieve_size - n,
        {
            if self.is_num_flagged(n) {
                return Some(n);
            }
            n = n + 1;
        }
        None
    }

    /// Counts the primes found. 1 is never cleared, so it is counted in place of 2,
    /// which isn't stored; below 3 there is neither, and the count is 0.
    pub fn count_primes(&self) -> (count: usize)
        requires
            self.wf(),
        ensures
            count == self.flagged_count(),
    {
        let ghost flagged = |v: int| self.flagged(v);
        let mut count: usize = 0;
        let mut v: usize = 1;
        if self.sieve_size < 3 {
            return 0;
        }
        while v < self.sieve_size
            invariant
                self.wf(),
                1 <= v <= self.size(),
                flagged == (|v: int| self.flagged(v)),
                count == count_where(flagged, 1, v as int),
                count <= v,
            decreases self.sieve_size - v,
        {
            if self.is_num_flagged(v) {
                count = count + 1;
            }
            v = v + 1;
        }
        count
    }

    /// Lists the primes found, adding 2 by hand, as only odd numbers are stored.
    /// Below 3 there are none.
    pub fn primes(&self) -> (primes: Vec<usize>)
        requires
            self.wf(),
        ensures
            primes@.map_values(|v: usize| v as int) == self.listed_primes(),
    {
        let ghost flagged = |v: int| self.flagged(v);
        let mut primes: Vec<usize> = Vec::new();
        if self.sieve_size < 3 {
            assert(primes@.map_values(|v: usize| v as int) =~= Seq::<int>::empty());
            return primes;
        }
        primes.push(2);
        let mut n: usize = 3;
        assert(primes@.map_values(|v: usize| v as int) =~= seq![2int] + list_where(flagged, 3, 3));
        while n < self.sieve_size
            invariant
                self.wf(),
                3 <= n <= self.size(),
                flagged == (|v: int| self.flagged(v)),
                primes@.map_values(|v: usize| v as int) == seq![2int] + list_where(
                    flagged,
                    3,
                    n as int,
                ),
            decreases self.sieve_size - n,
        {
            if self.is_num_flagged(n) {
                let ghost before = primes@;
                primes.push(n);
                assert(primes@.map_values(|v: usize| v as int) =~= before.map_values(
                    |v: usize| v as int,
                ).push(n as int));
            }
            n = n + 1;
        }
        primes
    }

    /// Clears the flags of the odd numbers that aren't prime.
    pub fn run_sieve(&mut self)
        requires
            old(self).wf(),
        ensures
            final(self).wf(),
            final(self).size() == old(self).size(),
            final(self).is_sieved(),
            old(self).is_sieved() ==> final(self).flagged_count() == old(self).flagged_count(),
            old(self).is_sieved() ==> final(self).listed_primes() == old(self).listed_primes(),
    {
        let ghost initial = self.flags();
        let mut factor: usize = 3;
        let q = isqrt(self.sieve_size);
        loop
            invariant
                self.flags.inv(),
                self.size() == old(self).size(),
                self.flags().len() == initial.len(),
                initial.len() == self.size() / 2 + 1,
                forall|i: int|
                    0 <= i < initial.len() && !(#[trigger] initial[i]) ==> crossed_out(2 * i + 1),
                is_isqrt(self.size() as int, q as int),
                3 <= factor <= self.size() + 3,
                factor % 2 == 1,
                forall|i: int|
                    0 <= i < initial.len() ==> #[trigger] self.flags()[i] == (initial[i]
                        && !crossed_out_below(2 * i + 1, factor as int)),
            ensures
                forall|r: int| #[trigger] is_prime(r) && factor <= r ==> r * r >= self.size(),
            decreases self.size() + 3 - factor,
        {
            if factor > q {
                proof {
                    assert forall|r: int| #[trigger] is_prime(r) && factor <= r implies r * r
                        >= self.size() by {
                        assert(r * r >= (q + 1) * (q + 1)) by (nonlinear_arith)
                            requires
                                r >= q + 1,
                                q >= 0,
                        ;
                    }
                }
                break;
            }
            match self.next_flagged(factor) {
                None => {
                    proof {
                        assert forall|r: int| #[trigger] is_prime(r) && factor <= r implies r * r
                            >= self.size() by {
                            if r * r < self.size() {
                                assert(r <= r * r) by (nonlinear_arith)
                                    requires
                                        r >= 1,
                                ;
                                lemma_prime_keeps_flag(self.flags(), initial, factor as int, r);
                                assert(self.flagged(r));
                            }
                        }
                    }
                    break;
                },
                Some(p) => {
                    proof {
                        assert forall|r: int| factor <= r < p implies !#[trigger] is_prime(r) by {
                            if is_prime(r) {
                                lemma_prime_keeps_flag(self.flags(), initial, factor as int, r);
                                assert(self.flagged(r));
                            }
                        }
                        assert(2 * (p / 2) + 1 == p);
                        if !is_prime(p as int) {
                            let d = lemma_least_prime_factor(p as int);
                            if d == 2 {
                                assert(p % 2 == 0);
                            }
                            assert(d < p) by (nonlinear_arith)
                                requires
                                    d * d <= p,
                                    d >= 3,
                            ;
                            if d < factor {
                                assert(crosses(d, p as int));
                                assert(crossed_out_below(p as int, factor as int));
                            } else {
                                assert(!is_prime(d));
                            }
                        }
                    }
                    match p.checked_mul(p) {
                        None => {
                            proof {
                                assert forall|r: int| #[trigger] is_prime(r) && factor <= r implies r
                                    * r >= self.size() by {
                                    if r >= p {
                                        assert(r * r >= p * p) by (nonlinear_arith)
                                            requires
                                                r >= p,
                                                p >= 0,
                                        ;
                                    }
                                }
                            }
                            break;
                        },
                        Some(square) => {
                            let ghost before = self.flags();
                            // Clear the odd multiples of p, starting at its square. Only odd
                            // numbers are stored, so a step of `p` flags is a step of 2 * p
                            // in numbers.
                            self.flags.reset_flags(square / 2, p);
                            proof {
                                assert forall|i: int| 0 <= i < initial.len() implies #[trigger] self.flags()[i]
                                    == (initial[i] && !crossed_out_below(2 * i + 1, p + 2)) by {
                                    lemma_strikes_are_multiples(p as int, i);
                                    lemma_cross_out_next(2 * i + 1, factor as int, p as int);
                                }
                                assert(p + 2 <= usize::MAX) by (nonlinear_arith)
                                    requires
                                        p * p <= usize::MAX,
                                        p >= 3,
                                ;
                            }
                            factor = p + 2;
                        },
                    }
                },
            }
        }
        proof {
            assert forall|i: int| 0 <= i < self.flags().len() && !(#[trigger] self.flags()[i]) implies crossed_out(
                2 * i + 1,
            ) by {
                if crossed_out_below(2 * i + 1, factor as int) {
                    let r = choose|r: int| r < factor && #[trigger] crosses(r, 2 * i + 1);
                }
            }
            assert forall|n: int| 1 <= n < self.size() && n % 2 == 1 implies (#[trigger] self.flagged(n)
                <==> (n == 1 || is_prime(n))) by {
                let i = n / 2;
                assert(2 * i + 1 == n);
                lemma_uncrossed_odd_is_prime(n);
                if crossed_out(n) {
                    let r = choose|r: int| #[trigger] crosses(r, n);
                    if r >= factor {
                        assert(r * r >= self.size());
                    }
                    assert(crossed_out_below(n, factor as int));
                }
                if crossed_out_below(n, factor as int) {
                    let r = choose|r: int| r < factor && #[trigger] crosses(r, n);
                    assert(crossed_out(n));
                }
            }
        }
        proof {
            if old(self).is_sieved() {
                self.lemma_storages_agree(old(self));
            }
        }
    }

    /// Below `k`, a sieved sieve flags as many numbers from 1 on as there are primes:
    /// 1 stands in for 2.
    proof fn lemma_count_below(&self, k: int)
        requires
            self.is_sieved(),
            3 <= k <= self.size(),
        ensures
            count_where(|v: int| self.flagged(v), 1, k) == count_where(|v: int| is_prime(v), 0, k),
        decreases k,
    {
        let flagged = |v: int| self.flagged(v);
        let prime = |v: int| is_prime(v);
        if k == 3 {
            assert(self.flagged(1));
            assert(!self.flagged(2));
            assert(is_prime(2));
            assert(!is_prime(1) && !is_prime(0));
            assert(count_where(flagged, 1, 1) == 0);
            assert(count_where(flagged, 1, 2) == 1);
            assert(count_where(flagged, 1, 3) == 1);
            assert(count_where(prime, 0, 0) == 0);
            assert(count_where(prime, 0, 1) == 0);
            assert(count_where(prime, 0, 2) == 0);
            assert(count_where(prime, 0, 3) == 1);
        } else {
            self.lemma_count_below(k - 1);
            let n = k - 1;
            if n % 2 == 0 {
                assert(n % 2 == 0 && 2 < n);
                assert(!is_prime(n));
            } else {
                assert(self.flagged(n) <==> is_prime(n));
            }
            assert(flagged(n) == prime(n));
            assert(count_where(flagged, 1, k) == count_where(flagged, 1, n) + if flagged(n) {
                1nat
            } else {
                0nat
            });
            assert(count_where(prime, 0, k) == count_where(prime, 0, n) + if prime(n) {
                1nat
            } else {
                0nat
            });
        }
    }

    /// A sieved sieve counts exactly the primes below its limit.
    pub proof fn lemma_sieved_count_is_prime_count(&self)
        requires
            self.is_sieved(),
        ensures
            self.flagged_count() == prime_count(self.size() as int),
    {
        let flagged = |v: int| self.flagged(v);
        let prime = |v: int| is_prime(v);
        if self.size() >= 3 {
            self.lemma_count_below(self.size() as int);
        } else {
            assert(!is_prime(1) && !is_prime(0));
            assert(count_where(prime, 0, 0) == 0);
            assert(count_where(prime, 0, 1) == 0);
            assert(count_where(prime, 0, 2) == 0);
        }
    }

    /// Below `k`, 2 followed by the flagged numbers from 3 on are the primes.
    proof fn lemma_list_below(&self, k: int)
        requires
            self.is_sieved(),
            3 <= k <= self.size(),
        ensures
            seq![2int] + list_where(|v: int| self.flagged(v), 3, k) == list_where(
                |v: int| is_prime(v),
                0,
                k,
            ),
        decreases k,
    {
        let flagged = |v: int| self.flagged(v);
        let prime = |v: int| is_prime(v);
        if k == 3 {
            assert(is_prime(2));
            assert(!is_prime(1) && !is_prime(0));
            assert(list_where(prime, 0, 0) =~= Seq::<int>::empty());
            assert(list_where(prime, 0, 1) =~= Seq::<int>::empty());
            assert(list_where(prime, 0, 2) =~= Seq::<int>::empty());
            assert(list_where(prime, 0, 3) =~= seq![2int]);
            assert(list_where(flagged, 3, 3) =~= Seq::<int>::empty());
            assert(seq![2int] + list_where(flagged, 3, 3) =~= seq![2int]);
        } else {
            self.lemma_list_below(k - 1);
            let n = k - 1;
            if n % 2 == 0 {
                assert(n % 2 == 0 && 2 < n);
                assert(!is_prime(n));
                assert(!self.flagged(n));
            } else {
                assert(self.flagged(n) <==> is_prime(n));
                if is_prime(n) {
                    assert(seq![2int] + list_where(flagged, 3, n).push(n) =~= (seq![2int]
                        + list_where(flagged, 3, n)).push(n));
                }
            }
        }
    }

    /// A sieved sieve lists exactly the primes below its limit, in increasing order.
    pub proof fn lemma_sieved_lists_primes_below(&self)
        requires
            self.is_sieved(),
        ensures
            self.listed_primes() == primes_below(self.size() as int),
    {
        if self.size() >= 3 {
            self.lemma_list_below(self.size() as int);
        } else {
            let prime = |v: int| is_prime(v);
            assert(!is_prime(1) && !is_prime(0));
            assert(list_where(prime, 0, 0) =~= Seq::<int>::empty());
            assert(list_where(prime, 0, 1) =~= Seq::<int>::empty());
            assert(list_where(prime, 0, 2) =~= Seq::<int>::empty());
        }
    }

    /// Every storage finds the same primes: two sieved sieves with the same limit count
    /// and list the same numbers, whatever their flag storages.
    pub proof fn lemma_storages_agree<U: FlagStorage>(&self, other: &PrimeSieve<U>)
        requires
            self.is_sieved(),
            other.is_sieved(),
            self.size() == other.size(),
        ensures
            self.flagged_count() == other.flagged_count(),
            self.listed_primes() == other.listed_primes(),
    {
        let mine = |v: int| self.flagged(v);
        let theirs = |v: int| other.flagged(v);
        assert forall|v: int| 1 <= v < self.size() implies #[trigger] mine(v) == theirs(v) by {
            if v % 2 == 1 {
                assert(self.flagged(v) <==> (v == 1 || is_prime(v)));
                assert(other.flagged(v) <==> (v == 1 || is_prime(v)));
            }
        }
        lemma_count_where_agree(mine, theirs, 1, self.size() as int);
        lemma_list_where_agree(mine, theirs, 3, self.size() as int);
    }

    /// Once sieved, a number below the limit is flagged exactly when it is odd and 1 or a
    /// prime; no even number is, 2 included.
    pub proof fn lemma_sieved_flags(&self, m: int)
        requires
            self.is_sieved(),
            0 <= m < self.size(),
        ensures
            self.flagged(m) == (m % 2 == 1 && (m == 1 || is_prime(m))),
    {
        if m % 2 == 1 {
            assert(self.flagged(m) <==> (m == 1 || is_prime(m)));
        }
    }

    /// Below `k`, every odd number from 1 on is flagged in a fresh sieve.
    proof fn lemma_fresh_count_below(&self, k: int)
        requires
            self.flags() == all_set(self.size() / 2 + 1),
            1 <= k <= self.size(),
        ensures
            count_where(|v: int| self.flagged(v), 1, k) == k / 2,
        decreases k,
    {
        if k > 1 {
            self.lemma_fresh_count_below(k - 1);
            let n = k - 1;
            assert(self.flagged(n) == (n % 2 == 1));
        }
    }

    /// A sieve that hasn't run yet still flags every odd number: from the limit 3 on it
    /// counts the odd numbers below its limit, 1 standing in for 2, and lists 2 and then
    /// every odd number from 3 on.
    pub proof fn lemma_fresh_sieve(&self)
        requires
            self.flags() == all_set(self.size() / 2 + 1),
        ensures
            self.size() >= 3 ==> self.flagged_count() == self.size() / 2,
            self.size() >= 3 ==> self.listed_primes() == seq![2int] + list_where(
                |v: int| v % 2 == 1,
                3,
                self.size() as int,
            ),
    {
        if self.size() >= 3 {
            self.lemma_fresh_count_below(self.size() as int);
            let flagged = |v: int| self.flagged(v);
            let odd = |v: int| v % 2 == 1;
            assert forall|v: int| 3 <= v < self.size() implies #[trigger] flagged(v) == odd(v) by {}
            lemma_list_where_agree(flagged, odd, 3, self.size() as int);
        }
    }
}

} // verus!
