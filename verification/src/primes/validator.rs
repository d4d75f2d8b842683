//! Known prime counts, used to check results.

use std::collections::HashMap;
use vstd::prelude::*;

use crate::primes::primality::{
    count_where, is_prime, lemma_count_where_agree, lemma_least_prime_factor, prime_count,
};

verus! {

broadcast use vstd::std_specs::hash::group_hash_axioms;

/// The number of primes below each power of 10 from 10 to 100000000.
pub open spec fn known_prime_counts() -> Map<usize, usize> {
    map![
        10usize => 4usize,
        100usize => 25usize,
        1000usize => 168usize,
        10000usize => 1229usize,
        100000usize => 9592usize,
        1000000usize => 78498usize,
        10000000usize => 664579usize,
        100000000usize => 5761455usize,
    ]
}

/// The limits with a known result are exactly the powers of 10 from 10 to 100000000.
pub proof fn lemma_known_limits(n: usize)
    ensures
        known_prime_counts().contains_key(n) <==> exists|k: nat|
            1 <= k <= 8 && n == #[trigger] vstd::arithmetic::power::pow(10, k),
{
    reveal_with_fuel(vstd::arithmetic::power::pow, 9);
    assert(vstd::arithmetic::power::pow(10, 1) == 10);
    assert(vstd::arithmetic::power::pow(10, 2) == 100);
    assert(vstd::arithmetic::power::pow(10, 3) == 1000);
    assert(vstd::arithmetic::power::pow(10, 4) == 10000);
    assert(vstd::arithmetic::power::pow(10, 5) == 100000);
    assert(vstd::arithmetic::power::pow(10, 6) == 1000000);
    assert(vstd::arithmetic::power::pow(10, 7) == 10000000);
    assert(vstd::arithmetic::power::pow(10, 8) == 100000000);
    if known_prime_counts().contains_key(n) {
        if n == 10 {
            assert(n == vstd::arithmetic::power::pow(10, 1));
        } else if n == 100 {
            assert(n == vstd::arithmetic::power::pow(10, 2));
        } else if n == 1000 {
            assert(n == vstd::arithmetic::power::pow(10, 3));
        } else if n == 10000 {
            assert(n == vstd::arithmetic::power::pow(10, 4));
        } else if n == 100000 {
            assert(n == vstd::arithmetic::power::pow(10, 5));
        } else if n == 1000000 {
            assert(n == vstd::arithmetic::power::pow(10, 6));
        } else if n == 10000000 {
            assert(n == vstd::arithmetic::power::pow(10, 7));
        } else {
            assert(n == vstd::arithmetic::power::pow(10, 8));
        }
    }
}

/// No `e` from `d` on with `e * e <= n` divides `n`: trial division from `d`.
spec fn no_divisor_from(n: int, d: int) -> bool
    decreases n - d,
{
    if d < 2 || d >= n || d * d > n {
        true
    } else {
        n % d != 0 && no_divisor_from(n, d + 1)
    }
}

proof fn lemma_no_divisor_from(n: int, d: int)
    requires
        2 <= d,
    ensures
        no_divisor_from(n, d) <==> forall|e: int|
            d <= e < n && e * e <= n ==> #[trigger] (n % e) != 0,
    decreases n - d,
{
    if d >= n || d * d > n {
        assert forall|e: int| d <= e < n && e * e <= n implies #[trigger] (n % e) != 0 by {
            assert(e * e >= d * d) by (nonlinear_arith)
                requires
                    d <= e,
                    2 <= d,
            ;
        }
    } else {
        lemma_no_divisor_from(n, d + 1);
    }
}

/// Trial division up to the square root decides primality.
proof fn lemma_trial_division(n: int)
    ensures
        is_prime(n) <==> (n >= 2 && no_divisor_from(n, 2)),
{
    if n >= 2 {
        lemma_no_divisor_from(n, 2);
        if !is_prime(n) {
            let d = lemma_least_prime_factor(n);
            assert(d < n);
        }
    }
}

/// By trial division, the known results for 10 and 100 are the numbers of primes below them.
#[verifier::rlimit(50)]
pub proof fn lemma_small_known_counts()
    ensures
        known_prime_counts()[10] == prime_count(10),
        known_prime_counts()[100] == prime_count(100),
{
    let trial = |v: int| v >= 2 && no_divisor_from(v, 2);
    assert forall|v: int| 0 <= v < 100 implies #[trigger] is_prime(v) == (v >= 2 && no_divisor_from(
        v,
        2,
    )) by {
        lemma_trial_division(v);
    }
    lemma_count_where_agree(|v: int| is_prime(v), trial, 0, 10);
    lemma_count_where_agree(|v: int| is_prime(v), trial, 0, 100);
    reveal_with_fuel(no_divisor_from, 11);
    reveal_with_fuel(count_where, 11);
    // ten numbers at a time: 4, 8, 10, 12, 15, 17, 19, 22, 24 and 25 primes below 10, 20, ..., 100
    assert(count_where(trial, 0, 10) == 4);
    assert(count_where(trial, 0, 20) == 8);
    assert(count_where(trial, 0, 30) == 10);
    assert(count_where(trial, 0, 40) == 12);
    assert(count_where(trial, 0, 50) == 15);
    assert(count_where(trial, 0, 60) == 17);
    assert(count_where(trial, 0, 70) == 19);
    assert(count_where(trial, 0, 80) == 22);
    assert(count_where(trial, 0, 90) == 24);
    assert(count_where(trial, 0, 100) == 25);
}

/// Known prime counts, used to check results.
pub struct PrimeValidator(HashMap<usize, usize>);

impl View for PrimeValidator {
    type V = Map<usize, usize>;

    /// Each limit with a known result, mapped to the number of primes below it.
    closed spec fn view(&self) -> Map<usize, usize> {
        self.0@
    }
}

impl Default for PrimeValidator {
    fn default() -> (validator: Self)
        ensures
            validator@ == known_prime_counts(),
    {
        // (limit, number of primes below it)
        let mut map: HashMap<usize, usize> = HashMap::new();
        map.insert(10, 4);
        map.insert(100, 25);
        map.insert(1000, 168);
        map.insert(10000, 1229);
        map.insert(100000, 9592);
        map.insert(1000000, 78498);
        map.insert(10000000, 664579);
        map.insert(100000000, 5761455);
        let validator = PrimeValidator(map);
        assert(validator@ =~= known_prime_counts());
        validator
    }
}

impl PrimeValidator {
    /// Whether `result` is the right count for `sieve_size`, or `None` if it isn't known.
    pub fn is_valid(&self, sieve_size: usize, result: usize) -> (valid: Option<bool>)
        ensures
            valid == if self@.contains_key(sieve_size) {
                Some(result == self@[sieve_size])
            } else {
                None
            },
    {
        if let Some(expected) = self.0.get(&sieve_size) {
            Some(result == *expected)
        } else {
            None
        }
    }

    /// The known results: each limit mapped to the number of primes below it.
    pub fn known_results(&self) -> (results: &HashMap<usize, usize>)
        ensures
            results@ == self@,
    {
        &self.0
    }
}

} // verus!
