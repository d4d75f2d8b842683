//! The outcome of timing one variant: what the threads did, totalled.

use vstd::prelude::*;

use crate::primes::sieve::PrimeSieve;
use crate::primes::storage::FlagStorage;
use crate::primes::validator::{known_prime_counts, PrimeValidator};

verus! {

/// The sum of the pass counts.
pub open spec fn sum_of(passes: Seq<usize>) -> int
    decreases passes.len(),
{
    if passes.len() == 0 {
        0
    } else {
        sum_of(passes.drop_last()) + passes.last()
    }
}

/// A prefix sums to no more than the whole.
proof fn lemma_sum_of_prefix(passes: Seq<usize>, i: int)
    requires
        0 <= i <= passes.len(),
    ensures
        sum_of(passes.take(i)) <= sum_of(passes),
    decreases passes.len() - i,
{
    if i < passes.len() {
        lemma_sum_of_prefix(passes.drop_last(), i);
        assert(passes.drop_last().take(i) =~= passes.take(i));
    } else {
        assert(passes.take(i) =~= passes);
    }
}

/// A timed run of one variant, totalled over its threads.
pub struct RunTally {
    /// sieve passes completed across all threads
    pub passes: usize,
    /// primes counted by one of the sieves
    pub count: usize,
    /// whether `count` matches the known result, if there is one for this limit
    pub valid: Option<bool>,
    /// every prime found, when asked for
    pub primes: Vec<usize>,
}

/// Whether a run keeps the primes it found for printing: every variant finds the same
/// primes, so only the first run does, and only when they are to be printed.
pub fn keeps_primes(print: bool, runs_done: usize) -> (keep: bool)
    ensures
        keep == (print && runs_done == 0),
{
    print && runs_done == 0
}

/// Totals a timed run: the passes of all threads, and from the sieve of the first thread
/// (all sieves are the same, so checking one is enough) the count of primes, whether it
/// matches the known result, and the primes themselves when `keep_primes` asks for them.
/// A run whose first thread finished no sieve counts 0 primes.
pub fn tally_run<T: FlagStorage>(
    thread_passes: &[usize],
    first: Option<&PrimeSieve<T>>,
    limit: usize,
    keep_primes: bool,
) -> (tally: RunTally)
    requires
        sum_of(thread_passes@) <= usize::MAX,
        first matches Some(s) ==> s.wf() && s.size() == limit,
    ensures
        tally.passes == sum_of(thread_passes@),
        tally.count == (match first {
            Some(s) => s.flagged_count(),
            None => 0,
        }),
        tally.valid == (if known_prime_counts().contains_key(limit) {
            Some(tally.count == known_prime_counts()[limit])
        } else {
            None
        }),
        tally.primes@.map_values(|v: usize| v as int) == (match first {
            Some(s) => if keep_primes {
                s.listed_primes()
            } else {
                Seq::empty()
            },
            None => Seq::empty(),
        }),
{
    let mut passes: usize = 0;
    let mut i: usize = 0;
    while i < thread_passes.len()
        invariant
            i <= thread_passes@.len(),
            sum_of(thread_passes@) <= usize::MAX,
            passes == sum_of(thread_passes@.take(i as int)),
        decreases thread_passes@.len() - i,
    {
        proof {
            assert(thread_passes@.take(i + 1).drop_last() =~= thread_passes@.take(i as int));
            lemma_sum_of_prefix(thread_passes@, i + 1);
        }
        passes = passes + thread_passes[i];
        i = i + 1;
    }
    assert(thread_passes@.take(thread_passes@.len() as int) =~= thread_passes@);
    let count = match first {
        Some(sieve) => sieve.count_primes(),
        None => 0,
    };
    let valid = PrimeValidator::default().is_valid(limit, count);
    let mut primes: Vec<usize> = Vec::new();
    assert(primes@.map_values(|v: usize| v as int) =~= Seq::<int>::empty());
    if let Some(sieve) = first {
        if keep_primes {
            primes = sieve.primes();
        }
    }
    RunTally { passes, count, valid, primes }
}

} // verus!
