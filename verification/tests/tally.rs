use eratos::primes::tally::{keeps_primes, tally_run};
use eratos::primes::{FlagStorageBitVectorStriped, FlagStorageByteVector, PrimeSieve};

fn sieved(size: usize) -> PrimeSieve<FlagStorageBitVectorStriped> {
    let mut sieve = PrimeSieve::new(size);
    sieve.run_sieve();
    sieve
}

#[test]
fn a_run_totals_its_threads() {
    let sieve = sieved(1000);
    let tally = tally_run(&[3, 4, 5], Some(&sieve), 1000, false);
    assert_eq!(tally.passes, 12);
    assert_eq!(tally.count, 168);
    assert_eq!(tally.valid, Some(true));
    assert!(tally.primes.is_empty());
}

#[test]
fn a_run_keeps_its_primes_when_asked() {
    let sieve = sieved(20);
    let tally = tally_run(&[1], Some(&sieve), 20, true);
    assert_eq!(tally.primes, vec![2, 3, 5, 7, 11, 13, 17, 19]);
    assert_eq!(tally.count, 8);
    // 20 is not a power of 10, so the count can't be checked
    assert_eq!(tally.valid, None);
}

#[test]
fn a_wrong_count_is_marked_wrong() {
    // an unsieved sieve flags every odd number, far more than the 25 primes below 100
    let sieve: PrimeSieve<FlagStorageByteVector> = PrimeSieve::new(100);
    let tally = tally_run(&[2, 2], Some(&sieve), 100, false);
    assert_eq!(tally.count, 50);
    assert_eq!(tally.valid, Some(false));
}

#[test]
fn a_run_without_a_sieve_counts_nothing() {
    let tally = tally_run::<FlagStorageByteVector>(&[], None, 10, true);
    assert_eq!(tally.passes, 0);
    assert_eq!(tally.count, 0);
    assert_eq!(tally.valid, Some(false));
    assert!(tally.primes.is_empty());
}

#[test]
fn only_the_first_run_keeps_its_primes() {
    assert!(keeps_primes(true, 0));
    assert!(!keeps_primes(true, 1));
    assert!(!keeps_primes(false, 0));
}
