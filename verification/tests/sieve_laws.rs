use eratos::primes::{
    FlagStorage, FlagStorageBitVector, FlagStorageBitVectorRotate, FlagStorageBitVectorStriped,
    FlagStorageByteVector, PrimeSieve, PrimeValidator,
};
use eratos::primes::sieve::isqrt;

fn is_prime(n: usize) -> bool {
    n >= 2 && (2..n).take_while(|d| d * d <= n).all(|d| n % d != 0)
}

fn sieved<T: FlagStorage>(size: usize) -> PrimeSieve<T> {
    let mut sieve = PrimeSieve::new(size);
    sieve.run_sieve();
    sieve
}

fn counts_and_lists_the_primes_below<T: FlagStorage>() {
    for size in 0..400 {
        let sieve: PrimeSieve<T> = sieved(size);
        let primes: Vec<usize> = (0..size).filter(|&n| is_prime(n)).collect();
        assert_eq!(sieve.count_primes(), primes.len(), "count below {}", size);
        assert_eq!(sieve.primes(), primes, "primes below {}", size);
    }
}

#[test]
fn every_storage_counts_the_primes_below_its_limit() {
    counts_and_lists_the_primes_below::<FlagStorageByteVector>();
    counts_and_lists_the_primes_below::<FlagStorageBitVector>();
    counts_and_lists_the_primes_below::<FlagStorageBitVectorRotate>();
    counts_and_lists_the_primes_below::<FlagStorageBitVectorStriped>();
}

#[test]
fn the_primes_below_thirty() {
    let sieve: PrimeSieve<FlagStorageBitVectorStriped> = sieved(30);
    assert_eq!(sieve.count_primes(), 10);
    assert_eq!(sieve.primes(), vec![2, 3, 5, 7, 11, 13, 17, 19, 23, 29]);
}

#[test]
fn no_primes_lie_below_two() {
    for size in 0..3 {
        let sieve: PrimeSieve<FlagStorageByteVector> = sieved(size);
        assert_eq!(sieve.count_primes(), 0);
        assert_eq!(sieve.primes(), Vec::<usize>::new());
    }
    let three: PrimeSieve<FlagStorageBitVector> = sieved(3);
    assert_eq!(three.count_primes(), 1);
    assert_eq!(three.primes(), vec![2]);
}

#[test]
fn an_unsieved_sieve_flags_every_odd_number() {
    let sieve: PrimeSieve<FlagStorageBitVector> = PrimeSieve::new(20);
    assert_eq!(sieve.count_primes(), 10);
    assert_eq!(sieve.primes(), vec![2, 3, 5, 7, 9, 11, 13, 15, 17, 19]);
}

#[test]
fn sieving_twice_changes_nothing() {
    let mut sieve: PrimeSieve<FlagStorageBitVectorRotate> = sieved(1000);
    let before = sieve.primes();
    sieve.run_sieve();
    assert_eq!(sieve.primes(), before);
    assert_eq!(sieve.count_primes(), 168);
}

#[test]
fn storages_agree() {
    for size in [1, 2, 10, 97, 121, 1000, 4096] {
        let a: PrimeSieve<FlagStorageByteVector> = sieved(size);
        let b: PrimeSieve<FlagStorageBitVector> = sieved(size);
        let c: PrimeSieve<FlagStorageBitVectorRotate> = sieved(size);
        let d: PrimeSieve<FlagStorageBitVectorStriped> = sieved(size);
        assert_eq!(a.count_primes(), b.count_primes());
        assert_eq!(a.count_primes(), c.count_primes());
        assert_eq!(a.count_primes(), d.count_primes());
        assert_eq!(a.primes(), b.primes());
        assert_eq!(a.primes(), c.primes());
        assert_eq!(a.primes(), d.primes());
    }
}

#[test]
fn integer_square_roots() {
    assert_eq!(isqrt(0), 0);
    assert_eq!(isqrt(1), 1);
    assert_eq!(isqrt(3), 1);
    assert_eq!(isqrt(4), 2);
    assert_eq!(isqrt(99), 9);
    assert_eq!(isqrt(100), 10);
    assert_eq!(isqrt(1_000_000), 1000);
    assert_eq!(isqrt(usize::MAX), (1usize << (usize::BITS / 2)) - 1);
}

#[test]
fn validator_knows_the_powers_of_ten() {
    let validator = PrimeValidator::default();
    assert_eq!(validator.known_results().len(), 8);
    assert_eq!(validator.is_valid(10, 4), Some(true));
    assert_eq!(validator.is_valid(10, 5), Some(false));
    assert_eq!(validator.is_valid(100_000_000, 5_761_455), Some(true));
    assert_eq!(validator.is_valid(11, 4), None);
    assert_eq!(validator.is_valid(1, 0), None);
}
