use eratos::primes::{
    FlagStorage, FlagStorageBitVector, FlagStorageBitVectorRotate, FlagStorageBitVectorStriped,
    FlagStorageByteVector, PrimeSieve, PrimeValidator,
};

fn sieve_known_correct<T: FlagStorage>() {
    let validator = PrimeValidator::default();
    for (sieve_size, expected_primes) in validator.known_results().iter() {
        let mut sieve: PrimeSieve<T> = PrimeSieve::new(*sieve_size);
        sieve.run_sieve();
        assert_eq!(
            *expected_primes,
            sieve.count_primes(),
            "wrong number of primes for sieve = {}",
            sieve_size
        );
    }
}

#[test]
fn sieve_known_correct_bits() {
    sieve_known_correct::<FlagStorageBitVector>();
}

#[test]
fn sieve_known_correct_bits_rolling() {
    sieve_known_correct::<FlagStorageBitVectorRotate>();
}

#[test]
fn sieve_known_correct_bits_striped() {
    sieve_known_correct::<FlagStorageBitVectorStriped>();
}

#[test]
fn sieve_known_correct_bytes() {
    sieve_known_correct::<FlagStorageByteVector>();
}
