use eratos::primes::{
    FlagStorage, FlagStorageBitVector, FlagStorageBitVectorRotate, FlagStorageBitVectorStriped,
    FlagStorageByteVector,
};

/// The flags a storage holds, read one by one.
fn read_all<T: FlagStorage>(storage: &T, size: usize) -> Vec<bool> {
    (0..size).map(|i| storage.get(i)).collect()
}

/// What clearing every `skip`th flag from `start` leaves of `size` set flags.
fn expected_after_reset(size: usize, start: usize, skip: usize) -> Vec<bool> {
    (0..size)
        .map(|i| !(i >= start && (i - start) % skip == 0))
        .collect()
}

fn reset_clears_every_skipth_flag<T: FlagStorage>() {
    for &(size, start, skip) in &[
        (10, 1, 3),
        (100, 5, 7),
        (100, 0, 1),
        (65, 64, 1),
        (200, 3, 33),
        (20, 2, 5),
        (17, 40, 2),
        (50, 4, 1000),
        (0, 0, 1),
    ] {
        let mut storage = T::create_true(size);
        assert_eq!(read_all(&storage, size), vec![true; size]);
        storage.reset_flags(start, skip);
        assert_eq!(
            read_all(&storage, size),
            expected_after_reset(size, start, skip),
            "size {} start {} skip {}",
            size,
            start,
            skip
        );
        // past the last flag there is nothing set
        assert!(!storage.get(size));
        assert!(!storage.get(size + 100));
    }
}

fn resets_accumulate<T: FlagStorage>() {
    let mut storage = T::create_true(30);
    storage.reset_flags(4, 3);
    storage.reset_flags(12, 5);
    let expected: Vec<bool> = (0..30)
        .map(|i: usize| !(i >= 4 && (i - 4) % 3 == 0) && !(i >= 12 && (i - 12) % 5 == 0))
        .collect();
    assert_eq!(read_all(&storage, 30), expected);
}

#[test]
fn byte_storage_resets_exactly() {
    reset_clears_every_skipth_flag::<FlagStorageByteVector>();
    resets_accumulate::<FlagStorageByteVector>();
}

#[test]
fn bit_storage_resets_exactly() {
    reset_clears_every_skipth_flag::<FlagStorageBitVector>();
    resets_accumulate::<FlagStorageBitVector>();
}

#[test]
fn rotating_bit_storage_resets_exactly() {
    // several flags of one word cleared in a row only come out right if the mask turns
    reset_clears_every_skipth_flag::<FlagStorageBitVectorRotate>();
    resets_accumulate::<FlagStorageBitVectorRotate>();
    let mut storage = FlagStorageBitVectorRotate::create_true(32);
    storage.reset_flags(0, 5);
    assert_eq!(read_all(&storage, 32), expected_after_reset(32, 0, 5));
}

#[test]
fn striped_bit_storage_resets_exactly() {
    reset_clears_every_skipth_flag::<FlagStorageBitVectorStriped>();
    resets_accumulate::<FlagStorageBitVectorStriped>();
}

fn fresh_flags_read_true_up_to_their_number<T: FlagStorage>() {
    for size in [0usize, 1, 7, 31, 32, 33, 64, 100] {
        let storage = T::create_true(size);
        for i in 0..size + 70 {
            assert_eq!(storage.get(i), i < size, "size {} index {}", size, i);
        }
    }
}

#[test]
fn fresh_storages_read_true_below_their_size() {
    fresh_flags_read_true_up_to_their_number::<FlagStorageByteVector>();
    fresh_flags_read_true_up_to_their_number::<FlagStorageBitVector>();
    fresh_flags_read_true_up_to_their_number::<FlagStorageBitVectorRotate>();
    fresh_flags_read_true_up_to_their_number::<FlagStorageBitVectorStriped>();
}
