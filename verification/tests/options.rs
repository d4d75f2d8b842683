use eratos::options::{at_least_one, at_least_one_u64, selected_variants, Variant};

#[test]
fn whole_numbers_of_at_least_one() {
    assert_eq!(at_least_one("5"), Ok(5));
    assert_eq!(at_least_one("+12"), Ok(12));
    assert_eq!(at_least_one("0"), Err("must be at least 1".to_string()));
    assert_eq!(at_least_one(""), Err("cannot parse integer from empty string".to_string()));
    assert_eq!(at_least_one("x"), Err("invalid digit found in string".to_string()));
    assert_eq!(at_least_one("+"), Err("invalid digit found in string".to_string()));
    assert_eq!(at_least_one("-3"), Err("invalid digit found in string".to_string()));
    assert_eq!(at_least_one(" 3"), Err("invalid digit found in string".to_string()));
    assert_eq!(
        at_least_one("99999999999999999999999"),
        Err("number too large to fit in target type".to_string())
    );
}

#[test]
fn whole_numbers_read_as_std_reads_them() {
    for arg in ["1", "42", "+7", "", "+", "-", "0x10", "1 ", "18446744073709551615", "18446744073709551616", "007"] {
        let ours = at_least_one(arg);
        match arg.parse::<usize>() {
            Ok(0) => assert_eq!(ours, Err("must be at least 1".to_string())),
            Ok(n) => assert_eq!(ours, Ok(n)),
            Err(err) => assert_eq!(ours, Err(err.to_string()), "{:?}", arg),
        }
    }
}

#[test]
fn seconds_read_as_u64() {
    assert_eq!(at_least_one_u64("5"), Ok(5));
    assert_eq!(at_least_one_u64("0"), Err("must be at least 1".to_string()));
    assert_eq!(at_least_one_u64("18446744073709551615"), Ok(u64::MAX));
    for arg in ["1", "+9", "", "+", "4294967296", "18446744073709551616", "1.5", "00"] {
        let ours = at_least_one_u64(arg);
        match arg.parse::<u64>() {
            Ok(0) => assert_eq!(ours, Err("must be at least 1".to_string())),
            Ok(n) => assert_eq!(ours, Ok(n)),
            Err(err) => assert_eq!(ours, Err(err.to_string()), "{:?}", arg),
        }
    }
}

#[test]
fn striped_runs_when_no_variant_is_chosen() {
    assert_eq!(selected_variants(false, false, false, false), vec![Variant::BitsStriped]);
    assert_eq!(
        selected_variants(true, true, true, true),
        vec![Variant::Bytes, Variant::Bits, Variant::BitsRotate, Variant::BitsStriped]
    );
    assert_eq!(selected_variants(false, true, false, false), vec![Variant::Bits]);
    assert_eq!(
        selected_variants(true, false, true, false),
        vec![Variant::Bytes, Variant::BitsRotate]
    );
}

#[test]
fn variants_are_named_as_in_the_report() {
    assert_eq!(Variant::Bytes.label(), "byte-storage");
    assert_eq!(Variant::Bits.label(), "bit-storage");
    assert_eq!(Variant::BitsRotate.label(), "bit-storage-rotate");
    assert_eq!(Variant::BitsStriped.label(), "bit-storage-striped");
}
