//! What the command line asks for: whole-number options of at least 1, and which
//! storage variants to run.

use vstd::prelude::*;
use vstd::string::StringExecFns;

use crate::parse::{chars_of, parse_outcome, parse_u64, parse_u64_outcome, parse_usize, IntErrorKind};

verus! {

/// How a failure to read a whole number is reported.
pub open spec fn failure_message(kind: IntErrorKind) -> Seq<char> {
    match kind {
        IntErrorKind::Empty => "cannot parse integer from empty string"@,
        IntErrorKind::InvalidDigit => "invalid digit found in string"@,
        IntErrorKind::PosOverflow => "number too large to fit in target type"@,
    }
}

/// How a failure to read a whole number is reported.
fn failure_text(kind: IntErrorKind) -> (text: String)
    ensures
        text@ == failure_message(kind),
{
    match kind {
        IntErrorKind::Empty => String::from_str("cannot parse integer from empty string"),
        IntErrorKind::InvalidDigit => String::from_str("invalid digit found in string"),
        IntErrorKind::PosOverflow => String::from_str("number too large to fit in target type"),
    }
}

/// Parses a whole number that is at least 1.
pub fn at_least_one(arg: &str) -> (parsed: Result<usize, String>)
    ensures
        match parse_outcome(arg@) {
            Ok(n) => if n >= 1 {
                parsed == Ok::<usize, String>(n)
            } else {
                parsed matches Err(message) && message@ == "must be at least 1"@
            },
            Err(kind) => parsed matches Err(message) && message@ == failure_message(kind),
        },
{
    let chars = chars_of(arg);
    assert(chars@.subrange(0, chars@.len() as int) =~= arg@);
    match parse_usize(&chars, 0, chars.len()) {
        Ok(n) => if n >= 1 {
            Ok(n)
        } else {
            Err(String::from_str("must be at least 1"))
        },
        Err(kind) => Err(failure_text(kind)),
    }
}

/// Parses a whole number that is at least 1, as a `u64`.
pub fn at_least_one_u64(arg: &str) -> (parsed: Result<u64, String>)
    ensures
        match parse_u64_outcome(arg@) {
            Ok(n) => if n >= 1 {
                parsed == Ok::<u64, String>(n)
            } else {
                parsed matches Err(message) && message@ == "must be at least 1"@
            },
            Err(kind) => parsed matches Err(message) && message@ == failure_message(kind),
        },
{
    let chars = chars_of(arg);
    assert(chars@.subrange(0, chars@.len() as int) =~= arg@);
    match parse_u64(&chars, 0, chars.len()) {
        Ok(n) => if n >= 1 {
            Ok(n)
        } else {
            Err(String::from_str("must be at least 1"))
        },
        Err(kind) => Err(failure_text(kind)),
    }
}

/// A way of storing the sieve's flags, as the command line names it.
#[derive(Clone, Copy, PartialEq, Eq, Debug)]
pub enum Variant {
    /// one byte per flag
    Bytes,
    /// one bit per flag, a new mask per flag
    Bits,
    /// one bit per flag, a rotating mask
    BitsRotate,
    /// one bit per flag, in stripes
    BitsStriped,
}

/// The name of a variant in the report.
pub open spec fn variant_label(variant: Variant) -> Seq<char> {
    match variant {
        Variant::Bytes => "byte-storage"@,
        Variant::Bits => "bit-storage"@,
        Variant::BitsRotate => "bit-storage-rotate"@,
        Variant::BitsStriped => "bit-storage-striped"@,
    }
}

/// The variants to run, in the order they run: each one asked for, and the striped one
/// when none is.
pub open spec fn variants_to_run(bytes: bool, bits: bool, bits_rotate: bool, bits_striped: bool) -> Seq<
    Variant,
> {
    let none_asked = !bytes && !bits && !bits_rotate && !bits_striped;
    (if bytes {
        seq![Variant::Bytes]
    } else {
        Seq::empty()
    }) + (if bits {
        seq![Variant::Bits]
    } else {
        Seq::empty()
    }) + (if bits_rotate {
        seq![Variant::BitsRotate]
    } else {
        Seq::empty()
    }) + (if bits_striped || none_asked {
        seq![Variant::BitsStriped]
    } else {
        Seq::empty()
    })
}

/// Where a variant stands in the order the variants run.
pub open spec fn run_order(variant: Variant) -> int {
    match variant {
        Variant::Bytes => 0,
        Variant::Bits => 1,
        Variant::BitsRotate => 2,
        Variant::BitsStriped => 3,
    }
}

/// Each variant runs exactly when its flag is given, except the striped one, which also
/// runs when no flag is given at all; the variants run once each, in the order bytes,
/// bits, rotating bits, striped bits.
pub proof fn lemma_variants_to_run(bytes: bool, bits: bool, bits_rotate: bool, bits_striped: bool)
    ensures
        ({
            let run = variants_to_run(bytes, bits, bits_rotate, bits_striped);
            &&& run.contains(Variant::Bytes) <==> bytes
            &&& run.contains(Variant::Bits) <==> bits
            &&& run.contains(Variant::BitsRotate) <==> bits_rotate
            &&& run.contains(Variant::BitsStriped) <==> (bits_striped || (!bytes && !bits
                && !bits_rotate && !bits_striped))
            &&& forall|i: int, j: int|
                0 <= i < j < run.len() ==> run_order(#[trigger] run[i]) < run_order(
                    #[trigger] run[j],
                )
        }),
{
    let run = variants_to_run(bytes, bits, bits_rotate, bits_striped);
    let a: Seq<Variant> = if bytes { seq![Variant::Bytes] } else { Seq::empty() };
    let b: Seq<Variant> = if bits { seq![Variant::Bits] } else { Seq::empty() };
    let c: Seq<Variant> = if bits_rotate { seq![Variant::BitsRotate] } else { Seq::empty() };
    let none_asked = !bytes && !bits && !bits_rotate && !bits_striped;
    let d: Seq<Variant> = if bits_striped || none_asked {
        seq![Variant::BitsStriped]
    } else {
        Seq::empty()
    };
    assert(run == a + b + c + d);
    let ab = a + b;
    let abc = ab + c;
    assert forall|i: int| 0 <= i < run.len() implies run_order(#[trigger] run[i]) == if i
        < a.len() {
        0int
    } else if i < ab.len() {
        1int
    } else if i < abc.len() {
        2int
    } else {
        3int
    } by {
        if i < a.len() {
            assert(run[i] == a[i]);
        } else if i < ab.len() {
            assert(run[i] == b[i - a.len()]);
        } else if i < abc.len() {
            assert(run[i] == c[i - ab.len()]);
        } else {
            assert(run[i] == d[i - abc.len()]);
        }
    }
    if bytes {
        assert(run[0] == Variant::Bytes);
    }
    if bits {
        assert(run[a.len() as int] == Variant::Bits);
    }
    if bits_rotate {
        assert(run[ab.len() as int] == Variant::BitsRotate);
    }
    if bits_striped || none_asked {
        assert(run[abc.len() as int] == Variant::BitsStriped);
    }
}

impl Variant {
    /// The name of the variant in the report.
    pub fn label(&self) -> (label: &'static str)
        ensures
            label@ == variant_label(*self),
    {
        match self {
            Variant::Bytes => "byte-storage",
            Variant::Bits => "bit-storage",
            Variant::BitsRotate => "bit-storage-rotate",
            Variant::BitsStriped => "bit-storage-striped",
        }
    }
}

/// The variants to run, in the order they run. Striped is the default when no
/// variant is chosen.
pub fn selected_variants(bytes: bool, bits: bool, bits_rotate: bool, bits_striped: bool) -> (variants:
    Vec<Variant>)
    ensures
        variants@ == variants_to_run(bytes, bits, bits_rotate, bits_striped),
{
    let run_default = !bytes && !bits && !bits_rotate && !bits_striped;
    let mut variants: Vec<Variant> = Vec::new();
    if bytes {
        variants.push(Variant::Bytes);
    }
    if bits {
        variants.push(Variant::Bits);
    }
    if bits_rotate {
        variants.push(Variant::BitsRotate);
    }
    if bits_striped || run_default {
        variants.push(Variant::BitsStriped);
    }
    assert(variants@ =~= variants_to_run(bytes, bits, bits_rotate, bits_striped));
    variants
}

} // verus!
