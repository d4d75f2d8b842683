//! The sieve's true/false flags. Each storage keeps them in a different layout;
//! all of them are seen through the same sequence of flags.

use vstd::prelude::*;

verus! {

/// Whether a reset that starts at `start` and steps by `skip` reaches index `j`.
pub open spec fn is_struck(start: int, skip: int, j: int) -> bool {
    start <= j && (j - start) % skip == 0
}

/// `flags` after clearing every `skip`th flag from `start` on.
pub open spec fn cleared(flags: Seq<bool>, start: int, skip: int) -> Seq<bool> {
    Seq::new(flags.len(), |j: int| flags[j] && !is_struck(start, skip, j))
}

/// `size` flags, all set.
pub open spec fn all_set(size: nat) -> Seq<bool> {
    Seq::new(size, |j: int| true)
}

/// Between two consecutive strikes no index is struck, and a strike is followed
/// by the next one `skip` further on.
pub proof fn lemma_strike_step(start: int, skip: int, i: int, j: int)
    requires
        skip > 0,
        is_struck(start, skip, i),
    ensures
        is_struck(start, skip, i + skip),
        i < j < i + skip ==> !is_struck(start, skip, j),
{
    let q = (i - start) / skip;
    vstd::arithmetic::div_mod::lemma_fundamental_div_mod(i - start, skip);
    assert(i - start == skip * q);
    assert(i + skip - start == skip * (q + 1)) by (nonlinear_arith)
        requires
            i - start == skip * q,
    ;
    vstd::arithmetic::div_mod::lemma_fundamental_div_mod_converse(i + skip - start, skip, q + 1, 0);
    if i < j < i + skip {
        vstd::arithmetic::div_mod::lemma_fundamental_div_mod_converse(j - start, skip, q, j - i);
    }
}

/// A reset strikes its own start.
pub proof fn lemma_strike_origin(start: int, skip: int)
    requires
        skip > 0,
    ensures
        is_struck(start, skip, start),
{
    vstd::arithmetic::div_mod::lemma_small_mod(0, skip as nat);
}

/// A reset that starts past the last flag changes nothing.
pub proof fn lemma_reset_past_end(flags: Seq<bool>, start: int, skip: int)
    requires
        start >= flags.len(),
    ensures
        cleared(flags, start, skip) == flags,
{
    assert(cleared(flags, start, skip) =~= flags);
}

/// Freshly created flags read true at every index below their number and false from
/// there on, as `get` reads them.
pub proof fn lemma_fresh_reads(size: nat, index: int)
    requires
        0 <= index,
    ensures
        (index < all_set(size).len() && all_set(size)[index]) == (index < size),
{
}

/// The sieve's flags. Each storage keeps them in a different layout.
pub trait FlagStorage: Sized {
    /// The flags, in index order.
    spec fn flags(&self) -> Seq<bool>;

    /// The storage's layout is consistent.
    spec fn inv(&self) -> bool;

    /// Creates `size` flags, all set to true.
    fn create_true(size: usize) -> (storage: Self)
        requires
            size <= isize::MAX,
        ensures
            storage.inv(),
            storage.flags() == all_set(size as nat),
    ;

    /// Clears every `skip`th flag, starting at `start`.
    fn reset_flags(&mut self, start: usize, skip: usize)
        requires
            old(self).inv(),
            skip > 0,
        ensures
            final(self).inv(),
            final(self).flags() == cleared(old(self).flags(), start as int, skip as int),
    ;

    /// The flag at `index`; false past the last flag.
    fn get(&self, index: usize) -> (flag: bool)
        requires
            self.inv(),
        ensures
            flag == (index < self.flags().len() && self.flags()[index as int]),
    ;
}

/// One byte per flag.
pub struct FlagStorageByteVector(Vec<u8>);

impl FlagStorage for FlagStorageByteVector {
    closed spec fn flags(&self) -> Seq<bool> {
        Seq::new(self.0@.len(), |j: int| self.0@[j] == 1u8)
    }

    closed spec fn inv(&self) -> bool {
        true
    }

    fn create_true(size: usize) -> (storage: Self) {
        let storage = FlagStorageByteVector(vec![1u8; size]);
        assert(storage.flags() =~= all_set(size as nat));
        storage
    }

    #[inline(always)]
    fn reset_flags(&mut self, start: usize, skip: usize) {
        let ghost before = self.flags();
        let len = self.0.len();
        let mut i = start;
        proof {
            lemma_strike_origin(start as int, skip as int);
        }
        while i < len
            invariant
                len == self.0.len(),
                before.len() == len,
                skip > 0,
                start <= i,
                i < len ==> is_struck(start as int, skip as int, i as int),
                forall|j: int|
                    0 <= j < len ==> (#[trigger] self.0@[j] == 1u8) == (before[j] && !(
                    is_struck(start as int, skip as int, j) && j < i)),
            decreases len - i,
        {
            self.0.set(i, 0);
            proof {
                lemma_strike_step(start as int, skip as int, i as int, 0);
                assert forall|j: int| i < j < i + skip implies !is_struck(
                    start as int,
                    skip as int,
                    j,
                ) by {
                    lemma_strike_step(start as int, skip as int, i as int, j);
                }
            }
            // a step past the last flag ends the reset
            if len - i <= skip {
                i = len;
            } else {
                i = i + skip;
            }
        }
        assert(self.flags() =~= cleared(before, start as int, skip as int));
    }

    fn get(&self, index: usize) -> (flag: bool) {
        if index < self.0.len() {
            self.0[index] == 1
        } else {
            false
        }
    }
}

} // verus!

verus! {

/// Flags per 32-bit word.
const U32_BITS: usize = 32;

/// Flags per byte.
const U8_BITS: usize = 8;

/// Words of `bits_per_word` flags needed to hold `size` flags.
pub open spec fn words_needed(size: nat, bits_per_word: nat) -> nat {
    size / bits_per_word + if size % bits_per_word > 0 {
        1nat
    } else {
        0nat
    }
}

/// Bit `b` of a 32-bit word.
pub open spec fn bit32(word: u32, b: u32) -> bool {
    (word >> b) & 1u32 == 1u32
}

/// Bit `b` of a byte.
pub open spec fn bit8(word: u8, b: u8) -> bool {
    (word >> b) & 1u8 == 1u8
}

proof fn lemma_bit32_full(b: u32)
    requires
        b < 32,
    ensures
        bit32(0xffff_ffffu32, b),
{
    assert((0xffff_ffffu32 >> b) & 1u32 == 1u32) by (bit_vector)
        requires
            b < 32,
    ;
}

proof fn lemma_bit32_clear(x: u32, c: u32, b: u32)
    requires
        b < 32,
        c < 32,
    ensures
        bit32(x & !(1u32 << c), b) == (bit32(x, b) && b != c),
{
    assert(((x & !(1u32 << c)) >> b) & 1u32 == 1u32 <==> ((x >> b) & 1u32 == 1u32 && b != c))
        by (bit_vector)
        requires
            b < 32,
            c < 32,
    ;
}

proof fn lemma_bit32_test(x: u32, b: u32)
    requires
        b < 32,
    ensures
        (x & (1u32 << b) != 0) == bit32(x, b),
{
    assert((x & (1u32 << b) != 0) == ((x >> b) & 1u32 == 1u32)) by (bit_vector)
        requires
            b < 32,
    ;
}

proof fn lemma_bit8_full(b: u8)
    requires
        b < 8,
    ensures
        bit8(0xffu8, b),
{
    assert((0xffu8 >> b) & 1u8 == 1u8) by (bit_vector)
        requires
            b < 8,
    ;
}

proof fn lemma_bit8_clear(x: u8, c: u8, b: u8)
    requires
        b < 8,
        c < 8,
    ensures
        bit8(x & !(1u8 << c), b) == (bit8(x, b) && b != c),
{
    assert(((x & !(1u8 << c)) >> b) & 1u8 == 1u8 <==> ((x >> b) & 1u8 == 1u8 && b != c))
        by (bit_vector)
        requires
            b < 8,
            c < 8,
    ;
}

proof fn lemma_bit8_test(x: u8, b: u8)
    requires
        b < 8,
    ensures
        (x & (1u8 << b) != 0) == bit8(x, b),
{
    assert((x & (1u8 << b) != 0) == ((x >> b) & 1u8 == 1u8)) by (bit_vector)
        requires
            b < 8,
    ;
}

/// One bit per flag, packed into 32-bit words. Builds a new bit mask for every flag it clears.
pub struct FlagStorageBitVector {
    words: Vec<u32>,
    length_bits: usize,
}

impl FlagStorage for FlagStorageBitVector {
    closed spec fn flags(&self) -> Seq<bool> {
        Seq::new(
            self.length_bits as nat,
            |j: int| bit32(self.words@[j / 32], (j % 32) as u32),
        )
    }

    closed spec fn inv(&self) -> bool {
        &&& self.length_bits <= isize::MAX
        &&& self.words@.len() == words_needed(self.length_bits as nat, 32)
    }

    fn create_true(size: usize) -> (storage: Self) {
        let num_words = size / U32_BITS + (size % U32_BITS).min(1);
        let storage = FlagStorageBitVector { words: vec![0xffff_ffffu32; num_words], length_bits: size };
        assert forall|j: int| 0 <= j < size implies #[trigger] storage.flags()[j] by {
            lemma_bit32_full((j % 32) as u32);
        }
        assert(storage.flags() =~= all_set(size as nat));
        storage
    }

    #[inline(always)]
    fn reset_flags(&mut self, start: usize, skip: usize) {
        let ghost before = self.words@;
        let ghost before_flags = self.flags();
        let limit = self.words.len() * U32_BITS;
        let mut i = start;
        proof {
            lemma_strike_origin(start as int, skip as int);
        }
        while i < limit
            invariant
                self.inv(),
                self.length_bits == old(self).length_bits,
                limit == self.words@.len() * 32,
                before.len() == self.words@.len(),
                skip > 0,
                start <= i,
                i < limit ==> is_struck(start as int, skip as int, i as int),
                forall|w: int, b: u32|
                    0 <= w < self.words@.len() && b < 32 ==> (#[trigger] bit32(self.words@[w], b))
                        == (bit32(before[w], b) && !(is_struck(start as int, skip as int, w * 32 + b)
                        && w * 32 + b < i)),
            decreases limit - i,
        {
            let word_idx = i / U32_BITS;
            let bit_idx = i % U32_BITS;
            let word = self.words[word_idx];
            self.words.set(word_idx, word & !(1u32 << (bit_idx as u32)));
            proof {
                assert forall|w: int, b: u32|
                    0 <= w < self.words@.len() && b < 32 implies (#[trigger] bit32(self.words@[w], b))
                    == (bit32(before[w], b) && !(is_struck(start as int, skip as int, w * 32 + b)
                    && w * 32 + b < i + 1)) by {
                    if w == word_idx {
                        lemma_bit32_clear(word, bit_idx as u32, b);
                    }
                }
                assert forall|j: int| i < j < i + skip implies !is_struck(
                    start as int,
                    skip as int,
                    j,
                ) by {
                    lemma_strike_step(start as int, skip as int, i as int, j);
                }
                lemma_strike_step(start as int, skip as int, i as int, 0);
            }
            // a step past the last word ends the reset
            if limit - i <= skip {
                i = limit;
            } else {
                i = i + skip;
            }
        }
        proof {
            assert forall|j: int| 0 <= j < self.length_bits implies #[trigger] self.flags()[j] == (
            before_flags[j] && !is_struck(start as int, skip as int, j)) by {
                assert(j == (j / 32) * 32 + ((j % 32) as u32));
            }
        }
        assert(self.flags() =~= cleared(before_flags, start as int, skip as int));
    }

    fn get(&self, index: usize) -> (flag: bool) {
        if index >= self.length_bits {
            return false;
        }
        let word = self.words[index / U32_BITS];
        proof {
            lemma_bit32_test(word, (index % 32) as u32);
        }
        word & (1u32 << ((index % U32_BITS) as u32)) != 0
    }
}

} // verus!

verus! {

/// A 32-bit word with its bits turned `n` places to the left, the bits pushed out
/// at the top coming back in at the bottom.
pub open spec fn rotl32(word: u32, n: u32) -> u32 {
    let k = n % 32;
    if k == 0 {
        word
    } else {
        (word << k) | (word >> ((32 - k) as u32))
    }
}

/// `word` with its bits turned `n` places to the left, the bits pushed out at the top
/// coming back in at the bottom, as `u32::rotate_left` does.
fn rotate_left_u32(word: u32, n: u32) -> (rotated: u32)
    ensures
        rotated == rotl32(word, n),
{
    let k = n % 32;
    if k == 0 {
        word
    } else {
        (word << k) | (word >> (32 - k))
    }
}

/// Turning a single-hole mask moves its hole by the same amount.
proof fn lemma_rotate_hole(a: u32, n: u32)
    requires
        a < 32,
    ensures
        rotl32(!(1u32 << a), n) == !(1u32 << ((a + n % 32) % 32) as u32),
{
    let k = n % 32;
    assert(k < 32);
    if k == 0 {
        assert((a + k) % 32 == a);
    } else {
        assert((!(1u32 << a) << k) | (!(1u32 << a) >> ((32 - k) as u32)) == !(1u32 << ((a + k)
            % 32) as u32)) by (bit_vector)
            requires
                a < 32,
                0 < k < 32,
        ;
    }
}

/// Like `FlagStorageBitVector`, but rotates a single mask instead of building one per flag.
pub struct FlagStorageBitVectorRotate {
    words: Vec<u32>,
    length_bits: usize,
}

impl FlagStorage for FlagStorageBitVectorRotate {
    closed spec fn flags(&self) -> Seq<bool> {
        Seq::new(
            self.length_bits as nat,
            |j: int| bit32(self.words@[j / 32], (j % 32) as u32),
        )
    }

    closed spec fn inv(&self) -> bool {
        &&& self.length_bits <= isize::MAX
        &&& self.words@.len() == words_needed(self.length_bits as nat, 32)
    }

    fn create_true(size: usize) -> (storage: Self) {
        let num_words = size / U32_BITS + (size % U32_BITS).min(1);
        let storage = FlagStorageBitVectorRotate {
            words: vec![0xffff_ffffu32; num_words],
            length_bits: size,
        };
        assert forall|j: int| 0 <= j < size implies #[trigger] storage.flags()[j] by {
            lemma_bit32_full((j % 32) as u32);
        }
        assert(storage.flags() =~= all_set(size as nat));
        storage
    }

    #[inline(always)]
    fn reset_flags(&mut self, start: usize, skip: usize) {
        let ghost before = self.words@;
        let ghost before_flags = self.flags();
        let limit = self.words.len() * U32_BITS;
        let mut i = start;
        let initial_bit_idx = start % U32_BITS;
        let mut rolling_mask: u32 = !(1u32 << (initial_bit_idx as u32));
        let roll_bits = skip as u32;
        proof {
            lemma_strike_origin(start as int, skip as int);
            assert((skip as u32) % 32 == (skip % 32) as u32) by (bit_vector);
        }
        while i < limit
            invariant
                self.inv(),
                self.length_bits == old(self).length_bits,
                limit == self.words@.len() * 32,
                before.len() == self.words@.len(),
                skip > 0,
                roll_bits % 32 == skip % 32,
                start <= i,
                i < limit ==> is_struck(start as int, skip as int, i as int),
                i < limit ==> rolling_mask == !(1u32 << ((i % 32) as u32)),
                forall|w: int, b: u32|
                    0 <= w < self.words@.len() && b < 32 ==> (#[trigger] bit32(self.words@[w], b))
                        == (bit32(before[w], b) && !(is_struck(start as int, skip as int, w * 32 + b)
                        && w * 32 + b < i)),
            decreases limit - i,
        {
            let word_idx = i / U32_BITS;
            let word = self.words[word_idx];
            self.words.set(word_idx, word & rolling_mask);
            proof {
                assert forall|w: int, b: u32|
                    0 <= w < self.words@.len() && b < 32 implies (#[trigger] bit32(self.words@[w], b))
                    == (bit32(before[w], b) && !(is_struck(start as int, skip as int, w * 32 + b)
                    && w * 32 + b < i + 1)) by {
                    if w == word_idx {
                        lemma_bit32_clear(word, (i % 32) as u32, b);
                    }
                }
                assert forall|j: int| i < j < i + skip implies !is_struck(
                    start as int,
                    skip as int,
                    j,
                ) by {
                    lemma_strike_step(start as int, skip as int, i as int, j);
                }
                lemma_strike_step(start as int, skip as int, i as int, 0);
                lemma_rotate_hole((i % 32) as u32, roll_bits);
            }
            // a step past the last word ends the reset
            if limit - i <= skip {
                i = limit;
            } else {
                i = i + skip;
            }
            rolling_mask = rotate_left_u32(rolling_mask, roll_bits);
        }
        proof {
            assert forall|j: int| 0 <= j < self.length_bits implies #[trigger] self.flags()[j] == (
            before_flags[j] && !is_struck(start as int, skip as int, j)) by {
                assert(j == (j / 32) * 32 + ((j % 32) as u32));
            }
        }
        assert(self.flags() =~= cleared(before_flags, start as int, skip as int));
    }

    fn get(&self, index: usize) -> (flag: bool) {
        if index >= self.length_bits {
            return false;
        }
        let word = self.words[index / U32_BITS];
        proof {
            lemma_bit32_test(word, (index % 32) as u32);
        }
        word & (1u32 << ((index % U32_BITS) as u32)) != 0
    }
}

} // verus!

verus! {

/// Where a reset first strikes at or after `lo`, as an offset from `lo`: zero when the
/// reset starts before `lo` on a strike, else the distance to the next strike.
proof fn lemma_first_strike_after(start: int, skip: int, lo: int, off: int)
    requires
        skip > 0,
        start < lo,
        off == (if (lo - start) % skip == 0 {
            0
        } else {
            skip - (lo - start) % skip
        }),
    ensures
        0 <= off < skip,
        is_struck(start, skip, lo + off),
        forall|w: int| 0 <= w < off ==> !is_struck(start, skip, #[trigger] (lo + w)),
{
    let gap = lo - start;
    let q = gap / skip;
    let r = gap % skip;
    vstd::arithmetic::div_mod::lemma_fundamental_div_mod(gap, skip);
    assert(gap == skip * q + r);
    if r == 0 {
        assert(gap + off == skip * q + 0);
        vstd::arithmetic::div_mod::lemma_fundamental_div_mod_converse(gap + off, skip, q, 0);
    } else {
        assert(gap + off == skip * (q + 1) + 0) by (nonlinear_arith)
            requires
                gap == skip * q + r,
                off == skip - r,
        ;
        vstd::arithmetic::div_mod::lemma_fundamental_div_mod_converse(gap + off, skip, q + 1, 0);
        assert forall|w: int| 0 <= w < off implies !is_struck(start, skip, #[trigger] (lo + w)) by {
            vstd::arithmetic::div_mod::lemma_fundamental_div_mod_converse(gap + w, skip, q, r + w);
        }
    }
}

/// Flag `j` of a striped storage with `chunk` bytes sits in byte `j % chunk`, at bit `j / chunk`.
proof fn lemma_stripe_position(j: int, chunk: int)
    requires
        chunk > 0,
        0 <= j < 8 * chunk,
    ensures
        0 <= j % chunk < chunk,
        0 <= j / chunk < 8,
        j == (j / chunk) * chunk + j % chunk,
{
    vstd::arithmetic::div_mod::lemma_fundamental_div_mod(j, chunk);
    vstd::arithmetic::mul::lemma_mul_is_commutative(chunk, j / chunk);
    vstd::arithmetic::div_mod::lemma_div_pos_is_pos(j, chunk);
    if j / chunk >= 8 {
        assert(chunk * (j / chunk) >= chunk * 8) by (nonlinear_arith)
            requires
                j / chunk >= 8,
                chunk > 0,
        ;
    }
}

/// One bit per flag, in bytes, filled in stripes: first bit 0 of every byte, then bit 1 of
/// every byte, and so on. Clearing is fast while the sieve fits in the CPU cache, but slow
/// once it doesn't.
pub struct FlagStorageBitVectorStriped {
    words: Vec<u8>,
    length_bits: usize,
}

impl FlagStorage for FlagStorageBitVectorStriped {
    closed spec fn flags(&self) -> Seq<bool> {
        let chunk = self.words@.len() as int;
        Seq::new(
            self.length_bits as nat,
            |j: int| bit8(self.words@[j % chunk], (j / chunk) as u8),
        )
    }

    closed spec fn inv(&self) -> bool {
        &&& self.length_bits <= isize::MAX
        &&& self.words@.len() == words_needed(self.length_bits as nat, 8)
    }

    fn create_true(size: usize) -> (storage: Self) {
        let num_words = size / U8_BITS + (size % U8_BITS).min(1);
        let storage = Self { words: vec![0xffu8; num_words], length_bits: size };
        assert forall|j: int| 0 <= j < size implies #[trigger] storage.flags()[j] by {
            lemma_stripe_position(j, num_words as int);
            lemma_bit8_full((j / num_words as int) as u8);
        }
        assert(storage.flags() =~= all_set(size as nat));
        storage
    }

    fn reset_flags(&mut self, start: usize, skip: usize) {
        let ghost before = self.words@;
        let ghost before_flags = self.flags();
        let chunk = self.words.len();
        let mut bit: usize = 0;
        while bit < U8_BITS
            invariant
                self.inv(),
                self.length_bits == old(self).length_bits,
                chunk == self.words@.len(),
                before.len() == chunk,
                skip > 0,
                bit <= 8,
                forall|w: int, b: int|
                    0 <= w < chunk && 0 <= b < 8 ==> (#[trigger] bit8(self.words@[w], b as u8))
                        == (bit8(before[w], b as u8) && !(is_struck(
                        start as int,
                        skip as int,
                        b * chunk + w,
                    ) && b < bit)),
            decreases 8 - bit,
        {
            let mask = !(1u8 << (bit as u8));
            assert(bit * chunk <= 7 * chunk) by (nonlinear_arith)
                requires
                    bit < 8,
            ;
            // first word in this stripe that holds a flag to clear
            let stripe_start = bit * chunk;
            let mut i: usize = if start >= stripe_start {
                start - stripe_start
            } else {
                let rem = (stripe_start - start) % skip;
                if rem == 0 {
                    0
                } else {
                    skip - rem
                }
            };
            proof {
                if start < stripe_start {
                    lemma_first_strike_after(start as int, skip as int, stripe_start as int, i as int);
                } else {
                    lemma_strike_origin(start as int, skip as int);
                }
            }
            let ghost first = i;
            // a large skip can jump past a whole stripe
            while i < chunk
                invariant
                    self.inv(),
                    self.length_bits == old(self).length_bits,
                    chunk == self.words@.len(),
                    before.len() == chunk,
                    skip > 0,
                    bit < 8,
                    stripe_start == bit * chunk,
                    mask == !(1u8 << (bit as u8)),
                    first <= i,
                    i < chunk ==> is_struck(start as int, skip as int, stripe_start + i),
                    forall|w: int|
                        0 <= w < first ==> !is_struck(
                            start as int,
                            skip as int,
                            #[trigger] (stripe_start + w),
                        ),
                    forall|w: int, b: int|
                        0 <= w < chunk && 0 <= b < 8 ==> (#[trigger] bit8(self.words@[w], b as u8))
                            == (bit8(before[w], b as u8) && !(is_struck(
                            start as int,
                            skip as int,
                            b * chunk + w,
                        ) && (b < bit || (b == bit && w < i)))),
                decreases chunk - i,
            {
                let word = self.words[i];
                self.words.set(i, word & mask);
                proof {
                    assert forall|w: int, b: int|
                        0 <= w < chunk && 0 <= b < 8 implies (#[trigger] bit8(
                        self.words@[w],
                        b as u8,
                    )) == (bit8(before[w], b as u8) && !(is_struck(
                        start as int,
                        skip as int,
                        b * chunk + w,
                    ) && (b < bit || (b == bit && w < i + 1)))) by {
                        if w == i {
                            lemma_bit8_clear(word, bit as u8, b as u8);
                        }
                    }
                    assert forall|j: int| i < j < i + skip implies !is_struck(
                        start as int,
                        skip as int,
                        #[trigger] (stripe_start + j),
                    ) by {
                        lemma_strike_step(
                            start as int,
                            skip as int,
                            stripe_start + i,
                            stripe_start + j,
                        );
                    }
                    lemma_strike_step(start as int, skip as int, stripe_start + i, 0);
                }
                // a step past the stripe ends it
                if chunk - i <= skip {
                    i = chunk;
                } else {
                    i = i + skip;
                }
            }
            bit = bit + 1;
        }
        proof {
            assert forall|j: int| 0 <= j < self.length_bits implies #[trigger] self.flags()[j] == (
            before_flags[j] && !is_struck(start as int, skip as int, j)) by {
                lemma_stripe_position(j, chunk as int);
            }
        }
        assert(self.flags() =~= cleared(before_flags, start as int, skip as int));
    }

    fn get(&self, index: usize) -> (flag: bool) {
        if index >= self.length_bits {
            return false;
        }
        proof {
            lemma_stripe_position(index as int, self.words@.len() as int);
        }
        let word_index = index % self.words.len();
        let bit_index = index / self.words.len();
        let word = self.words[word_index];
        proof {
            lemma_bit8_test(word, bit_index as u8);
        }
        word & (1u8 << (bit_index as u8)) != 0
    }
}

} // verus!
