use vstd::prelude::*;
use crate::error::AflError;
use crate::input::HasBytesVec;
use crate::corpus::{Corpus, HasCorpus};
use crate::rand::{Rand, spec_after_draw, spec_draw};
use crate::words::{
    spec_word_arith, store, word_arith_at, word_store_at, digit, load, load_le, load_be, pow256,
    wrap, lemma_load_store, lemma_load_le_bound, lemma_load_be_bound, lemma_pow256_mono,
    lemma_pow256_pos, lemma_store_frame, lemma_pow256_8, store_be,
};
use vstd::arithmetic::div_mod::{
    lemma_small_mod, lemma_mod_sub_multiples_vanish, lemma_mod_add_multiples_vanish,
    lemma_mod_twice,
};
use crate::mem::{
    self_mem_move, mem_move, mem_set, spec_mem_moved, spec_mem_copied, spec_mem_filled,
};

verus! {

/// The largest amount that the arithmetic mutations add or subtract.
pub const ARITH_MAX: u64 = 35;

/// Interesting 8-bit values.
pub const INTERESTING_8: [i8; 9] = [-128, -1, 0, 1, 16, 32, 64, 100, 127];

/// Interesting 16-bit values.
pub const INTERESTING_16: [i16; 19] = [
    -128, -1, 0, 1, 16, 32, 64, 100, 127, -32768, -129, 128, 255, 256, 512, 1000, 1024, 4096, 32767,
];

/// Interesting 32-bit values.
pub const INTERESTING_32: [i32; 27] = [
    -128,
    -1,
    0,
    1,
    16,
    32,
    64,
    100,
    127,
    -32768,
    -129,
    128,
    255,
    256,
    512,
    1000,
    1024,
    4096,
    32767,
    -2147483648,
    -100663046,
    -32769,
    32768,
    65535,
    65536,
    100663045,
    2147483647,
];

/// The result of a mutation.
/// If the mutation got skipped, the target
/// will not be executed with the returned input.
#[derive(Clone, Copy, Debug)]
pub enum MutationResult {
    Mutated,
    Skipped,
}

/// The mutation returned `Ok(Skipped)`.
pub open spec fn is_skipped(res: Result<MutationResult, AflError>) -> bool {
    res matches Ok(MutationResult::Skipped)
}

/// The mutation returned `Ok(Mutated)`.
pub open spec fn is_mutated(res: Result<MutationResult, AflError>) -> bool {
    res matches Ok(MutationResult::Mutated)
}

/// The values that `below(n)` can return are exactly `0..below_bound(n)`.
pub open spec fn below_bound(n: int) -> int {
    if n <= 1 {
        1
    } else {
        n
    }
}

/// `s` with bit `bit` flipped, bits counted from the most significant bit of byte `0`.
pub open spec fn spec_bitflip(s: Seq<u8>, bit: int) -> Seq<u8> {
    s.update(bit / 8, s[bit / 8] ^ (128u8 >> ((bit % 8) as u8)))
}

/// `s` with all bits of byte `idx` flipped.
pub open spec fn spec_byteflip(s: Seq<u8>, idx: int) -> Seq<u8> {
    s.update(idx, s[idx] ^ 0xffu8)
}

/// `s` with byte `idx` incremented, wrapping.
pub open spec fn spec_byteinc(s: Seq<u8>, idx: int) -> Seq<u8> {
    s.update(idx, ((s[idx] + 1) % 256) as u8)
}

/// `s` with byte `idx` decremented, wrapping.
pub open spec fn spec_bytedec(s: Seq<u8>, idx: int) -> Seq<u8> {
    s.update(idx, ((s[idx] + 255) % 256) as u8)
}

/// `s` with byte `idx` negated bitwise.
pub open spec fn spec_byteneg(s: Seq<u8>, idx: int) -> Seq<u8> {
    s.update(idx, !s[idx])
}

/// The amount that the arithmetic mutations add: `num` or `-num`.
pub open spec fn signed_num(num: int, subtract: bool) -> int {
    if subtract {
        -num
    } else {
        num
    }
}

/// The operation that the multi-byte arithmetic mutations pick by the number `op`
/// in `0..4`: add little-endian, subtract little-endian, add big-endian, subtract
/// big-endian.
pub open spec fn spec_word_op(s: Seq<u8>, idx: int, w: nat, num: int, op: int) -> Seq<u8> {
    spec_word_arith(s, idx, w, signed_num(num, op % 2 == 1), op >= 2)
}

/// The index that `rand.below(len)` draws.
pub open spec fn spec_byte_index<R: Rand>(rand: R, len: nat) -> int {
    spec_draw(rand, len as u64) as int
}

/// The bit that `rand.below(len << 3)` draws, `len` taken as a 64-bit number.
pub open spec fn spec_bit_index<R: Rand>(rand: R, len: nat) -> int {
    spec_draw(rand, (len as u64) << 3u64) as int
}

/// Flips bit `bit` of `bytes`, bits counted from the most significant bit of byte `0`.
pub fn bitflip_at(bytes: &mut Vec<u8>, bit: u64)
    requires
        bit / 8 < old(bytes)@.len(),
    ensures
        final(bytes)@ == spec_bitflip(old(bytes)@, bit as int),
{
    assert(bit >> 3u64 == bit / 8 && bit & 7u64 == bit % 8) by (bit_vector);
    let idx = (bit >> 3u64) as usize;
    let mask: u8 = 128u8 >> ((bit & 7u64) as u8);
    let b = bytes[idx];
    bytes.set(idx, b ^ mask);
}

/// Flips all bits of byte `idx`.
pub fn byteflip_at(bytes: &mut Vec<u8>, idx: usize)
    requires
        idx < old(bytes)@.len(),
    ensures
        final(bytes)@ == spec_byteflip(old(bytes)@, idx as int),
{
    let b = bytes[idx];
    bytes.set(idx, b ^ 0xffu8);
}

/// Increments byte `idx`, wrapping.
pub fn byteinc_at(bytes: &mut Vec<u8>, idx: usize)
    requires
        idx < old(bytes)@.len(),
    ensures
        final(bytes)@ == spec_byteinc(old(bytes)@, idx as int),
{
    let b = bytes[idx];
    bytes.set(idx, b.wrapping_add(1));
}

/// Decrements byte `idx`, wrapping.
pub fn bytedec_at(bytes: &mut Vec<u8>, idx: usize)
    requires
        idx < old(bytes)@.len(),
    ensures
        final(bytes)@ == spec_bytedec(old(bytes)@, idx as int),
{
    let b = bytes[idx];
    bytes.set(idx, b.wrapping_sub(1));
}

/// Negates byte `idx` bitwise.
pub fn byteneg_at(bytes: &mut Vec<u8>, idx: usize)
    requires
        idx < old(bytes)@.len(),
    ensures
        final(bytes)@ == spec_byteneg(old(bytes)@, idx as int),
{
    let b = bytes[idx];
    bytes.set(idx, !b);
}

/// Sets byte `idx` to `val`.
pub fn byteset_at(bytes: &mut Vec<u8>, idx: usize, val: u8)
    requires
        idx < old(bytes)@.len(),
    ensures
        final(bytes)@ == old(bytes)@.update(idx as int, val),
{
    bytes.set(idx, val);
}

/// Bitflip mutation for inputs with a bytes vector
pub fn mutation_bitflip<I: HasBytesVec, M, R: Rand, S>(
    _mutator: &mut M,
    rand: &mut R,
    _state: &mut S,
    input: &mut I,
) -> (res: Result<MutationResult, AflError>)
    ensures
        *final(_mutator) == *old(_mutator),
        *final(_state) == *old(_state),
        old(input).spec_bytes().len() == 0 ==> is_skipped(res) && final(input).spec_bytes()
            == old(input).spec_bytes(),
        old(input).spec_bytes().len() > 0 ==> is_mutated(res) && 0 <= spec_bit_index(
            *old(rand),
            old(input).spec_bytes().len(),
        ) < 8 * old(input).spec_bytes().len() && final(input).spec_bytes() == spec_bitflip(
            old(input).spec_bytes(),
            spec_bit_index(*old(rand), old(input).spec_bytes().len()),
        ),
        *final(rand) == (if old(input).spec_bytes().len() == 0 {
            *old(rand)
        } else {
            spec_after_draw(*old(rand), (old(input).spec_bytes().len() as u64) << 3u64)
        }),
{
    if input.bytes().len() == 0 {
        Ok(MutationResult::Skipped)
    } else {
        let n = input.bytes().len() as u64;
        let ghost r0 = *rand;
        let bit = rand.below(n << 3u64);
        assert(bit as int == spec_bit_index(r0, input.spec_bytes().len()));
        assert(bit >> 3u64 < n) by (bit_vector)
            requires
                n >= 1,
                (n << 3u64) <= 1 ==> bit == 0,
                (n << 3u64) > 1 ==> bit < (n << 3u64),
        ;
        assert(bit >> 3u64 == bit / 8) by (bit_vector);
        bitflip_at(input.bytes_mut(), bit);
        Ok(MutationResult::Mutated)
    }
}


/// Byteflip mutation: flips all bits of a random byte.
pub fn mutation_byteflip<I: HasBytesVec, M, R: Rand, S>(
    _mutator: &mut M,
    rand: &mut R,
    _state: &mut S,
    input: &mut I,
) -> (res: Result<MutationResult, AflError>)
    ensures
        *final(_mutator) == *old(_mutator),
        *final(_state) == *old(_state),
        old(input).spec_bytes().len() == 0 ==> is_skipped(res) && final(input).spec_bytes()
            == old(input).spec_bytes(),
        old(input).spec_bytes().len() > 0 ==> is_mutated(res) && 0 <= spec_byte_index(
            *old(rand),
            old(input).spec_bytes().len(),
        ) < old(input).spec_bytes().len() && final(input).spec_bytes() == spec_byteflip(
            old(input).spec_bytes(),
            spec_byte_index(*old(rand), old(input).spec_bytes().len()),
        ),
        *final(rand) == (if old(input).spec_bytes().len() == 0 {
            *old(rand)
        } else {
            spec_after_draw(*old(rand), old(input).spec_bytes().len() as u64)
        }),
{
    if input.bytes().len() == 0 {
        Ok(MutationResult::Skipped)
    } else {
        let ghost r0 = *rand;
        let idx = rand.below(input.bytes().len() as u64) as usize;
        assert(idx as int == spec_byte_index(r0, input.spec_bytes().len()));
        byteflip_at(input.bytes_mut(), idx);
        Ok(MutationResult::Mutated)
    }
}

/// Byteinc mutation: increments a random byte, wrapping.
pub fn mutation_byteinc<I: HasBytesVec, M, R: Rand, S>(
    _mutator: &mut M,
    rand: &mut R,
    _state: &mut S,
    input: &mut I,
) -> (res: Result<MutationResult, AflError>)
    ensures
        *final(_mutator) == *old(_mutator),
        *final(_state) == *old(_state),
        old(input).spec_bytes().len() == 0 ==> is_skipped(res) && final(input).spec_bytes()
            == old(input).spec_bytes(),
        old(input).spec_bytes().len() > 0 ==> is_mutated(res) && 0 <= spec_byte_index(
            *old(rand),
            old(input).spec_bytes().len(),
        ) < old(input).spec_bytes().len() && final(input).spec_bytes() == spec_byteinc(
            old(input).spec_bytes(),
            spec_byte_index(*old(rand), old(input).spec_bytes().len()),
        ),
        *final(rand) == (if old(input).spec_bytes().len() == 0 {
            *old(rand)
        } else {
            spec_after_draw(*old(rand), old(input).spec_bytes().len() as u64)
        }),
{
    if input.bytes().len() == 0 {
        Ok(MutationResult::Skipped)
    } else {
        let ghost r0 = *rand;
        let idx = rand.below(input.bytes().len() as u64) as usize;
        assert(idx as int == spec_byte_index(r0, input.spec_bytes().len()));
        byteinc_at(input.bytes_mut(), idx);
        Ok(MutationResult::Mutated)
    }
}

/// Bytedec mutation: decrements a random byte, wrapping.
pub fn mutation_bytedec<I: HasBytesVec, M, R: Rand, S>(
    _mutator: &mut M,
    rand: &mut R,
    _state: &mut S,
    input: &mut I,
) -> (res: Result<MutationResult, AflError>)
    ensures
        *final(_mutator) == *old(_mutator),
        *final(_state) == *old(_state),
        old(input).spec_bytes().len() == 0 ==> is_skipped(res) && final(input).spec_bytes()
            == old(input).spec_bytes(),
        old(input).spec_bytes().len() > 0 ==> is_mutated(res) && 0 <= spec_byte_index(
            *old(rand),
            old(input).spec_bytes().len(),
        ) < old(input).spec_bytes().len() && final(input).spec_bytes() == spec_bytedec(
            old(input).spec_bytes(),
            spec_byte_index(*old(rand), old(input).spec_bytes().len()),
        ),
        *final(rand) == (if old(input).spec_bytes().len() == 0 {
            *old(rand)
        } else {
            spec_after_draw(*old(rand), old(input).spec_bytes().len() as u64)
        }),
{
    if input.bytes().len() == 0 {
        Ok(MutationResult::Skipped)
    } else {
        let ghost r0 = *rand;
        let idx = rand.below(input.bytes().len() as u64) as usize;
        assert(idx as int == spec_byte_index(r0, input.spec_bytes().len()));
        bytedec_at(input.bytes_mut(), idx);
        Ok(MutationResult::Mutated)
    }
}

/// Byteneg mutation: negates a random byte bitwise.
pub fn mutation_byteneg<I: HasBytesVec, M, R: Rand, S>(
    _mutator: &mut M,
    rand: &mut R,
    _state: &mut S,
    input: &mut I,
) -> (res: Result<MutationResult, AflError>)
    ensures
        *final(_mutator) == *old(_mutator),
        *final(_state) == *old(_state),
        old(input).spec_bytes().len() == 0 ==> is_skipped(res) && final(input).spec_bytes()
            == old(input).spec_bytes(),
        old(input).spec_bytes().len() > 0 ==> is_mutated(res) && 0 <= spec_byte_index(
            *old(rand),
            old(input).spec_bytes().len(),
        ) < old(input).spec_bytes().len() && final(input).spec_bytes() == spec_byteneg(
            old(input).spec_bytes(),
            spec_byte_index(*old(rand), old(input).spec_bytes().len()),
        ),
        *final(rand) == (if old(input).spec_bytes().len() == 0 {
            *old(rand)
        } else {
            spec_after_draw(*old(rand), old(input).spec_bytes().len() as u64)
        }),
{
    if input.bytes().len() == 0 {
        Ok(MutationResult::Skipped)
    } else {
        let ghost r0 = *rand;
        let idx = rand.below(input.bytes().len() as u64) as usize;
        assert(idx as int == spec_byte_index(r0, input.spec_bytes().len()));
        byteneg_at(input.bytes_mut(), idx);
        Ok(MutationResult::Mutated)
    }
}

/// Byterand mutation: sets a random byte to a random value.
pub fn mutation_byterand<I: HasBytesVec, M, R: Rand, S>(
    _mutator: &mut M,
    rand: &mut R,
    _state: &mut S,
    input: &mut I,
) -> (res: Result<MutationResult, AflError>)
    ensures
        *final(_mutator) == *old(_mutator),
        *final(_state) == *old(_state),
        old(input).spec_bytes().len() == 0 ==> is_skipped(res) && final(input).spec_bytes()
            == old(input).spec_bytes(),
        old(input).spec_bytes().len() > 0 ==> is_mutated(res) && 0 <= spec_byte_index(
            *old(rand),
            old(input).spec_bytes().len(),
        ) < old(input).spec_bytes().len() && final(input).spec_bytes() == old(
            input,
        ).spec_bytes().update(
            spec_byte_index(*old(rand), old(input).spec_bytes().len()),
            spec_draw(spec_after_draw(*old(rand), old(input).spec_bytes().len() as u64), 256) as u8,
        ),
        *final(rand) == (if old(input).spec_bytes().len() == 0 {
            *old(rand)
        } else {
            spec_after_draw(
                spec_after_draw(*old(rand), old(input).spec_bytes().len() as u64),
                256,
            )
        }),
{
    if input.bytes().len() == 0 {
        Ok(MutationResult::Skipped)
    } else {
        let ghost r0 = *rand;
        let idx = rand.below(input.bytes().len() as u64) as usize;
        assert(idx as int == spec_byte_index(r0, input.spec_bytes().len()));
        let val = rand.below(256) as u8;
        byteset_at(input.bytes_mut(), idx, val);
        Ok(MutationResult::Mutated)
    }
}

/// The index that `rand.below(len - 1)` draws: an index below the last byte of an input
/// of `len` bytes, where `len > 1`.
pub open spec fn spec_index_below_last<R: Rand>(rand: R, len: nat) -> int {
    spec_draw(rand, (len - 1) as u64) as int
}

/// What an arithmetic mutation on `width`-byte words does to the input `s` with the
/// generator in state `rand`: whether it mutates, the bytes it leaves and the generator's
/// state after it. An input of at most one byte is skipped without drawing. Otherwise it
/// draws an index below the last byte, an amount in `1..=ARITH_MAX` and an operation below
/// `nops`, in this order, and adds or subtracts the amount to the word at the index, little-
/// or big-endian as the operation says; a word that would run past the end is not written.
pub open spec fn spec_arith_outcome<R: Rand>(s: Seq<u8>, rand: R, width: nat, nops: u64) -> (
    bool,
    Seq<u8>,
    R,
) {
    if s.len() <= 1 {
        (false, s, rand)
    } else {
        let idx = spec_index_below_last(rand, s.len());
        let r1 = spec_after_draw(rand, (s.len() - 1) as u64);
        let num = 1 + spec_draw(r1, ARITH_MAX);
        let r2 = spec_after_draw(r1, ARITH_MAX);
        let op = spec_draw(r2, nops);
        let r3 = spec_after_draw(r2, nops);
        if idx + width > s.len() {
            (false, s, r3)
        } else {
            (true, spec_word_op(s, idx, width, num, op as int), r3)
        }
    }
}

/// The result, the input and the generator that a mutation leaves, against its outcome:
/// whether it mutates, the bytes and the generator's state.
pub open spec fn ends_as<R>(
    res: Result<MutationResult, AflError>,
    bytes: Seq<u8>,
    rand: R,
    outcome: (bool, Seq<u8>, R),
) -> bool {
    &&& if outcome.0 {
        is_mutated(res)
    } else {
        is_skipped(res)
    }
    &&& bytes == outcome.1
    &&& rand == outcome.2
}

/// Adds or subtracts a random amount in `1..=ARITH_MAX` to the `width`-byte number at a
/// random index below the last byte, with the operation drawn from `0..nops`. Inputs of
/// at most one byte are skipped, and so is a draw whose word would run past the end.
fn arith_mutation<I: HasBytesVec, R: Rand>(
    rand: &mut R,
    input: &mut I,
    width: usize,
    nops: u64,
) -> (res: Result<MutationResult, AflError>)
    requires
        1 <= width <= 8,
        nops == 2 || nops == 4,
    ensures
        ends_as(
            res,
            final(input).spec_bytes(),
            *final(rand),
            spec_arith_outcome(old(input).spec_bytes(), *old(rand), width as nat, nops),
        ),
{
    if input.bytes().len() <= 1 {
        Ok(MutationResult::Skipped)
    } else {
        let ghost r0 = *rand;
        let ghost s0 = input.spec_bytes();
        let idx = rand.below(input.bytes().len() as u64 - 1) as usize;
        assert(idx as int == spec_index_below_last(r0, s0.len()));
        let ghost r1 = *rand;
        let num = 1 + rand.below(ARITH_MAX);
        let ghost r2 = *rand;
        let op = rand.below(nops);
        assert(r1 == spec_after_draw(r0, (s0.len() - 1) as u64));
        assert(num == 1 + spec_draw(r1, ARITH_MAX));
        assert(r2 == spec_after_draw(r1, ARITH_MAX));
        assert(op == spec_draw(r2, nops));
        if width > input.bytes().len() - idx {
            return Ok(MutationResult::Skipped);
        }
        word_arith_at(input.bytes_mut(), idx, width, num, op % 2 == 1, op >= 2);
        assert(input.spec_bytes() == spec_word_op(s0, idx as int, width as nat, num as int, op as int));
        Ok(MutationResult::Mutated)
    }
}

/// Byteadd mutation: adds or subtracts a small amount to a random byte below the last
/// one, wrapping.
pub fn mutation_byteadd<I: HasBytesVec, M, R: Rand, S>(
    _mutator: &mut M,
    rand: &mut R,
    _state: &mut S,
    input: &mut I,
) -> (res: Result<MutationResult, AflError>)
    ensures
        *final(_mutator) == *old(_mutator),
        *final(_state) == *old(_state),
        old(input).spec_bytes().len() <= 1 ==> is_skipped(res) && final(input).spec_bytes()
            == old(input).spec_bytes() && *final(rand) == *old(rand),
        ends_as(
            res,
            final(input).spec_bytes(),
            *final(rand),
            spec_arith_outcome(old(input).spec_bytes(), *old(rand), 1, 2),
        ),
{
    arith_mutation(rand, input, 1, 2)
}

/// Wordadd mutation: adds or subtracts a small amount to the 16-bit number at a random
/// index below the last byte, little- or big-endian, wrapping.
pub fn mutation_wordadd<I: HasBytesVec, M, R: Rand, S>(
    _mutator: &mut M,
    rand: &mut R,
    _state: &mut S,
    input: &mut I,
) -> (res: Result<MutationResult, AflError>)
    ensures
        *final(_mutator) == *old(_mutator),
        *final(_state) == *old(_state),
        old(input).spec_bytes().len() <= 1 ==> is_skipped(res) && final(input).spec_bytes()
            == old(input).spec_bytes() && *final(rand) == *old(rand),
        ends_as(
            res,
            final(input).spec_bytes(),
            *final(rand),
            spec_arith_outcome(old(input).spec_bytes(), *old(rand), 2, 4),
        ),
{
    arith_mutation(rand, input, 2, 4)
}

/// Dwordadd mutation: adds or subtracts a small amount to the 32-bit number at a random
/// index below the last byte, little- or big-endian, wrapping. Where the number drawn puts
/// the word past the end of the input, nothing is written and the mutation is skipped.
pub fn mutation_dwordadd<I: HasBytesVec, M, R: Rand, S>(
    _mutator: &mut M,
    rand: &mut R,
    _state: &mut S,
    input: &mut I,
) -> (res: Result<MutationResult, AflError>)
    ensures
        *final(_mutator) == *old(_mutator),
        *final(_state) == *old(_state),
        old(input).spec_bytes().len() <= 1 ==> is_skipped(res) && final(input).spec_bytes()
            == old(input).spec_bytes() && *final(rand) == *old(rand),
        ends_as(
            res,
            final(input).spec_bytes(),
            *final(rand),
            spec_arith_outcome(old(input).spec_bytes(), *old(rand), 4, 4),
        ),
{
    arith_mutation(rand, input, 4, 4)
}

/// Qwordadd mutation: adds or subtracts a small amount to the 64-bit number at a random
/// index below the last byte, little- or big-endian, wrapping. Where the number drawn puts
/// the word past the end of the input, nothing is written and the mutation is skipped.
pub fn mutation_qwordadd<I: HasBytesVec, M, R: Rand, S>(
    _mutator: &mut M,
    rand: &mut R,
    _state: &mut S,
    input: &mut I,
) -> (res: Result<MutationResult, AflError>)
    ensures
        *final(_mutator) == *old(_mutator),
        *final(_state) == *old(_state),
        old(input).spec_bytes().len() <= 1 ==> is_skipped(res) && final(input).spec_bytes()
            == old(input).spec_bytes() && *final(rand) == *old(rand),
        ends_as(
            res,
            final(input).spec_bytes(),
            *final(rand),
            spec_arith_outcome(old(input).spec_bytes(), *old(rand), 8, 4),
        ),
{
    arith_mutation(rand, input, 8, 4)
}

/// Byteinteresting mutation: sets a random byte below the last one to one of the
/// first nine interesting values.
pub fn mutation_byteinteresting<I: HasBytesVec, M, R: Rand, S>(
    _mutator: &mut M,
    rand: &mut R,
    _state: &mut S,
    input: &mut I,
) -> (res: Result<MutationResult, AflError>)
    ensures
        *final(_mutator) == *old(_mutator),
        *final(_state) == *old(_state),
        old(input).spec_bytes().len() <= 1 ==> is_skipped(res) && final(input).spec_bytes()
            == old(input).spec_bytes() && *final(rand) == *old(rand),
        ({
            let s = old(input).spec_bytes();
            let idx = spec_index_below_last(*old(rand), s.len());
            let r1 = spec_after_draw(*old(rand), (s.len() - 1) as u64);
            let k = spec_draw(r1, 9);
            s.len() > 1 ==> is_mutated(res) && 0 <= idx < s.len() - 1 && final(input).spec_bytes()
                == s.update(idx, INTERESTING_8@[k as int] as u8) && *final(rand)
                == spec_after_draw(r1, 9)
        }),
{
    if input.bytes().len() <= 1 {
        Ok(MutationResult::Skipped)
    } else {
        let ghost r0 = *rand;
        let idx = rand.below(input.bytes().len() as u64 - 1) as usize;
        assert(idx as int == spec_index_below_last(r0, input.spec_bytes().len()));
        let ghost r1 = *rand;
        let k = rand.below(9) as usize;
        assert(k as u64 == spec_draw(r1, 9));
        let val = INTERESTING_8[k] as u8;
        byteset_at(input.bytes_mut(), idx, val);
        Ok(MutationResult::Mutated)
    }
}

/// Wordinteresting mutation: writes one of the first nine interesting 16-bit values at a
/// random index below the last one, little- or big-endian.
pub fn mutation_wordinteresting<I: HasBytesVec, M, R: Rand, S>(
    _mutator: &mut M,
    rand: &mut R,
    _state: &mut S,
    input: &mut I,
) -> (res: Result<MutationResult, AflError>)
    ensures
        *final(_mutator) == *old(_mutator),
        *final(_state) == *old(_state),
        old(input).spec_bytes().len() <= 1 ==> is_skipped(res) && final(input).spec_bytes()
            == old(input).spec_bytes() && *final(rand) == *old(rand),
        ({
            let s = old(input).spec_bytes();
            let idx = spec_index_below_last(*old(rand), s.len());
            let r1 = spec_after_draw(*old(rand), (s.len() - 1) as u64);
            let k = spec_draw(r1, 9);
            let r2 = spec_after_draw(r1, 9);
            let big_endian = spec_draw(r2, 2) != 0;
            s.len() > 1 ==> is_mutated(res) && 0 <= idx < s.len() - 1 && final(input).spec_bytes()
                == store(s, idx, 2, (INTERESTING_16@[k as int] as u16) as nat, big_endian)
                && *final(rand) == spec_after_draw(r2, 2)
        }),
{
    if input.bytes().len() <= 1 {
        Ok(MutationResult::Skipped)
    } else {
        let ghost r0 = *rand;
        let idx = rand.below(input.bytes().len() as u64 - 1) as usize;
        assert(idx as int == spec_index_below_last(r0, input.spec_bytes().len()));
        let ghost r1 = *rand;
        let k = rand.below(9) as usize;
        assert(k as u64 == spec_draw(r1, 9));
        let ghost r2 = *rand;
        let val = INTERESTING_16[k] as u16;
        let big_endian = rand.below(2) != 0;
        assert(big_endian == (spec_draw(r2, 2) != 0));
        word_store_at(input.bytes_mut(), idx, 2, val as u64, big_endian);
        Ok(MutationResult::Mutated)
    }
}

/// Dwordinteresting mutation: writes one of the first nine interesting 32-bit values at a
/// random index below the last byte, little- or big-endian. Where the number drawn puts
/// the word past the end of the input, nothing is written and the mutation is skipped.
pub fn mutation_dwordinteresting<I: HasBytesVec, M, R: Rand, S>(
    _mutator: &mut M,
    rand: &mut R,
    _state: &mut S,
    input: &mut I,
) -> (res: Result<MutationResult, AflError>)
    ensures
        *final(_mutator) == *old(_mutator),
        *final(_state) == *old(_state),
        old(input).spec_bytes().len() <= 1 ==> is_skipped(res) && final(input).spec_bytes()
            == old(input).spec_bytes() && *final(rand) == *old(rand),
        ({
            let s = old(input).spec_bytes();
            let idx = spec_index_below_last(*old(rand), s.len());
            let r1 = spec_after_draw(*old(rand), (s.len() - 1) as u64);
            let k = spec_draw(r1, 9);
            let r2 = spec_after_draw(r1, 9);
            let big_endian = spec_draw(r2, 2) != 0;
            &&& s.len() > 1 ==> 0 <= idx < s.len() - 1 && *final(rand) == spec_after_draw(r2, 2)
            &&& s.len() > 1 && idx + 4 > s.len() ==> is_skipped(res) && final(input).spec_bytes()
                == s
            &&& s.len() > 1 && idx + 4 <= s.len() ==> is_mutated(res) && final(input).spec_bytes()
                == store(s, idx, 4, (INTERESTING_32@[k as int] as u32) as nat, big_endian)
        }),
{
    if input.bytes().len() <= 1 {
        Ok(MutationResult::Skipped)
    } else {
        let ghost r0 = *rand;
        let idx = rand.below(input.bytes().len() as u64 - 1) as usize;
        assert(idx as int == spec_index_below_last(r0, input.spec_bytes().len()));
        let ghost r1 = *rand;
        let k = rand.below(9) as usize;
        assert(k as u64 == spec_draw(r1, 9));
        let ghost r2 = *rand;
        let val = INTERESTING_32[k] as u32;
        let big_endian = rand.below(2) != 0;
        assert(big_endian == (spec_draw(r2, 2) != 0));
        if 4 > input.bytes().len() - idx {
            return Ok(MutationResult::Skipped);
        }
        word_store_at(input.bytes_mut(), idx, 4, val as u64, big_endian);
        Ok(MutationResult::Mutated)
    }
}

/// Access to the largest input size that a mutator may produce.
pub trait HasMaxSize {
    /// The largest input size.
    spec fn spec_max_size(&self) -> usize;

    /// The largest input size.
    fn max_size(&self) -> (r: usize)
        ensures
            r == self.spec_max_size(),
    ;

    /// Sets the largest input size.
    fn set_max_size(&mut self, max_size: usize)
        ensures
            final(self).spec_max_size() == max_size,
    ;
}

/// `s` cut or extended with zero bytes to length `n`.
pub open spec fn spec_resized(s: Seq<u8>, n: nat) -> Seq<u8> {
    Seq::new(n, |i: int| if i < s.len() { s[i] } else { 0u8 })
}

/// `s` without the `len` bytes at `off`.
pub open spec fn spec_deleted(s: Seq<u8>, off: int, len: int) -> Seq<u8> {
    s.subrange(0, off) + s.subrange(off + len, s.len() as int)
}

/// `s` extended by `len` zero bytes, then with its first `len` bytes copied to `off`.
pub open spec fn spec_expanded(s: Seq<u8>, off: int, len: int) -> Seq<u8> {
    spec_mem_moved(spec_resized(s, (s.len() + len) as nat), 0, off, len)
}

/// `s` cut or extended with zero bytes to length `off + 2 * len`, then with the `len`
/// bytes at `off` copied to `off + len`, and the `len` bytes at `off` set to `val`.
pub open spec fn spec_inserted(s: Seq<u8>, off: int, len: int, val: u8) -> Seq<u8> {
    spec_mem_filled(
        spec_mem_moved(spec_resized(s, (off + 2 * len) as nat), off, off + len, len),
        off,
        len,
        val,
    )
}

/// `s` with the `len` bytes at `first` and the `len` bytes at `second` swapped; where the
/// two ranges overlap, the bytes from `first` are the ones that stay.
pub open spec fn spec_swapped(s: Seq<u8>, first: int, second: int, len: int) -> Seq<u8> {
    spec_mem_copied(spec_mem_moved(s, second, first, len), s, first, second, len)
}

/// The eight bytes of `x` in big-endian order.
pub open spec fn spec_be_bytes(x: u64) -> Seq<u8> {
    Seq::new(8, |i: int| digit(x as nat, (7 - i) as nat))
}

/// The bytes that insertion starts from: the eight big-endian bytes of `x` where `s` is empty,
/// else `s`.
pub open spec fn spec_insert_base(s: Seq<u8>, x: u64) -> Seq<u8> {
    if s.len() == 0 {
        spec_be_bytes(x)
    } else {
        s
    }
}

/// The smaller of `a` and `b`.
pub open spec fn spec_min(a: int, b: int) -> int {
    if a <= b {
        a
    } else {
        b
    }
}

/// Cuts `bytes`, or extends it with zero bytes, to length `n`.
pub fn resize_zero(bytes: &mut Vec<u8>, n: usize)
    ensures
        final(bytes)@ == spec_resized(old(bytes)@, n as nat),
{
    let ghost orig = bytes@;
    if n <= bytes.len() {
        bytes.truncate(n);
    } else {
        while bytes.len() < n
            invariant
                orig.len() <= bytes@.len() <= n,
                forall|i: int|
                    #![trigger bytes@[i]]
                    0 <= i < bytes@.len() ==> bytes@[i] == (if i < orig.len() {
                        orig[i]
                    } else {
                        0u8
                    }),
            decreases n - bytes@.len(),
        {
            bytes.push(0u8);
        }
    }
    assert(bytes@ =~= spec_resized(orig, n as nat));
}

/// Appends the eight big-endian bytes of `x`.
pub fn append_be_bytes(bytes: &mut Vec<u8>, x: u64)
    ensures
        final(bytes)@ == old(bytes)@ + spec_be_bytes(x),
{
    let ghost orig = bytes@;
    let mut k: usize = 0;
    let mut y: u64 = x;
    let mut tmp: Vec<u8> = Vec::new();
    proof {
        crate::words::lemma_div_pow256_zero(x as nat);
    }
    while k < 8
        invariant
            k <= 8,
            y == x as nat / crate::words::pow256(k as nat),
            tmp@.len() == k,
            forall|i: int| #![trigger tmp@[i]] 0 <= i < k ==> tmp@[i] == digit(x as nat, i as nat),
        decreases 8 - k,
    {
        proof {
            crate::words::lemma_div_step(x as nat, k as nat);
        }
        tmp.push((y % 256) as u8);
        y = y / 256;
        k = k + 1;
    }
    let mut j: usize = 8;
    while j > 0
        invariant
            j <= 8,
            tmp@.len() == 8,
            forall|i: int| #![trigger tmp@[i]] 0 <= i < 8 ==> tmp@[i] == digit(x as nat, i as nat),
            bytes@.len() == orig.len() + 8 - j,
            forall|i: int|
                #![trigger bytes@[i]]
                0 <= i < bytes@.len() ==> bytes@[i] == (if i < orig.len() {
                    orig[i]
                } else {
                    digit(x as nat, (7 - (i - orig.len())) as nat)
                }),
        decreases j,
    {
        j = j - 1;
        let b = tmp[j];
        bytes.push(b);
    }
    assert(bytes@ =~= orig + spec_be_bytes(x));
}

/// Removes the `len` bytes at `off`.
pub fn delete_at(bytes: &mut Vec<u8>, off: usize, len: usize)
    requires
        off + len <= old(bytes)@.len(),
    ensures
        final(bytes)@ == spec_deleted(old(bytes)@, off as int, len as int),
{
    let ghost orig = bytes@;
    let size = bytes.len();
    self_mem_move(bytes, off + len, off, size - off - len);
    bytes.truncate(size - len);
    assert(bytes@ =~= spec_deleted(orig, off as int, len as int));
}

/// Extends `bytes` by `len` zero bytes, then copies its first `len` bytes to `off`.
pub fn expand_at(bytes: &mut Vec<u8>, off: usize, len: usize)
    requires
        off <= old(bytes)@.len(),
        old(bytes)@.len() + len <= usize::MAX,
    ensures
        final(bytes)@ == spec_expanded(old(bytes)@, off as int, len as int),
{
    let size = bytes.len();
    resize_zero(bytes, size + len);
    self_mem_move(bytes, 0, off, len);
}

/// Cuts or extends `bytes` with zero bytes to length `off + 2 * len`, copies the `len`
/// bytes at `off` to `off + len`, then sets the `len` bytes at `off` to `val`.
pub fn insert_at(bytes: &mut Vec<u8>, off: usize, len: usize, val: u8)
    requires
        off + 2 * len <= usize::MAX,
    ensures
        final(bytes)@ == spec_inserted(old(bytes)@, off as int, len as int, val),
{
    resize_zero(bytes, off + 2 * len);
    self_mem_move(bytes, off, off + len, len);
    mem_set(bytes, off, len, val);
}

/// Swaps the `len` bytes at `first` with the `len` bytes at `second`.
pub fn swap_at(bytes: &mut Vec<u8>, first: usize, second: usize, len: usize)
    requires
        first + len <= old(bytes)@.len(),
        second + len <= old(bytes)@.len(),
    ensures
        final(bytes)@ == spec_swapped(old(bytes)@, first as int, second as int, len as int),
{
    let ghost orig = bytes@;
    let mut tmp: Vec<u8> = Vec::new();
    let mut i: usize = 0;
    while i < len
        invariant
            first + len <= bytes.len(),
            bytes@ == orig,
            i <= len,
            tmp@.len() == i,
            forall|j: int| #![trigger tmp@[j]] 0 <= j < i ==> tmp@[j] == orig[first + j],
        decreases len - i,
    {
        tmp.push(bytes[first + i]);
        i = i + 1;
    }
    self_mem_move(bytes, second, first, len);
    mem_move(bytes, tmp.as_slice(), 0, second, len);
    assert(bytes@ =~= spec_swapped(orig, first as int, second as int, len as int));
}

/// Bytesdelete mutation: removes a random range of bytes.
pub fn mutation_bytesdelete<I: HasBytesVec, M, R: Rand, S>(
    _mutator: &mut M,
    rand: &mut R,
    _state: &mut S,
    input: &mut I,
) -> (res: Result<MutationResult, AflError>)
    ensures
        *final(_mutator) == *old(_mutator),
        *final(_state) == *old(_state),
        old(input).spec_bytes().len() <= 2 ==> is_skipped(res) && final(input).spec_bytes()
            == old(input).spec_bytes() && *final(rand) == *old(rand),
        ({
            let s = old(input).spec_bytes();
            let off = spec_draw(*old(rand), s.len() as u64) as int;
            let r1 = spec_after_draw(*old(rand), s.len() as u64);
            let len = spec_draw(r1, (s.len() - off) as u64) as int;
            s.len() > 2 ==> is_mutated(res) && 0 <= off < s.len() && 0 <= len < below_bound(
                s.len() - off,
            ) && final(input).spec_bytes() == spec_deleted(s, off, len) && *final(rand)
                == spec_after_draw(r1, (s.len() - off) as u64)
        }),
{
    let size = input.bytes().len();
    if size <= 2 {
        return Ok(MutationResult::Skipped);
    }
    let off = rand.below(size as u64) as usize;
    let len = rand.below((size - off) as u64) as usize;
    delete_at(input.bytes_mut(), off, len);
    Ok(MutationResult::Mutated)
}

/// Bytesexpand mutation: extends the input by up to 16 zero bytes, then copies its
/// first bytes, as many as were added, to a random offset.
pub fn mutation_bytesexpand<I: HasBytesVec, M: HasMaxSize, R: Rand, S>(
    mutator: &mut M,
    rand: &mut R,
    _state: &mut S,
    input: &mut I,
) -> (res: Result<MutationResult, AflError>)
    requires
        old(mutator).spec_max_size() >= 1,
        old(input).spec_bytes().len() <= isize::MAX,
    ensures
        *final(mutator) == *old(mutator),
        *final(_state) == *old(_state),
        old(input).spec_bytes().len() == 0 ==> is_skipped(res) && final(input).spec_bytes()
            == old(input).spec_bytes() && *final(rand) == *old(rand),
        ({
            let s = old(input).spec_bytes();
            let off = spec_index_below_last(*old(rand), s.len());
            let r1 = spec_after_draw(*old(rand), (s.len() - 1) as u64);
            let bound = (spec_min(16, old(mutator).spec_max_size() - 1) + 1) as u64;
            let len = spec_draw(r1, bound) as int;
            s.len() > 0 ==> is_mutated(res) && 0 <= off < below_bound(s.len() - 1) && 0 <= len
                < bound && final(input).spec_bytes() == spec_expanded(s, off, len) && *final(rand)
                == spec_after_draw(r1, bound)
        }),
{
    let size = input.bytes().len();
    if size == 0 {
        return Ok(MutationResult::Skipped);
    }
    let ghost r0 = *rand;
    let off = rand.below(size as u64 - 1) as usize;
    assert(off as int == spec_index_below_last(r0, size as nat));
    let max = mutator.max_size() as u64 - 1;
    let bound = if max < 16 { max } else { 16 };
    let len = rand.below(bound + 1) as usize;
    expand_at(input.bytes_mut(), off, len);
    Ok(MutationResult::Mutated)
}

/// Bytesinsert mutation: an empty input first gets eight random bytes; then the input
/// is cut or extended to `off + 2 * len` bytes, the `len` bytes at `off` are copied to
/// `off + len`, and the `len` bytes at `off` are set to a byte picked from the input.
pub fn mutation_bytesinsert<I: HasBytesVec, M: HasMaxSize, R: Rand, S>(
    mutator: &mut M,
    rand: &mut R,
    _state: &mut S,
    input: &mut I,
) -> (res: Result<MutationResult, AflError>)
    requires
        old(input).spec_bytes().len() <= isize::MAX,
    ensures
        *final(mutator) == *old(mutator),
        *final(_state) == *old(_state),
        is_mutated(res),
        ({
            let base = spec_insert_base(old(input).spec_bytes(), old(rand).spec_next());
            let r1 = if old(input).spec_bytes().len() == 0 {
                old(rand).spec_advance()
            } else {
                *old(rand)
            };
            let off = spec_index_below_last(r1, base.len());
            let r2 = spec_after_draw(r1, (base.len() - 1) as u64);
            let bound = spec_min(16, old(mutator).spec_max_size() as int) as u64;
            let len = spec_draw(r2, bound) as int;
            let r3 = spec_after_draw(r2, bound);
            let j = spec_draw(r3, base.len() as u64) as int;
            &&& 0 <= off < below_bound(base.len() - 1)
            &&& 0 <= len < below_bound(bound as int)
            &&& 0 <= j < base.len()
            &&& final(input).spec_bytes() == spec_inserted(base, off, len, base[j])
            &&& *final(rand) == spec_after_draw(r3, base.len() as u64)
        }),
{
    let ghost x: u64 = rand.spec_next();
    let mut size = input.bytes().len();
    if size == 0 {
        let r = rand.next();
        append_be_bytes(input.bytes_mut(), r);
        size = input.bytes().len();
    }
    let ghost base = input.spec_bytes();
    assert(base == spec_insert_base(old(input).spec_bytes(), x));
    let ghost r1 = *rand;
    let off = rand.below(size as u64 - 1) as usize;
    assert(off as int == spec_index_below_last(r1, size as nat));
    let max = mutator.max_size() as u64;
    let bound = if max < 16 { max } else { 16 };
    let len = rand.below(bound) as usize;
    let j = rand.below(size as u64) as usize;
    let val = input.bytes()[j];
    insert_at(input.bytes_mut(), off, len, val);
    assert(input.spec_bytes() == spec_inserted(base, off as int, len as int, base[j as int]));
    Ok(MutationResult::Mutated)
}

/// Bytesrandinsert mutation: the input is cut or extended to `off + 2 * len` bytes, the
/// `len` bytes at `off` are copied to `off + len`, and the `len` bytes at `off` are set
/// to a random byte.
pub fn mutation_bytesrandinsert<I: HasBytesVec, M: HasMaxSize, R: Rand, S>(
    mutator: &mut M,
    rand: &mut R,
    _state: &mut S,
    input: &mut I,
) -> (res: Result<MutationResult, AflError>)
    requires
        old(input).spec_bytes().len() <= isize::MAX,
    ensures
        *final(mutator) == *old(mutator),
        *final(_state) == *old(_state),
        is_mutated(res),
        ({
            let s = old(input).spec_bytes();
            let off = if s.len() == 0 {
                0
            } else {
                spec_index_below_last(*old(rand), s.len())
            };
            let r1 = if s.len() == 0 {
                *old(rand)
            } else {
                spec_after_draw(*old(rand), (s.len() - 1) as u64)
            };
            let bound = spec_min(16, old(mutator).spec_max_size() as int) as u64;
            let len = spec_draw(r1, bound) as int;
            let r2 = spec_after_draw(r1, bound);
            let val = spec_draw(r2, 256) as u8;
            &&& 0 <= off < below_bound(s.len() - 1)
            &&& 0 <= len < below_bound(bound as int)
            &&& final(input).spec_bytes() == spec_inserted(s, off, len, val)
            &&& *final(rand) == spec_after_draw(r2, 256)
        }),
{
    let size = input.bytes().len();
    let ghost r0 = *rand;
    let off = if size == 0 {
        0
    } else {
        rand.below(size as u64 - 1)
    } as usize;
    assert(size > 0 ==> off as int == spec_index_below_last(r0, size as nat));
    let max = mutator.max_size() as u64;
    let bound = if max < 16 { max } else { 16 };
    let len = rand.below(bound) as usize;
    let val = rand.below(256) as u8;
    insert_at(input.bytes_mut(), off, len, val);
    Ok(MutationResult::Mutated)
}

/// Bytesset mutation: sets a random range of bytes to a byte picked from the input.
pub fn mutation_bytesset<I: HasBytesVec, M, R: Rand, S>(
    _mutator: &mut M,
    rand: &mut R,
    _state: &mut S,
    input: &mut I,
) -> (res: Result<MutationResult, AflError>)
    requires
        old(input).spec_bytes().len() <= isize::MAX,
    ensures
        *final(_mutator) == *old(_mutator),
        *final(_state) == *old(_state),
        old(input).spec_bytes().len() == 0 ==> is_skipped(res) && final(input).spec_bytes()
            == old(input).spec_bytes() && *final(rand) == *old(rand),
        ({
            let s = old(input).spec_bytes();
            let j = spec_draw(*old(rand), s.len() as u64) as int;
            let r1 = spec_after_draw(*old(rand), s.len() as u64);
            let start = spec_draw(r1, (s.len() - 1) as u64) as int;
            let r2 = spec_after_draw(r1, (s.len() - 1) as u64);
            let end = start + spec_draw(r2, (s.len() - start + 1) as u64);
            s.len() > 0 ==> is_mutated(res) && 0 <= j < s.len() && 0 <= start < below_bound(
                s.len() - 1,
            ) && start <= end <= s.len() && final(input).spec_bytes() == spec_mem_filled(
                s,
                start,
                end - start,
                s[j],
            ) && *final(rand) == spec_after_draw(r2, (s.len() - start + 1) as u64)
        }),
{
    let size = input.bytes().len();
    if size == 0 {
        return Ok(MutationResult::Skipped);
    }
    let j = rand.below(size as u64) as usize;
    let val = input.bytes()[j];
    let start = if size == 1 {
        0
    } else {
        rand.below(size as u64 - 1) as usize
    };
    let end = rand.between(start as u64, size as u64) as usize;
    mem_set(input.bytes_mut(), start, end - start, val);
    Ok(MutationResult::Mutated)
}

/// Bytesrandset mutation: sets a random range of bytes to a random byte.
pub fn mutation_bytesrandset<I: HasBytesVec, M, R: Rand, S>(
    _mutator: &mut M,
    rand: &mut R,
    _state: &mut S,
    input: &mut I,
) -> (res: Result<MutationResult, AflError>)
    ensures
        *final(_mutator) == *old(_mutator),
        *final(_state) == *old(_state),
        old(input).spec_bytes().len() == 0 ==> is_skipped(res) && final(input).spec_bytes()
            == old(input).spec_bytes() && *final(rand) == *old(rand),
        ({
            let s = old(input).spec_bytes();
            let val = spec_draw(*old(rand), 256) as u8;
            let r1 = spec_after_draw(*old(rand), 256);
            let start = spec_draw(r1, (s.len() - 1) as u64) as int;
            let r2 = spec_after_draw(r1, (s.len() - 1) as u64);
            let len = spec_draw(r2, (s.len() - start) as u64) as int;
            s.len() > 0 ==> is_mutated(res) && 0 <= start < below_bound(s.len() - 1) && 0 <= len
                < below_bound(s.len() - start) && final(input).spec_bytes() == spec_mem_filled(
                s,
                start,
                len,
                val,
            ) && *final(rand) == spec_after_draw(r2, (s.len() - start) as u64)
        }),
{
    let size = input.bytes().len();
    if size == 0 {
        return Ok(MutationResult::Skipped);
    }
    let val = rand.below(256) as u8;
    let start = if size == 1 {
        0
    } else {
        rand.below(size as u64 - 1) as usize
    };
    let len = rand.below((size - start) as u64) as usize;
    mem_set(input.bytes_mut(), start, len, val);
    Ok(MutationResult::Mutated)
}

/// Bytescopy mutation: copies a random range of bytes to a random offset, as `memmove`.
pub fn mutation_bytescopy<I: HasBytesVec, M, R: Rand, S>(
    _mutator: &mut M,
    rand: &mut R,
    _state: &mut S,
    input: &mut I,
) -> (res: Result<MutationResult, AflError>)
    ensures
        *final(_mutator) == *old(_mutator),
        *final(_state) == *old(_state),
        old(input).spec_bytes().len() <= 1 ==> is_skipped(res) && final(input).spec_bytes()
            == old(input).spec_bytes() && *final(rand) == *old(rand),
        ({
            let s = old(input).spec_bytes();
            let from = spec_index_below_last(*old(rand), s.len());
            let r1 = spec_after_draw(*old(rand), (s.len() - 1) as u64);
            let to = spec_index_below_last(r1, s.len());
            let r2 = spec_after_draw(r1, (s.len() - 1) as u64);
            let far = if from < to {
                to
            } else {
                from
            };
            let len = spec_draw(r2, (s.len() - far) as u64) as int;
            s.len() > 1 ==> is_mutated(res) && 0 <= from < s.len() - 1 && 0 <= to < s.len() - 1
                && 0 <= len < below_bound(s.len() - far) && final(input).spec_bytes()
                == spec_mem_moved(s, from, to, len) && *final(rand) == spec_after_draw(
                r2,
                (s.len() - far) as u64,
            )
        }),
{
    let size = input.bytes().len();
    if size <= 1 {
        return Ok(MutationResult::Skipped);
    }
    let from = rand.below(input.bytes().len() as u64 - 1) as usize;
    let to = rand.below(input.bytes().len() as u64 - 1) as usize;
    let far = if from < to { to } else { from };
    let len = rand.below((size - far) as u64) as usize;
    self_mem_move(input.bytes_mut(), from, to, len);
    Ok(MutationResult::Mutated)
}

/// Bytesswap mutation: swaps two random ranges of bytes of the same random length.
pub fn mutation_bytesswap<I: HasBytesVec, M, R: Rand, S>(
    _mutator: &mut M,
    rand: &mut R,
    _state: &mut S,
    input: &mut I,
) -> (res: Result<MutationResult, AflError>)
    ensures
        *final(_mutator) == *old(_mutator),
        *final(_state) == *old(_state),
        old(input).spec_bytes().len() <= 1 ==> is_skipped(res) && final(input).spec_bytes()
            == old(input).spec_bytes() && *final(rand) == *old(rand),
        ({
            let s = old(input).spec_bytes();
            let first = spec_index_below_last(*old(rand), s.len());
            let r1 = spec_after_draw(*old(rand), (s.len() - 1) as u64);
            let second = spec_index_below_last(r1, s.len());
            let r2 = spec_after_draw(r1, (s.len() - 1) as u64);
            let far = if first < second {
                second
            } else {
                first
            };
            let len = spec_draw(r2, (s.len() - far) as u64) as int;
            s.len() > 1 ==> is_mutated(res) && 0 <= first < s.len() - 1 && 0 <= second < s.len()
                - 1 && 0 <= len < below_bound(s.len() - far) && final(input).spec_bytes()
                == spec_swapped(s, first, second, len) && *final(rand) == spec_after_draw(
                r2,
                (s.len() - far) as u64,
            )
        }),
{
    let size = input.bytes().len();
    if size <= 1 {
        return Ok(MutationResult::Skipped);
    }
    let first = rand.below(input.bytes().len() as u64 - 1) as usize;
    let second = rand.below(input.bytes().len() as u64 - 1) as usize;
    let far = if first < second { second } else { first };
    let len = rand.below((size - far) as u64) as usize;
    swap_at(input.bytes_mut(), first, second, len);
    Ok(MutationResult::Mutated)
}

/// The shorter of the two lengths.
pub open spec fn min_len(a: Seq<u8>, b: Seq<u8>) -> int {
    if a.len() <= b.len() {
        a.len() as int
    } else {
        b.len() as int
    }
}

/// `f` is the first index, below the shorter length, where `a` and `b` differ, or `-1`
/// where they differ at no such index.
pub open spec fn is_first_diff(a: Seq<u8>, b: Seq<u8>, f: int) -> bool {
    if f == -1 {
        forall|j: int| 0 <= j < min_len(a, b) ==> a[j] == b[j]
    } else {
        &&& 0 <= f < min_len(a, b)
        &&& a[f] != b[f]
        &&& forall|j: int| 0 <= j < f ==> a[j] == b[j]
    }
}

/// `l` is the last index, below the shorter length, where `a` and `b` differ, or `-1`
/// where they differ at no such index.
pub open spec fn is_last_diff(a: Seq<u8>, b: Seq<u8>, l: int) -> bool {
    if l == -1 {
        forall|j: int| 0 <= j < min_len(a, b) ==> a[j] == b[j]
    } else {
        &&& 0 <= l < min_len(a, b)
        &&& a[l] != b[l]
        &&& forall|j: int| l < j < min_len(a, b) ==> a[j] == b[j]
    }
}

/// The differences that the splicing mutator needs between its two inputs: the first
/// and the last differing index differ from each other, and the last one is at least `2`.
pub open spec fn splice_diffs_ok(f: int, l: int) -> bool {
    f != l && f >= 0 && l >= 2
}

/// `a` up to `split`, followed by `b` from `split` on.
pub open spec fn spec_spliced(a: Seq<u8>, b: Seq<u8>, split: int) -> Seq<u8> {
    a.subrange(0, split) + b.subrange(split, b.len() as int)
}

/// Returns the first and last diff position between the given vectors, stopping at the min len
pub fn locate_diffs(this: &[u8], other: &[u8]) -> (r: (i64, i64))
    requires
        min_len(this@, other@) <= i64::MAX,
    ensures
        is_first_diff(this@, other@, r.0 as int),
        is_last_diff(this@, other@, r.1 as int),
{
    let mut first_diff: i64 = -1;
    let mut last_diff: i64 = -1;
    let n = if this.len() <= other.len() { this.len() } else { other.len() };
    let mut i: usize = 0;
    while i < n
        invariant
            n == min_len(this@, other@),
            n <= i64::MAX,
            i <= n,
            first_diff == -1 <==> last_diff == -1,
            first_diff == -1 ==> forall|j: int| 0 <= j < i ==> this@[j] == other@[j],
            first_diff != -1 ==> {
                &&& 0 <= first_diff <= last_diff < i
                &&& this@[first_diff as int] != other@[first_diff as int]
                &&& forall|j: int| 0 <= j < first_diff ==> this@[j] == other@[j]
                &&& this@[last_diff as int] != other@[last_diff as int]
                &&& forall|j: int| last_diff < j < i ==> this@[j] == other@[j]
            },
        decreases n - i,
    {
        if this[i] != other[i] {
            if first_diff < 0 {
                first_diff = i as i64;
            }
            last_diff = i as i64;
        }
        i = i + 1;
    }
    (first_diff, last_diff)
}

/// Replaces everything of `bytes` from `split` on with `other` from `split` on.
pub fn splice_at(bytes: &mut Vec<u8>, other: &[u8], split: usize)
    requires
        split <= old(bytes)@.len(),
        split <= other@.len(),
    ensures
        final(bytes)@ == spec_spliced(old(bytes)@, other@, split as int),
{
    let ghost orig = bytes@;
    bytes.truncate(split);
    let mut i: usize = split;
    while i < other.len()
        invariant
            split <= i <= other@.len(),
            bytes@ == orig.subrange(0, split as int) + other@.subrange(split as int, i as int),
        decreases other@.len() - i,
    {
        let ghost before = bytes@;
        bytes.push(other[i]);
        assert(bytes@ =~= orig.subrange(0, split as int) + other@.subrange(split as int, i + 1));
        i = i + 1;
    }
}

/// What splicing `a` with `b` gives, with the generator in state `rand`: with `f` and
/// `l` the first and last index where they differ, where the differences are fit for
/// splicing, `Mutated`, and `a` up to the split point that `rand.between(f, l)` draws
/// followed by `b` from it on, and the generator advanced past that draw; otherwise
/// `Skipped`, `a` unchanged and the generator untouched. `res`, `fin` and `fin_rand` are
/// the result, the bytes and the generator's state that splicing leaves.
pub open spec fn spec_splice_outcome<R: Rand>(
    a: Seq<u8>,
    b: Seq<u8>,
    rand: R,
    res: MutationResult,
    fin: Seq<u8>,
    fin_rand: R,
) -> bool {
    exists|f: int, l: int|
        #![trigger is_first_diff(a, b, f), is_last_diff(a, b, l)]
        is_first_diff(a, b, f) && is_last_diff(a, b, l) && if splice_diffs_ok(f, l) {
            &&& res is Mutated
            &&& fin == spec_spliced(a, b, f + spec_draw(rand, (l - f + 1) as u64))
            &&& fin_rand == spec_after_draw(rand, (l - f + 1) as u64)
        } else {
            res is Skipped && fin == a && fin_rand == rand
        }
}

/// Splices `bytes` with `other`, the corpus entry drawn at index `idx`, unless that
/// entry is the current one (`current`): where the two differ fittingly, `bytes` up to a
/// random split point between the first and the last difference is followed by `other`
/// from that point on.
pub fn splice_with<R: Rand>(
    bytes: &mut Vec<u8>,
    other: &[u8],
    idx: usize,
    current: usize,
    rand: &mut R,
) -> (res: MutationResult)
    requires
        old(bytes)@.len() <= isize::MAX,
    ensures
        idx == current ==> res is Skipped && final(bytes)@ == old(bytes)@ && *final(rand)
            == *old(rand),
        idx != current ==> spec_splice_outcome(
            old(bytes)@,
            other@,
            *old(rand),
            res,
            final(bytes)@,
            *final(rand),
        ),
{
    if idx == current {
        return MutationResult::Skipped;
    }
    let ghost orig = bytes@;
    let mut counter: u32 = 0;
    let mut first_diff: i64 = -1;
    let mut last_diff: i64 = -1;
    loop
        invariant_except_break
            counter <= 3,
        invariant
            bytes@ == orig,
            orig.len() <= isize::MAX,
            idx != current,
        ensures
            is_first_diff(orig, other@, first_diff as int),
            is_last_diff(orig, other@, last_diff as int),
            splice_diffs_ok(first_diff as int, last_diff as int),
        decreases 3 - counter,
    {
        let (f, l) = locate_diffs(bytes.as_slice(), other);
        if f != l && f >= 0 && l >= 2 {
            first_diff = f;
            last_diff = l;
            break;
        }
        if counter == 3 {
            assert(is_first_diff(orig, other@, f as int) && is_last_diff(orig, other@, l as int));
            return MutationResult::Skipped;
        }
        counter = counter + 1;
    }
    let ghost r0 = *rand;
    let split_at = rand.between(first_diff as u64, last_diff as u64) as usize;
    assert(split_at == first_diff + spec_draw(r0, (last_diff - first_diff + 1) as u64));
    splice_at(bytes, other, split_at);
    assert(bytes@ == spec_spliced(orig, other@, split_at as int));
    MutationResult::Mutated
}

/// Splicing mutator
pub fn mutation_splice<C: Corpus<I, R>, I: HasBytesVec, M, R: Rand, S: HasCorpus<C>>(
    _mutator: &mut M,
    rand: &mut R,
    state: &mut S,
    input: &mut I,
) -> (res: Result<MutationResult, AflError>)
    requires
        old(input).spec_bytes().len() <= isize::MAX,
    ensures
        *final(_mutator) == *old(_mutator),
        *final(state) == *old(state),
        res is Err <==> old(state).spec_corpus().spec_entries().len() == 0,
        res matches Err(e) ==> e is Empty,
        !is_mutated(res) ==> final(input).spec_bytes() == old(input).spec_bytes(),
        old(state).spec_corpus().spec_entries().len() == 0 ==> *final(rand) == *old(rand),
        old(state).spec_corpus().spec_entries().len() > 0 ==> ({
            let n = old(state).spec_corpus().spec_entries().len() as u64;
            let idx = spec_draw(*old(rand), n);
            let r1 = spec_after_draw(*old(rand), n);
            let other = old(state).spec_corpus().spec_entries()[idx as int].spec_bytes();
            &&& res is Ok
            &&& idx == old(state).spec_corpus().spec_current() ==> res == Ok::<
                MutationResult,
                AflError,
            >(MutationResult::Skipped) && *final(rand) == r1
            &&& idx != old(state).spec_corpus().spec_current() ==> spec_splice_outcome(
                old(input).spec_bytes(),
                other,
                r1,
                res->Ok_0,
                final(input).spec_bytes(),
                *final(rand),
            )
        }),
{
    let (other, idx) = match state.corpus().random_entry(rand) {
        Ok(entry) => entry,
        Err(e) => return Err(e),
    };
    let current = state.corpus().current_index();
    let r = splice_with(input.bytes_mut(), other.bytes(), idx, current, rand);
    Ok(r)
}

/// Law: flipping the same bit twice restores the input.
pub proof fn lemma_bitflip_involution(s: Seq<u8>, bit: int)
    requires
        0 <= bit < 8 * s.len(),
    ensures
        spec_bitflip(spec_bitflip(s, bit), bit) == s,
{
    let idx = bit / 8;
    let b = s[idx];
    let m = 128u8 >> ((bit % 8) as u8);
    assert((b ^ m) ^ m == b) by (bit_vector);
    assert(spec_bitflip(spec_bitflip(s, bit), bit) =~= s);
}

/// Law: flipping the same byte twice restores the input.
pub proof fn lemma_byteflip_involution(s: Seq<u8>, idx: int)
    requires
        0 <= idx < s.len(),
    ensures
        spec_byteflip(spec_byteflip(s, idx), idx) == s,
{
    let b = s[idx];
    assert((b ^ 0xffu8) ^ 0xffu8 == b) by (bit_vector);
    assert(spec_byteflip(spec_byteflip(s, idx), idx) =~= s);
}

/// Law: negating the same byte twice restores the input.
pub proof fn lemma_byteneg_involution(s: Seq<u8>, idx: int)
    requires
        0 <= idx < s.len(),
    ensures
        spec_byteneg(spec_byteneg(s, idx), idx) == s,
{
    let b = s[idx];
    assert(!(!b) == b) by (bit_vector);
    assert(spec_byteneg(spec_byteneg(s, idx), idx) =~= s);
}

/// Law: decrementing a byte undoes incrementing it, and the other way round.
pub proof fn lemma_byteinc_bytedec_inverse(s: Seq<u8>, idx: int)
    requires
        0 <= idx < s.len(),
    ensures
        spec_bytedec(spec_byteinc(s, idx), idx) == s,
        spec_byteinc(spec_bytedec(s, idx), idx) == s,
{
    assert(spec_bytedec(spec_byteinc(s, idx), idx) =~= s);
    assert(spec_byteinc(spec_bytedec(s, idx), idx) =~= s);
}

/// Law: the mutations that work in place keep the length of the input.
pub proof fn lemma_in_place_keeps_length(
    s: Seq<u8>,
    bit: int,
    idx: int,
    w: nat,
    num: int,
    op: int,
    x: nat,
    big_endian: bool,
    from: int,
    to: int,
    len: int,
    val: u8,
)
    requires
        0 <= bit < 8 * s.len(),
        0 <= idx < s.len(),
    ensures
        spec_bitflip(s, bit).len() == s.len(),
        spec_byteflip(s, idx).len() == s.len(),
        spec_byteinc(s, idx).len() == s.len(),
        spec_bytedec(s, idx).len() == s.len(),
        spec_byteneg(s, idx).len() == s.len(),
        s.update(idx, val).len() == s.len(),
        spec_word_op(s, idx, w, num, op).len() == s.len(),
        store(s, idx, w, x, big_endian).len() == s.len(),
        spec_mem_moved(s, from, to, len).len() == s.len(),
        spec_mem_filled(s, from, len, val).len() == s.len(),
        spec_swapped(s, from, to, len).len() == s.len(),
{
}

/// Law: the mutations that change the length change it by the amount drawn: deleting
/// `len` bytes shortens the input by `len`, expanding lengthens it by `len`, inserting
/// makes it `off + 2 * len` long, and splicing gives it the length of the other input.
pub proof fn lemma_resizing_lengths(s: Seq<u8>, other: Seq<u8>, off: int, len: int, val: u8)
    requires
        0 <= off,
        0 <= len,
        off + len <= s.len(),
        off <= other.len(),
    ensures
        spec_deleted(s, off, len).len() == s.len() - len,
        spec_expanded(s, off, len).len() == s.len() + len,
        spec_inserted(s, off, len, val).len() == off + 2 * len,
        spec_spliced(s, other, off).len() == other.len(),
{
}

/// Law: swapping two ranges that do not overlap, twice, restores the input.
pub proof fn lemma_swap_involution(s: Seq<u8>, first: int, second: int, len: int)
    requires
        0 <= first,
        0 <= second,
        0 <= len,
        first + len <= s.len(),
        second + len <= s.len(),
        first + len <= second || second + len <= first,
    ensures
        spec_swapped(spec_swapped(s, first, second, len), first, second, len) == s,
{
    assert(spec_swapped(spec_swapped(s, first, second, len), first, second, len) =~= s);
}

/// Law: the first and the last differing index are `-1` together, and otherwise the
/// first comes no later than the last; both are determined by the two inputs.
pub proof fn lemma_diffs(a: Seq<u8>, b: Seq<u8>, f: int, l: int, f2: int, l2: int)
    requires
        is_first_diff(a, b, f),
        is_last_diff(a, b, l),
        is_first_diff(a, b, f2),
        is_last_diff(a, b, l2),
    ensures
        f == -1 <==> l == -1,
        f <= l,
        f == f2,
        l == l2,
{
    if f != -1 && l == -1 {
        assert(a[f] == b[f]);
    }
    if l != -1 && f == -1 {
        assert(a[l] == b[l]);
    }
    if f != -1 && l != -1 && l < f {
        assert(a[l] == b[l]);
    }
    if f != f2 {
        if f == -1 {
            assert(a[f2] == b[f2]);
        } else if f2 == -1 {
            assert(a[f] == b[f]);
        } else if f < f2 {
            assert(a[f] == b[f]);
        } else {
            assert(a[f2] == b[f2]);
        }
    }
    if l != l2 {
        if l == -1 {
            assert(a[l2] == b[l2]);
        } else if l2 == -1 {
            assert(a[l] == b[l]);
        } else if l < l2 {
            assert(a[l2] == b[l2]);
        } else {
            assert(a[l] == b[l]);
        }
    }
}

/// Law: a spliced input keeps the bytes of the input before the split point and takes
/// those of the other input from it on; before the first difference the two agree, so
/// splicing at or after it also agrees with the other input there.
pub proof fn lemma_splice_parts(a: Seq<u8>, b: Seq<u8>, f: int, split: int)
    requires
        is_first_diff(a, b, f),
        0 <= f <= split <= a.len(),
        split <= b.len(),
    ensures
        forall|i: int| 0 <= i < split ==> #[trigger] spec_spliced(a, b, split)[i] == a[i],
        forall|i: int| split <= i < b.len() ==> #[trigger] spec_spliced(a, b, split)[i] == b[i],
        forall|i: int| 0 <= i < f ==> #[trigger] spec_spliced(a, b, split)[i] == b[i],
{
}

/// Law: an arithmetic mutation whose word lies inside the input always changes it.
pub proof fn lemma_word_op_changes(s: Seq<u8>, idx: int, w: nat, num: int, op: int)
    requires
        1 <= w <= 8,
        0 <= idx,
        idx + w <= s.len(),
        1 <= num <= ARITH_MAX,
        0 <= op < 4,
    ensures
        spec_word_op(s, idx, w, num, op) != s,
{
    let be = op >= 2;
    let n = signed_num(num, op % 2 == 1);
    let p = pow256(w) as int;
    lemma_pow256_mono(1, w);
    assert(pow256(1) == 256) by {
        reveal_with_fuel(pow256, 2);
    }
    let v = load(s, idx, w, be) as int;
    if be {
        lemma_load_be_bound(s, idx, w);
    } else {
        lemma_load_le_bound(s, idx, w);
    }
    let x = wrap(v + n, w);
    lemma_load_store(s, idx, w, x, be);
    if v + n >= p {
        lemma_mod_sub_multiples_vanish(v + n, p);
        lemma_small_mod((v + n - p) as nat, p as nat);
    } else if v + n < 0 {
        lemma_mod_add_multiples_vanish(v + n, p);
        lemma_small_mod((v + n + p) as nat, p as nat);
    } else {
        lemma_small_mod((v + n) as nat, p as nat);
    }
    assert(x != v);
    lemma_small_mod(x, p as nat);
    if spec_word_op(s, idx, w, num, op) == s {
        assert(load(spec_word_op(s, idx, w, num, op), idx, w, be) == x % pow256(w));
        assert(false);
    }
}

/// Law: an arithmetic mutation either mutates, leaving an input of the same length that
/// differs from the one it was given, or skips and leaves the input as it was, whatever
/// the generator draws.
pub proof fn lemma_arith_outcome_changes<R: Rand>(s: Seq<u8>, rand: R, width: nat, nops: u64)
    requires
        1 <= width <= 8,
        nops == 2 || nops == 4,
    ensures
        spec_arith_outcome(s, rand, width, nops).0 ==> spec_arith_outcome(s, rand, width, nops).1
            != s && spec_arith_outcome(s, rand, width, nops).1.len() == s.len(),
        !spec_arith_outcome(s, rand, width, nops).0 ==> spec_arith_outcome(s, rand, width, nops).1
            == s,
{
    if s.len() > 1 {
        let idx = spec_index_below_last(rand, s.len());
        let r1 = spec_after_draw(rand, (s.len() - 1) as u64);
        let num = 1 + spec_draw(r1, ARITH_MAX);
        let r2 = spec_after_draw(r1, ARITH_MAX);
        let op = spec_draw(r2, nops) as int;
        if idx + width <= s.len() {
            lemma_word_op_changes(s, idx, width, num, op);
            lemma_in_place_keeps_length(s, 0, idx, width, num, op, 0, false, 0, 0, 0, 0);
        }
    }
}

/// The first and last difference of `a` and `b` are those of `b` and `a`.
proof fn lemma_diffs_swap(a: Seq<u8>, b: Seq<u8>, f: int, l: int)
    requires
        is_first_diff(a, b, f),
        is_last_diff(a, b, l),
    ensures
        is_first_diff(b, a, f),
        is_last_diff(b, a, l),
{
    assert(min_len(a, b) == min_len(b, a));
}

/// Law: `locate_diffs` is symmetric: the first and last difference of `a` and `b` are
/// the first and last difference of `b` and `a`.
pub proof fn lemma_diffs_symmetric(a: Seq<u8>, b: Seq<u8>, f: int, l: int, f2: int, l2: int)
    requires
        is_first_diff(a, b, f),
        is_last_diff(a, b, l),
        is_first_diff(b, a, f2),
        is_last_diff(b, a, l2),
    ensures
        f == f2,
        l == l2,
{
    lemma_diffs_swap(a, b, f, l);
    lemma_diffs(b, a, f, l, f2, l2);
}

/// Law: flipping bit `bit` changes one bit and nothing else: in byte `bit / 8`, the bit
/// of value `2 ^ (7 - bit % 8)`, so that bit `0` is the most significant bit of byte `0`
/// and bit `7` its least significant one; every other byte and the length stay.
pub proof fn lemma_bitflip_flips_one_bit(s: Seq<u8>, bit: int)
    requires
        0 <= bit < 8 * s.len(),
    ensures
        spec_bitflip(s, bit).len() == s.len(),
        spec_bitflip(s, bit)[bit / 8] == s[bit / 8] ^ (1u8 << ((7 - bit % 8) as u8)),
        forall|j: int| 0 <= j < s.len() && j != bit / 8 ==> spec_bitflip(s, bit)[j] == s[j],
{
    let k = (bit % 8) as u8;
    let e = (7 - bit % 8) as u8;
    assert(k < 8 && e == 7 - k);
    assert(k < 8 && e == 7 - k ==> 128u8 >> k == 1u8 << e) by (bit_vector);
}

/// Law: incrementing a byte adds one to it and decrementing subtracts one, both
/// wrapping between `255` and `0`; every other byte and the length stay.
pub proof fn lemma_byteinc_bytedec_values(s: Seq<u8>, idx: int)
    requires
        0 <= idx < s.len(),
    ensures
        spec_byteinc(s, idx).len() == s.len(),
        spec_bytedec(s, idx).len() == s.len(),
        s[idx] < 255 ==> spec_byteinc(s, idx)[idx] == s[idx] + 1,
        s[idx] == 255 ==> spec_byteinc(s, idx)[idx] == 0,
        s[idx] > 0 ==> spec_bytedec(s, idx)[idx] == s[idx] - 1,
        s[idx] == 0 ==> spec_bytedec(s, idx)[idx] == 255,
        forall|j: int|
            0 <= j < s.len() && j != idx ==> spec_byteinc(s, idx)[j] == s[j] && spec_bytedec(
                s,
                idx,
            )[j] == s[j],
{
}

/// Law: flipping all bits of a byte and negating it bitwise both give its complement,
/// `255` minus the byte, so the byte always changes; every other byte and the length
/// stay.
pub proof fn lemma_byteflip_byteneg_complement(s: Seq<u8>, idx: int)
    requires
        0 <= idx < s.len(),
    ensures
        spec_byteflip(s, idx).len() == s.len(),
        spec_byteneg(s, idx).len() == s.len(),
        spec_byteflip(s, idx)[idx] + s[idx] == 255,
        spec_byteneg(s, idx)[idx] + s[idx] == 255,
        spec_byteflip(s, idx)[idx] != s[idx],
        spec_byteneg(s, idx)[idx] != s[idx],
        forall|j: int|
            0 <= j < s.len() && j != idx ==> spec_byteflip(s, idx)[j] == s[j] && spec_byteneg(
                s,
                idx,
            )[j] == s[j],
{
    let b = s[idx];
    assert(b ^ 0xffu8 == 255u8 - b) by (bit_vector);
    assert(!b == 255u8 - b) by (bit_vector);
}

/// Law: the arithmetic operation `op` adds `num` for `0` and `2` and subtracts it for
/// `1` and `3`, to the little-endian number of the `w` bytes at `idx` for `0` and `1` and
/// to the big-endian one for `2` and `3`, wrapping at `w` bytes; the bytes outside the
/// word and the length stay.
pub proof fn lemma_word_op_arith(s: Seq<u8>, idx: int, w: nat, num: int, op: int)
    requires
        0 <= idx,
        idx + w <= s.len(),
        0 <= op < 4,
    ensures
        spec_word_op(s, idx, w, num, op).len() == s.len(),
        forall|j: int|
            0 <= j < s.len() && !(idx <= j < idx + w) ==> spec_word_op(s, idx, w, num, op)[j]
                == s[j],
        op == 0 ==> load_le(spec_word_op(s, idx, w, num, op), idx, w) == (load_le(s, idx, w) + num)
            % (pow256(w) as int),
        op == 1 ==> load_le(spec_word_op(s, idx, w, num, op), idx, w) == (load_le(s, idx, w) - num)
            % (pow256(w) as int),
        op == 2 ==> load_be(spec_word_op(s, idx, w, num, op), idx, w) == (load_be(s, idx, w) + num)
            % (pow256(w) as int),
        op == 3 ==> load_be(spec_word_op(s, idx, w, num, op), idx, w) == (load_be(s, idx, w) - num)
            % (pow256(w) as int),
{
    let be = op >= 2;
    let amount = if op % 2 == 1 {
        -num
    } else {
        num
    };
    let p = pow256(w) as int;
    lemma_pow256_pos(w);
    let x = wrap(load(s, idx, w, be) + amount, w);
    lemma_load_store(s, idx, w, x, be);
    lemma_mod_twice(load(s, idx, w, be) + amount, p);
    assert forall|j: int| 0 <= j < s.len() && !(idx <= j < idx + w) implies spec_word_op(
        s,
        idx,
        w,
        num,
        op,
    )[j] == s[j] by {
        lemma_store_frame(s, idx, w, x, be, j);
    }
}

/// Law: on a single byte, operation `0` adds `num` to it and operation `1` subtracts
/// `num` from it, wrapping at `256`; every other byte and the length stay.
pub proof fn lemma_byte_op_arith(s: Seq<u8>, idx: int, num: int, op: int)
    requires
        0 <= idx < s.len(),
        0 <= op < 2,
    ensures
        spec_word_op(s, idx, 1, num, op).len() == s.len(),
        forall|j: int| 0 <= j < s.len() && j != idx ==> spec_word_op(s, idx, 1, num, op)[j] == s[j],
        op == 0 ==> spec_word_op(s, idx, 1, num, op)[idx] == (s[idx] + num) % 256,
        op == 1 ==> spec_word_op(s, idx, 1, num, op)[idx] == (s[idx] - num) % 256,
{
    lemma_word_op_arith(s, idx, 1, num, op);
    let r = spec_word_op(s, idx, 1, num, op);
    assert(pow256(1) == 256) by {
        reveal_with_fuel(pow256, 2);
    }
    assert(load_le(s, idx, 1) == s[idx]) by {
        reveal_with_fuel(load_le, 2);
    }
    assert(load_le(r, idx, 1) == r[idx]) by {
        reveal_with_fuel(load_le, 2);
    }
}

/// Law: with `f` and `l` the first and the last index where `a` and `b` differ,
/// splicing mutates exactly where `f` is an index (`0` included), `l` is another index
/// and `l` is at least `2`. It then gives `a` up to the split point that the generator
/// draws in `f..=l`, `f + draw(l - f + 1)`, followed by `b` from that point on; otherwise
/// it leaves `a` and the generator as they were.
pub proof fn lemma_splice_outcome_meaning<R: Rand>(
    a: Seq<u8>,
    b: Seq<u8>,
    rand: R,
    res: MutationResult,
    fin: Seq<u8>,
    fin_rand: R,
    f: int,
    l: int,
)
    requires
        is_first_diff(a, b, f),
        is_last_diff(a, b, l),
        spec_splice_outcome(a, b, rand, res, fin, fin_rand),
    ensures
        0 <= f && f != l && 2 <= l ==> ({
            let split = f + spec_draw(rand, (l - f + 1) as u64);
            &&& res is Mutated
            &&& f <= split <= l
            &&& fin == a.subrange(0, split) + b.subrange(split, b.len() as int)
        }),
        !(0 <= f && f != l && 2 <= l) ==> res is Skipped && fin == a && fin_rand == rand,
{
    let (f2, l2) = choose|f2: int, l2: int|
        #![trigger is_first_diff(a, b, f2), is_last_diff(a, b, l2)]
        is_first_diff(a, b, f2) && is_last_diff(a, b, l2) && if splice_diffs_ok(f2, l2) {
            &&& res is Mutated
            &&& fin == spec_spliced(a, b, f2 + spec_draw(rand, (l2 - f2 + 1) as u64))
            &&& fin_rand == spec_after_draw(rand, (l2 - f2 + 1) as u64)
        } else {
            res is Skipped && fin == a && fin_rand == rand
        };
    lemma_diffs(a, b, f, l, f2, l2);
}

/// Law: deleting `len` bytes at `off` keeps the bytes before `off`, and moves each byte
/// after the deleted ones back by `len`; the input gets `len` bytes shorter.
pub proof fn lemma_deleted_parts(s: Seq<u8>, off: int, len: int)
    requires
        0 <= off,
        0 <= len,
        off + len <= s.len(),
    ensures
        spec_deleted(s, off, len).len() == s.len() - len,
        forall|i: int| 0 <= i < off ==> spec_deleted(s, off, len)[i] == s[i],
        forall|i: int| off <= i < s.len() - len ==> spec_deleted(s, off, len)[i] == s[i + len],
{
}

/// Law: expanding by `len` at `off` gives an input `len` bytes longer, whose `len` bytes
/// at `off` are the first `len` bytes of the input (zeros past its end), and whose other
/// bytes are those of the input at the same place (zeros past its end).
pub proof fn lemma_expanded_parts(s: Seq<u8>, off: int, len: int)
    requires
        0 <= off <= s.len(),
        0 <= len,
    ensures
        spec_expanded(s, off, len).len() == s.len() + len,
        forall|i: int|
            off <= i < off + len ==> spec_expanded(s, off, len)[i] == (if i - off < s.len() {
                s[i - off]
            } else {
                0u8
            }),
        forall|i: int|
            0 <= i < s.len() + len && !(off <= i < off + len) ==> spec_expanded(s, off, len)[i]
                == (if i < s.len() {
                s[i]
            } else {
                0u8
            }),
{
}

/// Law: inserting `len` bytes of `val` at `off` gives an input of `off + 2 * len` bytes:
/// the bytes of the input before `off`, then `len` times `val`, then the `len` bytes that
/// stood at `off`; a place past the end of the input reads as zero.
pub proof fn lemma_inserted_parts(s: Seq<u8>, off: int, len: int, val: u8)
    requires
        0 <= off,
        0 <= len,
    ensures
        spec_inserted(s, off, len, val).len() == off + 2 * len,
        forall|i: int|
            0 <= i < off ==> spec_inserted(s, off, len, val)[i] == (if i < s.len() {
                s[i]
            } else {
                0u8
            }),
        forall|i: int| off <= i < off + len ==> spec_inserted(s, off, len, val)[i] == val,
        forall|i: int|
            off + len <= i < off + 2 * len ==> spec_inserted(s, off, len, val)[i] == (if i - len
                < s.len() {
                s[i - len]
            } else {
                0u8
            }),
{
}

/// Law: swapping two ranges of `len` bytes that do not overlap puts the bytes of each
/// where the other stood and leaves every other byte and the length as they were.
pub proof fn lemma_swapped_parts(s: Seq<u8>, first: int, second: int, len: int)
    requires
        0 <= first,
        0 <= second,
        0 <= len,
        first + len <= s.len(),
        second + len <= s.len(),
        first + len <= second || second + len <= first,
    ensures
        spec_swapped(s, first, second, len).len() == s.len(),
        forall|i: int|
            first <= i < first + len ==> spec_swapped(s, first, second, len)[i] == s[second + (i
                - first)],
        forall|i: int|
            second <= i < second + len ==> spec_swapped(s, first, second, len)[i] == s[first + (i
                - second)],
        forall|i: int|
            0 <= i < s.len() && !(first <= i < first + len) && !(second <= i < second + len)
                ==> spec_swapped(s, first, second, len)[i] == s[i],
{
}

/// Law: the eight bytes that an empty input gets before insertion spell, big-endian, the
/// raw number that the generator handed out.
pub proof fn lemma_be_bytes_value(x: u64)
    ensures
        spec_be_bytes(x).len() == 8,
        load_be(spec_be_bytes(x), 0, 8) == x,
{
    let z = Seq::new(8, |i: int| 0u8);
    assert(spec_be_bytes(x) =~= store_be(z, 0, 8, x as nat));
    lemma_load_store(z, 0, 8, x as nat, true);
    lemma_pow256_8();
    lemma_small_mod(x as nat, pow256(8));
}
} // verus!
