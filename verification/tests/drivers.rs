use lib::corpus::{InMemoryCorpus, State, Testcase};
use lib::error::AflError;
use lib::input::{BytesInput, HasBytesVec};
use lib::mutations::{
    mutation_bitflip, mutation_byteadd, mutation_bytescopy, mutation_bytesdelete,
    mutation_bytesexpand, mutation_bytesinsert, mutation_bytesrandinsert, mutation_bytesrandset,
    mutation_bytesset, mutation_bytesswap, mutation_byteinteresting, mutation_dwordadd,
    mutation_dwordinteresting, mutation_qwordadd, mutation_splice, mutation_wordinteresting,
    splice_with, HasMaxSize, MutationResult,
};
use lib::rand::Rand;

/// A generator that returns the same number every time.
struct FixedRand(u64);

impl Rand for FixedRand {
    fn spec_next(&self) -> u64 {
        self.0
    }

    fn spec_advance(&self) -> Self {
        FixedRand(self.0)
    }

    fn next(&mut self) -> u64 {
        self.0
    }
}

/// A generator that counts up from its state.
struct CountingRand(u64);

impl Rand for CountingRand {
    fn spec_next(&self) -> u64 {
        self.0
    }

    fn spec_advance(&self) -> Self {
        CountingRand(self.0 + 1)
    }

    fn next(&mut self) -> u64 {
        let r = self.0;
        self.0 += 1;
        r
    }
}

struct MaxSize(usize);

impl HasMaxSize for MaxSize {
    fn spec_max_size(&self) -> usize {
        self.0
    }

    fn max_size(&self) -> usize {
        self.0
    }

    fn set_max_size(&mut self, max_size: usize) {
        self.0 = max_size;
    }
}

fn mutated(r: Result<MutationResult, AflError>) -> bool {
    matches!(r, Ok(MutationResult::Mutated))
}

fn skipped(r: Result<MutationResult, AflError>) -> bool {
    matches!(r, Ok(MutationResult::Skipped))
}

#[test]
fn empty_input_is_skipped_and_kept() {
    let mut input = BytesInput::new(vec![]);
    let mut rand = FixedRand(3);
    assert!(skipped(mutation_bitflip(&mut (), &mut rand, &mut (), &mut input)));
    assert!(skipped(mutation_bytesset(&mut (), &mut rand, &mut (), &mut input)));
    assert_eq!(input.bytes(), &[] as &[u8]);
    let mut one = BytesInput::new(vec![7]);
    assert!(skipped(mutation_byteadd(&mut (), &mut rand, &mut (), &mut one)));
    assert!(skipped(mutation_bytescopy(&mut (), &mut rand, &mut (), &mut one)));
    let mut two = BytesInput::new(vec![7, 8]);
    assert!(skipped(mutation_bytesdelete(&mut (), &mut rand, &mut (), &mut two)));
    assert_eq!(two.bytes(), &[7u8, 8]);
}

#[test]
fn bitflip_with_fixed_rand() {
    let mut input = BytesInput::new(vec![0, 0]);
    let mut rand = FixedRand(9);
    assert!(mutated(mutation_bitflip(&mut (), &mut rand, &mut (), &mut input)));
    assert_eq!(input.bytes(), &[0u8, 0x40]);
}

#[test]
fn dwordadd_with_fixed_rand() {
    // idx = 5 % (6 - 1) = 0, num = 1 + 5 % 35 = 6, op = 5 % 4 = 1: subtract, little-endian.
    let mut input = BytesInput::new(vec![10, 0, 0, 0, 0, 0]);
    let mut rand = FixedRand(5);
    assert!(mutated(mutation_dwordadd(&mut (), &mut rand, &mut (), &mut input)));
    assert_eq!(input.bytes(), &[4u8, 0, 0, 0, 0, 0]);
}

#[test]
fn word_past_the_end_is_skipped() {
    // idx = 4 % (6 - 1) = 4: a 4-byte word at 4 would end past the 6 bytes.
    let mut input = BytesInput::new(vec![10, 0, 0, 0, 0, 0]);
    let mut rand = FixedRand(4);
    assert!(skipped(mutation_dwordadd(&mut (), &mut rand, &mut (), &mut input)));
    assert!(skipped(mutation_dwordinteresting(&mut (), &mut rand, &mut (), &mut input)));
    assert_eq!(input.bytes(), &[10u8, 0, 0, 0, 0, 0]);
    // idx = 4 % (9 - 1) = 4: an 8-byte word at 4 would end past the 9 bytes.
    let mut long = BytesInput::new(vec![1; 9]);
    assert!(skipped(mutation_qwordadd(&mut (), &mut rand, &mut (), &mut long)));
    assert_eq!(long.bytes(), &[1u8; 9]);
    // A word that ends exactly at the end is written: idx = 2 % (6 - 1) = 2,
    // num = 1 + 2 % 35 = 3, op = 2 % 4 = 2: add, big-endian.
    let mut rand = FixedRand(2);
    assert!(mutated(mutation_dwordadd(&mut (), &mut rand, &mut (), &mut input)));
    assert_eq!(input.bytes(), &[10u8, 0, 0, 0, 0, 3]);
}

#[test]
fn word_mutations_skip_inputs_shorter_than_the_word() {
    let mut rand = FixedRand(5);
    for len in 0..4usize {
        let mut input = BytesInput::new(vec![0x13; len]);
        assert!(skipped(mutation_dwordadd(&mut (), &mut rand, &mut (), &mut input)));
        assert!(skipped(mutation_dwordinteresting(&mut (), &mut rand, &mut (), &mut input)));
        assert_eq!(input.bytes(), &vec![0x13u8; len][..]);
    }
    for len in 0..8usize {
        let mut input = BytesInput::new(vec![0x13; len]);
        assert!(skipped(mutation_qwordadd(&mut (), &mut rand, &mut (), &mut input)));
        assert_eq!(input.bytes(), &vec![0x13u8; len][..]);
    }
}

#[test]
fn qwordadd_keeps_the_word_inside() {
    // idx = 9 % (9 - 1) = 1, num = 1 + 9 % 35 = 10, op = 9 % 4 = 1: subtract, little-endian.
    let mut input = BytesInput::new(vec![0xff; 9]);
    let mut rand = FixedRand(9);
    assert!(mutated(mutation_qwordadd(&mut (), &mut rand, &mut (), &mut input)));
    assert_eq!(input.bytes(), &[0xffu8, 0xf5, 0xff, 0xff, 0xff, 0xff, 0xff, 0xff, 0xff]);
}

#[test]
fn dwordinteresting_with_fixed_rand() {
    // idx = 4 % (5 - 1) = 0, k = 4 % 9 = 4 (value 16), byte order 4 % 2 = 0: little-endian.
    let mut input = BytesInput::new(vec![9, 9, 9, 9, 9]);
    let mut rand = FixedRand(4);
    assert!(mutated(mutation_dwordinteresting(&mut (), &mut rand, &mut (), &mut input)));
    assert_eq!(input.bytes(), &[16u8, 0, 0, 0, 9]);
}

#[test]
fn splice_with_decides_on_the_drawn_entry() {
    let mut rand = FixedRand(1);
    let mut v = vec![0u8, 1, 2, 3, 4, 5];
    assert!(matches!(splice_with(&mut v, &[0, 9, 2, 3, 9, 5, 6], 3, 3, &mut rand), MutationResult::Skipped));
    assert_eq!(v, vec![0, 1, 2, 3, 4, 5]);
    assert!(matches!(splice_with(&mut v, &[0, 9, 2, 3, 4, 5], 1, 3, &mut rand), MutationResult::Skipped));
    assert_eq!(v, vec![0, 1, 2, 3, 4, 5]);
    assert!(matches!(splice_with(&mut v, &[0, 9, 2, 3, 9, 5, 6], 1, 3, &mut rand), MutationResult::Mutated));
    assert_eq!(v, vec![0, 1, 2, 3, 9, 5, 6]);
}

#[test]
fn interesting_with_fixed_rand() {
    // idx = 1 % 2 = 1, k = 1 % 9 = 1 (value -1), byte order: 1 % 2 = 1, big-endian.
    let mut input = BytesInput::new(vec![0, 0, 0]);
    let mut rand = FixedRand(1);
    assert!(mutated(mutation_wordinteresting(&mut (), &mut rand, &mut (), &mut input)));
    assert_eq!(input.bytes(), &[0u8, 0xff, 0xff]);
    let mut b = BytesInput::new(vec![0, 0, 0]);
    let mut rand = FixedRand(4);
    // idx = 4 % 2 = 0, k = 4 % 9 = 4 (value 16).
    assert!(mutated(mutation_byteinteresting(&mut (), &mut rand, &mut (), &mut b)));
    assert_eq!(b.bytes(), &[16u8, 0, 0]);
}

#[test]
fn bytesdelete_with_fixed_rand() {
    // off = 1 % 5 = 1, len = 1 % 4 = 1.
    let mut input = BytesInput::new(vec![1, 2, 3, 4, 5]);
    let mut rand = FixedRand(1);
    assert!(mutated(mutation_bytesdelete(&mut (), &mut rand, &mut (), &mut input)));
    assert_eq!(input.bytes(), &[1u8, 3, 4, 5]);
}

#[test]
fn bytesexpand_with_fixed_rand() {
    // off = 2 % 2 = 0, len = 2 % (min(16, 99) + 1) = 2.
    let mut input = BytesInput::new(vec![1, 2, 3]);
    let mut rand = FixedRand(2);
    let mut m = MaxSize(100);
    assert!(mutated(mutation_bytesexpand(&mut m, &mut rand, &mut (), &mut input)));
    assert_eq!(input.bytes(), &[1u8, 2, 3, 0, 0]);
}

#[test]
fn bytesinsert_with_fixed_rand() {
    // off = 3 % 3 = 0, len = 3 % 16 = 3, picked byte index 3 % 4 = 3 (value 4):
    // cut or extend to 6 bytes, copy 3 bytes from 0 to 3, set 3 bytes at 0 to 4.
    let mut input = BytesInput::new(vec![1, 2, 3, 4]);
    let mut rand = FixedRand(3);
    let mut m = MaxSize(16000);
    assert!(mutated(mutation_bytesinsert(&mut m, &mut rand, &mut (), &mut input)));
    assert_eq!(input.bytes(), &[4u8, 4, 4, 1, 2, 3]);
}

#[test]
fn bytesinsert_on_empty_input_starts_from_random_bytes() {
    // The eight bytes of 0x0102030405060708; off = x % 7, len = x % 16 = 8, j = x % 8 = 0.
    let x: u64 = 0x0102030405060708;
    let mut input = BytesInput::new(vec![]);
    let mut rand = FixedRand(x);
    let mut m = MaxSize(16000);
    assert!(mutated(mutation_bytesinsert(&mut m, &mut rand, &mut (), &mut input)));
    let off = (x % 7) as usize;
    assert_eq!(input.bytes().len(), off + 16);
    assert!(input.bytes()[off..off + 8].iter().all(|&b| b == 1));
}

#[test]
fn bytesrandinsert_with_fixed_rand() {
    // off = 0 (empty input), len = 2 % 16 = 2, val = 2.
    let mut input = BytesInput::new(vec![]);
    let mut rand = FixedRand(2);
    let mut m = MaxSize(16000);
    assert!(mutated(mutation_bytesrandinsert(&mut m, &mut rand, &mut (), &mut input)));
    assert_eq!(input.bytes(), &[2u8, 2, 0, 0]);
}

#[test]
fn bytesset_with_fixed_rand() {
    // picked byte 1 % 4 = 1 (value 20), start = 1 % 3 = 1, end = 1 + 1 % 4 = 2.
    let mut input = BytesInput::new(vec![10, 20, 30, 40]);
    let mut rand = FixedRand(1);
    assert!(mutated(mutation_bytesset(&mut (), &mut rand, &mut (), &mut input)));
    assert_eq!(input.bytes(), &[10u8, 20, 30, 40]);
    let mut r = BytesInput::new(vec![10, 20, 30, 40]);
    let mut rand = FixedRand(2);
    // val = 2, start = 2 % 3 = 2, len = 2 % 2 = 0.
    assert!(mutated(mutation_bytesrandset(&mut (), &mut rand, &mut (), &mut r)));
    assert_eq!(r.bytes(), &[10u8, 20, 30, 40]);
    let mut s = BytesInput::new(vec![10, 20, 30, 40, 50]);
    let mut rand = FixedRand(3);
    // picked byte 3 (value 40), start = 3 % 4 = 3, end = 3 + 3 % 3 = 3: nothing changes;
    // randset: val = 3, start = 3, len = 3 % 2 = 1.
    assert!(mutated(mutation_bytesrandset(&mut (), &mut rand, &mut (), &mut s)));
    assert_eq!(s.bytes(), &[10u8, 20, 30, 3, 50]);
}

#[test]
fn bytescopy_and_swap_with_fixed_rand() {
    // from = to = 1 % 4 = 1, len = 1 % 3 = 1: copying a range onto itself.
    let mut input = BytesInput::new(vec![1, 2, 3, 4, 5]);
    let mut rand = FixedRand(1);
    assert!(mutated(mutation_bytescopy(&mut (), &mut rand, &mut (), &mut input)));
    assert_eq!(input.bytes(), &[1u8, 2, 3, 4, 5]);
    let mut s = BytesInput::new(vec![1, 2, 3, 4, 5, 6]);
    let mut rand = FixedRand(2);
    // first = second = 2, len = 2 % 3 = 2: swapping a range with itself.
    assert!(mutated(mutation_bytesswap(&mut (), &mut rand, &mut (), &mut s)));
    assert_eq!(s.bytes(), &[1u8, 2, 3, 4, 5, 6]);
}

#[test]
fn splice_with_fixed_rand() {
    let mut corpus: InMemoryCorpus<BytesInput, FixedRand> = InMemoryCorpus::new();
    corpus.add(Testcase::new(BytesInput::new(vec![0, 0])));
    corpus.add(BytesInput::new(vec![0, 9, 2, 3, 9, 5, 6]).into());
    let mut state = State::new(corpus, ());
    // idx = 1 % 2 = 1 (not the current one, 0); diffs at 1 and 4; split = 1 + 1 % 4 = 2.
    let mut input = BytesInput::new(vec![0, 1, 2, 3, 4, 5]);
    let mut rand = FixedRand(1);
    let r = mutation_splice(&mut (), &mut rand, &mut state, &mut input);
    assert!(mutated(r));
    assert_eq!(input.bytes(), &[0u8, 1, 2, 3, 9, 5, 6]);
}

#[test]
fn splice_skips_current_and_similar_entries() {
    let mut corpus: InMemoryCorpus<BytesInput, FixedRand> = InMemoryCorpus::new();
    corpus.add(BytesInput::new(vec![0, 9, 9, 9]).into());
    corpus.add(BytesInput::new(vec![0, 1, 2, 3]).into());
    let mut state = State::new(corpus, ());
    let mut input = BytesInput::new(vec![0, 1, 2, 3]);
    // idx = 0 is the current entry.
    let mut rand = FixedRand(0);
    assert!(skipped(mutation_splice(&mut (), &mut rand, &mut state, &mut input)));
    assert_eq!(input.bytes(), &[0u8, 1, 2, 3]);
    // idx = 1: no difference at all.
    let mut rand = FixedRand(1);
    assert!(skipped(mutation_splice(&mut (), &mut rand, &mut state, &mut input)));
    assert_eq!(input.bytes(), &[0u8, 1, 2, 3]);
}

#[test]
fn splice_on_empty_corpus_fails() {
    let corpus: InMemoryCorpus<BytesInput, FixedRand> = InMemoryCorpus::new();
    let mut state = State::new(corpus, ());
    let mut input = BytesInput::new(vec![0, 1, 2, 3]);
    let mut rand = FixedRand(1);
    let r = mutation_splice(&mut (), &mut rand, &mut state, &mut input);
    assert!(matches!(r, Err(AflError::Empty(_))));
    assert_eq!(input.bytes(), &[0u8, 1, 2, 3]);
}

#[test]
fn splice_skips_entry_made_current() {
    let mut corpus: InMemoryCorpus<BytesInput, FixedRand> = InMemoryCorpus::new();
    corpus.add(BytesInput::new(vec![0, 0]).into());
    corpus.add(BytesInput::new(vec![0, 9, 2, 3, 9, 5, 6]).into());
    corpus.set_current(1);
    let mut state = State::new(corpus, ());
    let mut input = BytesInput::new(vec![0, 1, 2, 3, 4, 5]);
    let mut rand = FixedRand(1);
    assert!(skipped(mutation_splice(&mut (), &mut rand, &mut state, &mut input)));
    assert_eq!(input.bytes(), &[0u8, 1, 2, 3, 4, 5]);
}

#[test]
fn draws_come_in_order() {
    // off = 7 % 5 = 2, then len = 8 % (5 - 2) = 2.
    let mut input = BytesInput::new(vec![1, 2, 3, 4, 5]);
    let mut rand = CountingRand(7);
    assert!(mutated(mutation_bytesdelete(&mut (), &mut rand, &mut (), &mut input)));
    assert_eq!(input.bytes(), &[1u8, 2, 5]);
    assert_eq!(rand.0, 9);
    // idx = 4 % 5 = 4: past the end for a 4-byte word; num and op are still drawn.
    let mut input = BytesInput::new(vec![0; 6]);
    let mut rand = CountingRand(4);
    assert!(skipped(mutation_dwordadd(&mut (), &mut rand, &mut (), &mut input)));
    assert_eq!(rand.0, 7);
    // idx = 5 % 5 = 0, num = 1 + 6 % 35 = 7, op = 7 % 4 = 3: subtract, big-endian.
    let mut rand = CountingRand(5);
    assert!(mutated(mutation_dwordadd(&mut (), &mut rand, &mut (), &mut input)));
    assert_eq!(input.bytes(), &[0xffu8, 0xff, 0xff, 0xf9, 0, 0]);
    // A one-byte input leaves the generator untouched.
    let mut one = BytesInput::new(vec![3]);
    let mut rand = CountingRand(5);
    assert!(skipped(mutation_qwordadd(&mut (), &mut rand, &mut (), &mut one)));
    assert_eq!(rand.0, 5);
}
