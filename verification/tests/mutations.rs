use lib::corpus::{InMemoryCorpus, State};
use lib::error::AflError;
use lib::input::BytesInput;
use lib::mutations::{
    mutation_bitflip, mutation_byteadd, mutation_bytedec, mutation_byteflip, mutation_byteinc,
    mutation_byteinteresting, mutation_byteneg, mutation_byterand, mutation_bytescopy,
    mutation_bytesdelete, mutation_bytesexpand, mutation_bytesinsert, mutation_bytesrandinsert,
    mutation_bytesrandset, mutation_bytesset, mutation_bytesswap, mutation_dwordadd,
    mutation_dwordinteresting, mutation_qwordadd, mutation_wordadd, mutation_wordinteresting,
    HasMaxSize, MutationResult,
};
use lib::rand::StdRand;

type MutationFunction<I, M, R, S> =
    fn(&mut M, &mut R, &mut S, &mut I) -> Result<MutationResult, AflError>;

struct WithMaxSize {}

impl HasMaxSize for WithMaxSize {
    fn spec_max_size(&self) -> usize {
        16000 as usize
    }

    fn max_size(&self) -> usize {
        16000 as usize
    }

    fn set_max_size(&mut self, _max_size: usize) {
        unreachable!("Not needed");
    }
}

#[test]
fn test_mutators() {
    let mut inputs = vec![
        BytesInput::new(vec![0x13, 0x37]),
        BytesInput::new(vec![0xFF; 2048]),
        BytesInput::new(vec![0xFF; 50000]),
        BytesInput::new(vec![0x0]),
        BytesInput::new(vec![]),
    ];

    let mut mutator = WithMaxSize {};

    let mut rand = StdRand::new(1337);
    let mut corpus: InMemoryCorpus<_, StdRand> = InMemoryCorpus::new();

    corpus.add(BytesInput::new(vec![0x42; 0x1337]).into());

    let mut state = State::new(corpus, ());

    let mut mutations: Vec<MutationFunction<BytesInput, WithMaxSize, StdRand, _>> = vec![];

    mutations.push(mutation_bitflip);
    mutations.push(mutation_byteflip);
    mutations.push(mutation_byteinc);
    mutations.push(mutation_bytedec);
    mutations.push(mutation_byteneg);
    mutations.push(mutation_byterand);

    mutations.push(mutation_byteadd);
    mutations.push(mutation_wordadd);
    mutations.push(mutation_dwordadd);
    mutations.push(mutation_qwordadd);
    mutations.push(mutation_byteinteresting);
    mutations.push(mutation_wordinteresting);
    mutations.push(mutation_dwordinteresting);

    mutations.push(mutation_bytesdelete);
    mutations.push(mutation_bytesdelete);
    mutations.push(mutation_bytesdelete);
    mutations.push(mutation_bytesdelete);
    mutations.push(mutation_bytesexpand);
    mutations.push(mutation_bytesinsert);
    mutations.push(mutation_bytesrandinsert);
    mutations.push(mutation_bytesset);
    mutations.push(mutation_bytesrandset);
    mutations.push(mutation_bytescopy);
    mutations.push(mutation_bytesswap);

    for _ in 0..3 {
        let mut new_testcases = vec![];
        for mutation in &mutations {
            for input in inputs.iter() {
                let mut mutant = input.clone();
                match mutation(&mut mutator, &mut rand, &mut state, &mut mutant).unwrap() {
                    MutationResult::Mutated => new_testcases.push(mutant),
                    MutationResult::Skipped => (),
                };
            }
        }
        inputs.append(&mut new_testcases);
    }
}
