use vstd::prelude::*;
use core::marker::PhantomData;
use crate::error::AflError;
use crate::rand::{Rand, spec_after_draw, spec_draw};

verus! {

/// A collection of inputs that the fuzzer keeps.
pub trait Corpus<I, R: Rand> {
    /// The entries, in the order they were added.
    spec fn spec_entries(&self) -> Seq<I>;

    /// The index of the entry that is being fuzzed now.
    spec fn spec_current(&self) -> usize;

    /// The number of entries.
    fn count(&self) -> (n: usize)
        ensures
            n == self.spec_entries().len(),
    ;

    /// The entry at `idx`.
    fn get(&self, idx: usize) -> (e: &I)
        requires
            idx < self.spec_entries().len(),
        ensures
            *e == self.spec_entries()[idx as int],
    ;

    /// The index of the entry that is being fuzzed now.
    fn current_index(&self) -> (c: usize)
        ensures
            c == self.spec_current(),
    ;

    /// A random entry with its index, or `Empty` where there is no entry. The index is
    /// the one that `rand.below(count)` draws.
    fn random_entry(&self, rand: &mut R) -> (res: Result<(&I, usize), AflError>)
        ensures
            match res {
                Ok((e, idx)) => idx < self.spec_entries().len() && idx == spec_draw(
                    *old(rand),
                    self.spec_entries().len() as u64,
                ) && *e == self.spec_entries()[idx as int],
                Err(err) => self.spec_entries().len() == 0 && err is Empty,
            },
            *final(rand) == (if self.spec_entries().len() == 0 {
                *old(rand)
            } else {
                spec_after_draw(*old(rand), self.spec_entries().len() as u64)
            }),
    {
        let count = self.count();
        if count == 0 {
            Err(AflError::Empty("No entries in corpus".to_owned()))
        } else {
            let id = rand.below(count as u64);
            let idx = id as usize;
            Ok((self.get(idx), idx))
        }
    }
}

/// Access to the corpus that a fuzzer state holds.
pub trait HasCorpus<C> {
    /// The corpus.
    spec fn spec_corpus(&self) -> C;

    /// The corpus.
    fn corpus(&self) -> (c: &C)
        ensures
            *c == self.spec_corpus(),
    ;
}

/// An entry of a corpus: an input.
pub struct Testcase<I> {
    /// The input.
    pub input: I,
}

impl<I> Testcase<I> {
    /// The input of the testcase.
    pub open spec fn spec_input(&self) -> I {
        self.input
    }

    /// A testcase holding `input`.
    pub fn new(input: I) -> (t: Self)
        ensures
            t.spec_input() == input,
    {
        Testcase { input }
    }

    /// The input of the testcase.
    pub fn input(&self) -> (i: &I)
        ensures
            *i == self.spec_input(),
    {
        &self.input
    }
}

impl<I> From<I> for Testcase<I> {
    fn from(input: I) -> (t: Self) {
        Testcase { input }
    }
}

impl<I> vstd::std_specs::convert::FromSpecImpl<I> for Testcase<I> {
    open spec fn obeys_from_spec() -> bool {
        true
    }

    open spec fn from_spec(input: I) -> Self {
        Testcase { input }
    }
}

/// A corpus that holds its entries in memory.
pub struct InMemoryCorpus<I, R> {
    entries: Vec<Testcase<I>>,
    pos: usize,
    phantom: PhantomData<R>,
}

impl<I, R> InMemoryCorpus<I, R> {
    /// The entries, in the order they were added.
    pub closed spec fn spec_view(&self) -> Seq<I> {
        self.entries@.map_values(|t: Testcase<I>| t.input)
    }

    /// The index of the entry that is being fuzzed now.
    pub closed spec fn spec_pos(&self) -> usize {
        self.pos
    }

    /// An empty corpus.
    pub fn new() -> (c: Self)
        ensures
            c.spec_view() == Seq::<I>::empty(),
            c.spec_pos() == 0,
    {
        InMemoryCorpus { entries: Vec::new(), pos: 0, phantom: PhantomData }
    }

    /// Adds a testcase at the end.
    pub fn add(&mut self, testcase: Testcase<I>)
        ensures
            final(self).spec_view() == old(self).spec_view().push(testcase.spec_input()),
            final(self).spec_pos() == old(self).spec_pos(),
    {
        self.entries.push(testcase);
        assert(self.spec_view() =~= old(self).spec_view().push(testcase.spec_input()));
    }

    /// Makes the entry at `idx` the one that is being fuzzed now.
    pub fn set_current(&mut self, idx: usize)
        ensures
            final(self).spec_view() == old(self).spec_view(),
            final(self).spec_pos() == idx,
    {
        self.pos = idx;
    }
}

impl<I, R: Rand> Corpus<I, R> for InMemoryCorpus<I, R> {
    closed spec fn spec_entries(&self) -> Seq<I> {
        self.spec_view()
    }

    closed spec fn spec_current(&self) -> usize {
        self.pos
    }

    fn count(&self) -> (n: usize) {
        self.entries.len()
    }

    fn get(&self, idx: usize) -> (e: &I) {
        self.entries[idx].input()
    }

    fn current_index(&self) -> (c: usize) {
        self.pos
    }
}

/// The state of a fuzzer: its corpus and its feedbacks.
pub struct State<C, FT> {
    corpus: C,
    feedbacks: FT,
}

impl<C, FT> State<C, FT> {
    /// The feedbacks.
    pub closed spec fn spec_feedbacks(&self) -> FT {
        self.feedbacks
    }

    /// A state with the given corpus and feedbacks.
    pub fn new(corpus: C, feedbacks: FT) -> (s: Self)
        ensures
            s.spec_corpus() == corpus,
            s.spec_feedbacks() == feedbacks,
    {
        State { corpus, feedbacks }
    }
}

impl<C, FT> HasCorpus<C> for State<C, FT> {
    closed spec fn spec_corpus(&self) -> C {
        self.corpus
    }

    fn corpus(&self) -> (c: &C) {
        &self.corpus
    }
}

} // verus!
