# lib: verified input mutations for a fuzzer

A library of byte-level mutations for fuzzer inputs, written in Verus and proved
against its contracts.

- `src/mem.rs`: `memmove`/`memcpy`/`memset`-style helpers on byte vectors.
- `src/words.rs`: multi-byte numbers inside byte vectors (little- and big-endian
  reads, writes and wrapping arithmetic), with the laws that a read gives back a
  write and that subtracting undoes adding.
- `src/rand.rs`: the `Rand` trait (`next`, `below`, `between`) and `StdRand`,
  a xorshift64 generator. A generator's state decides the number it hands out
  next and the state that follows, so a sequence of draws is a function of the
  state it starts from.
- `src/input.rs`, `src/corpus.rs`, `src/error.rs`: inputs backed by a byte vector,
  corpora, fuzzer state and errors.
- `src/mutations.rs`: the mutations. Each draws its random choices and hands them
  to a deterministic function (`bitflip_at`, `word_arith_at`, `insert_at`, ...)
  whose contract states the result exactly; the mutation's own contract states
  the result, and the generator's state after it, as a function of the input and
  the generator's state before it.
- `src/tokens.rs`: dictionary tokens: escape decoding (`str_decode`), adding
  without duplicates, and reading the lines of a tokens file.
- `app/lib.rs`: reading a tokens file from disk and the trait that holds
  mutations as function values.
