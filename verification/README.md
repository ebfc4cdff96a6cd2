# dealrs

A library for card games such as poker: cards, decks and masks of cards, the evaluation and
ranking of hands, combinatorial encodings of sets and bags, betting chips, and a simple engine
for Texas Hold'em. The library is written in Verus: each function states what it does in its
`requires` / `ensures` contract, and Verus proves the code against it.

## Layout

* `src/bits.rs`: positions of packed masks, counting and the highest positions.
* `src/text.rs`: decimal numbers and padded text.
* `src/deck.rs`: ranks, suits, cards and their masks; parsing and writing them; sampling cards.
* `src/random.rs`: the random number generator, seeded from text or from the system.
* `src/combrs/`: binomial coefficients, and the index spaces of sets and bags
  (`lemma_bag_roundtrip` and `lemma_bag_index_roundtrip` prove encoding and decoding inverse).
* `src/hand/`: hands of five cards or fewer, the reference engines (`refhand5`, `refbest5`),
  two lookup-table engines built from them by brute force (`lutrank`, `lutbest5`), and a
  compact numbering of hands (`compact`) that bounds how many different hands there are.
* `src/betting.rs`: stacks of chips and transfers that keep their total.
* `src/texas/`: the Hold'em engine, its agents, and the command-line settings of a game.
* `app/main.rs`: the command-line program, which reads its arguments, runs a game and prints
  what happened.
* `tests/`: tests of the library on concrete values.
