# halo2_proofs

The proving side of a PLONKish proof system, verified with
[Verus](https://github.com/verus-lang/verus): univariate polynomials in several
bases, evaluation domains, witness generation, and the creation of proofs.

## What is proved

The functions of the library carry contracts over mathematical models: integers
modulo the order of the field, sequences of values, and the list of steps that a
prover takes.

- Polynomials (`poly`): arithmetic, rotation, inversion of fractions, the byte
  format, and interpolation on the powers of a root of unity. `poly::codec` and
  `poly::laws` state what holds across operations, such as that reading gives back
  what was written, that rotations compose, and that interpolation is unique.
- Witness generation (`plonk::witness`, `plonk::collection`): the columns that
  are committed to hold what the circuit assigned when it was given its
  instances, the columns for constants and the challenges of earlier phases.
  Instances are zero-padded, and the last rows of advice columns are blinded.
- Proofs (`plonk::prover`): a proof consists of the steps of the protocol in
  their order, with the values that each step calls for, and each argument takes
  up the values that it came to in earlier steps. An error is returned only where
  the instances do not match, a step failed or a circuit refused. If a step
  failed, those before it are the first ones of the protocol, none comes after it,
  and the error is the one that it amounts to.
- Laws of proofs: `plonk::laws` relates the ways to create a proof to each
  other. `plonk::runs` says what does not matter to a proof: two runs that are
  answered alike take the same steps, up to the end or up to the same failure, if
  they differ in nothing but the rows that blind the columns, in zeroes at the end
  of queried instance columns, or in whether the columns were synthesized or
  handed over.

All that a prover does to its transcript, to its source of randomness and to the
lookup, permutation and vanishing arguments goes through `plonk::channel`. It
keeps a ghost record of every step, with the states of transcript and randomness
before and after it. Each recorded step is proved to be one that the transcript,
the randomness, the arguments or the opening argument can have taken between these
states: their traits say which ones these are.

## What is trusted

- Arithmetic in the scalar field of BN254, its encodings, the normalisation of
  curve points and the random number generator come from `halo2curves`, `ff`,
  `group` and `rand_core`. They are reached through the private functions at the
  end of `src/bn256.rs`, whose contracts are not proved.
- Transcripts, sources of randomness, commitment schemes, the lookup, permutation
  and vanishing arguments, opening arguments and circuits are supplied by the
  user, through the traits `TranscriptWrite`, `RandomSource`, `Params`,
  `Arguments`, `Prover` and `Circuit`. What is proved rests on their
  implementations meeting the contracts of these traits. Most of these contracts
  relate what goes into a call to what comes out of it by a relation that an
  implementation may choose, and that allows for anything unless it does.

## Layout

- `src/`: the library.
- `tests/`: its tests.
- `app/`: adaptors for byte streams, borrowed transcripts and generators of
  `rand_core`.
