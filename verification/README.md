# nanogpt-rs

A small GPT on characters that trains and samples on the CPU, written in Rust and verified
with Verus.

`src/` is the library. All of it is verified: token files and metadata, the random generator,
batches, the layout of the parameters, the forward and the backward pass, the optimiser, the
order of a training run, checkpoints, generation, and the reading of options.

Floating-point numbers stand behind the trait `Scalar`, of which nothing is assumed. A number
carries, in ghost code, the formula that it is a value of; contracts are about formulas, so
they say which operations lead to a result, on what, and in which order.

What holds of the library as a whole stands in public proof functions whose names start with
`law_`. Among them: read in exact arithmetic, the formulas that the backward pass leaves are the
derivatives of the loss (`src/gradient.rs`); predictions depend on earlier tokens only, and
parameters, tokens and masks settle a pass (`src/causal.rs`); tokens are drawn among the most
probable, and drawing in two goes is drawing in one (`src/generate.rs`). Where the operations of
the number type have one outcome each, as those of floating point have, the state of the
generator settles training passes and generation (`src/settled.rs`).

`app/` is the program around the library: arguments, files, time, threads, and the `Scalar`
that computes in single precision.

    nanogpt-rs prepare --input input.txt --out-dir data
    nanogpt-rs train --data-dir data --out-dir out-rs
    nanogpt-rs sample --checkpoint out-rs/ckpt.bin --start "To be"
