# minitorch_rust

A small tensor library written in Verus. The functions in `src/` are verified
by Verus against their contracts, with three exceptions: the trusted wrappers
around outside code (`seeded_rng` and `shuffle_indices` in
`src/data/dataloader.rs`, over the `rand` crate, and `quote_debug` in
`src/errors.rs`, over std's `Debug` for `str`), whose contracts are assumed.
Some small functions (constructors of parameterless layers, length getters)
state little beyond their result's fields, and a few verified functions have
no `ensures` at all because nothing about their result is promised.

- `src/storage/`: `TensorStorage`, a strided view over a shared flat buffer,
  with its layout model (`layout.rs`), indexing, iteration, display text, and
  the operations in `ops/`: shape views and copies, broadcasting, element-wise
  math, reductions, pooling, convolution and the dimension bookkeeping they
  share.
- `src/autograd/`: the gradient rule of every recorded operation, stated on
  storages (`ops.rs`), the folding of broadcast gradients (`grad_fn.rs`), and
  the compilation and scheduling of a backward pass over a graph of node ids
  (`plan.rs`).
- `src/nn/`: layer descriptions (activation, loss, pooling, flattening,
  sequential containers).
- `src/data/`: MNIST IDX parsing, shuffled batching, and the record lookup
  table of CSV files.
- `src/dtype.rs`, `src/text.rs`, `src/errors.rs`: the closed set of element
  types, decimal text, and the library's error type.
- `src/laws.rs`: properties that relate several operations.
- `app/`: the command-line front end (configuration file, file reading,
  floating-point pixel statistics and pooling kernels; the max-pooling
  gradient takes its routes from the library).
- `tests/`: executable tests of the library.
