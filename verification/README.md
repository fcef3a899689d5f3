# chicken_curry

A small tensor library for learning how machine-learning frameworks work,
with its layout, indexing, broadcasting, reduction, matrix-product and
computation-graph logic verified with Verus.

## Layout

- `src/` — the verified library.
  - `layout.rs`: shapes, row-major strides, raveling and unraveling of
    indices, index validation, broadcasting, axis removal and insertion,
    axis permutations.
  - `tensor.rs`: `Tensor<T>`, a strided tensor over any element type, with
    construction, reads and writes, transposition, element-wise maps and
    broadcast combinations, folds and reductions (whole and per axis),
    batched matrix products, and the shape bookkeeping that gradients need
    (expanding a reduced tensor back, summing a broadcast tensor back).
    Element arithmetic is passed in as closures.
  - `graph.rs`: computation graphs as parent lists — the topological order
    used by back-propagation and the tree drawing of a graph.
  - `text.rs`: the nested-bracket text of a tensor's elements.
  - `error.rs`: `TensorError`.
- `app/` — the `f32` tensor with its recorded computation graph, random
  initializers, activation and loss functions, back-propagation and
  `Display`, built on the library.
- `tests/` — tests of the library.

## Checking

Every function in `src/` carries a contract that Verus proves; laws that
relate several functions (reading back a write, transposing back, a shape
broadcast with itself, unraveling a raveled index, …) are public proof
functions.
