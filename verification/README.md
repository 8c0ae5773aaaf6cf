# HyperTorch

A small inference engine, verified with Verus: strided tensors, feed-forward
layers, the RTW weight format, graph primitives with convergence-based halting,
and the protocol of a model server.

## Layout

- `src/scalar.rs`: what an element offers. The contracts speak of these
  operations and never of what they compute, so they hold for every element
  type, 32-bit floats among them.
- `src/shape.rs`, `src/grid.rs`: sizes, row-major strides, cells of a matrix.
- `src/reduce.rs`, `src/tensor.rs`, `src/random.rs`: reductions, tensors and
  pseudo-random tensors.
- `src/nn.rs`, `src/model.rs`: `Linear`, `Mlp`, and the network of a weight
  file.
- `src/graph.rs`: message passing that halts once the state hardly moves.
- `src/rtw.rs`, `src/weights.rs`: the RTW format and its reader.
- `src/text.rs`, `src/http.rs`: how requests are cut from a byte stream and what
  they are answered.
- `src/agreement.rs`: how far logits agree with expected ones.
- `src/alike.rs`, `src/determinism.rs`: what agrees up to an equivalence, such as
  equality but for the payload of a NaN, and that the library respects it.
- `src/structure.rs`, `src/algebra.rs`, `src/rtw_laws.rs`: how the operations
  relate to each other and what the format promises.
- `app/`: the engine on 32-bit floats, with files and sockets.

## RTW

Little-endian: the magic `RTWv1\0`, a `u32` count, and for each tensor a `u32`
name length, the name in UTF-8, a `u32` number of dimensions, the dimensions as
`u64` and the elements as `f32`. The last tensor of a name counts; bytes after
the last tensor are not read.
