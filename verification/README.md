# TileMaxSim

The decisions behind exact MaxSim reranking on accelerators, verified with Verus.

A client sends a query and candidate tensors, each known by the SHA-256 digest of
its contents. A daemon brings the tensors to its devices, scores every candidate,
and answers with the candidates and their scores.

- `src/` is the verified library. It holds the wire format, the scheduler, the page
  allocator and the caches, the immutable shards and the quantization registry, the
  placement of tensors on devices, the choice of kernels, and the life of a
  connection and of a request. Every function states what it returns and is proved
  to return it. What relates several functions is stated and proved as a law, in a
  public proof function.
- `tests/` runs the library on concrete values.
- `app/` is the daemon and its control commands: files, sockets, threads, devices
  and floating-point arithmetic.

Floating-point numbers cross the border of the library as their bits. Where the
library needs arithmetic on them, it takes the operation as a function.

Beyond Verus and its library, the proofs rest on what is stated of seven functions,
`Sha256::digest`, `hex::encode`, `hex::decode`, `std::str::from_utf8`, `Arc::clone`,
and the `Debug` of `str` and of `char`. Of a digest, of the length of a sequence that
is no UTF-8, and of a quoted text, nothing is claimed but that it is a function of
what it is made from.
