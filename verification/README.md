# fhe_ir

A minimalistic, scheme-agnostic intermediate representation for FHE circuits
(additions, multiplications, Galois automorphisms and inner products), with a
parser and a formatter for its MLIR-like text, written in Verus and verified.

- `src/` is the library. Each public function states what it returns in its
  contract; the public `law_*` proof functions state what holds across
  functions, such as that `Program::parse` reads back what
  `Program::to_string` writes.
- `tests/` runs the library on concrete programs.
- `app/` reads programs from any `std::io::Read` and shows values with
  `Display`.

The names of a program are held in a `bimap::BiHashMap`.
