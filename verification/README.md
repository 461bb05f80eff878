# uiua_reduce

Reduce, scan, unscan, fold and windowed folds over row-major byte arrays,
verified with Verus.

An array is a shape and its bytes (`array::Array`, stored in an
`ecow::EcoVec<u8>`); its mathematical value is the pair of sequences
`(shape, bytes)`. Functions that the operations call are values of the trait
`func::Function`: a signature, the primitive they are recognised as, and what a
call leaves on the stack, written over array values. Every implementation
proves that calls keep arrays well shaped, and that a function recognised as a
primitive takes two values and, as equality, inequality, maximum or minimum,
combines arrays of one shape byte by byte.

Layout of `src/`:

- `shape.rs`: sizes of shapes.
- `eco.rs`: the byte storage, through the contents of an `EcoVec<u8>`.
- `array.rs`: arrays, their rows, and joining rows into an array.
- `ops.rs`: primitives and the byte functions of the fast paths.
- `fast.rs`: reductions, scans, unscans and windowed folds by a byte function.
- `func.rs`: the `Function` trait and the functions the library provides.
- `generic.rs`: the same operations calling a function on whole rows.
- `reduce.rs`: reduce, reduce of box contents, scan, unscan, windowed folds:
  the choice between the fast path, the row-wise path, and numeric work.
- `fold.rs`: fold, over the stack.
- `laws.rs`: what holds across operations, such as the fast paths agreeing
  with the row-wise ones, a deep reduction reducing each cell, and the
  unscan by byte equality or inequality undoing the scan by it on bits.
- `inverses.rs`: arrays taken apart into rows and put back together, and the
  unscan by `f` undoing the scan by `g` wherever `f` undoes each step of `g`.

Work in floating-point arithmetic is not part of the library: where an
operation on bytes is computed on numbers, the library hands the array back
as `Outcome::Numeric`, and `app/` does that work.
