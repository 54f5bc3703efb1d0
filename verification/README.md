# roaring

A verified bitmap container: a set of `u16` values kept as 1024 words of 64 bits, together with the
number of its members and the indices of the first and the last word that is not zero.

- `src/word.rs`: one word as a set of bit positions.
- `src/model.rs`: sets of `u16` values, how words stand for them, and how members are counted.
- `src/store.rs` and `src/store/`: `BitmapStore`. Single values are in `store.rs`, ranges in
  `range.rs`, rank, select and removal from the ends in `order.rs`, set operations in `ops.rs`,
  conversions in `convert.rs`.
- `src/iter.rs`: `BitmapIter`, a cursor that moves over the members from both ends.
- `src/array_store.rs`, `src/interval.rs`, `src/error.rs`: the types that stores work with.
- `src/laws.rs` and `src/laws/`: what holds between the operations.
- `app/`: the traits of the standard library (`Iterator`, `Display`, `Error`) on top of the library.
- `tests/`: the library on concrete values.

The view of a `BitmapStore` is the `Set<u16>` of its members, and that of a `BitmapIter` is the set
of the members that are left to visit. Contracts are stated over these sets.
