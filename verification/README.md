# extra_collections

Two fixed-size collections, verified with Verus.

- `src/ring_buf.rs`: `RingBuf<T>`, a circular buffer of fixed capacity that
  overwrites its oldest element once full, with walks over its elements
  (`RingBufFiniteIter`, `RingBufFiniteIterMut`, `RingBufFiniteIntoIter`) and
  the laws that relate its operations.
- `src/arr.rs`: `Arr<T, C>`, `C` slots that are initialised one at a time.
- `src/std_calls.rs`: the trusted calls into std (`Vec::into_boxed_slice`,
  `std::mem::forget`).

The tests under `tests/` exercise both collections on concrete values.
