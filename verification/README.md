# hypercube_order

Orders in which the vertices `0 .. 2^num_vars` of a boolean hypercube are
visited, and the Montgomery arithmetic of the prime field of order 65521,
verified with Verus.

- `src/order_strategy.rs`: the `OrderStrategy` trait, whose model is the
  sequence of indices still to be produced.
  - `graycode.rs`: reflected binary Gray code order.
  - `lexicographic.rs`: increasing order.
  - `significant_bit.rs`: bit-reversed counting (bit 0 most significant).
- `src/hypercube.rs`: the number of vertices.
- `src/bits.rs`: Gray code, its inverse, bit reversal and their lemmas.
- `src/fields.rs`: field elements in Montgomery form and their operations.
- `src/fermat.rs`: Fermat's little theorem for 65521, behind `inverse`.
- `app/lib.rs`: the `ark_ff::SmallFpConfig` implementation that hands each
  operation to `src/fields.rs`.
