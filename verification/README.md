# fp8_linear

Linear layers whose weights are kept as FP8 E4M3 numbers, with the arithmetic,
the quantization and the decisions of a forward pass verified with Verus.

- `src/` is the verified library. Floats are carried as their bits; rounding,
  products, quotients and conversions are stated over whole numbers of the
  smallest subnormal and proved to be correctly rounded. Blockwise
  dequantization, dynamic quantization, the programs for a CUDA device, the
  layout of FP8 multiplications and the steps of a forward pass build on them.
- `app/` runs the layer: it holds the device, carries out the programs, and does
  the floating-point products and sums of the path without FP8.
- `tests/` runs the library on the host and on a device made of vectors.

What quantizing and dequantizing leaves of a number is bounded in
`src/roundtrip.rs`: every number comes back, with its sign, up to a fourteenth of
its own size and a 512th of the scale of its block, as long as that scale and its
inverse are finite. `src/symmetry.rs` states what transposing, doubling and
negating the operands does.
