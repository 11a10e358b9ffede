# stitcher

Stitches ordered screenshots of a camera pan into a single still, and judges the result.

The library under `src/` is written in Verus: every function carries a contract, and the contracts
are proved. It finds the displacement between consecutive frames, places the frames on a canvas,
chooses the frame of each pixel (by the nearest frame center, or along seams of least cost), corrects
frames strip by strip, records where each pixel comes from, and looks for visible seams and repeated
content.

- `src/`: the verified library. `stitch` joins the steps; each step has a module of its own.
- `tests/`: tests that run the compiled library.
- `app/`: ordinary Rust around the library: reading files, converting images, floating-point
  arithmetic, and reports in serialized form.

## Numbers

Scores, weights and thresholds are single-precision numbers. The library carries them as bit patterns
(`Single`) and compares them as IEEE 754 does; it does not add or multiply them. Where a step
needs such a computation, the caller hands in a function, and the contract of the step says how the
result follows from what that function returns.

Where only a whole number comes out of single-precision arithmetic (the usual limit of a shift, and a
displacement divided by the scale), `src/rounding.rs` computes it with integers, digit for digit.

## What is trusted

The pixel buffers are those of the `image` crate. The private functions at the top of
`src/buffers.rs` call it, and their contracts are taken on trust. Nothing else is.
