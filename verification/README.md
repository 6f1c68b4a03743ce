# ec_av1

Pieces of an AV1 encoder and decoder, verified with [Verus](https://github.com/verus-lang/verus).

- `transform` — the inverse transforms of every size and type down to the bit,
  the lossless Walsh-Hadamard transform, and the fixed-point half of the
  forward one.
- `quant` — the quantizer's steps, and dequantization.
- `tile` — the payload of a key frame's or an inter frame's tile, as the
  sequence of symbols that an entropy coder is handed. Each symbol names its
  adaptive table and contexts. Where a block needs candidate motion vectors that
  are not known yet, a writer stops and says which block asks; it is run again
  with the answer.
- `warp` — the samples, the affine fit and the filter of local warp prediction.
- `wedge` — the masks of wedge compound prediction.
- `timeline` — timestamps of a threaded decode, and their table.

Every function states what it returns or changes, and when it refuses. Laws that
span functions are public proof functions beside them: among others that the
symbols of a block, and of a whole tile, read back as the choices, vectors and
levels they were written for, that a lossless block is reconstructed exactly,
that negated levels give the negated residual but for one, that wedges come in
transposed pairs, that the tiles of a frame partition it, and that every cell of
a tile is written once.

`app/` holds what works in floating point (the forward transform's scale and
bases, the quantizer's rounding, prices in bits), reads the clock or the
environment, or drives a coder.
