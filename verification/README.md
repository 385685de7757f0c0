# mtb_align

Median threshold bitmap alignment for handheld HDR exposures (Ward, 2003),
with its contracts proved by Verus.

Each exposure is thresholded at its own median, which is a rank and so moves
with any monotonic change of exposure; pixels within a few levels of the
threshold are excluded as noise. The offset between two exposures is then found
by counting disagreeing pixels down an image pyramid, a pixel of search per level.

- `src/gray.rs`: the greyscale image and its model, `Plane`.
- `src/bitmap.rs`: one-bit-per-pixel images packed into 64-bit words.
- `src/threshold.rs`: the percentile cut, the threshold and exclusion bitmaps,
  and the laws that tie the cut to a change of tone.
- `src/shrink.rs`: halving a plane, by averaging or by subsampling.
- `src/difference.rs`: the fused, word-at-a-time disagreement count.
- `src/align.rs`: the coarse-to-fine search and its specification.
- `src/bits.rs`, `src/counting.rs`: bit-level and counting lemmas.
- `app/lib.rs`: the printable error and a disagreement count whose rows are
  spread over rayon's threads.
