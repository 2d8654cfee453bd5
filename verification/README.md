# docscan

The pixel-level core of a browser document scanner, written in Verus.

`src/` is the verified library:

- `raster`, `sums`: addressing of interleaved RGBA rasters and the finite sums
  and maxima that the neighbourhood filters are specified with;
- `blur`: the separable sliding-window box blur, the 3x3 border-shrinking
  blur and the sharpening kernel;
- `dilate`: the separable dilation (local maximum);
- `pixels`: grayscale, colour keying for signatures and the black-and-white
  threshold;
- `names`: filter and ink-colour names;
- `geometry`: quadrilaterals and the ordering of their corners;
- `image`: RGBA images and the exact perspective warp that straightens a
  document;
- `borders`: edge replication after a 5x5 kernel;
- `buffer`: the shared input buffer;
- `wide`: signed 256-bit integers for the exact warp.

`app/` holds the WebAssembly entry points for filtering (`apply_filter`) and
for extracting a document (`extract_document`, `extract_document_shared`),
the shared input buffer (`alloc`), and the filter steps that compute in
floating point. The document-detection entry points (`find_document` and its
shared-buffer variants) are absent: the grayscale conversion, downscaling and
edge-voting code they rely on is not part of this project.
