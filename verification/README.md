# JFIF reader

A verified reader for JFIF files: the APP0 header, then the segments that define
quantization tables, Huffman tables, the baseline frame header and the scans.

- `src/header.rs`: the header fields (units, version) and big-endian byte pairs.
- `src/frame.rs`: frame and scan headers and the lookup of a component in them.
- `src/model.rs`: what reading a file gives, as spec functions of its bytes, and the
  well-formedness law of what it gives.
- `src/image.rs`: `JFIFImage` and the reader, proved to compute `model::spec_parse`.
- `src/segment_laws.rs`: laws of the segment reader: the last table for a slot wins,
  comment and application segments can be dropped, an unknown marker stops the reader.
- `src/scan.rs`: turning differential DC coefficients into values.
- `src/zigzag.rs`: zigzag order of square matrices, and the law that it is a rearrangement.
- `app/lib.rs`: the reader with its diagnostics printed and each scan decoded with the
  JPEG crate's Huffman decoder and inverse DCT.
