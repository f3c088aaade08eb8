# snap

A decoder for the raw Snappy block format, verified with Verus.

- `src/decompress.rs`: `decompress_len` and `Decoder`, the public interface, and
  the two loops that decompress a block.
- `src/copy.rs`: moving bytes within the output, in chunks that are as wide as
  the distance to the source allows.
- `src/bytes.rs`, `src/tag.rs`: the integers and the tag bytes of the format.
- `src/block.rs`: what every block decompresses to, or the error that it is
  refused with. The contracts of the public interface are stated over it.
- `src/element.rs`: blocks as a compressor writes them.
- `src/laws.rs`: what holds of the library as a whole. Above all, the blocks that
  decompress are exactly those that consist of a valid header and well-formed
  elements, and they decompress to what their elements say.
