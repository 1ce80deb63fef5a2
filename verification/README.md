# gzip

A reader for the first member of a gzip file, written in Verus. Every function
in `src/` carries a contract that Verus proves.

## Layout

- `src/reader.rs`: `ByteReader`, a cursor over the file's bytes held in memory
  (`read_exact`, `read_until`).
- `src/parse.rs`: the `Parse` trait and `ParseOutcome`, the model of what reading
  a value from the front of some bytes comes to (a value and the rest, a failure
  and the rest, or a stop for an `Abort` reason).
- `src/flags.rs`: the FLG byte.
- `src/header.rs`: the ten-byte member header.
- `src/deflate/bitstream.rs`: `Bits<N>`, `BitVector` and `BitStream`, which hands
  out the bits of a byte source, most significant bit of each byte first.
- `src/deflate/mod.rs`: DEFLATE block headers.
- `src/member.rs`: extra fields, file name and comment, header CRC, blocks and
  trailer of a member.
- `app/main.rs`: the command line: reads the file named by the first argument and
  parses one member.

## Behaviour worth knowing

- Block and extra-field data are read into vectors created with a capacity and
  length 0, so no data byte is taken; a stored block's bytes stay in the reader.
- `Bits::bit` and `BitVector::bit` answer whether the byte shifted down by the
  bit's position equals 1, so a set bit reads as false when a higher bit of the
  same byte is set; `BitVector::bit` answers `None` for every index up to its
  length, which makes `BitVector::to_bools` empty.
- The two block-type bits are decoded through `Bits::bit`: bit 5 of the header
  byte set gives the fixed-Huffman type, bit 6 alone the dynamic type.
- Inputs the reader does not handle (a missing bit, a stored block whose NLEN is
  not the complement of LEN, a fixed-Huffman block, a member cut short before its
  trailer) are excluded by the `requires` of `read_from_file`;
  `read_or_abort` reports them as an `Abort` instead.
