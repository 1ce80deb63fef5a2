pub mod bitstream;

use vstd::prelude::*;
use crate::deflate::bitstream::{bit_at, reads_as_one, stream_bits, BitStream, Bits};
use crate::parse::{reports, Abort, Parse, ParseOutcome};
use crate::reader::ByteReader;

verus! {

/// BTYPE of a DEFLATE block.
#[derive(Debug, Clone, Copy, PartialEq, Eq, Structural)]
pub enum BlockType {
    Uncompressed,
    CompressedFixedHuffman,
    CompressedDynamicHuffman,
    Reserved,
}

/// All little endian, except huffman codes
#[derive(Debug)]
pub struct DeflateBlock {
    pub is_last_block: bool,
    pub compression_type: BlockType,
    pub data: Vec<u8>,
}

/// What a `DeflateBlock` holds, with its data as a sequence.
pub struct DeflateBlockModel {
    pub is_last_block: bool,
    pub compression_type: BlockType,
    pub data: Seq<u8>,
}

impl View for DeflateBlock {
    type V = DeflateBlockModel;

    open spec fn view(&self) -> DeflateBlockModel {
        DeflateBlockModel {
            is_last_block: self.is_last_block,
            compression_type: self.compression_type,
            data: self.data@,
        }
    }
}

/// The little-endian value of two bytes.
pub open spec fn le16(lo: u8, hi: u8) -> u16 {
    (lo as int + 256 * hi as int) as u16
}

/// The block type that the header byte `b` decodes to.
///
/// Bits are read most significant first: bit 7 is BFINAL, then bits 6 and 5 are
/// read into a `Bits<2>` and decoded from its `bit(0)` and `bit(1)`. As `bit`
/// answers whether the byte shifted down is exactly 1, `bit(0)` holds only when
/// bit 6 is set without bit 5, so both set decodes like bit 5 alone.
pub open spec fn header_block_type(b: u8) -> BlockType {
    if bit_at(b, 5) {
        BlockType::CompressedFixedHuffman
    } else if bit_at(b, 6) {
        BlockType::CompressedDynamicHuffman
    } else {
        BlockType::Uncompressed
    }
}

proof fn lemma_one_bit(b: u8)
    requires
        forall|j: int| 1 <= j < 8 ==> !bit_at(b, j),
    ensures
        reads_as_one(b, 0) == bit_at(b, 0),
{
    assert(!bit_at(b, 1) && !bit_at(b, 2) && !bit_at(b, 3) && !bit_at(b, 4));
    assert(!bit_at(b, 5) && !bit_at(b, 6) && !bit_at(b, 7));
    assert((b >> 1u8) & 1 != 1 && (b >> 2u8) & 1 != 1 && (b >> 3u8) & 1 != 1 && (b >> 4u8) & 1 != 1
        && (b >> 5u8) & 1 != 1 && (b >> 6u8) & 1 != 1 && (b >> 7u8) & 1 != 1 ==> ((b >> 0u8) == 1)
        == ((b >> 0u8) & 1 == 1)) by (bit_vector);
}

proof fn lemma_two_bits(b: u8)
    requires
        forall|j: int| 2 <= j < 8 ==> !bit_at(b, j),
    ensures
        reads_as_one(b, 0) == (bit_at(b, 0) && !bit_at(b, 1)),
        reads_as_one(b, 1) == bit_at(b, 1),
{
    assert(!bit_at(b, 2) && !bit_at(b, 3) && !bit_at(b, 4));
    assert(!bit_at(b, 5) && !bit_at(b, 6) && !bit_at(b, 7));
    assert((b >> 2u8) & 1 != 1 && (b >> 3u8) & 1 != 1 && (b >> 4u8) & 1 != 1 && (b >> 5u8) & 1 != 1
        && (b >> 6u8) & 1 != 1 && (b >> 7u8) & 1 != 1 ==> ((b >> 0u8) == 1) == ((b >> 0u8) & 1 == 1
        && (b >> 1u8) & 1 != 1) && ((b >> 1u8) == 1) == ((b >> 1u8) & 1 == 1)) by (bit_vector);
}

impl DeflateBlock {
    /// Reads a block as `read_from_file` does, and where that leaves the
    /// supported inputs, says why.
    pub fn read_or_abort(buffer: &mut ByteReader) -> (res: Result<Option<DeflateBlock>, Abort>)
        ensures
            reports(<DeflateBlock as Parse>::outcome(old(buffer)@), res, final(buffer)@),
    {
        let ghost s = buffer@;
        if buffer.remaining() == 0 {
            return Err(Abort::EndOfStream);
        }
        let mut owned = ByteReader::new(Vec::new());
        std::mem::swap(&mut owned, buffer);
        let mut bits = BitStream::new(owned);
        proof {
            assert(bits.available() =~= stream_bits(s));
            assert(stream_bits(s)[0] == bit_at(s[0], 7));
            assert(stream_bits(s)[1] == bit_at(s[0], 6));
            assert(stream_bits(s)[2] == bit_at(s[0], 5));
        }
        let is_last_block: Bits<1> = bits.read_bits();
        proof {
            let b0 = is_last_block@[0];
            assert forall|j: int| 1 <= j < 8 implies !bit_at(b0, j) by {
                assert(b0 == is_last_block@[(j + 0) / 8]);
            }
            assert(bit_at(b0, 0) == bit_at(s[0], 7)) by {
                assert(b0 == is_last_block@[0int / 8]);
            }
            lemma_one_bit(b0);
        }
        let is_last_block: bool = is_last_block.bit(0);
        let compression_type: Bits<2> = bits.read_bits();
        proof {
            let b0 = compression_type@[0];
            assert forall|j: int| 2 <= j < 8 implies !bit_at(b0, j) by {
                assert(b0 == compression_type@[(j + 0) / 8]);
            }
            assert(bit_at(b0, 0) == bit_at(s[0], 6)) by {
                assert(b0 == compression_type@[0int / 8]);
            }
            assert(bit_at(b0, 1) == bit_at(s[0], 5)) by {
                assert(b0 == compression_type@[1int / 8]);
            }
            lemma_two_bits(b0);
        }
        let compression_type = match (compression_type.bit(0), compression_type.bit(1)) {
            (false, false) => BlockType::Uncompressed,
            (false, true) => BlockType::CompressedFixedHuffman,
            (true, false) => BlockType::CompressedDynamicHuffman,
            (true, true) => BlockType::Reserved,
        };
        assert(compression_type == header_block_type(s[0]));
        let data: Vec<u8> = match compression_type {
            BlockType::Uncompressed => {
                // skip to next byte boundary, so just use the regular reader
                std::mem::swap(buffer, bits.into_inner());
                assert(buffer@ == s.skip(1));
                let mut uncompressed_block_metadata: Vec<u8> = vec![0u8; 4];
                if buffer.read_exact(&mut uncompressed_block_metadata).is_err() {
                    return Ok(None);
                }
                let len: u16 = uncompressed_block_metadata[0] as u16 + (uncompressed_block_metadata[1]
                    as u16) * 256;
                let nlen: u16 = uncompressed_block_metadata[2] as u16 + (uncompressed_block_metadata[3]
                    as u16) * 256;
                // nlen should be the ones complement (bitwise not) of len
                if len != !nlen {
                    return Err(Abort::LengthMismatch);
                }
                let mut result: Vec<u8> = Vec::with_capacity(len as usize);
                if buffer.read_exact(&mut result).is_err() {
                    return Ok(None);
                }
                proof {
                    assert(buffer@ =~= s.skip(5));
                    assert(result@ =~= Seq::<u8>::empty());
                }
                result
            },
            BlockType::CompressedDynamicHuffman => {
                if bits.into_inner().remaining() < 2 {
                    std::mem::swap(buffer, bits.into_inner());
                    return Err(Abort::EndOfStream);
                }
                let hlit: Bits<5> = bits.read_bits();
                let _hlit: u8 = hlit.inner()[0];
                let hdist: Bits<5> = bits.read_bits();
                let _hdist: u8 = hdist.inner()[0];
                let hclen: Bits<4> = bits.read_bits();
                let _hclen: u8 = hclen.inner()[0];
                std::mem::swap(buffer, bits.into_inner());
                assert(buffer@ =~= s.skip(3));
                Vec::new()
            },
            _ => {
                // fixed Huffman and reserved blocks are not handled
                std::mem::swap(buffer, bits.into_inner());
                return Err(Abort::Unimplemented(compression_type));
            },
        };
        Ok(Some(DeflateBlock { is_last_block, compression_type, data }))
    }
}

impl Parse for DeflateBlock {
    /// The header byte must be there; a stored block then needs LEN and NLEN,
    /// with NLEN the complement of LEN; a dynamic block needs two more bytes for
    /// HLIT, HDIST and HCLEN; fixed blocks are not handled. Neither kind reads
    /// block data: a stored block's data is read into a vector with capacity LEN
    /// and length 0, which takes no byte.
    open spec fn outcome(s: Seq<u8>) -> ParseOutcome<DeflateBlockModel> {
        if s.len() == 0 {
            ParseOutcome::Aborts { reason: Abort::EndOfStream }
        } else {
            let b = s[0];
            let t = header_block_type(b);
            let block = DeflateBlockModel {
                is_last_block: bit_at(b, 7),
                compression_type: t,
                data: Seq::empty(),
            };
            match t {
                BlockType::Uncompressed => if s.len() < 5 {
                    ParseOutcome::Failed { rest: s.skip(1) }
                } else if le16(s[1], s[2]) != !le16(s[3], s[4]) {
                    ParseOutcome::Aborts { reason: Abort::LengthMismatch }
                } else {
                    ParseOutcome::Parsed { value: block, rest: s.skip(5) }
                },
                BlockType::CompressedDynamicHuffman => if s.len() < 3 {
                    ParseOutcome::Aborts { reason: Abort::EndOfStream }
                } else {
                    ParseOutcome::Parsed { value: block, rest: s.skip(3) }
                },
                _ => ParseOutcome::Aborts { reason: Abort::Unimplemented(t) },
            }
        }
    }

    fn read_from_file(buffer: &mut ByteReader) -> (res: Option<DeflateBlock>) {
        match DeflateBlock::read_or_abort(buffer) {
            Ok(block) => block,
            Err(_) => {
                assert(false);
                None
            },
        }
    }
}

/// The header bits of a block byte, read off with masks: BFINAL is 0x80, and of
/// the two BTYPE bits, 0x20 set gives a fixed block, 0x40 alone a dynamic one,
/// neither a stored one.
proof fn lemma_header_masks(b: u8)
    ensures
        bit_at(b, 7) == (b & 0x80 != 0),
        bit_at(b, 5) == (b & 0x20 != 0),
        bit_at(b, 6) == (b & 0x40 != 0),
        (b & 0x60 == 0x40) == (b & 0x40 != 0 && b & 0x20 == 0),
        (b & 0x60 == 0) == (b & 0x40 == 0 && b & 0x20 == 0),
{
    assert(((b >> 7u8) & 1 == 1) == (b & 0x80 != 0)) by (bit_vector);
    assert(((b >> 5u8) & 1 == 1) == (b & 0x20 != 0)) by (bit_vector);
    assert(((b >> 6u8) & 1 == 1) == (b & 0x40 != 0)) by (bit_vector);
    assert((b & 0x60 == 0x40) == (b & 0x40 != 0 && b & 0x20 == 0)) by (bit_vector);
    assert((b & 0x60 == 0) == (b & 0x40 == 0 && b & 0x20 == 0)) by (bit_vector);
}

/// What a block header gives, in terms of its bytes alone.
///
/// The first byte's top bit is BFINAL and its next two bits (0x40, 0x20) are the
/// type; the five low bits never change the type. With 0x40 alone the block is
/// a final-or-not dynamic block whose three bytes (header byte and two more, for
/// HLIT, HDIST and HCLEN) are taken; with neither, a stored block whose two
/// little-endian lengths LEN and NLEN must add up to 0xffff, taking five bytes;
/// with 0x20, a fixed block, which is not handled.
pub proof fn law_block_header(s: Seq<u8>)
    requires
        s.len() >= 1,
    ensures
        s[0] & 0x60 == 0x40 && s.len() >= 3 ==> <DeflateBlock as Parse>::outcome(s) == (
        ParseOutcome::Parsed {
            value: DeflateBlockModel {
                is_last_block: s[0] & 0x80 != 0,
                compression_type: BlockType::CompressedDynamicHuffman,
                data: Seq::empty(),
            },
            rest: s.skip(3),
        }),
        s[0] & 0x60 == 0x40 && s.len() < 3 ==> <DeflateBlock as Parse>::outcome(s) == (
        ParseOutcome::Aborts::<DeflateBlockModel> { reason: Abort::EndOfStream }),
        s[0] & 0x60 == 0 && s.len() >= 5 && s[1] as int + 256 * s[2] as int + s[3] as int + 256
            * s[4] as int == 0xffff ==> <DeflateBlock as Parse>::outcome(s) == (
        ParseOutcome::Parsed {
            value: DeflateBlockModel {
                is_last_block: s[0] & 0x80 != 0,
                compression_type: BlockType::Uncompressed,
                data: Seq::empty(),
            },
            rest: s.skip(5),
        }),
        s[0] & 0x60 == 0 && s.len() >= 5 && s[1] as int + 256 * s[2] as int + s[3] as int + 256
            * s[4] as int != 0xffff ==> <DeflateBlock as Parse>::outcome(s) == (
        ParseOutcome::Aborts::<DeflateBlockModel> { reason: Abort::LengthMismatch }),
        s[0] & 0x60 == 0 && s.len() < 5 ==> <DeflateBlock as Parse>::outcome(s) == (
        ParseOutcome::Failed::<DeflateBlockModel> { rest: s.skip(1) }),
        s[0] & 0x20 != 0 ==> <DeflateBlock as Parse>::outcome(s) == (
        ParseOutcome::Aborts::<DeflateBlockModel> {
            reason: Abort::Unimplemented(BlockType::CompressedFixedHuffman),
        }),
{
    lemma_header_masks(s[0]);
    if s.len() >= 5 {
        let len = le16(s[1], s[2]);
        let nlen = le16(s[3], s[4]);
        assert(len as int == s[1] as int + 256 * s[2] as int);
        assert(nlen as int == s[3] as int + 256 * s[4] as int);
        assert(!nlen as int == 0xffff - nlen as int) by (bit_vector);
    }
}

/// Two header bytes that agree on their three top bits give blocks of the same
/// type and the same BFINAL, from the same following bytes.
pub proof fn law_block_header_low_bits_ignored(b1: u8, b2: u8, t: Seq<u8>)
    requires
        b1 & 0xe0 == b2 & 0xe0,
    ensures
        <DeflateBlock as Parse>::outcome(seq![b1] + t) == <DeflateBlock as Parse>::outcome(seq![b2] + t),
{
    lemma_header_masks(b1);
    lemma_header_masks(b2);
    assert(b1 & 0xe0 == b2 & 0xe0 ==> b1 & 0x80 == b2 & 0x80 && b1 & 0x40 == b2 & 0x40 && b1 & 0x20
        == b2 & 0x20) by (bit_vector);
    let s1 = seq![b1] + t;
    let s2 = seq![b2] + t;
    assert(s1.skip(1) =~= s2.skip(1));
    assert(forall|i: int| 1 <= i < s1.len() ==> s1[i] == s2[i]);
    if s1.len() >= 3 {
        assert(s1.skip(3) =~= s2.skip(3));
    }
    if s1.len() >= 5 {
        assert(s1.skip(5) =~= s2.skip(5));
    }
    assert(s1[0] == b1 && s2[0] == b2);
}

} // verus!
