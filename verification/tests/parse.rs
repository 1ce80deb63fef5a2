use gzip::deflate::{BlockType, DeflateBlock};
use gzip::header::Header;
use gzip::member::{ExtraField, Member};
use gzip::parse::{Abort, Parse};
use gzip::reader::ByteReader;

fn header_bytes(flags: u8) -> Vec<u8> {
    vec![0x1f, 0x8b, 8, flags, 0x78, 0x56, 0x34, 0x12, 2, 3]
}

fn stored_block(last: bool) -> Vec<u8> {
    vec![if last { 0x80 } else { 0x00 }, 0x00, 0x00, 0xff, 0xff]
}

fn trailer() -> Vec<u8> {
    vec![0xef, 0xbe, 0xad, 0xde, 5, 0, 0, 0]
}

#[test]
fn header_reads_fields() {
    let mut r = ByteReader::new(header_bytes(0x08));
    let h = Header::read_from_file(&mut r).unwrap();
    assert_eq!(h.compression_method, 8);
    assert_eq!(h.flags.0, 0x08);
    assert_eq!(h.modification_time, 0x1234_5678);
    assert_eq!(h.extra_flags, 2);
    assert_eq!(h.os, 3);
    assert_eq!(r.remaining(), 0);
}

#[test]
fn header_too_short_takes_nothing() {
    let mut bytes = header_bytes(0);
    bytes.pop();
    let mut r = ByteReader::new(bytes);
    assert!(Header::read_from_file(&mut r).is_none());
    assert_eq!(r.remaining(), 9);
}

#[test]
fn header_bad_magic_is_rejected() {
    let mut bytes = header_bytes(0);
    bytes[1] = 0x8c;
    bytes.push(0);
    let mut r = ByteReader::new(bytes);
    assert!(Header::read_from_file(&mut r).is_none());
    assert_eq!(r.remaining(), 1);
}

#[test]
fn extra_field_reads_ids_and_no_data() {
    let mut r = ByteReader::new(vec![b'A', b'p', 2, 0, 0xaa, 0xbb]);
    let f = ExtraField::read_from_file(&mut r).unwrap();
    assert_eq!(f.subfield_id_1, b'A');
    assert_eq!(f.subfield_id_2, b'p');
    assert!(f.data.is_empty());
    assert_eq!(r.remaining(), 2);
    let mut short = ByteReader::new(vec![1, 2, 3]);
    assert!(ExtraField::read_from_file(&mut short).is_none());
    assert_eq!(short.remaining(), 3);
}

#[test]
fn stored_block_reads_len_and_nlen() {
    let mut r = ByteReader::new(vec![0x80, 0x03, 0x00, 0xfc, 0xff, b'a', b'b', b'c']);
    let b = DeflateBlock::read_from_file(&mut r).unwrap();
    assert!(b.is_last_block);
    assert_eq!(b.compression_type, BlockType::Uncompressed);
    // the data vector only gets capacity LEN, so no data byte is read
    assert!(b.data.is_empty());
    assert_eq!(r.remaining(), 3);
}

#[test]
fn stored_block_without_lengths_fails() {
    let mut r = ByteReader::new(vec![0x00, 0x00, 0x00]);
    assert!(DeflateBlock::read_from_file(&mut r).is_none());
    assert_eq!(r.remaining(), 2);
}

#[test]
fn dynamic_block_reads_its_counts() {
    let mut r = ByteReader::new(vec![0x40, 0x12, 0x34, 0x56]);
    let b = DeflateBlock::read_from_file(&mut r).unwrap();
    assert!(!b.is_last_block);
    assert_eq!(b.compression_type, BlockType::CompressedDynamicHuffman);
    assert!(b.data.is_empty());
    assert_eq!(r.remaining(), 1);
    let mut r = ByteReader::new(vec![0xc0, 0x00, 0x00]);
    let b = DeflateBlock::read_from_file(&mut r).unwrap();
    assert!(b.is_last_block);
    assert_eq!(r.remaining(), 0);
}

#[test]
fn minimal_member() {
    let mut bytes = header_bytes(0);
    bytes.extend(stored_block(true));
    bytes.extend(trailer());
    let mut r = ByteReader::new(bytes);
    let m = Member::read_from_file(&mut r).unwrap();
    assert_eq!(m.header.os, 3);
    assert!(m.extra.is_empty());
    assert_eq!(m.filename, None);
    assert_eq!(m.file_comment, None);
    assert_eq!(m.compressed_data.crc_16, None);
    assert_eq!(m.compressed_data.compressed_blocks.len(), 1);
    assert_eq!(m.compressed_data.crc_32, 0xdead_beef);
    assert_eq!(m.compressed_data.isize, 5);
    assert_eq!(r.remaining(), 0);
}

#[test]
fn member_with_every_optional_field() {
    // FHCRC, FEXTRA, FNAME, FCOMMENT
    let mut bytes = header_bytes(0x1e);
    bytes.extend(vec![6, 0]); // XLEN 6: two subfield headers of 4 bytes each
    bytes.extend(vec![b'A', b'b', 0, 0]);
    bytes.extend(vec![b'C', b'd', 0, 0]);
    bytes.extend(b"f.txt\0".to_vec());
    bytes.extend("héllo\0".as_bytes().to_vec());
    bytes.extend(vec![0x34, 0x12]);
    bytes.extend(stored_block(false));
    bytes.extend(vec![0x40, 0, 0]);
    bytes.extend(stored_block(true));
    bytes.extend(trailer());
    let mut r = ByteReader::new(bytes);
    let m = Member::read_from_file(&mut r).unwrap();
    assert_eq!(m.extra.len(), 2);
    assert_eq!(m.extra[1].subfield_id_1, b'C');
    assert_eq!(m.filename, Some("f.txt".to_string()));
    assert_eq!(m.file_comment, Some("héllo".to_string()));
    assert_eq!(m.compressed_data.crc_16, Some(0x1234));
    let types: Vec<BlockType> = m.compressed_data.compressed_blocks.iter().map(|b| b.compression_type).collect();
    assert_eq!(types, vec![BlockType::Uncompressed, BlockType::CompressedDynamicHuffman, BlockType::Uncompressed]);
    assert_eq!(r.remaining(), 0);
}

#[test]
fn member_needs_deflate() {
    let mut bytes = header_bytes(0);
    bytes[2] = 7;
    bytes.extend(stored_block(true));
    bytes.extend(trailer());
    let mut r = ByteReader::new(bytes);
    assert!(Member::read_from_file(&mut r).is_none());
    assert_eq!(r.remaining(), 13);
}

#[test]
fn member_name_must_be_utf8() {
    let mut bytes = header_bytes(0x08);
    bytes.extend(vec![0xff, 0xfe, 0]);
    bytes.extend(stored_block(true));
    bytes.extend(trailer());
    let mut r = ByteReader::new(bytes);
    assert!(Member::read_from_file(&mut r).is_none());
    assert_eq!(r.remaining(), 13);
}

#[test]
fn member_name_must_be_terminated() {
    let mut bytes = header_bytes(0x08);
    bytes.extend(b"abc".to_vec());
    let mut r = ByteReader::new(bytes);
    assert!(Member::read_from_file(&mut r).is_none());
    assert_eq!(r.remaining(), 0);
}

#[test]
fn member_short_extra_field_fails() {
    let mut bytes = header_bytes(0x04);
    bytes.extend(vec![4]);
    let mut r = ByteReader::new(bytes);
    assert!(Member::read_from_file(&mut r).is_none());
    assert_eq!(r.remaining(), 1);
}

#[test]
fn member_short_header_crc_fails() {
    let mut bytes = header_bytes(0x02);
    bytes.extend(vec![4]);
    let mut r = ByteReader::new(bytes);
    assert!(Member::read_from_file(&mut r).is_none());
    assert_eq!(r.remaining(), 1);
}

#[test]
fn member_ignores_what_follows() {
    let mut bytes = header_bytes(0x08);
    bytes.extend(b"n\0".to_vec());
    bytes.extend(stored_block(true));
    bytes.extend(trailer());
    let alone = Member::read_from_file(&mut ByteReader::new(bytes.clone())).unwrap();
    let mut two = bytes.clone();
    two.extend(bytes.clone());
    let mut r = ByteReader::new(two);
    let first = Member::read_from_file(&mut r).unwrap();
    assert_eq!(r.remaining(), bytes.len());
    let second = Member::read_from_file(&mut r).unwrap();
    assert_eq!(r.remaining(), 0);
    assert_eq!(first.filename, alone.filename);
    assert_eq!(second.filename, alone.filename);
    assert_eq!(first.compressed_data.crc_32, alone.compressed_data.crc_32);
    assert_eq!(first.compressed_data.isize, second.compressed_data.isize);
}

#[test]
fn block_read_or_abort_reasons() {
    let mut r = ByteReader::new(vec![]);
    assert_eq!(DeflateBlock::read_or_abort(&mut r).unwrap_err(), Abort::EndOfStream);
    let mut r = ByteReader::new(vec![0x80, 1, 0, 1, 0]);
    assert_eq!(DeflateBlock::read_or_abort(&mut r).unwrap_err(), Abort::LengthMismatch);
    let mut r = ByteReader::new(vec![0x20, 0, 0]);
    assert_eq!(DeflateBlock::read_or_abort(&mut r).unwrap_err(), Abort::Unimplemented(BlockType::CompressedFixedHuffman));
    // both type bits set read like the fixed type
    let mut r = ByteReader::new(vec![0x60, 0, 0]);
    assert_eq!(DeflateBlock::read_or_abort(&mut r).unwrap_err(), Abort::Unimplemented(BlockType::CompressedFixedHuffman));
    let mut r = ByteReader::new(vec![0x40, 0]);
    assert_eq!(DeflateBlock::read_or_abort(&mut r).unwrap_err(), Abort::EndOfStream);
    let mut r = ByteReader::new(vec![0x80, 0, 0, 0xff, 0xff]);
    assert!(DeflateBlock::read_or_abort(&mut r).unwrap().is_some());
}

#[test]
fn member_read_or_abort_trailer() {
    let mut bytes = header_bytes(0);
    bytes.extend(stored_block(true));
    bytes.extend(vec![1, 2, 3]);
    let mut r = ByteReader::new(bytes.clone());
    assert_eq!(Member::read_or_abort(&mut r).unwrap_err(), Abort::MissingCrc32);
    bytes.extend(vec![4, 5, 6, 7]);
    let mut r = ByteReader::new(bytes.clone());
    assert_eq!(Member::read_or_abort(&mut r).unwrap_err(), Abort::MissingIsize);
    bytes.push(8);
    let mut r = ByteReader::new(bytes);
    let m = Member::read_or_abort(&mut r).unwrap().unwrap();
    assert_eq!(m.compressed_data.crc_32, 0x0403_0201);
    assert_eq!(m.compressed_data.isize, 0x0807_0605);
}

#[test]
fn member_read_or_abort_missing_block() {
    let bytes = header_bytes(0);
    let mut r = ByteReader::new(bytes);
    assert_eq!(Member::read_or_abort(&mut r).unwrap_err(), Abort::EndOfStream);
}
