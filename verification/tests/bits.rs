use gzip::deflate::bitstream::{BitStream, BitVector, Bits};
use gzip::reader::ByteReader;

#[test]
fn bits_new_is_zeroed() {
    let b: Bits<10> = Bits::new();
    assert_eq!(b.inner(), &vec![0u8, 0u8]);
    let b: Bits<8> = Bits::new();
    assert_eq!(b.inner().len(), 1);
    let b: Bits<0> = Bits::new();
    assert_eq!(b.inner().len(), 0);
}

#[test]
fn bits_set_bit_writes_one_bit() {
    let mut b: Bits<10> = Bits::new();
    b.set_bit(0, true);
    b.set_bit(9, true);
    assert_eq!(b.inner(), &vec![0b0000_0001, 0b0000_0010]);
    b.set_bit(0, false);
    assert_eq!(b.inner(), &vec![0, 0b0000_0010]);
}

#[test]
fn bits_bit_needs_no_higher_bit_in_the_byte() {
    let mut b: Bits<2> = Bits::new();
    b.set_bit(0, true);
    assert!(b.bit(0));
    assert!(!b.bit(1));
    b.set_bit(1, true);
    // the byte is 0b11: shifted by 0 it is 3, not 1
    assert!(!b.bit(0));
    assert!(b.bit(1));
    assert_eq!(b.to_bools(), vec![false, true]);
}

#[test]
fn bits_debug_groups() {
    let mut b: Bits<10> = Bits::new();
    b.set_bit(7, true);
    b.set_bit(9, true);
    let g = b.debug_groups();
    assert_eq!(g, vec![
        vec!['0', '0', '0', '0', '0', '0', '0', '1'],
        vec!['0', '1'],
    ]);
    let b: Bits<8> = Bits::new();
    assert_eq!(b.debug_groups(), vec![vec!['0'; 8], vec![]]);
}

#[test]
fn bitvector_push_fills_bytes_lsb_first() {
    let mut v = BitVector::new();
    assert_eq!(v.len(), 0);
    assert_eq!(v.capacity(), 0);
    for i in 0..10 {
        v.push(i % 3 == 0);
    }
    assert_eq!(v.len(), 10);
    assert_eq!(v.capacity(), 16);
    // bits 0, 3, 6, 9 set
    assert_eq!(v.inner(), &vec![0b0100_1001, 0b0000_0010]);
}

#[test]
fn bitvector_with_capacity_holds_no_byte() {
    let v = BitVector::with_capacity(20);
    assert_eq!(v.len(), 0);
    assert_eq!(v.capacity(), 0);
    assert!(v.inner().is_empty());
}

#[test]
fn bitvector_bit_is_none_up_to_len() {
    let mut v = BitVector::new();
    for _ in 0..9 {
        v.push(true);
    }
    for i in 0..=9 {
        assert_eq!(v.bit(i), None);
    }
    // past the length, the storage byte is read: byte 1 is 0b1, so bit 10 reads 0b1 >> 2 == 0
    assert_eq!(v.bit(10), Some(false));
    assert_eq!(v.to_bools(), Vec::<bool>::new());
    assert_eq!(v.debug_groups(), vec![Vec::<char>::new()]);
}

#[test]
fn bitvector_set_bit_only_past_len() {
    let mut v = BitVector::new();
    for _ in 0..3 {
        v.push(false);
    }
    v.set_bit(2, true);
    assert_eq!(v.inner(), &vec![0]);
    v.set_bit(5, true);
    assert_eq!(v.inner(), &vec![0b0010_0000]);
    assert_eq!(v.len(), 3);
}

#[test]
fn bitvector_pop_undoes_push() {
    let mut v = BitVector::new();
    v.push(true);
    v.push(false);
    let before = v.inner().clone();
    v.push(true);
    assert_eq!(v.pop(), None);
    assert_eq!(v.len(), 2);
    // the popped bit's storage is kept, only the length goes back
    assert_eq!(v.inner(), &vec![before[0] | 0b100]);
    v.push(false);
    assert_eq!(v.inner(), &before);
}

#[test]
fn bitstream_reads_most_significant_bit_first() {
    let mut s = BitStream::new(ByteReader::new(vec![0b1010_0000, 0xff]));
    let b: Bits<3> = s.read_bits();
    assert_eq!(b.inner(), &vec![0b101]);
    let b: Bits<7> = s.read_bits();
    // five zeros from the first byte, then two ones from the second
    assert_eq!(b.inner(), &vec![0b0110_0000]);
    assert_eq!(s.into_inner().remaining(), 0);
}

#[test]
fn bitstream_reads_whole_bytes_from_its_source() {
    let mut s = BitStream::new(ByteReader::new(vec![0x80, 0x01, 0x02]));
    let b: Bits<1> = s.read_bits();
    assert!(b.bit(0));
    assert_eq!(s.into_inner().remaining(), 2);
    let b: Bits<8> = s.read_bits();
    // seven zeros left from 0x80, then the top bit of 0x01
    assert_eq!(b.inner(), &vec![0]);
    assert_eq!(s.into_inner().remaining(), 1);
}

#[test]
fn bitstream_read_n_bits_across_bytes() {
    let mut s = BitStream::new(ByteReader::new(vec![0b1100_0000, 0b1000_0000]));
    let v = s.read_n_bits(9);
    assert_eq!(v.len(), 9);
    // bits handed out: 1,1,0,0,0,0,0,0,1
    assert_eq!(v.inner(), &vec![0b0000_0011, 0b0000_0001]);
    assert_eq!(s.into_inner().remaining(), 0);
}

#[test]
fn bitstream_concatenated_bytes_give_concatenated_bits() {
    let mut whole = BitStream::new(ByteReader::new(vec![0xa5, 0x3c]));
    let all = whole.read_n_bits(16);
    let mut first = BitStream::new(ByteReader::new(vec![0xa5]));
    let mut second = BitStream::new(ByteReader::new(vec![0x3c]));
    let a = first.read_n_bits(8);
    let b = second.read_n_bits(8);
    assert_eq!(all.inner()[0], a.inner()[0]);
    assert_eq!(all.inner()[1], b.inner()[0]);
    // 0xa5 most significant bit first, stored least significant first: 0xa5 reversed
    assert_eq!(a.inner()[0], 0xa5u8.reverse_bits());
}
