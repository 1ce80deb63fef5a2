use vstd::prelude::*;

verus! {

/// The FLG byte of a gzip member header.
///
/// bit 0 FTEXT
/// bit 1 FHCRC
/// bit 2 FEXTRA
/// bit 3 FNAME
/// bit 4 FCOMMENT
/// bit 5 reserved
/// bit 6 reserved
/// bit 7 reserved
#[derive(Debug, Clone, Copy, PartialEq, Eq, Structural)]
pub struct Flags(pub u8);

/// Whether bit `k` of `byte` is set.
pub open spec fn flag_bit(byte: u8, k: u8) -> bool {
    (byte >> k) & 1 == 1
}

impl Flags {
    /// Just an indicator, can be ignored
    pub fn data_is_ascii(&self) -> (r: bool)
        ensures
            r == flag_bit(self.0, 0),
    {
        let b = self.0;
        assert((b & 0x1 == 0x1) == ((b >> 0u8) & 1 == 1)) by (bit_vector);
        (self.0 & 0x1) == 0x1
    }

    /// CRC16 put right before the compressed data
    pub fn crc_16_present(&self) -> (r: bool)
        ensures
            r == flag_bit(self.0, 1),
    {
        let b = self.0;
        assert((b & 0x2 == 0x2) == ((b >> 1u8) & 1 == 1)) by (bit_vector);
        (self.0 & 0x2) == 0x2
    }

    /// See: `ExtraField`
    pub fn extra_fields_present(&self) -> (r: bool)
        ensures
            r == flag_bit(self.0, 2),
    {
        let b = self.0;
        assert((b & 0x4 == 0x4) == ((b >> 2u8) & 1 == 1)) by (bit_vector);
        (self.0 & 0x4) == 0x4
    }

    pub fn filename_present(&self) -> (r: bool)
        ensures
            r == flag_bit(self.0, 3),
    {
        let b = self.0;
        assert((b & 0x8 == 0x8) == ((b >> 3u8) & 1 == 1)) by (bit_vector);
        (self.0 & 0x8) == 0x8
    }

    pub fn file_comment_present(&self) -> (r: bool)
        ensures
            r == flag_bit(self.0, 4),
    {
        let b = self.0;
        assert((b & 0x10 == 0x10) == ((b >> 4u8) & 1 == 1)) by (bit_vector);
        (self.0 & 0x10) == 0x10
    }
}

} // verus!
