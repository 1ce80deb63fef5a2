use vstd::prelude::*;
use crate::flags::Flags;
use crate::parse::{Parse, ParseOutcome};
use crate::reader::ByteReader;

verus! {

/// The little-endian value of four bytes.
pub open spec fn le32(b0: u8, b1: u8, b2: u8, b3: u8) -> u32 {
    (b0 as int + 256 * b1 as int + 65536 * b2 as int + 16777216 * b3 as int) as u32
}

/// The fixed ten-byte header of a gzip member.
#[derive(Debug, Clone, Copy, PartialEq, Eq, Structural)]
pub struct Header {
    pub compression_method: u8,
    pub flags: Flags,
    /// MTIME: seconds since the Unix epoch.
    pub modification_time: u32,
    pub extra_flags: u8,
    pub os: u8,
}

impl View for Header {
    type V = Header;

    open spec fn view(&self) -> Header {
        *self
    }
}

impl Parse for Header {
    /// Ten bytes: the magic `1f 8b`, CM, FLG, MTIME (little endian), XFL, OS.
    /// Fewer than ten bytes consume nothing; a wrong magic consumes the ten.
    open spec fn outcome(s: Seq<u8>) -> ParseOutcome<Header> {
        if s.len() < 10 {
            ParseOutcome::Failed { rest: s }
        } else if s[0] != 0x1f || s[1] != 0x8b {
            ParseOutcome::Failed { rest: s.skip(10) }
        } else {
            ParseOutcome::Parsed {
                value: Header {
                    compression_method: s[2],
                    flags: Flags(s[3]),
                    modification_time: le32(s[4], s[5], s[6], s[7]),
                    extra_flags: s[8],
                    os: s[9],
                },
                rest: s.skip(10),
            }
        }
    }

    fn read_from_file(buffer: &mut ByteReader) -> (res: Option<Header>) {
        let mut header_bytes: Vec<u8> = vec![0u8; 10];
        if buffer.read_exact(&mut header_bytes).is_err() {
            return None;
        }
        if header_bytes[0] != 0x1f || header_bytes[1] != 0x8b {
            return None;
        }
        let mtime: u32 = header_bytes[4] as u32 + (header_bytes[5] as u32) * 256 + (header_bytes[6]
            as u32) * 65536 + (header_bytes[7] as u32) * 16777216;
        Some(
            Header {
                compression_method: header_bytes[2],
                flags: Flags(header_bytes[3]),
                modification_time: mtime,
                extra_flags: header_bytes[8],
                os: header_bytes[9],
            },
        )
    }
}

/// The header fields are the bytes after the magic, MTIME being the
/// little-endian value of bytes 4 to 7; ten bytes are taken.
pub proof fn law_header_fields(s: Seq<u8>)
    requires
        s.len() >= 10,
        s[0] == 0x1f,
        s[1] == 0x8b,
    ensures
        <Header as Parse>::outcome(s) matches ParseOutcome::Parsed { value, rest } && rest == s.skip(10)
            && value.compression_method == s[2] && value.flags == Flags(s[3])
            && value.modification_time as int == s[4] as int + 256 * s[5] as int + 65536 * s[6] as int
            + 16777216 * s[7] as int && value.extra_flags == s[8] && value.os == s[9],
{
}

} // verus!
