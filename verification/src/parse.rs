use vstd::prelude::*;
use crate::deflate::BlockType;
use crate::reader::ByteReader;

verus! {

/// What reading a value from the front of some bytes comes to.
#[verifier::ext_equal]
pub enum ParseOutcome<T> {
    /// The value was read; `rest` is what follows it.
    Parsed { value: T, rest: Seq<u8> },
    /// The bytes do not hold such a value; `rest` is what the attempt left unconsumed.
    Failed { rest: Seq<u8> },
    /// The bytes lead the reader into a state it does not handle, for `reason`.
    Aborts { reason: Abort },
}

/// Why reading stops short of both a value and a clean failure.
#[derive(Debug, Clone, Copy, PartialEq, Eq, Structural)]
pub enum Abort {
    /// More bits are needed than the stream holds.
    EndOfStream,
    /// NLEN of a stored block is not the complement of LEN.
    LengthMismatch,
    /// A block type that is not handled.
    Unimplemented(BlockType),
    /// The member ends before its CRC32.
    MissingCrc32,
    /// The member ends before its ISIZE.
    MissingIsize,
}

/// `o` with `prefix` put in front of the sequence it reads.
pub open spec fn prefixed<T>(prefix: Seq<T>, o: ParseOutcome<Seq<T>>) -> ParseOutcome<Seq<T>> {
    match o {
        ParseOutcome::Parsed { value, rest } => ParseOutcome::Parsed { value: prefix + value, rest },
        ParseOutcome::Failed { rest } => ParseOutcome::Failed { rest },
        ParseOutcome::Aborts { reason } => ParseOutcome::Aborts { reason },
    }
}

/// `r` is what `o` describes, and `after` what it leaves: the value read, no
/// value, or the reason for stopping.
pub open spec fn reports<T: View>(o: ParseOutcome<T::V>, r: Result<Option<T>, Abort>, after: Seq<u8>) -> bool {
    match o {
        ParseOutcome::Parsed { value, rest } => r matches Ok(Some(v)) && v@ == value && after == rest,
        ParseOutcome::Failed { rest } => r matches Ok(None) && after == rest,
        ParseOutcome::Aborts { reason } => r == Err::<Option<T>, Abort>(reason),
    }
}

/// A value that can be read from the front of a gzip byte stream.
pub trait Parse: Sized + View {
    /// What `read_from_file` does on a reader holding `input`.
    spec fn outcome(input: Seq<u8>) -> ParseOutcome<<Self as View>::V>;

    /// Reads a value from the front of `buffer`; `None` when the bytes do not hold one.
    fn read_from_file(buffer: &mut ByteReader) -> (res: Option<Self>)
        requires
            !(Self::outcome(old(buffer)@) is Aborts),
        ensures
            match Self::outcome(old(buffer)@) {
                ParseOutcome::Parsed { value, rest } => res matches Some(v) && v@ == value
                    && final(buffer)@ == rest,
                ParseOutcome::Failed { rest } => res is None && final(buffer)@ == rest,
                ParseOutcome::Aborts { .. } => false,
            },
    ;
}

} // verus!
