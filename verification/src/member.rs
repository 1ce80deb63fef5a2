use vstd::prelude::*;
use vstd::utf8::{decode_utf8, valid_utf8};
use crate::deflate::{le16, DeflateBlock, DeflateBlockModel};
use crate::flags::{flag_bit, Flags};
use crate::header::{le32, Header};
use crate::parse::{prefixed, reports, Abort, Parse, ParseOutcome};
use crate::reader::{until_len, ByteReader};

verus! {

/// The data of a member after its optional header fields.
#[derive(Debug)]
pub struct CompressedData {
    pub crc_16: Option<u16>,
    pub compressed_blocks: Vec<DeflateBlock>,
    pub crc_32: u32,
    pub isize: u32,
}

/// One subfield of the FEXTRA field.
#[derive(Debug)]
pub struct ExtraField {
    pub subfield_id_1: u8,
    pub subfield_id_2: u8,
    // 16 bit len put here
    pub data: Vec<u8>,
}

/// What an `ExtraField` holds, with its data as a sequence.
pub struct ExtraFieldModel {
    pub subfield_id_1: u8,
    pub subfield_id_2: u8,
    pub data: Seq<u8>,
}

impl View for ExtraField {
    type V = ExtraFieldModel;

    open spec fn view(&self) -> ExtraFieldModel {
        ExtraFieldModel {
            subfield_id_1: self.subfield_id_1,
            subfield_id_2: self.subfield_id_2,
            data: self.data@,
        }
    }
}

impl Parse for ExtraField {
    /// The two subfield ids and the 16-bit length. The data is read into a vector
    /// with capacity LEN and length 0, so no data byte is taken.
    open spec fn outcome(s: Seq<u8>) -> ParseOutcome<ExtraFieldModel> {
        if s.len() < 4 {
            ParseOutcome::Failed { rest: s }
        } else {
            ParseOutcome::Parsed {
                value: ExtraFieldModel {
                    subfield_id_1: s[0],
                    subfield_id_2: s[1],
                    data: Seq::empty(),
                },
                rest: s.skip(4),
            }
        }
    }

    fn read_from_file(buffer: &mut ByteReader) -> (res: Option<ExtraField>) {
        let mut extra_field_header_bytes: Vec<u8> = vec![0u8; 4];
        if buffer.read_exact(&mut extra_field_header_bytes).is_err() {
            return None;
        }
        let len: u16 = extra_field_header_bytes[2] as u16 + (extra_field_header_bytes[3] as u16) * 256;
        let mut data: Vec<u8> = Vec::with_capacity(len as usize);
        if buffer.read_exact(&mut data).is_err() {
            return None;
        }
        proof {
            assert(data@ =~= Seq::<u8>::empty());
            assert(buffer@ =~= old(buffer)@.skip(4));
        }
        Some(
            ExtraField {
                subfield_id_1: extra_field_header_bytes[0],
                subfield_id_2: extra_field_header_bytes[1],
                data,
            },
        )
    }
}

/// `String::from_utf8`, keeping the string: `Some` exactly when `bytes` are valid
/// UTF-8 (vstd's `valid_utf8`), holding the characters they encode (`decode_utf8`).
#[verifier::external_body]
fn string_from_utf8(bytes: Vec<u8>) -> (r: Option<String>)
    ensures
        r is Some <==> valid_utf8(bytes@),
        r matches Some(s) ==> s@ == decode_utf8(bytes@),
{
    String::from_utf8(bytes).ok()
}

/// The subfields read from `s` for an FEXTRA field of `xlen` bytes, `read_bytes`
/// of which are already accounted for: subfields are read until the count of
/// header and data bytes taken reaches `xlen`, at least one.
pub open spec fn extra_fields_outcome(s: Seq<u8>, read_bytes: int, xlen: int) -> ParseOutcome<
    Seq<ExtraFieldModel>,
>
    decreases xlen - read_bytes,
{
    match <ExtraField as Parse>::outcome(s) {
        ParseOutcome::Parsed { value, rest } => {
            let read = read_bytes + 4 + value.data.len();
            if read >= xlen {
                ParseOutcome::Parsed { value: seq![value], rest }
            } else {
                prefixed(seq![value], extra_fields_outcome(rest, read, xlen))
            }
        },
        ParseOutcome::Failed { rest } => ParseOutcome::Failed { rest },
        ParseOutcome::Aborts { reason } => ParseOutcome::Aborts { reason },
    }
}

proof fn lemma_extra_fields_never_abort(s: Seq<u8>, read_bytes: int, xlen: int)
    ensures
        !(extra_fields_outcome(s, read_bytes, xlen) is Aborts),
    decreases xlen - read_bytes,
{
    if s.len() >= 4 && read_bytes + 4 < xlen {
        lemma_extra_fields_never_abort(s.skip(4), read_bytes + 4, xlen);
    }
}

/// The FEXTRA field read from `s` when FLG bit 2 is set: XLEN, then its subfields.
pub open spec fn extra_outcome(flags: u8, s: Seq<u8>) -> ParseOutcome<Seq<ExtraFieldModel>> {
    if !flag_bit(flags, 2) {
        ParseOutcome::Parsed { value: Seq::empty(), rest: s }
    } else if s.len() < 2 {
        ParseOutcome::Failed { rest: s }
    } else {
        extra_fields_outcome(s.skip(2), 0, le16(s[0], s[1]) as int)
    }
}

/// A zero-terminated string read from `s`: the bytes up to the first zero,
/// which must be there, decoded as UTF-8.
pub open spec fn zero_terminated_outcome(s: Seq<u8>) -> ParseOutcome<Seq<char>> {
    let k = until_len(s, 0u8);
    let bytes = s.take(k as int);
    if k == 0 || bytes.last() != 0u8 || !valid_utf8(bytes.drop_last()) {
        ParseOutcome::Failed { rest: s.skip(k as int) }
    } else {
        ParseOutcome::Parsed { value: decode_utf8(bytes.drop_last()), rest: s.skip(k as int) }
    }
}

/// A zero-terminated string read from `s` when `present`.
pub open spec fn optional_string_outcome(present: bool, s: Seq<u8>) -> ParseOutcome<
    Option<Seq<char>>,
> {
    if !present {
        ParseOutcome::Parsed { value: None, rest: s }
    } else {
        match zero_terminated_outcome(s) {
            ParseOutcome::Parsed { value, rest } => ParseOutcome::Parsed { value: Some(value), rest },
            ParseOutcome::Failed { rest } => ParseOutcome::Failed { rest },
            ParseOutcome::Aborts { reason } => ParseOutcome::Aborts { reason },
        }
    }
}

/// The header CRC16 read from `s` when FLG bit 1 is set.
pub open spec fn crc16_outcome(flags: u8, s: Seq<u8>) -> ParseOutcome<Option<u16>> {
    if !flag_bit(flags, 1) {
        ParseOutcome::Parsed { value: None, rest: s }
    } else if s.len() < 2 {
        ParseOutcome::Failed { rest: s }
    } else {
        ParseOutcome::Parsed { value: Some(le16(s[0], s[1])), rest: s.skip(2) }
    }
}

/// Reading a DEFLATE block takes at least one byte.
pub proof fn lemma_block_consumes(s: Seq<u8>)
    ensures
        <DeflateBlock as Parse>::outcome(s) matches ParseOutcome::Parsed { value, rest } ==> rest.len()
            < s.len(),
{
}

/// DEFLATE blocks read from `s` up to and including the first with BFINAL set.
pub open spec fn blocks_outcome(s: Seq<u8>) -> ParseOutcome<Seq<DeflateBlockModel>>
    decreases s.len(),
{
    match <DeflateBlock as Parse>::outcome(s) {
        ParseOutcome::Parsed { value, rest } => {
            if value.is_last_block {
                ParseOutcome::Parsed { value: seq![value], rest }
            } else {
                proof {
                    lemma_block_consumes(s);
                }
                prefixed(seq![value], blocks_outcome(rest))
            }
        },
        ParseOutcome::Failed { rest } => ParseOutcome::Failed { rest },
        ParseOutcome::Aborts { reason } => ParseOutcome::Aborts { reason },
    }
}

/// The models of `v`'s elements, in order.
pub open spec fn models<T: View>(v: Seq<T>) -> Seq<T::V> {
    v.map_values(|x: T| x@)
}

/// The characters of an optional string.
pub open spec fn chars_of(o: Option<String>) -> Option<Seq<char>> {
    match o {
        Some(s) => Some(s@),
        None => None,
    }
}

/// What `CompressedData` holds, with its blocks as a sequence of models.
pub struct CompressedDataModel {
    pub crc_16: Option<u16>,
    pub compressed_blocks: Seq<DeflateBlockModel>,
    pub crc_32: u32,
    pub isize: u32,
}

impl View for CompressedData {
    type V = CompressedDataModel;

    open spec fn view(&self) -> CompressedDataModel {
        CompressedDataModel {
            crc_16: self.crc_16,
            compressed_blocks: models(self.compressed_blocks@),
            crc_32: self.crc_32,
            isize: self.isize,
        }
    }
}

/// A gzipped file is made up of 1 or more 'members' (compressed data sets)
#[derive(Debug)]
pub struct Member {
    pub header: Header,
    pub extra: Vec<ExtraField>,
    pub filename: Option<String>,
    pub file_comment: Option<String>,
    pub compressed_data: CompressedData,
}

/// What a `Member` holds, with sequences in place of vectors and strings.
pub struct MemberModel {
    pub header: Header,
    pub extra: Seq<ExtraFieldModel>,
    pub filename: Option<Seq<char>>,
    pub file_comment: Option<Seq<char>>,
    pub compressed_data: CompressedDataModel,
}

impl View for Member {
    type V = MemberModel;

    open spec fn view(&self) -> MemberModel {
        MemberModel {
            header: self.header,
            extra: models(self.extra@),
            filename: chars_of(self.filename),
            file_comment: chars_of(self.file_comment),
            compressed_data: self.compressed_data@,
        }
    }
}

/// The member read from `s` once its header, extra field, file name, comment,
/// header CRC and blocks are read and `s` is what is left: CRC32 and ISIZE,
/// which must be there.
pub open spec fn trailer_outcome(
    header: Header,
    extra: Seq<ExtraFieldModel>,
    filename: Option<Seq<char>>,
    file_comment: Option<Seq<char>>,
    crc_16: Option<u16>,
    blocks: Seq<DeflateBlockModel>,
    s: Seq<u8>,
) -> ParseOutcome<MemberModel> {
    if s.len() < 4 {
        ParseOutcome::Aborts { reason: Abort::MissingCrc32 }
    } else if s.len() < 8 {
        ParseOutcome::Aborts { reason: Abort::MissingIsize }
    } else {
        ParseOutcome::Parsed {
            value: MemberModel {
                header,
                extra,
                filename,
                file_comment,
                compressed_data: CompressedDataModel {
                    crc_16,
                    compressed_blocks: blocks,
                    crc_32: le32(s[0], s[1], s[2], s[3]),
                    isize: le32(s[4], s[5], s[6], s[7]),
                },
            },
            rest: s.skip(8),
        }
    }
}

/// The member read from `s` after its header: the optional fields that FLG
/// announces, the blocks, the trailer.
pub open spec fn body_outcome(header: Header, s: Seq<u8>) -> ParseOutcome<MemberModel> {
    let f = header.flags.0;
    match extra_outcome(f, s) {
        ParseOutcome::Parsed { value: extra, rest: s2 } => match optional_string_outcome(
            flag_bit(f, 3),
            s2,
        ) {
            ParseOutcome::Parsed { value: filename, rest: s3 } => match optional_string_outcome(
                flag_bit(f, 4),
                s3,
            ) {
                ParseOutcome::Parsed { value: file_comment, rest: s4 } => match crc16_outcome(f, s4) {
                    ParseOutcome::Parsed { value: crc_16, rest: s5 } => match blocks_outcome(s5) {
                        ParseOutcome::Parsed { value: blocks, rest: s6 } => trailer_outcome(
                            header,
                            extra,
                            filename,
                            file_comment,
                            crc_16,
                            blocks,
                            s6,
                        ),
                        ParseOutcome::Failed { rest } => ParseOutcome::Failed { rest },
                        ParseOutcome::Aborts { reason } => ParseOutcome::Aborts { reason },
                    },
                    ParseOutcome::Failed { rest } => ParseOutcome::Failed { rest },
                    ParseOutcome::Aborts { reason } => ParseOutcome::Aborts { reason },
                },
                ParseOutcome::Failed { rest } => ParseOutcome::Failed { rest },
                ParseOutcome::Aborts { reason } => ParseOutcome::Aborts { reason },
            },
            ParseOutcome::Failed { rest } => ParseOutcome::Failed { rest },
            ParseOutcome::Aborts { reason } => ParseOutcome::Aborts { reason },
        },
        ParseOutcome::Failed { rest } => ParseOutcome::Failed { rest },
        ParseOutcome::Aborts { reason } => ParseOutcome::Aborts { reason },
    }
}

fn read_extra_fields(buffer: &mut ByteReader, flags: u8, present: bool) -> (res: Option<Vec<ExtraField>>)
    requires
        present == flag_bit(flags, 2),
    ensures
        match extra_outcome(flags, old(buffer)@) {
            ParseOutcome::Parsed { value, rest } => res matches Some(v) && models(v@) == value
                && final(buffer)@ == rest,
            ParseOutcome::Failed { rest } => res is None && final(buffer)@ == rest,
            ParseOutcome::Aborts { .. } => false,
        },
{
    let mut extra_fields: Vec<ExtraField> = Vec::new();
    if !present {
        proof {
            assert(models(extra_fields@) =~= Seq::<ExtraFieldModel>::empty());
        }
        return Some(extra_fields);
    }
    let ghost s0 = buffer@;
    proof {
        if s0.len() >= 2 {
            lemma_extra_fields_never_abort(s0.skip(2), 0, le16(s0[0], s0[1]) as int);
        }
    }
    let mut xlen_bytes: Vec<u8> = vec![0u8; 2];
    if buffer.read_exact(&mut xlen_bytes).is_err() {
        return None;
    }
    let xlen: usize = xlen_bytes[0] as usize + (xlen_bytes[1] as usize) * 256;
    assert(xlen as int == le16(s0[0], s0[1]) as int);
    let ghost total = extra_outcome(flags, s0);
    let mut read_bytes: usize = 0;
    proof {
        assert(models(extra_fields@) =~= Seq::<ExtraFieldModel>::empty());
        assert(prefixed(Seq::<ExtraFieldModel>::empty(), total) =~= total);
    }
    loop
        invariant_except_break
            total == prefixed(
                models(extra_fields@),
                extra_fields_outcome(buffer@, read_bytes as int, xlen as int),
            ),
            read_bytes == 0 || read_bytes < xlen,
        invariant
            xlen <= 65535,
            total == extra_outcome(flags, s0),
            s0 == old(buffer)@,
            !(total is Aborts),
        ensures
            total == (ParseOutcome::Parsed { value: models(extra_fields@), rest: buffer@ }),
        decreases buffer@.len(),
    {
        let ghost before = buffer@;
        let ghost fields_before = models(extra_fields@);
        let ghost o = extra_fields_outcome(before, read_bytes as int, xlen as int);
        let extra_subfield = match ExtraField::read_from_file(buffer) {
            Some(f) => f,
            None => {
                proof {
                    assert(o == (ParseOutcome::Failed::<Seq<ExtraFieldModel>> { rest: buffer@ }));
                }
                return None;
            },
        };
        let ghost m = extra_subfield@;
        // subfield header + num bytes read
        read_bytes += 4 + extra_subfield.data.len();
        extra_fields.push(extra_subfield);
        proof {
            assert(models(extra_fields@) =~= fields_before + seq![m]);
        }
        if read_bytes >= xlen {
            proof {
                assert(o == (ParseOutcome::Parsed { value: seq![m], rest: buffer@ }));
                assert(total =~= (ParseOutcome::Parsed { value: models(extra_fields@), rest: buffer@ }));
            }
            break;
        }
        proof {
            let inner = extra_fields_outcome(buffer@, read_bytes as int, xlen as int);
            assert(o == prefixed(seq![m], inner));
            assert(prefixed(fields_before, prefixed(seq![m], inner)) =~= prefixed(
                fields_before + seq![m],
                inner,
            ));
        }
    }
    Some(extra_fields)
}

fn read_optional_string(buffer: &mut ByteReader, present: bool) -> (res: Option<Option<String>>)
    ensures
        match optional_string_outcome(present, old(buffer)@) {
            ParseOutcome::Parsed { value, rest } => res matches Some(v) && chars_of(v) == value
                && final(buffer)@ == rest,
            ParseOutcome::Failed { rest } => res is None && final(buffer)@ == rest,
            ParseOutcome::Aborts { .. } => false,
        },
{
    if !present {
        return Some(None);
    }
    let ghost s0 = buffer@;
    let mut bytes: Vec<u8> = Vec::new();
    let n = buffer.read_until(0u8, &mut bytes);
    proof {
        crate::reader::lemma_until_len(s0, 0u8);
        assert(bytes@ =~= s0.take(n as int));
    }
    // remove null terminator
    if bytes.len() == 0 {
        assert(s0.skip(0) =~= s0);
        return None;
    }
    if bytes[bytes.len() - 1] != 0u8 {
        return None;
    }
    bytes.pop();
    proof {
        assert(bytes@ =~= s0.take(n as int).drop_last());
    }
    match string_from_utf8(bytes) {
        Some(text) => Some(Some(text)),
        None => None,
    }
}

fn read_blocks(buffer: &mut ByteReader) -> (res: Result<Option<Vec<DeflateBlock>>, Abort>)
    ensures
        match blocks_outcome(old(buffer)@) {
            ParseOutcome::Parsed { value, rest } => res matches Ok(Some(v)) && models(v@) == value
                && final(buffer)@ == rest,
            ParseOutcome::Failed { rest } => res matches Ok(None) && final(buffer)@ == rest,
            ParseOutcome::Aborts { reason } => res == Err::<Option<Vec<DeflateBlock>>, Abort>(reason),
        },
{
    let ghost total = blocks_outcome(buffer@);
    let mut blocks: Vec<DeflateBlock> = Vec::new();
    proof {
        assert(models(blocks@) =~= Seq::<DeflateBlockModel>::empty());
        assert(prefixed(Seq::<DeflateBlockModel>::empty(), total) =~= total);
    }
    loop
        invariant_except_break
            total == prefixed(models(blocks@), blocks_outcome(buffer@)),
        invariant
            total == blocks_outcome(old(buffer)@),
        ensures
            total == (ParseOutcome::Parsed { value: models(blocks@), rest: buffer@ }),
        decreases buffer@.len(),
    {
        let ghost before = buffer@;
        let ghost blocks_before = models(blocks@);
        let ghost o = blocks_outcome(before);
        proof {
            lemma_block_consumes(before);
        }
        let block = match DeflateBlock::read_or_abort(buffer) {
            Ok(Some(b)) => b,
            Ok(None) => {
                proof {
                    assert(o == (ParseOutcome::Failed::<Seq<DeflateBlockModel>> { rest: buffer@ }));
                }
                return Ok(None);
            },
            Err(reason) => {
                proof {
                    assert(o == (ParseOutcome::Aborts::<Seq<DeflateBlockModel>> { reason }));
                }
                return Err(reason);
            },
        };
        let ghost m = block@;
        let last = block.is_last_block;
        blocks.push(block);
        proof {
            assert(models(blocks@) =~= blocks_before + seq![m]);
        }
        if last {
            proof {
                assert(o == (ParseOutcome::Parsed { value: seq![m], rest: buffer@ }));
                assert(total =~= (ParseOutcome::Parsed { value: models(blocks@), rest: buffer@ }));
            }
            break;
        }
        proof {
            let inner = blocks_outcome(buffer@);
            assert(o == prefixed(seq![m], inner));
            assert(prefixed(blocks_before, prefixed(seq![m], inner)) =~= prefixed(
                blocks_before + seq![m],
                inner,
            ));
        }
    }
    Ok(Some(blocks))
}

impl Member {
    /// Reads a member as `read_from_file` does, and where that leaves the
    /// supported inputs, says why.
    pub fn read_or_abort(buffer: &mut ByteReader) -> (res: Result<Option<Member>, Abort>)
        ensures
            reports(<Member as Parse>::outcome(old(buffer)@), res, final(buffer)@),
    {
        let header = match Header::read_from_file(buffer) {
            Some(h) => h,
            None => {
                return Ok(None);
            },
        };
        // ensure using DEFLATE
        if header.compression_method != 8 {
            return Ok(None);
        }
        let f = header.flags.0;
        // extra fields
        let extra_fields = match read_extra_fields(buffer, f, header.flags.extra_fields_present()) {
            Some(v) => v,
            None => {
                return Ok(None);
            },
        };
        // filename
        let filename = match read_optional_string(buffer, header.flags.filename_present()) {
            Some(v) => v,
            None => {
                return Ok(None);
            },
        };
        // file comment
        let file_comment = match read_optional_string(buffer, header.flags.file_comment_present()) {
            Some(v) => v,
            None => {
                return Ok(None);
            },
        };
        // CRC16
        let ghost s4 = buffer@;
        let crc_16: Option<u16> = if header.flags.crc_16_present() {
            let mut buf: Vec<u8> = vec![0u8; 2];
            if buffer.read_exact(&mut buf).is_err() {
                return Ok(None);
            }
            Some(buf[0] as u16 + (buf[1] as u16) * 256)
        } else {
            None
        };
        assert(crc16_outcome(f, s4) == (ParseOutcome::Parsed { value: crc_16, rest: buffer@ }));
        // COMPRESSED DATA
        let blocks = match read_blocks(buffer) {
            Ok(Some(v)) => v,
            Ok(None) => {
                return Ok(None);
            },
            Err(reason) => {
                return Err(reason);
            },
        };
        // CRC32 and isize
        let ghost s6 = buffer@;
        let mut buf: Vec<u8> = vec![0u8; 4];
        if buffer.read_exact(&mut buf).is_err() {
            return Err(Abort::MissingCrc32);
        }
        let crc_32: u32 = buf[0] as u32 + (buf[1] as u32) * 256 + (buf[2] as u32) * 65536 + (buf[3]
            as u32) * 16777216;
        let mut buf: Vec<u8> = vec![0u8; 4];
        if buffer.read_exact(&mut buf).is_err() {
            return Err(Abort::MissingIsize);
        }
        let uncompressed_data_size: u32 = buf[0] as u32 + (buf[1] as u32) * 256 + (buf[2] as u32)
            * 65536 + (buf[3] as u32) * 16777216;
        proof {
            assert(buffer@ =~= s6.skip(8));
        }
        Ok(
            Some(
            Member {
                header,
                extra: extra_fields,
                filename: filename,
                file_comment: file_comment,
                compressed_data: CompressedData {
                    crc_16,
                    compressed_blocks: blocks,
                    crc_32,
                    isize: uncompressed_data_size,
                },
            },
            ),
        )
    }
}

impl Parse for Member {
    /// The header, which must name DEFLATE (CM 8), then the rest of the member.
    open spec fn outcome(s: Seq<u8>) -> ParseOutcome<MemberModel> {
        match <Header as Parse>::outcome(s) {
            ParseOutcome::Parsed { value: header, rest } => if header.compression_method != 8 {
                ParseOutcome::Failed { rest }
            } else {
                body_outcome(header, rest)
            },
            ParseOutcome::Failed { rest } => ParseOutcome::Failed { rest },
            ParseOutcome::Aborts { reason } => ParseOutcome::Aborts { reason },
        }
    }

    fn read_from_file(buffer: &mut ByteReader) -> (res: Option<Member>) {
        match Member::read_or_abort(buffer) {
            Ok(member) => member,
            Err(_) => {
                assert(false);
                None
            },
        }
    }
}

/// `o` with `t` put after the bytes it leaves.
pub open spec fn followed_by<T>(o: ParseOutcome<T>, t: Seq<u8>) -> ParseOutcome<T> {
    match o {
        ParseOutcome::Parsed { value, rest } => ParseOutcome::Parsed { value, rest: rest + t },
        ParseOutcome::Failed { rest } => ParseOutcome::Failed { rest: rest + t },
        ParseOutcome::Aborts { reason } => ParseOutcome::Aborts { reason },
    }
}

proof fn lemma_header_append(s: Seq<u8>, t: Seq<u8>)
    requires
        <Header as Parse>::outcome(s) is Parsed,
    ensures
        <Header as Parse>::outcome(s + t) == followed_by(<Header as Parse>::outcome(s), t),
{
    assert((s + t).skip(10) =~= s.skip(10) + t);
}

proof fn lemma_block_append(s: Seq<u8>, t: Seq<u8>)
    requires
        <DeflateBlock as Parse>::outcome(s) is Parsed,
    ensures
        <DeflateBlock as Parse>::outcome(s + t) == followed_by(<DeflateBlock as Parse>::outcome(s), t),
{
    if s.len() >= 5 {
        assert((s + t).skip(5) =~= s.skip(5) + t);
    }
    if s.len() >= 3 {
        assert((s + t).skip(3) =~= s.skip(3) + t);
    }
    assert((s + t)[0] == s[0]);
}

proof fn lemma_blocks_append(s: Seq<u8>, t: Seq<u8>)
    requires
        blocks_outcome(s) is Parsed,
    ensures
        blocks_outcome(s + t) == followed_by(blocks_outcome(s), t),
    decreases s.len(),
{
    lemma_block_append(s, t);
    if let ParseOutcome::Parsed { value, rest } = <DeflateBlock as Parse>::outcome(s) {
        if !value.is_last_block {
            lemma_block_consumes(s);
            lemma_blocks_append(rest, t);
        }
    }
}

proof fn lemma_extra_fields_append(s: Seq<u8>, t: Seq<u8>, read_bytes: int, xlen: int)
    requires
        extra_fields_outcome(s, read_bytes, xlen) is Parsed,
    ensures
        extra_fields_outcome(s + t, read_bytes, xlen) == followed_by(
            extra_fields_outcome(s, read_bytes, xlen),
            t,
        ),
    decreases xlen - read_bytes,
{
    assert((s + t).skip(4) =~= s.skip(4) + t);
    if s.len() >= 4 && read_bytes + 4 < xlen {
        lemma_extra_fields_append(s.skip(4), t, read_bytes + 4, xlen);
    }
}

proof fn lemma_extra_append(flags: u8, s: Seq<u8>, t: Seq<u8>)
    requires
        extra_outcome(flags, s) is Parsed,
    ensures
        extra_outcome(flags, s + t) == followed_by(extra_outcome(flags, s), t),
{
    if flag_bit(flags, 2) {
        assert((s + t).skip(2) =~= s.skip(2) + t);
        lemma_extra_fields_append(s.skip(2), t, 0, le16(s[0], s[1]) as int);
    }
}

proof fn lemma_optional_string_append(present: bool, s: Seq<u8>, t: Seq<u8>)
    requires
        optional_string_outcome(present, s) is Parsed,
    ensures
        optional_string_outcome(present, s + t) == followed_by(optional_string_outcome(present, s), t),
{
    if present {
        let k = until_len(s, 0u8);
        crate::reader::lemma_until_len(s, 0u8);
        assert(s.take(k as int).last() == 0u8);
        assert(s[k - 1] == 0u8);
        crate::reader::lemma_until_len_append(s, t, 0u8);
        assert((s + t).take(k as int) =~= s.take(k as int));
        assert((s + t).skip(k as int) =~= s.skip(k as int) + t);
    }
}

proof fn lemma_crc16_append(flags: u8, s: Seq<u8>, t: Seq<u8>)
    requires
        crc16_outcome(flags, s) is Parsed,
    ensures
        crc16_outcome(flags, s + t) == followed_by(crc16_outcome(flags, s), t),
{
    if s.len() >= 2 {
        assert((s + t).skip(2) =~= s.skip(2) + t);
    }
}

/// A gzip file is a series of members: reading one member looks at no byte
/// after it, so whatever follows a member that reads leaves the member read
/// unchanged and is left, after the member's own remaining bytes, for what
/// comes next.
pub proof fn law_member_ignores_what_follows(s: Seq<u8>, t: Seq<u8>)
    requires
        <Member as Parse>::outcome(s) is Parsed,
    ensures
        <Member as Parse>::outcome(s + t) == followed_by(<Member as Parse>::outcome(s), t),
{
    lemma_header_append(s, t);
    if let ParseOutcome::Parsed { value: header, rest: s1 } = <Header as Parse>::outcome(s) {
        let f = header.flags.0;
        lemma_extra_append(f, s1, t);
        if let ParseOutcome::Parsed { value: extra, rest: s2 } = extra_outcome(f, s1) {
            lemma_optional_string_append(flag_bit(f, 3), s2, t);
            if let ParseOutcome::Parsed { value: filename, rest: s3 } = optional_string_outcome(
                flag_bit(f, 3),
                s2,
            ) {
                lemma_optional_string_append(flag_bit(f, 4), s3, t);
                if let ParseOutcome::Parsed { value: file_comment, rest: s4 } =
                    optional_string_outcome(flag_bit(f, 4), s3) {
                    lemma_crc16_append(f, s4, t);
                    if let ParseOutcome::Parsed { value: crc_16, rest: s5 } = crc16_outcome(f, s4) {
                        lemma_blocks_append(s5, t);
                        if let ParseOutcome::Parsed { value: blocks, rest: s6 } = blocks_outcome(s5) {
                            assert((s6 + t).skip(8) =~= s6.skip(8) + t);
                            assert(forall|i: int| 0 <= i < 8 ==> (s6 + t)[i] == s6[i]);
                        }
                    }
                }
            }
        }
    }
}

/// The number of four-byte subfield headers read for an FEXTRA field of `xlen`
/// bytes once `read_bytes` are counted: at least one, and no more than it takes
/// for the count to reach `xlen`.
pub open spec fn subfield_count(read_bytes: int, xlen: int) -> int {
    if read_bytes + 4 >= xlen {
        1
    } else {
        (xlen - read_bytes + 3) / 4
    }
}

/// The subfield model whose header is the four bytes of `s` from `at`.
pub open spec fn subfield_at(s: Seq<u8>, at: int) -> ExtraFieldModel {
    ExtraFieldModel { subfield_id_1: s[at], subfield_id_2: s[at + 1], data: Seq::empty() }
}

proof fn lemma_extra_fields_count(t: Seq<u8>, read_bytes: int, xlen: int)
    requires
        read_bytes >= 0,
        t.len() >= 4 * subfield_count(read_bytes, xlen),
    ensures
        extra_fields_outcome(t, read_bytes, xlen) matches ParseOutcome::Parsed { value, rest }
            && value.len() == subfield_count(read_bytes, xlen)
            && rest == t.skip(4 * subfield_count(read_bytes, xlen))
            && forall|i: int| 0 <= i < value.len() ==> #[trigger] value[i] == subfield_at(t, 4 * i),
    decreases xlen - read_bytes,
{
    let c = subfield_count(read_bytes, xlen);
    if read_bytes + 4 >= xlen {
        let o = extra_fields_outcome(t, read_bytes, xlen);
        assert(o matches ParseOutcome::Parsed { value, rest } && value =~= seq![subfield_at(t, 0)]);
    } else {
        let d = xlen - read_bytes;
        assert((d + 3) / 4 >= 2) by (nonlinear_arith)
            requires d > 4;
        if read_bytes + 8 >= xlen {
            assert((d + 3) / 4 == 2) by (nonlinear_arith)
                requires 4 < d <= 8;
        } else {
            assert((d - 4 + 3) / 4 == (d + 3) / 4 - 1) by (nonlinear_arith)
                requires d > 8;
        }
        assert(subfield_count(read_bytes + 4, xlen) == c - 1);
        let t2 = t.skip(4);
        lemma_extra_fields_count(t2, read_bytes + 4, xlen);
        let inner = extra_fields_outcome(t2, read_bytes + 4, xlen);
        if let ParseOutcome::Parsed { value: v2, rest: r2 } = inner {
            let v = seq![subfield_at(t, 0)] + v2;
            assert(r2 =~= t.skip(4 * c));
            assert forall|i: int| 0 <= i < v.len() implies #[trigger] v[i] == subfield_at(t, 4 * i) by {
                if i > 0 {
                    assert(v[i] == v2[i - 1]);
                    assert(t2[4 * (i - 1)] == t[4 * i]);
                    assert(t2[4 * (i - 1) + 1] == t[4 * i + 1]);
                }
            }
        }
    }
}

/// FEXTRA: with FLG bit 2 set, XLEN is the little-endian value of the first two
/// bytes and subfield headers of four bytes follow, read (at least one) until
/// their count of bytes reaches XLEN; each gives its two id bytes and no data.
/// Without FLG bit 2 nothing is read.
pub proof fn law_extra_field_reading(flags: u8, s: Seq<u8>)
    ensures
        flags & 0x04 == 0 ==> extra_outcome(flags, s) == (ParseOutcome::Parsed {
            value: Seq::<ExtraFieldModel>::empty(),
            rest: s,
        }),
        flags & 0x04 != 0 && s.len() >= 2 && ({
            let xlen = s[0] as int + 256 * s[1] as int;
            s.len() >= 2 + 4 * subfield_count(0, xlen)
        }) ==> {
            let xlen = s[0] as int + 256 * s[1] as int;
            let k = subfield_count(0, xlen);
            extra_outcome(flags, s) matches ParseOutcome::Parsed { value, rest } && value.len() == k
                && rest == s.skip(2 + 4 * k) && forall|i: int|
                0 <= i < k ==> #[trigger] value[i] == subfield_at(s, 2 + 4 * i)
        },
{
    assert(((flags >> 2u8) & 1 == 1) == (flags & 0x04 != 0)) by (bit_vector);
    if flags & 0x04 != 0 && s.len() >= 2 {
        let xlen = s[0] as int + 256 * s[1] as int;
        let k = subfield_count(0, xlen);
        assert(le16(s[0], s[1]) as int == xlen);
        if s.len() >= 2 + 4 * k {
            let t = s.skip(2);
            lemma_extra_fields_count(t, 0, xlen);
            if let ParseOutcome::Parsed { value, rest } = extra_fields_outcome(t, 0, xlen) {
                assert(rest =~= s.skip(2 + 4 * k));
                assert forall|i: int| 0 <= i < k implies #[trigger] value[i] == subfield_at(s, 2 + 4 * i) by {
                    assert(value[i] == subfield_at(t, 4 * i));
                    assert(t[4 * i] == s[2 + 4 * i]);
                    assert(t[4 * i + 1] == s[2 + 4 * i + 1]);
                }
            }
        }
    }
}

/// FHCRC: the header CRC16 is read exactly when FLG bit 1 is set, as the
/// little-endian value of the next two bytes.
pub proof fn law_header_crc_reading(flags: u8, s: Seq<u8>)
    ensures
        flags & 0x02 == 0 ==> crc16_outcome(flags, s) == (ParseOutcome::Parsed {
            value: None::<u16>,
            rest: s,
        }),
        flags & 0x02 != 0 && s.len() >= 2 ==> (crc16_outcome(flags, s) matches ParseOutcome::Parsed {
            value: Some(v),
            rest,
        } && v as int == s[0] as int + 256 * s[1] as int && rest == s.skip(2)),
        flags & 0x02 != 0 && s.len() < 2 ==> crc16_outcome(flags, s) == (ParseOutcome::Failed::<
            Option<u16>,
        > { rest: s }),
{
    assert(((flags >> 1u8) & 1 == 1) == (flags & 0x02 != 0)) by (bit_vector);
}

/// Blocks are read up to the first one with BFINAL (bit 7 of its header byte)
/// set, whatever its type: a block that reads and has BFINAL set is the last one
/// read, and one without BFINAL is followed by the blocks read after it.
pub proof fn law_blocks_stop_at_final(s: Seq<u8>)
    requires
        <DeflateBlock as Parse>::outcome(s) is Parsed,
    ensures
        <DeflateBlock as Parse>::outcome(s) matches ParseOutcome::Parsed { value, rest } && (s[0] & 0x80
            != 0 ==> blocks_outcome(s) == (ParseOutcome::Parsed { value: seq![value], rest })) && (
        s[0] & 0x80 == 0 ==> blocks_outcome(s) == prefixed(seq![value], blocks_outcome(rest))),
{
    let b = s[0];
    assert(((b >> 7u8) & 1 == 1) == (b & 0x80 != 0)) by (bit_vector);
}

/// A member without optional fields (FLG bits 1 to 4 clear; FTEXT and the
/// reserved bits change nothing) is its header, the blocks up to the first with
/// BFINAL set, and the CRC32 and ISIZE that follow them, both little endian.
pub proof fn law_member_without_optional_fields(s: Seq<u8>)
    requires
        s.len() >= 10,
        s[0] == 0x1f,
        s[1] == 0x8b,
        s[2] == 8,
        s[3] & 0x1e == 0,
        <DeflateBlock as Parse>::outcome(s.skip(10)) is Parsed,
        s[10] & 0x80 != 0,
    ensures
        <DeflateBlock as Parse>::outcome(s.skip(10)) matches ParseOutcome::Parsed { value: block, rest }
            && (rest.len() >= 8 ==> (<Member as Parse>::outcome(s) matches ParseOutcome::Parsed {
            value: m,
            rest: after,
        } && after == rest.skip(8) && m.header.compression_method == 8 && m.header.flags == Flags(s[3])
            && m.header.modification_time as int == s[4] as int + 256 * s[5] as int + 65536 * s[6] as int
            + 16777216 * s[7] as int && m.header.extra_flags == s[8] && m.header.os == s[9]
            && m.extra.len() == 0 && m.filename is None && m.file_comment is None
            && m.compressed_data.crc_16 is None && m.compressed_data.compressed_blocks == seq![block]
            && m.compressed_data.crc_32 as int == rest[0] as int + 256 * rest[1] as int + 65536
            * rest[2] as int + 16777216 * rest[3] as int && m.compressed_data.isize as int == rest[4] as int
            + 256 * rest[5] as int + 65536 * rest[6] as int + 16777216 * rest[7] as int)),
{
    let f = s[3];
    assert(f & 0x1e == 0 ==> (f >> 1u8) & 1 != 1 && (f >> 2u8) & 1 != 1 && (f >> 3u8) & 1 != 1 && (f
        >> 4u8) & 1 != 1) by (bit_vector);
    let s1 = s.skip(10);
    assert(s1[0] == s[10]);
    law_blocks_stop_at_final(s1);
}

} // verus!
