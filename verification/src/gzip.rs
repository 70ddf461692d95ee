//! The framing of a gzip member: its header, the name of the file it holds,
//! and the header of its first DEFLATE block.
//!
//! Only a subset of the format is handled: the flags must announce the original
//! file name and nothing else, the member must come from Unix, and it must hold
//! a single block. Everything else is refused with an error that names it.
use vstd::prelude::*;
use vstd::utf8::valid_utf8;

verus! {

/// First magic byte of a gzip member.
pub const ID1: u8 = 0x1f;

/// Second magic byte of a gzip member.
pub const ID2: u8 = 0x8b;

/// The compression method "deflate".
pub const CM_DEFLATE: u8 = 8;

/// The flags byte that announces the original file name and nothing else.
pub const FLG_FNAME: u8 = 8;

/// The operating system "Unix".
pub const OS_UNIX: u8 = 3;

/// Why a member was refused.
#[derive(Clone, Copy, Debug, PartialEq, Eq, Structural)]
pub enum GzipError {
    /// The bytes ended in the middle of a field.
    TruncatedHeader,
    /// The member does not start with the bytes `1F 8B`.
    InvalidMagic,
    /// The compression method is not deflate.
    UnsupportedCompressionMethod,
    /// The flags are not exactly "original file name present".
    UnsupportedFlags,
    /// The member was not written on Unix.
    UnsupportedOperatingSystem,
    /// The original file name is not UTF-8.
    InvalidFilenameEncoding,
    /// The block type is the reserved one.
    ReservedBlockType,
    /// The first block is not the last one.
    MultiBlockUnsupported,
}

/// How a DEFLATE block is compressed.
#[derive(Clone, Copy, Debug, PartialEq, Eq, Structural)]
pub enum BlockType {
    Stored,
    FixedHuffman,
    DynamicHuffman,
    Reserved,
}

/// The three bits at the start of a DEFLATE block.
#[derive(Clone, Copy, Debug, PartialEq, Eq, Structural)]
pub struct DeflateBlockHeader {
    /// Whether this is the last block of the stream.
    pub is_final: bool,
    pub block_type: BlockType,
}

/// The header of a gzip member, as read.
#[derive(Clone, Debug, PartialEq, Eq)]
pub struct GzipMemberHeader {
    pub id1: u8,
    pub id2: u8,
    pub compression_method: u8,
    pub flags: u8,
    /// The modification time, as the four bytes of the header, uninterpreted.
    pub mod_time_bytes: [u8; 4],
    pub extra_flags: u8,
    pub operating_system: u8,
    /// The original file name, without the zero byte that ends it.
    pub original_filename: Vec<u8>,
}

/// A member whose header and first block header were accepted.
#[derive(Clone, Debug, PartialEq, Eq)]
pub struct GzipMember {
    pub header: GzipMemberHeader,
    pub block_header: DeflateBlockHeader,
    /// Where the byte after the block header stands in the input.
    pub payload_offset: usize,
}

/// The index of the first zero byte of `input` at or after `from`, or the
/// length of `input` where there is none.
pub open spec fn filename_end(input: Seq<u8>, from: int) -> int
    decreases input.len() - from,
{
    if from < 0 || from >= input.len() {
        input.len() as int
    } else if input[from] == 0 {
        from
    } else {
        filename_end(input, from + 1)
    }
}

/// Reading a member header from the front of `input`: the first check that
/// fails, if any, and the number of bytes that were read when reading stopped.
/// The fields are read in order, and the first one that is missing or refused
/// ends the reading.
pub open spec fn header_scan(input: Seq<u8>) -> (Option<GzipError>, int) {
    let len = input.len() as int;
    if len < 1 {
        (Some(GzipError::TruncatedHeader), len)
    } else if input[0] != ID1 {
        (Some(GzipError::InvalidMagic), 1)
    } else if len < 2 {
        (Some(GzipError::TruncatedHeader), len)
    } else if input[1] != ID2 {
        (Some(GzipError::InvalidMagic), 2)
    } else if len < 3 {
        (Some(GzipError::TruncatedHeader), len)
    } else if input[2] != CM_DEFLATE {
        (Some(GzipError::UnsupportedCompressionMethod), 3)
    } else if len < 4 {
        (Some(GzipError::TruncatedHeader), len)
    } else if input[3] != FLG_FNAME {
        (Some(GzipError::UnsupportedFlags), 4)
    } else if len < 10 {
        (Some(GzipError::TruncatedHeader), len)
    } else if input[9] != OS_UNIX {
        (Some(GzipError::UnsupportedOperatingSystem), 10)
    } else {
        let end = filename_end(input, 10);
        if end >= len {
            (Some(GzipError::TruncatedHeader), len)
        } else if !valid_utf8(input.subrange(10, end)) {
            (Some(GzipError::InvalidFilenameEncoding), end + 1)
        } else {
            (None, end + 1)
        }
    }
}

impl GzipMemberHeader {
    /// The header holds the fields that `input` starts with.
    pub open spec fn is_read_from(self, input: Seq<u8>) -> bool {
        &&& input.len() > 10
        &&& self.id1 == input[0]
        &&& self.id2 == input[1]
        &&& self.compression_method == input[2]
        &&& self.flags == input[3]
        &&& self.mod_time_bytes@ == input.subrange(4, 8)
        &&& self.extra_flags == input[8]
        &&& self.operating_system == input[9]
        &&& self.original_filename@ == input.subrange(10, filename_end(input, 10))
    }
}

/// What the three low bits of `byte` say as a block header: bit 0 is the
/// final flag, bits 1 and 2 the type. A block that is not final is refused
/// first, the reserved type after it.
pub open spec fn block_header_spec(byte: u8) -> Result<DeflateBlockHeader, GzipError> {
    let is_final = byte % 2 == 1;
    let block_type = (byte / 2) % 4;
    if !is_final {
        Err(GzipError::MultiBlockUnsupported)
    } else if block_type == 3 {
        Err(GzipError::ReservedBlockType)
    } else {
        Ok(
            DeflateBlockHeader {
                is_final: true,
                block_type: if block_type == 0 {
                    BlockType::Stored
                } else if block_type == 1 {
                    BlockType::FixedHuffman
                } else {
                    BlockType::DynamicHuffman
                },
            },
        )
    }
}

/// Reading a whole member from the front of `input`: the header, then one
/// byte for the block header. The same pair as `header_scan` gives.
pub open spec fn member_scan(input: Seq<u8>) -> (Option<GzipError>, int) {
    let (error, consumed) = header_scan(input);
    if error is Some {
        (error, consumed)
    } else if consumed >= input.len() {
        (Some(GzipError::TruncatedHeader), consumed)
    } else {
        match block_header_spec(input[consumed]) {
            Ok(_) => (None, consumed + 1),
            Err(e) => (Some(e), consumed + 1),
        }
    }
}

/// Interprets the three low bits of the first byte of a block.
pub fn decode_block_header(byte: u8) -> (res: Result<DeflateBlockHeader, GzipError>)
    ensures
        res == block_header_spec(byte),
{
    let bfinal_set = byte & 1 == 1;
    let btype = (byte >> 1) & 3;
    assert(byte & 1 == byte % 2) by (bit_vector);
    assert((byte >> 1) & 3 == (byte / 2) % 4) by (bit_vector);

    if !bfinal_set {
        return Err(GzipError::MultiBlockUnsupported);
    }
    let block_type = match btype {
        0 => BlockType::Stored,
        1 => BlockType::FixedHuffman,
        2 => BlockType::DynamicHuffman,
        _ => {
            return Err(GzipError::ReservedBlockType);
        },
    };

    Ok(DeflateBlockHeader { is_final: true, block_type })
}

/// Asks `core::str::from_utf8` whether it accepts `bytes`. The contract claims
/// that it accepts exactly the well-formed UTF-8 sequences, as its
/// documentation says: shortest encodings of scalar values, no surrogates.
#[verifier::external_body]
fn is_utf8(bytes: &[u8]) -> (ok: bool)
    ensures
        ok == valid_utf8(bytes@),
{
    std::str::from_utf8(bytes).is_ok()
}

/// A forward-only cursor over the bytes of a member.
pub struct GzipMemberParser<'a> {
    bytes: &'a [u8],
    position: usize,
}

impl<'a> GzipMemberParser<'a> {
    #[verifier::type_invariant]
    spec fn in_bounds(self) -> bool {
        self.position <= self.bytes@.len()
    }

    /// All the bytes that the cursor runs over.
    pub closed spec fn input(self) -> Seq<u8> {
        self.bytes@
    }

    /// How many bytes have been read.
    pub closed spec fn consumed(self) -> int {
        self.position as int
    }

    /// The bytes that have not been read.
    pub open spec fn remaining(self) -> Seq<u8> {
        self.input().skip(self.consumed())
    }

    /// A cursor at the start of `bytes`.
    pub fn new(bytes: &'a [u8]) -> (parser: Self)
        ensures
            parser.input() == bytes@,
            parser.consumed() == 0,
    {
        GzipMemberParser { bytes, position: 0 }
    }

    /// How many bytes have been read.
    pub fn position(&self) -> (position: usize)
        ensures
            position == self.consumed(),
            self.consumed() <= self.input().len(),
    {
        proof {
            use_type_invariant(self);
        }
        self.position
    }

    /// Reads one byte, if there is one left.
    fn next_byte(&mut self) -> (res: Result<u8, GzipError>)
        ensures
            final(self).input() == old(self).input(),
            0 <= old(self).consumed() <= old(self).input().len(),
            match res {
                Ok(byte) => {
                    &&& old(self).consumed() < old(self).input().len()
                    &&& byte == old(self).input()[old(self).consumed()]
                    &&& final(self).consumed() == old(self).consumed() + 1
                },
                Err(e) => {
                    &&& e == GzipError::TruncatedHeader
                    &&& old(self).consumed() == old(self).input().len()
                    &&& final(self).consumed() == old(self).consumed()
                },
            },
    {
        proof {
            use_type_invariant(&*self);
        }
        if self.position < self.bytes.len() {
            let byte = self.bytes[self.position];
            self.position = self.position + 1;
            Ok(byte)
        } else {
            Err(GzipError::TruncatedHeader)
        }
    }

    /// Reads the member header: the two magic bytes, the compression method,
    /// the flags, the modification time, the extra flags, the operating
    /// system, and the original file name up to and including the zero byte
    /// that ends it. Reading stops at the first field that is missing or
    /// refused; the cursor then stands behind the last byte that was read.
    pub fn parse_header(&mut self) -> (res: Result<GzipMemberHeader, GzipError>)
        ensures
            final(self).input() == old(self).input(),
            final(self).consumed() == old(self).consumed() + header_scan(old(self).remaining()).1,
            final(self).consumed() <= final(self).input().len(),
            match res {
                Ok(header) => {
                    &&& header_scan(old(self).remaining()).0 is None
                    &&& header.is_read_from(old(self).remaining())
                },
                Err(e) => header_scan(old(self).remaining()).0 == Some(e),
            },
    {
        let ghost input = self.remaining();
        let ghost start = self.consumed();
        proof {
            use_type_invariant(&*self);
        }

        let id1 = self.next_byte()?;
        if id1 != ID1 {
            return Err(GzipError::InvalidMagic);
        }
        let id2 = self.next_byte()?;
        if id2 != ID2 {
            return Err(GzipError::InvalidMagic);
        }
        let compression_method = self.next_byte()?;
        if compression_method != CM_DEFLATE {
            return Err(GzipError::UnsupportedCompressionMethod);
        }
        let flags = self.next_byte()?;
        if flags != FLG_FNAME {
            return Err(GzipError::UnsupportedFlags);
        }
        let mtime_0 = self.next_byte()?;
        let mtime_1 = self.next_byte()?;
        let mtime_2 = self.next_byte()?;
        let mtime_3 = self.next_byte()?;
        let mod_time_bytes = [mtime_0, mtime_1, mtime_2, mtime_3];
        let extra_flags = self.next_byte()?;
        let operating_system = self.next_byte()?;
        if operating_system != OS_UNIX {
            return Err(GzipError::UnsupportedOperatingSystem);
        }
        assert(mod_time_bytes@ =~= input.subrange(4, 8));

        let mut original_filename: Vec<u8> = Vec::new();
        let mut terminated = false;
        while !terminated
            invariant
                self.input() == old(self).input(),
                input == old(self).remaining(),
                start == old(self).consumed(),
                0 <= start,
                start + 10 <= self.consumed() <= self.input().len(),
                input.len() == self.input().len() - start,
                input[0] == ID1,
                input[1] == ID2,
                input[2] == CM_DEFLATE,
                input[3] == FLG_FNAME,
                input[9] == OS_UNIX,
                forall|i: int| 0 <= i < input.len() ==> input[i] == self.input()[start + i],
                !terminated ==> {
                    &&& filename_end(input, 10) == filename_end(input, self.consumed() - start)
                    &&& original_filename@ == input.subrange(10, self.consumed() - start)
                },
                terminated ==> {
                    &&& filename_end(input, 10) == self.consumed() - start - 1
                    &&& original_filename@ == input.subrange(10, self.consumed() - start - 1)
                },
            ensures
                terminated,
            decreases self.input().len() - self.consumed() + if terminated { 0int } else { 1int },
        {
            let ghost at = self.consumed() - start;
            let byte = self.next_byte()?;
            if byte == 0 {
                terminated = true;
            } else {
                original_filename.push(byte);
                assert(original_filename@ =~= input.subrange(10, at + 1));
            }
        }

        if !is_utf8(original_filename.as_slice()) {
            return Err(GzipError::InvalidFilenameEncoding);
        }
        Ok(
            GzipMemberHeader {
                id1,
                id2,
                compression_method,
                flags,
                mod_time_bytes,
                extra_flags,
                operating_system,
                original_filename,
            },
        )
    }

    /// Reads the byte that starts the first block and interprets its three
    /// low bits.
    pub fn parse_block_header(&mut self) -> (res: Result<DeflateBlockHeader, GzipError>)
        ensures
            final(self).input() == old(self).input(),
            final(self).consumed() <= final(self).input().len(),
            old(self).remaining().len() == 0 ==> {
                &&& res == Err::<DeflateBlockHeader, GzipError>(GzipError::TruncatedHeader)
                &&& final(self).consumed() == old(self).consumed()
            },
            old(self).remaining().len() > 0 ==> {
                &&& res == block_header_spec(old(self).remaining()[0])
                &&& final(self).consumed() == old(self).consumed() + 1
            },
    {
        let byte = self.next_byte()?;
        decode_block_header(byte)
    }
}

/// Reads the framing of the member that `bytes` holds: its header and the
/// header of its first block. The member is accepted where every field is
/// there and supported; otherwise the first check that fails names the error.
pub fn decompress(bytes: &[u8]) -> (res: Result<GzipMember, GzipError>)
    ensures
        match res {
            Ok(member) => {
                &&& member_scan(bytes@).0 is None
                &&& member.header.is_read_from(bytes@)
                &&& member.payload_offset == member_scan(bytes@).1
                &&& member.payload_offset <= bytes@.len()
                &&& Ok::<DeflateBlockHeader, GzipError>(member.block_header) == block_header_spec(
                    bytes@[member.payload_offset - 1],
                )
            },
            Err(e) => member_scan(bytes@).0 == Some(e),
        },
{
    let mut parser = GzipMemberParser::new(bytes);
    assert(parser.remaining() =~= bytes@);
    let header = parser.parse_header()?;
    let ghost after_header = parser.consumed();
    assert(parser.remaining().len() == bytes@.len() - after_header);
    assert(parser.remaining().len() > 0 ==> parser.remaining()[0] == bytes@[after_header]);
    let block_header = parser.parse_block_header()?;
    let payload_offset = parser.position();

    Ok(GzipMember { header, block_header, payload_offset })
}

/// A member that does not start with the two magic bytes is refused for its
/// magic, and nothing behind the offending byte has been read.
pub proof fn lemma_bad_magic_is_refused_first(input: Seq<u8>)
    requires
        input.len() >= 2,
        input[0] != ID1 || input[1] != ID2,
    ensures
        header_scan(input).0 == Some(GzipError::InvalidMagic),
        header_scan(input).1 <= 2,
        member_scan(input) == header_scan(input),
{
}

/// A member with the right magic and another compression method than deflate
/// is refused for its method, and the flags have not been read: reading
/// stopped behind the third byte.
pub proof fn lemma_unsupported_method_is_refused_before_flags(input: Seq<u8>)
    requires
        input.len() >= 3,
        input[0] == ID1,
        input[1] == ID2,
        input[2] != CM_DEFLATE,
    ensures
        header_scan(input) == (Some(GzipError::UnsupportedCompressionMethod), 3int),
        member_scan(input) == header_scan(input),
{
}

} // verus!
