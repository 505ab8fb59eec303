//! Framing parser for the XZ container format.
//!
//! The library validates and decodes the 12-byte stream header, then walks
//! the sequence of block headers (flags, optional sizes, filter chain,
//! padding, CRC) until the zero header-size byte that announces the index.
//! Every parser is specified against a mathematical description of the
//! byte format and verified against it.

use vstd::prelude::*;

pub mod counting_reader;
pub mod crc;
pub mod endianness;
pub mod varint;

use counting_reader::CountingReader;
use endianness::be16_value;
use endianness::le32_value;
use endianness::u16be;
use endianness::u32le;
use varint::lemma_varint_agree;
use varint::lemma_varint_used_bounds;
use varint::varint_at;
use varint::VarintOutcome;

verus! {

/// The kinds of failure the framing parser reports.
#[derive(Clone, Copy, Debug, PartialEq, Eq, Structural)]
pub enum XZErrorKind {
    InvalidHeaderMagic,
    InvalidFlags,
    InvalidHeaderSize,
    UnsupportedFlag,
    BadCRC,
    BadPadding,
    /// The byte source ran out before the structure was complete.
    IO,
    Varint,
}

/// A parse failure, together with the cumulative byte offset at which it
/// was detected, when the caller has stamped one on (see `add_count`).
#[derive(Clone, Copy, Debug)]
pub struct XZError {
    pub kind: XZErrorKind,
    pub location: Option<usize>,
}

impl XZError {
    /// Stamps the reader's running byte count onto the error, so that the
    /// caller can report where in the stream the failure was found.
    pub fn add_count(self, r: &CountingReader) -> (out: XZError)
        ensures
            out.kind == self.kind,
            out.location == Some(r.consumed() as usize),
    {
        XZError { kind: self.kind, location: Some(r.count()) }
    }
}

impl From<XZErrorKind> for XZError {
    /// A bare error of the given kind, not yet located in the stream.
    fn from(kind: XZErrorKind) -> (e: XZError) {
        XZError { kind, location: None }
    }
}

impl vstd::std_specs::convert::FromSpecImpl<XZErrorKind> for XZError {
    open spec fn obeys_from_spec() -> bool {
        true
    }

    open spec fn from_spec(kind: XZErrorKind) -> XZError {
        XZError { kind, location: None }
    }
}

pub type XZResult<T> = Result<T, XZError>;

/// The six fixed bytes every XZ stream starts with.
pub open spec fn xz_magic() -> Seq<u8> {
    seq![0xFDu8, 0x37u8, 0x7Au8, 0x58u8, 0x5Au8, 0x00u8]
}

/// The stream flags field is valid when its reserved bits are clear:
/// the whole high byte, and bits 4 to 7 of the low byte.
pub open spec fn stream_flags_valid(flags: u16) -> bool {
    flags >> 8 == 0 && flags & 0xF0 == 0
}

/// What reading a 12-byte stream header from the front of `input`
/// yields: the flags and CRC fields, or the first check that fails.
pub enum StreamHeaderOutcome {
    StreamParsed { flags: u16, crc: u32 },
    BadMagic,
    BadFlags,
    ShortHeader,
}

pub open spec fn stream_header_spec(input: Seq<u8>) -> StreamHeaderOutcome {
    if input.len() < 12 {
        StreamHeaderOutcome::ShortHeader
    } else if input.take(6) != xz_magic() {
        StreamHeaderOutcome::BadMagic
    } else {
        let flags = be16_value(input.subrange(6, 8));
        if !stream_flags_valid(flags) {
            StreamHeaderOutcome::BadFlags
        } else {
            StreamHeaderOutcome::StreamParsed { flags, crc: le32_value(input.subrange(8, 12)) }
        }
    }
}

/// The integrity-check algorithm a stream declares for its blocks.
#[derive(Clone, Copy, Debug, PartialEq, Eq, Structural)]
pub enum CheckType {
    NoCheck,
    CRC32,
    CRC64,
    SHA256,
}

impl CheckType {
    /// The size in bytes of the per-block check field this type uses.
    pub fn check_size(self) -> (s: u8)
        ensures
            s == (match self {
                CheckType::NoCheck => 0u8,
                CheckType::CRC32 => 4u8,
                CheckType::CRC64 => 8u8,
                CheckType::SHA256 => 32u8,
            }),
    {
        match self {
            CheckType::NoCheck => 0,
            CheckType::CRC32 => 4,
            CheckType::CRC64 => 8,
            CheckType::SHA256 => 32,
        }
    }
}

/// The check type encoded in the low nibble of the stream flags, or
/// `None` for the codes the format leaves undefined.
pub open spec fn check_type_spec(flags: u16) -> Option<CheckType> {
    if flags & 0x0F == 0x00 {
        Some(CheckType::NoCheck)
    } else if flags & 0x0F == 0x01 {
        Some(CheckType::CRC32)
    } else if flags & 0x0F == 0x04 {
        Some(CheckType::CRC64)
    } else if flags & 0x0F == 0x0A {
        Some(CheckType::SHA256)
    } else {
        None
    }
}

/// The 12-byte stream header: six magic bytes, a big-endian 16-bit
/// flags field, and a little-endian CRC-32 of the flags field.
#[derive(Clone, Copy, Debug)]
pub struct XZStreamHeader {
    pub header_magic: [u8; 6],
    pub flags: u16be,
    pub crc: u32le,
}

impl XZStreamHeader {
    pub open spec fn flags_value(self) -> u16 {
        be16_value(self.flags.0@)
    }

    pub open spec fn crc_value(self) -> u32 {
        le32_value(self.crc.0@)
    }

    /// Reads and validates a stream header, as `stream_header_spec`
    /// describes: exactly 12 bytes are consumed unless the source runs
    /// out, the magic must match byte for byte, and the reserved flag
    /// bits must be clear.
    pub fn from_reader(reader: &mut CountingReader) -> (r: XZResult<XZStreamHeader>)
        requires
            old(reader).wf(),
        ensures
            final(reader).wf(),
            match stream_header_spec(old(reader).remaining()) {
                StreamHeaderOutcome::StreamParsed { flags, crc } => (r matches Ok(h)
                    && h.header_magic@ == xz_magic()
                    && h.flags_value() == flags
                    && h.crc_value() == crc
                    && final(reader).consumed() == old(reader).consumed() + 12
                    && final(reader).remaining() == old(reader).remaining().skip(12)),
                StreamHeaderOutcome::BadMagic => (r matches Err(e)
                    && e.kind == XZErrorKind::InvalidHeaderMagic
                    && e.location is None
                    && final(reader).consumed() == old(reader).consumed() + 12),
                StreamHeaderOutcome::BadFlags => (r matches Err(e)
                    && e.kind == XZErrorKind::InvalidFlags
                    && e.location is None
                    && final(reader).consumed() == old(reader).consumed() + 12),
                StreamHeaderOutcome::ShortHeader => (r matches Err(e)
                    && e.kind == XZErrorKind::IO
                    && e.location is None
                    && final(reader).consumed() == old(reader).consumed()
                        + old(reader).remaining().len()),
            },
    {
        let buf = match reader.read_exact(12) {
            Ok(v) => v,
            Err(e) => {
                return Err(e);
            },
        };
        let ghost input = old(reader).remaining();
        if !(buf[0] == 0xFD && buf[1] == 0x37 && buf[2] == 0x7A && buf[3] == 0x58 && buf[4] == 0x5A
            && buf[5] == 0x00) {
            proof {
                assert(input.take(6) != xz_magic()) by {
                    assert(forall|i: int| 0 <= i < 12 ==> input.take(12)[i] == input[i]);
                    assert(forall|i: int| 0 <= i < 6 ==> input.take(6)[i] == input[i]);
                }
            }
            return Err(XZError::from(XZErrorKind::InvalidHeaderMagic));
        }
        proof {
            assert(forall|i: int| 0 <= i < 12 ==> input.take(12)[i] == input[i]);
            assert(input.take(6) =~= xz_magic());
        }
        let flags = u16be([buf[6], buf[7]]);
        let fv = flags.get();
        proof {
            assert(flags.0@ =~= input.subrange(6, 8));
        }
        if (fv >> 8u16) != 0 || (fv & 0xF0) != 0 {
            return Err(XZError::from(XZErrorKind::InvalidFlags));
        }
        let crc = u32le([buf[8], buf[9], buf[10], buf[11]]);
        proof {
            assert(crc.0@ =~= input.subrange(8, 12));
        }
        let hdr = XZStreamHeader {
            header_magic: [buf[0], buf[1], buf[2], buf[3], buf[4], buf[5]],
            flags,
            crc,
        };
        proof {
            assert(hdr.header_magic@ =~= xz_magic());
        }
        Ok(hdr)
    }

    /// The check type the header's flags declare, or `None` for a code
    /// the format leaves undefined.
    pub fn check_type(&self) -> (r: Option<CheckType>)
        ensures
            r == check_type_spec(self.flags_value()),
    {
        let nib = self.flags.get() & 0x0F;
        if nib == 0x00 {
            Some(CheckType::NoCheck)
        } else if nib == 0x01 {
            Some(CheckType::CRC32)
        } else if nib == 0x04 {
            Some(CheckType::CRC64)
        } else if nib == 0x0A {
            Some(CheckType::SHA256)
        } else {
            None
        }
    }
}

/// Every header that starts with the magic and keeps flag bits 4 to 15
/// clear parses, and its check type is read off the low nibble: the
/// four defined codes give their check type, every other code gives
/// none.
pub proof fn lemma_valid_stream_header_parses(input: Seq<u8>)
    requires
        input.len() >= 12,
        input.take(6) == xz_magic(),
        be16_value(input.subrange(6, 8)) & 0xFFF0 == 0,
    ensures
        stream_header_spec(input) == (StreamHeaderOutcome::StreamParsed {
            flags: be16_value(input.subrange(6, 8)),
            crc: le32_value(input.subrange(8, 12)),
        }),
        ({
            let flags = be16_value(input.subrange(6, 8));
            &&& (flags & 0x0F == 0x00 ==> check_type_spec(flags) == Some(CheckType::NoCheck))
            &&& (flags & 0x0F == 0x01 ==> check_type_spec(flags) == Some(CheckType::CRC32))
            &&& (flags & 0x0F == 0x04 ==> check_type_spec(flags) == Some(CheckType::CRC64))
            &&& (flags & 0x0F == 0x0A ==> check_type_spec(flags) == Some(CheckType::SHA256))
            &&& (flags & 0x0F != 0x00 && flags & 0x0F != 0x01 && flags & 0x0F != 0x04 && flags
                & 0x0F != 0x0A ==> check_type_spec(flags) is None)
        }),
{
    let flags = be16_value(input.subrange(6, 8));
    assert(flags >> 8 == 0 && flags & 0xF0 == 0) by (bit_vector)
        requires
            flags & 0xFFF0 == 0,
    ;
}

/// A header whose flags set any reserved bit (the high byte, or bits 4
/// to 7 of the low byte) is rejected as `InvalidFlags`.
pub proof fn lemma_reserved_flags_rejected(input: Seq<u8>)
    requires
        input.len() >= 12,
        input.take(6) == xz_magic(),
        be16_value(input.subrange(6, 8)) & 0xFFF0 != 0,
    ensures
        stream_header_spec(input) is BadFlags,
        driver_spec(input) == (DriverOutcome::Reject {
            kind: XZErrorKind::InvalidFlags,
            consumed: 12,
        }),
{
    let flags = be16_value(input.subrange(6, 8));
    assert(!(flags >> 8 == 0 && flags & 0xF0 == 0)) by (bit_vector)
        requires
            flags & 0xFFF0 != 0,
    ;
}

/// A magic mismatch at any single byte position is rejected as
/// `InvalidHeaderMagic`.
pub proof fn lemma_magic_mismatch_rejected(input: Seq<u8>, i: int)
    requires
        input.len() >= 12,
        0 <= i < 6,
        input[i] != xz_magic()[i],
    ensures
        stream_header_spec(input) is BadMagic,
        driver_spec(input) == (DriverOutcome::Reject {
            kind: XZErrorKind::InvalidHeaderMagic,
            consumed: 12,
        }),
{
    assert(input.take(6)[i] == input[i]);
}

/// The block flags byte: bits 0 and 1 encode the filter count minus
/// one, bit 6 flags a compressed-size field, bit 7 an uncompressed-size
/// field; bits 2 to 5 are reserved and must be zero.
#[derive(Clone, Copy, Debug, PartialEq, Eq, Structural)]
pub struct XZBlockFlags(pub u8);

impl XZBlockFlags {
    /// The reserved bits 2 to 5 are clear.
    pub fn is_ok(&self) -> (r: bool)
        ensures
            r == (self.0 & 0x3C == 0),
    {
        self.0 & 0x3C == 0
    }

    /// The number of filters in the chain: one to four.
    pub fn num_filters(&self) -> (n: u8)
        ensures
            n == (self.0 & 0x03) + 1,
    {
        let b = self.0;
        proof {
            assert(b & 0x03 <= 3) by (bit_vector);
        }
        (b & 0x03) + 1
    }

    pub fn has_compressed_size(&self) -> (r: bool)
        ensures
            r == (self.0 & 0x40 != 0),
    {
        self.0 & 0x40 != 0
    }

    pub fn has_uncompressed_size(&self) -> (r: bool)
        ensures
            r == (self.0 & 0x80 != 0),
    {
        self.0 & 0x80 != 0
    }
}

/// The single byte at the start of each header slot: zero marks the
/// index, any other value `n` declares a block header of `(n + 1) * 4`
/// bytes.
#[derive(Clone, Copy, Debug)]
pub struct HeaderSize(pub u8);

#[derive(Clone, Copy, Debug, PartialEq, Eq, Structural)]
pub enum HeaderKind {
    Block(u16),
    Index,
}

impl HeaderSize {
    pub fn disambiguate(self) -> (k: HeaderKind)
        ensures
            self.0 == 0 ==> k == HeaderKind::Index,
            self.0 != 0 ==> k == HeaderKind::Block(((self.0 + 1) * 4) as u16),
    {
        if self.0 == 0 {
            HeaderKind::Index
        } else {
            HeaderKind::Block((self.0 as u16 + 1) * 4)
        }
    }
}

/// One filter of a block's chain: an identifier and its opaque property
/// bytes, of the declared length.
#[derive(Clone, Debug)]
pub struct FilterFlags {
    pub id: u64,
    pub propsize: u64,
    pub props: Vec<u8>,
}

/// The mathematical image of a `FilterFlags`.
pub struct FilterModel {
    pub id: u64,
    pub propsize: u64,
    pub props: Seq<u8>,
}

impl View for FilterFlags {
    type V = FilterModel;

    open spec fn view(&self) -> FilterModel {
        FilterModel { id: self.id, propsize: self.propsize, props: self.props@ }
    }
}

pub open spec fn filters_view(s: Seq<FilterFlags>) -> Seq<FilterModel> {
    s.map_values(|f: FilterFlags| f@)
}

/// One decoded block header. The filter order is the application order.
#[derive(Clone, Debug)]
pub struct XZBlockHeader {
    pub size: u16,
    pub flags: XZBlockFlags,
    pub csized: Option<u64>,
    pub usized: Option<u64>,
    pub filter_flags: Vec<FilterFlags>,
    pub crc: u32,
}

/// The mathematical image of an `XZBlockHeader`.
pub struct BlockHeaderModel {
    pub size: u16,
    pub flags: u8,
    pub csized: Option<u64>,
    pub usized: Option<u64>,
    pub filters: Seq<FilterModel>,
    pub crc: u32,
}

impl View for XZBlockHeader {
    type V = BlockHeaderModel;

    open spec fn view(&self) -> BlockHeaderModel {
        BlockHeaderModel {
            size: self.size,
            flags: self.flags.0,
            csized: self.csized,
            usized: self.usized,
            filters: filters_view(self.filter_flags@),
            crc: self.crc,
        }
    }
}

/// An optional varint field at `pos` in the staging buffer.
pub enum SizeFieldOutcome {
    SizeField { value: Option<u64>, end: int },
    SizeTooLong,
    SizeTruncated,
}

pub open spec fn size_field_spec(content: Seq<u8>, pos: int, present: bool) -> SizeFieldOutcome {
    if !present {
        SizeFieldOutcome::SizeField { value: None, end: pos }
    } else {
        match varint_at(content, pos) {
            VarintOutcome::Value { v, used } => SizeFieldOutcome::SizeField {
                value: Some(v),
                end: pos + used,
            },
            VarintOutcome::TooLong => SizeFieldOutcome::SizeTooLong,
            VarintOutcome::Truncated => SizeFieldOutcome::SizeTruncated,
        }
    }
}

/// The filter list: `n` entries of id varint, property-size varint and
/// that many property bytes, read left to right from `pos`. Property
/// bytes are cut short at the end of the buffer, as a bounded take on
/// an exhausted source is.
pub enum FiltersOutcome {
    Filters { filters: Seq<FilterModel>, end: int },
    FiltersTooLong,
    FiltersTruncated,
}

pub open spec fn filters_spec(content: Seq<u8>, pos: int, n: nat) -> FiltersOutcome
    decreases n,
{
    if n == 0 {
        FiltersOutcome::Filters { filters: Seq::empty(), end: pos }
    } else {
        match varint_at(content, pos) {
            VarintOutcome::TooLong => FiltersOutcome::FiltersTooLong,
            VarintOutcome::Truncated => FiltersOutcome::FiltersTruncated,
            VarintOutcome::Value { v: id, used: u1 } => match varint_at(content, pos + u1) {
                VarintOutcome::TooLong => FiltersOutcome::FiltersTooLong,
                VarintOutcome::Truncated => FiltersOutcome::FiltersTruncated,
                VarintOutcome::Value { v: propsize, used: u2 } => {
                    let pstart = pos + u1 + u2;
                    let pend = if pstart + propsize <= content.len() {
                        pstart + propsize
                    } else {
                        content.len() as int
                    };
                    match filters_spec(content, pend, (n - 1) as nat) {
                        FiltersOutcome::Filters { filters, end } => FiltersOutcome::Filters {
                            filters: seq![
                                FilterModel { id, propsize, props: content.subrange(pstart, pend) },
                            ] + filters,
                            end,
                        },
                        outcome => outcome,
                    }
                },
            },
        }
    }
}

/// All the variable fields of a block header's staging buffer, read
/// strictly left to right: the optional compressed and uncompressed
/// sizes, then the filter chain.
pub enum FieldsOutcome {
    Fields { csized: Option<u64>, usized: Option<u64>, filters: Seq<FilterModel>, end: int },
    FieldsTooLong,
    FieldsTruncated,
}

pub open spec fn content_fields_spec(content: Seq<u8>, fl: u8) -> FieldsOutcome {
    match size_field_spec(content, 0, fl & 0x40 != 0) {
        SizeFieldOutcome::SizeTooLong => FieldsOutcome::FieldsTooLong,
        SizeFieldOutcome::SizeTruncated => FieldsOutcome::FieldsTruncated,
        SizeFieldOutcome::SizeField { value: csized, end: p1 } => match size_field_spec(
            content,
            p1,
            fl & 0x80 != 0,
        ) {
            SizeFieldOutcome::SizeTooLong => FieldsOutcome::FieldsTooLong,
            SizeFieldOutcome::SizeTruncated => FieldsOutcome::FieldsTruncated,
            SizeFieldOutcome::SizeField { value: usized, end: p2 } => match filters_spec(
                content,
                p2,
                ((fl & 0x03) + 1) as nat,
            ) {
                FiltersOutcome::FiltersTooLong => FieldsOutcome::FieldsTooLong,
                FiltersOutcome::FiltersTruncated => FieldsOutcome::FieldsTruncated,
                FiltersOutcome::Filters { filters, end } => FieldsOutcome::Fields {
                    csized,
                    usized,
                    filters,
                    end,
                },
            },
        },
    }
}

/// What parsing one block header yields: the decoded header, or the
/// error kind and the bytes consumed on the way to it.
pub enum BlockOutcome {
    Block { header: BlockHeaderModel },
    BlockFail { kind: XZErrorKind, consumed: int },
}

/// The staging buffer of `header_size - 2` bytes, after the size and
/// flags bytes: the variable fields, then padding that must be zero
/// down to the last four bytes, which hold the little-endian CRC.
pub open spec fn content_spec(content: Seq<u8>, fl: u8, header_size: u16) -> BlockOutcome
    recommends
        content.len() == header_size - 2,
{
    match content_fields_spec(content, fl) {
        FieldsOutcome::FieldsTooLong => BlockOutcome::BlockFail {
            kind: XZErrorKind::Varint,
            consumed: header_size - 1,
        },
        FieldsOutcome::FieldsTruncated => BlockOutcome::BlockFail {
            kind: XZErrorKind::IO,
            consumed: header_size - 1,
        },
        FieldsOutcome::Fields { csized, usized, filters, end } => {
            if content.len() - end < 4 {
                BlockOutcome::BlockFail { kind: XZErrorKind::BadPadding, consumed: header_size - 1 }
            } else if exists|i: int| end <= i < content.len() - 4 && content[i] != 0 {
                BlockOutcome::BlockFail { kind: XZErrorKind::BadPadding, consumed: header_size - 1 }
            } else {
                BlockOutcome::Block {
                    header: BlockHeaderModel {
                        size: header_size,
                        flags: fl,
                        csized,
                        usized,
                        filters,
                        crc: le32_value(
                            content.subrange(content.len() - 4, content.len() as int),
                        ),
                    },
                }
            }
        },
    }
}

/// Parsing one block header of declared size `header_size` from the
/// front of `input`: the flags byte with its reserved bits, then the
/// staging buffer that `content_spec` describes.
pub open spec fn block_header_spec(input: Seq<u8>, header_size: u16) -> BlockOutcome
    recommends
        8 <= header_size <= 1024,
        header_size % 4 == 0,
{
    if input.len() < 1 {
        BlockOutcome::BlockFail { kind: XZErrorKind::IO, consumed: 0 }
    } else {
        let fl = input[0];
        if fl & 0x3C != 0 {
            BlockOutcome::BlockFail { kind: XZErrorKind::InvalidFlags, consumed: 1 }
        } else if input.len() < header_size - 1 {
            BlockOutcome::BlockFail { kind: XZErrorKind::IO, consumed: input.len() as int }
        } else {
            content_spec(input.subrange(1, header_size - 1), fl, header_size)
        }
    }
}

/// Parses one block header whose header-size byte has already been read
/// and decoded to `header_size` bytes, exactly as `block_header_spec`
/// describes. On success the reader has moved past the whole header; on
/// failure it has moved as far as the parse reached.
#[verifier::loop_isolation(false)]
#[verifier::rlimit(100)]
pub fn parse_block_header(reader: &mut CountingReader, header_size: u16) -> (r: XZResult<
    XZBlockHeader,
>)
    requires
        old(reader).wf(),
        8 <= header_size <= 1024,
        header_size % 4 == 0,
    ensures
        final(reader).wf(),
        match block_header_spec(old(reader).remaining(), header_size) {
            BlockOutcome::Block { header } => (r matches Ok(h)
                && h@ == header
                && old(reader).remaining().len() >= header_size - 1
                && final(reader).consumed() == old(reader).consumed() + header_size - 1
                && final(reader).remaining() == old(reader).remaining().skip(header_size - 1)),
            BlockOutcome::BlockFail { kind, consumed } => (r matches Err(e)
                && e.kind == kind
                && e.location is None
                && final(reader).consumed() == old(reader).consumed() + consumed),
        },
{
    let ghost input = old(reader).remaining();
    let flags_byte = match reader.read_byte() {
        Ok(b) => b,
        Err(e) => {
            return Err(e);
        },
    };
    let flags = XZBlockFlags(flags_byte);
    if !flags.is_ok() {
        return Err(XZError::from(XZErrorKind::InvalidFlags));
    }
    let content = match reader.read_exact((header_size - 2) as usize) {
        Ok(v) => v,
        Err(e) => {
            return Err(e);
        },
    };
    let ghost fl = flags_byte;
    let ghost cont = content@;
    proof {
        assert(cont =~= input.subrange(1, header_size - 1));
        assert(reader.remaining() =~= input.skip(header_size - 1));
    }
    let mut pos: usize = 0;

    let csized: Option<u64> = if flags.has_compressed_size() {
        match varint::from_reader(&content, &mut pos) {
            Ok(v) => Some(v),
            Err(e) => {
                return Err(e);
            },
        }
    } else {
        None
    };
    proof {
        assert(size_field_spec(cont, 0, fl & 0x40 != 0) == (SizeFieldOutcome::SizeField {
            value: csized,
            end: pos as int,
        }));
    }
    let ghost p1 = pos as int;

    let usized: Option<u64> = if flags.has_uncompressed_size() {
        match varint::from_reader(&content, &mut pos) {
            Ok(v) => Some(v),
            Err(e) => {
                return Err(e);
            },
        }
    } else {
        None
    };
    proof {
        assert(size_field_spec(cont, p1, fl & 0x80 != 0) == (SizeFieldOutcome::SizeField {
            value: usized,
            end: pos as int,
        }));
    }
    let ghost p2 = pos as int;

    let nf = flags.num_filters();
    let mut fflags: Vec<FilterFlags> = Vec::new();
    let mut i: u8 = 0;
    proof {
        assert(filters_view(fflags@) =~= Seq::<FilterModel>::empty());
    }
    while i < nf
        invariant
            i <= nf,
            pos <= cont.len(),
            match filters_spec(cont, pos as int, (nf - i) as nat) {
                FiltersOutcome::Filters { filters, end } => filters_spec(cont, p2, nf as nat)
                    == (FiltersOutcome::Filters { filters: filters_view(fflags@) + filters, end }),
                outcome => filters_spec(cont, p2, nf as nat) == outcome,
            },
        decreases nf - i,
    {
        let ghost pos0 = pos as int;
        let ghost prev_fflags = fflags@;
        let ghost n_rem = (nf - i) as nat;
        let id = match varint::from_reader(&content, &mut pos) {
            Ok(v) => v,
            Err(e) => {
                return Err(e);
            },
        };
        let propsize = match varint::from_reader(&content, &mut pos) {
            Ok(v) => v,
            Err(e) => {
                return Err(e);
            },
        };
        let avail = content.len() - pos;
        let tk: usize = if propsize <= avail as u64 {
            propsize as usize
        } else {
            avail
        };
        let ghost pstart = pos as int;
        let mut props: Vec<u8> = Vec::new();
        let mut j: usize = 0;
        while j < tk
            invariant
                j <= tk,
                pos + tk <= cont.len(),
                props@ =~= cont.subrange(pos as int, pos + j),
            decreases tk - j,
        {
            props.push(content[pos + j]);
            j = j + 1;
        }
        pos = pos + tk;
        let ff = FilterFlags { id, propsize, props };
        fflags.push(ff);
        i = i + 1;
        proof {
            let fm = FilterModel { id, propsize, props: cont.subrange(pstart, pos as int) };
            assert(filters_view(fflags@) =~= filters_view(prev_fflags) + seq![fm]);
            match filters_spec(cont, pos as int, (nf - i) as nat) {
                FiltersOutcome::Filters { filters, end } => {
                    assert(filters_spec(cont, pos0, n_rem) == (FiltersOutcome::Filters {
                        filters: seq![fm] + filters,
                        end,
                    }));
                    assert(filters_view(prev_fflags) + (seq![fm] + filters) =~= filters_view(
                        fflags@,
                    ) + filters);
                },
                outcome => {
                    assert(filters_spec(cont, pos0, n_rem) == outcome);
                },
            }
        }
    }
    proof {
        assert(filters_view(fflags@) + Seq::<FilterModel>::empty() =~= filters_view(fflags@));
        assert(content_fields_spec(cont, fl) == (FieldsOutcome::Fields {
            csized,
            usized,
            filters: filters_view(fflags@),
            end: pos as int,
        }));
    }
    let ghost fend = pos as int;

    let rest_len = content.len() - pos;
    if rest_len < 4 {
        return Err(XZError::from(XZErrorKind::BadPadding));
    }
    let pad_end = content.len() - 4;
    while pos < pad_end
        invariant
            fend <= pos <= pad_end,
            forall|k: int| fend <= k < pos ==> cont[k] == 0,
        decreases pad_end - pos,
    {
        if content[pos] != 0 {
            return Err(XZError::from(XZErrorKind::BadPadding));
        }
        pos = pos + 1;
    }
    let crc_field = u32le(
        [content[pad_end], content[pad_end + 1], content[pad_end + 2], content[pad_end + 3]],
    );
    let crc = crc_field.get();
    proof {
        assert(crc_field.0@ =~= cont.subrange(cont.len() - 4, cont.len() as int));
        assert(!(exists|k: int| fend <= k < cont.len() - 4 && cont[k] != 0));
    }
    Ok(XZBlockHeader { size: header_size, flags, csized, usized, filter_flags: fflags, crc })
}

/// Parses one block header and discards it, reporting only whether the
/// header was well formed; the block's payload is left to the caller.
pub fn parse_xz_block(reader: &mut CountingReader, header_size: u16) -> (r: XZResult<()>)
    requires
        old(reader).wf(),
        8 <= header_size <= 1024,
        header_size % 4 == 0,
    ensures
        final(reader).wf(),
        match block_header_spec(old(reader).remaining(), header_size) {
            BlockOutcome::Block { .. } => (r is Ok
                && old(reader).remaining().len() >= header_size - 1
                && final(reader).consumed() == old(reader).consumed() + header_size - 1
                && final(reader).remaining() == old(reader).remaining().skip(header_size - 1)),
            BlockOutcome::BlockFail { kind, consumed } => (r matches Err(e)
                && e.kind == kind
                && e.location is None
                && final(reader).consumed() == old(reader).consumed() + consumed),
        },
{
    match parse_block_header(reader, header_size) {
        Ok(_) => Ok(()),
        Err(e) => Err(e),
    }
}

/// A varint field, too, reads only the bytes it consumes.
proof fn lemma_varint_at_agree(c1: Seq<u8>, c2: Seq<u8>, pos: int)
    requires
        0 <= pos <= c1.len(),
        c2.len() == c1.len(),
        varint_at(c1, pos) is Value,
        pos + varint_at(c1, pos)->used <= c1.len(),
        c2.take(pos + varint_at(c1, pos)->used) == c1.take(pos + varint_at(c1, pos)->used),
    ensures
        varint_at(c2, pos) == varint_at(c1, pos),
{
    let used = varint_at(c1, pos)->used;
    lemma_varint_used_bounds(c1.skip(pos), 0, 0);
    assert forall|k: int| 0 <= k < used implies c2.skip(pos)[k] == c1.skip(pos)[k] by {
        assert(c1.take(pos + used)[pos + k] == c1[pos + k]);
        assert(c2.take(pos + used)[pos + k] == c2[pos + k]);
    }
    assert(c2.skip(pos).take(used) =~= c1.skip(pos).take(used));
    lemma_varint_agree(c1.skip(pos), c2.skip(pos), 0, 0);
}

/// Where the filter list of a staging buffer ends: between its starting
/// position and the end of the buffer.
pub proof fn lemma_filters_bounds(content: Seq<u8>, pos: int, n: nat)
    requires
        0 <= pos <= content.len(),
    ensures
        filters_spec(content, pos, n) matches FiltersOutcome::Filters { end, .. } ==> pos <= end
            <= content.len(),
    decreases n,
{
    if n > 0 {
        match varint_at(content, pos) {
            VarintOutcome::Value { v: id, used: u1 } => {
                lemma_varint_used_bounds(content.skip(pos), 0, 0);
                match varint_at(content, pos + u1) {
                    VarintOutcome::Value { v: ps, used: u2 } => {
                        lemma_varint_used_bounds(content.skip(pos + u1), 0, 0);
                        let pstart = pos + u1 + u2;
                        let pend = if pstart + ps <= content.len() {
                            pstart + ps
                        } else {
                            content.len() as int
                        };
                        lemma_filters_bounds(content, pend, (n - 1) as nat);
                    },
                    _ => {},
                }
            },
            _ => {},
        }
    }
}

/// The filter list reads only the bytes up to its own end: any buffer
/// of the same length that agrees on those bytes parses to the same
/// filters.
pub proof fn lemma_filters_agree(c1: Seq<u8>, c2: Seq<u8>, pos: int, n: nat)
    requires
        0 <= pos <= c1.len(),
        c2.len() == c1.len(),
        filters_spec(c1, pos, n) is Filters,
        c2.take(filters_spec(c1, pos, n)->end) == c1.take(filters_spec(c1, pos, n)->end),
    ensures
        filters_spec(c2, pos, n) == filters_spec(c1, pos, n),
    decreases n,
{
    let end = filters_spec(c1, pos, n)->end;
    lemma_filters_bounds(c1, pos, n);
    assert forall|k: int| 0 <= k < end implies c2[k] == c1[k] by {
        assert(c1.take(end)[k] == c1[k]);
        assert(c2.take(end)[k] == c2[k]);
    }
    if n > 0 {
        match varint_at(c1, pos) {
            VarintOutcome::Value { v: id, used: u1 } => {
                lemma_varint_used_bounds(c1.skip(pos), 0, 0);
                match varint_at(c1, pos + u1) {
                    VarintOutcome::Value { v: ps, used: u2 } => {
                        lemma_varint_used_bounds(c1.skip(pos + u1), 0, 0);
                        let pstart = pos + u1 + u2;
                        let pend = if pstart + ps <= c1.len() {
                            pstart + ps
                        } else {
                            c1.len() as int
                        };
                        lemma_filters_bounds(c1, pend, (n - 1) as nat);
                        assert(c2.take(pos + u1) =~= c1.take(pos + u1));
                        lemma_varint_at_agree(c1, c2, pos);
                        assert(c2.take(pos + u1 + u2) =~= c1.take(pos + u1 + u2));
                        lemma_varint_at_agree(c1, c2, pos + u1);
                        assert(c2.subrange(pstart, pend) =~= c1.subrange(pstart, pend));
                        assert(c2.take(filters_spec(c1, pend, (n - 1) as nat)->end) =~= c1.take(
                            filters_spec(c1, pend, (n - 1) as nat)->end,
                        ));
                        lemma_filters_agree(c1, c2, pend, (n - 1) as nat);
                    },
                    _ => {},
                }
            },
            _ => {},
        }
    }
}

/// Where the variable fields of a staging buffer end: within the
/// buffer.
pub proof fn lemma_fields_bounds(content: Seq<u8>, fl: u8)
    ensures
        content_fields_spec(content, fl) matches FieldsOutcome::Fields { end, .. } ==> 0 <= end
            <= content.len(),
{
    let nf = ((fl & 0x03) + 1) as nat;
    match size_field_spec(content, 0, fl & 0x40 != 0) {
        SizeFieldOutcome::SizeField { value: csized, end: p1 } => {
            if fl & 0x40 != 0 {
                lemma_varint_used_bounds(content.skip(0), 0, 0);
            }
            match size_field_spec(content, p1, fl & 0x80 != 0) {
                SizeFieldOutcome::SizeField { value: usized, end: p2 } => {
                    if fl & 0x80 != 0 {
                        lemma_varint_used_bounds(content.skip(p1), 0, 0);
                    }
                    if 0 <= p2 <= content.len() {
                        lemma_filters_bounds(content, p2, nf);
                    }
                },
                _ => {},
            }
        },
        _ => {},
    }
}

/// The variable fields of a staging buffer read only the bytes up to
/// their own end.
pub proof fn lemma_fields_agree(c1: Seq<u8>, c2: Seq<u8>, fl: u8)
    requires
        c2.len() == c1.len(),
        content_fields_spec(c1, fl) is Fields,
        c2.take(content_fields_spec(c1, fl)->Fields_end) == c1.take(
            content_fields_spec(c1, fl)->Fields_end,
        ),
    ensures
        content_fields_spec(c2, fl) == content_fields_spec(c1, fl),
{
    let end = content_fields_spec(c1, fl)->Fields_end;
    lemma_fields_bounds(c1, fl);
    assert forall|k: int| 0 <= k < end implies c2[k] == c1[k] by {
        assert(c1.take(end)[k] == c1[k]);
        assert(c2.take(end)[k] == c2[k]);
    }
    let nf = ((fl & 0x03) + 1) as nat;
    match size_field_spec(c1, 0, fl & 0x40 != 0) {
        SizeFieldOutcome::SizeField { value: csized, end: p1 } => {
            match size_field_spec(c1, p1, fl & 0x80 != 0) {
                SizeFieldOutcome::SizeField { value: usized, end: p2 } => {
                    if fl & 0x40 != 0 {
                        lemma_varint_used_bounds(c1.skip(0), 0, 0);
                    }
                    if fl & 0x80 != 0 {
                        lemma_varint_used_bounds(c1.skip(p1), 0, 0);
                    }
                    lemma_filters_bounds(c1, p2, nf);
                    if fl & 0x40 != 0 {
                        assert(c2.take(p1) =~= c1.take(p1));
                        lemma_varint_at_agree(c1, c2, 0);
                    }
                    if fl & 0x80 != 0 {
                        assert(c2.take(p2) =~= c1.take(p2));
                        lemma_varint_at_agree(c1, c2, p1);
                    }
                    assert(c2.take(filters_spec(c1, p2, nf)->end) =~= c1.take(
                        filters_spec(c1, p2, nf)->end,
                    ));
                    lemma_filters_agree(c1, c2, p2, nf);
                },
                _ => {},
            }
        },
        _ => {},
    }
}

/// Corrupting a single byte of the padding region of an otherwise valid
/// staging buffer, all other bytes unchanged, turns the parse into
/// `BadPadding`: the fields read only the bytes before the padding, so
/// the parse still reaches the padding check, which sees the byte.
pub proof fn lemma_padding_corruption(content: Seq<u8>, fl: u8, header_size: u16, i: int, b: u8)
    requires
        content_spec(content, fl, header_size) is Block,
        content_fields_spec(content, fl) matches FieldsOutcome::Fields { end, .. } && end <= i
            < content.len() - 4,
        b != 0,
    ensures
        content_spec(content.update(i, b), fl, header_size) == (BlockOutcome::BlockFail {
            kind: XZErrorKind::BadPadding,
            consumed: header_size - 1,
        }),
{
    let end = content_fields_spec(content, fl)->Fields_end;
    lemma_fields_bounds(content, fl);
    let c2 = content.update(i, b);
    assert(c2.take(end) =~= content.take(end));
    lemma_fields_agree(content, c2, fl);
    assert(c2[i] != 0);
}

/// A staging buffer whose fields leave fewer than four bytes fails
/// `BadPadding` rather than reading past the end for a CRC.
pub proof fn lemma_short_padding_rejected(content: Seq<u8>, fl: u8, header_size: u16)
    requires
        content_fields_spec(content, fl) matches FieldsOutcome::Fields { end, .. }
            && content.len() - end < 4,
    ensures
        content_spec(content, fl, header_size) == (BlockOutcome::BlockFail {
            kind: XZErrorKind::BadPadding,
            consumed: header_size - 1,
        }),
{
}

/// The outcome of driving a whole stream: success, or the failing error
/// kind; `consumed` is the byte offset the driver reached either way.
pub enum DriverOutcome {
    Accept { consumed: int },
    Reject { kind: XZErrorKind, consumed: int },
}

/// The block loop from `rest`, with `base` bytes already consumed: one
/// header-size byte, then either the terminal index marker or a block
/// header followed by the next round.
pub open spec fn blocks_spec(rest: Seq<u8>, base: int) -> DriverOutcome
    decreases rest.len(),
{
    if rest.len() == 0 {
        DriverOutcome::Reject { kind: XZErrorKind::IO, consumed: base }
    } else if rest[0] == 0 {
        DriverOutcome::Accept { consumed: base + 1 }
    } else {
        let hs = (rest[0] + 1) * 4;
        match block_header_spec(rest.skip(1), hs as u16) {
            BlockOutcome::BlockFail { kind, consumed } => DriverOutcome::Reject {
                kind,
                consumed: base + 1 + consumed,
            },
            BlockOutcome::Block { .. } => {
                if hs <= rest.len() {
                    blocks_spec(rest.skip(hs), base + hs)
                } else {
                    // never reached: a parsed block header fits in `rest`
                    DriverOutcome::Reject { kind: XZErrorKind::IO, consumed: base + rest.len() }
                }
            },
        }
    }
}

/// Driving a whole stream from `input`: the stream header, then the
/// block loop.
pub open spec fn driver_spec(input: Seq<u8>) -> DriverOutcome {
    match stream_header_spec(input) {
        StreamHeaderOutcome::ShortHeader => DriverOutcome::Reject {
            kind: XZErrorKind::IO,
            consumed: input.len() as int,
        },
        StreamHeaderOutcome::BadMagic => DriverOutcome::Reject {
            kind: XZErrorKind::InvalidHeaderMagic,
            consumed: 12,
        },
        StreamHeaderOutcome::BadFlags => DriverOutcome::Reject {
            kind: XZErrorKind::InvalidFlags,
            consumed: 12,
        },
        StreamHeaderOutcome::StreamParsed { .. } => blocks_spec(input.skip(12), 12),
    }
}

/// A zero header-size byte always sends the driver to the terminal
/// index state, whatever came before it: the loop accepts after that
/// one byte, regardless of how many blocks `base` already covers.
pub proof fn lemma_zero_header_size_is_index(rest: Seq<u8>, base: int)
    requires
        rest.len() > 0,
        rest[0] == 0,
    ensures
        blocks_spec(rest, base) == (DriverOutcome::Accept { consumed: base + 1 }),
{
}

/// Parses a whole stream: the stream header, then block headers until
/// the zero header-size byte that marks the index, as `driver_spec`
/// describes. Every failure is stamped with the byte offset at which it
/// was detected.
#[verifier::loop_isolation(false)]
pub fn parse_xz_stream(reader: &mut CountingReader) -> (r: XZResult<()>)
    requires
        old(reader).wf(),
    ensures
        final(reader).wf(),
        match driver_spec(old(reader).remaining()) {
            DriverOutcome::Accept { consumed } => (r is Ok
                && final(reader).consumed() == old(reader).consumed() + consumed),
            DriverOutcome::Reject { kind, consumed } => (r matches Err(e)
                && e.kind == kind
                && final(reader).consumed() == old(reader).consumed() + consumed
                && e.location == Some((old(reader).consumed() + consumed) as usize)),
        },
{
    let ghost input = old(reader).remaining();
    match XZStreamHeader::from_reader(reader) {
        Ok(_) => {},
        Err(e) => {
            return Err(e.add_count(reader));
        },
    }
    loop
        invariant
            reader.wf(),
            old(reader).consumed() + 12 <= reader.consumed(),
            driver_spec(input) == blocks_spec(
                reader.remaining(),
                reader.consumed() - old(reader).consumed(),
            ),
        decreases reader.remaining().len(),
    {
        let ghost rest = reader.remaining();
        let ghost base = reader.consumed() - old(reader).consumed();
        let hs_byte = match reader.read_byte() {
            Ok(b) => b,
            Err(e) => {
                return Err(e.add_count(reader));
            },
        };
        match HeaderSize(hs_byte).disambiguate() {
            HeaderKind::Index => {
                return Ok(());
            },
            HeaderKind::Block(hs) => {
                proof {
                    assert(((hs_byte as int + 1) * 4) % 4 == 0) by (nonlinear_arith);
                }
                match parse_xz_block(reader, hs) {
                    Ok(()) => {},
                    Err(e) => {
                        return Err(e.add_count(reader));
                    },
                }
                proof {
                    assert(rest.skip(1).skip(hs - 1) =~= rest.skip(hs as int));
                }
            },
        }
    }
}

} // verus!
