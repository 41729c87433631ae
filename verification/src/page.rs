//! The binary layout of a page, its checksum and its validation rules.
//!
//! A page is one physical framing unit of the container.  Its header is
//! `27 + n` bytes long, where `n` is the number of entries in the segment
//! table; the body length is the sum of the segment table's lacing values.
//! The header starts with the four capture-pattern bytes `O g g S`.

use vstd::prelude::*;

use crate::crc::{crc_accumulate, crc_of, crc_update_exec, lemma_crc_accumulate_push};

verus! {

/// Offset of the version byte in a page header.
pub const HEADER_VERSION: usize = 4;

/// Offset of the header-type byte in a page header.
pub const HEADER_TYPE: usize = 5;

/// Offset of the granule position field in a page header.
pub const HEADER_GRANULE_POSITION: usize = 6;

/// Offset of the stream serial number field in a page header.
pub const HEADER_PAGE_SERIAL_NUMBER: usize = 14;

/// Offset of the page sequence number field in a page header.
pub const HEADER_SEQUENCE_NUMBER: usize = 18;

/// Offset of the checksum field in a page header.
pub const HEADER_CHECKSUM: usize = 22;

/// Offset of the segment-count byte in a page header.
pub const HEADER_SEGMENTS: usize = 26;

/// The smallest possible header: one with an empty segment table.
pub const HEADER_SIZE_MIN: usize = 27;

// ------------------------------------------------------------------
// Two's-complement views of the signed header fields.
// ------------------------------------------------------------------

/// The unsigned 64-bit pattern that stores a granule position.
pub open spec fn i64_to_u64(g: i64) -> u64 {
    if g >= 0 {
        g as u64
    } else {
        (g + 0x1_0000_0000_0000_0000) as u64
    }
}

/// The granule position stored by an unsigned 64-bit pattern.
pub open spec fn u64_to_i64(v: u64) -> i64 {
    if v < 0x8000_0000_0000_0000 {
        v as i64
    } else {
        (v - 0x1_0000_0000_0000_0000) as i64
    }
}

/// The unsigned 32-bit pattern that stores a stream serial number.
pub open spec fn i32_to_u32(g: i32) -> u32 {
    if g >= 0 {
        g as u32
    } else {
        (g + 0x1_0000_0000) as u32
    }
}

/// The stream serial number stored by an unsigned 32-bit pattern.
pub open spec fn u32_to_i32(v: u32) -> i32 {
    if v < 0x8000_0000 {
        v as i32
    } else {
        (v - 0x1_0000_0000) as i32
    }
}

/// Storing a granule position and reading it back is the identity.
pub proof fn lemma_i64_u64_roundtrip(g: i64)
    ensures
        u64_to_i64(i64_to_u64(g)) == g,
{
}

/// Storing a stream serial number and reading it back is the identity.
pub proof fn lemma_i32_u32_roundtrip(g: i32)
    ensures
        u32_to_i32(i32_to_u32(g)) == g,
{
}

/// Executable form of `i64_to_u64`.
pub fn i64_to_u64_exec(g: i64) -> (r: u64)
    ensures
        r == i64_to_u64(g),
{
    if g >= 0 {
        g as u64
    } else {
        ((g - i64::MIN) as u64) + 0x8000_0000_0000_0000u64
    }
}

/// Executable form of `u64_to_i64`.
pub fn u64_to_i64_exec(v: u64) -> (r: i64)
    ensures
        r == u64_to_i64(v),
{
    if v < 0x8000_0000_0000_0000u64 {
        v as i64
    } else {
        ((v - 0x8000_0000_0000_0000u64) as i64) + i64::MIN
    }
}

/// Executable form of `i32_to_u32`.
pub fn i32_to_u32_exec(g: i32) -> (r: u32)
    ensures
        r == i32_to_u32(g),
{
    if g >= 0 {
        g as u32
    } else {
        ((g - i32::MIN) as u32) + 0x8000_0000u32
    }
}

/// Executable form of `u32_to_i32`.
pub fn u32_to_i32_exec(v: u32) -> (r: i32)
    ensures
        r == u32_to_i32(v),
{
    if v < 0x8000_0000u32 {
        v as i32
    } else {
        ((v - 0x8000_0000u32) as i32) + i32::MIN
    }
}

// ------------------------------------------------------------------
// Header layout, as functions of the raw header bytes.
// ------------------------------------------------------------------

/// Whether the sequence starts with the capture pattern `O g g S`.
pub open spec fn starts_with_capture(s: Seq<u8>) -> bool {
    &&& s.len() >= 4
    &&& s[0] == 0x4f
    &&& s[1] == 0x67
    &&& s[2] == 0x67
    &&& s[3] == 0x53
}

/// The sum of a sequence of lacing values.
pub open spec fn lace_sum(t: Seq<u8>) -> nat
    decreases t.len(),
{
    if t.len() == 0 {
        0
    } else {
        (lace_sum(t.drop_last()) + t.last()) as nat
    }
}

/// How many lacing values in `t` end a packet (are below 255).
pub open spec fn count_boundaries(t: Seq<u8>) -> nat
    decreases t.len(),
{
    if t.len() == 0 {
        0
    } else {
        count_boundaries(t.drop_last()) + if t.last() < 255 {
            1nat
        } else {
            0nat
        }
    }
}

/// The version byte of a header.
pub open spec fn spec_version(h: Seq<u8>) -> u8 {
    h[4]
}

/// The header-type byte of a header.
pub open spec fn spec_header_type(h: Seq<u8>) -> u8 {
    h[5]
}

/// Whether the header's type byte marks the page as continuing a packet
/// from the previous page of its logical stream.
pub open spec fn spec_continued(h: Seq<u8>) -> bool {
    h[5] & 0x01 != 0
}

/// Whether the header's type byte marks the page as the first page of its
/// logical stream.
pub open spec fn spec_bos(h: Seq<u8>) -> bool {
    h[5] & 0x02 != 0
}

/// Whether the header's type byte marks the page as the last page of its
/// logical stream.
pub open spec fn spec_eos(h: Seq<u8>) -> bool {
    h[5] & 0x04 != 0
}

/// The granule position field of a header.
pub open spec fn spec_granule(h: Seq<u8>) -> i64 {
    u64_to_i64(vstd::bytes::spec_u64_from_le_bytes(h.subrange(6, 14)))
}

/// The stream serial number field of a header.
pub open spec fn spec_serial(h: Seq<u8>) -> i32 {
    u32_to_i32(vstd::bytes::spec_u32_from_le_bytes(h.subrange(14, 18)))
}

/// The page sequence number field of a header.
pub open spec fn spec_seqno(h: Seq<u8>) -> u32 {
    vstd::bytes::spec_u32_from_le_bytes(h.subrange(18, 22))
}

/// The checksum field of a header.
pub open spec fn spec_crc_field(h: Seq<u8>) -> u32 {
    vstd::bytes::spec_u32_from_le_bytes(h.subrange(22, 26))
}

/// The number of entries in the segment table of a header.
pub open spec fn spec_nsegs(h: Seq<u8>) -> int {
    h[26] as int
}

/// The segment table of a header.
pub open spec fn spec_segs(h: Seq<u8>) -> Seq<u8> {
    h.subrange(27, h.len() as int)
}

/// A structurally well-formed header: capture pattern, version zero, and
/// a length that exactly matches the declared segment count.
pub open spec fn header_wf(h: Seq<u8>) -> bool {
    &&& h.len() == 27 + h[26]
    &&& starts_with_capture(h)
    &&& h[4] == 0
}

/// A structurally well-formed page: the body length is the sum of the
/// lacing values of a well-formed header.
pub open spec fn page_wf(h: Seq<u8>, b: Seq<u8>) -> bool {
    &&& header_wf(h)
    &&& b.len() == lace_sum(spec_segs(h))
}

// ------------------------------------------------------------------
// The page checksum.
// ------------------------------------------------------------------

/// The header with its checksum field replaced by zero bytes, the form
/// over which the page checksum is computed.
pub open spec fn zero_crc_header(h: Seq<u8>) -> Seq<u8> {
    h.update(22, 0u8).update(23, 0u8).update(24, 0u8).update(25, 0u8)
}

/// The checksum of a page: the checksum of the header with a zeroed
/// checksum field, followed by the body.
pub open spec fn spec_page_checksum(h: Seq<u8>, b: Seq<u8>) -> u32 {
    crc_of(zero_crc_header(h) + b)
}

/// Whether the checksum stored in the header matches the page contents.
pub open spec fn checksum_ok(h: Seq<u8>, b: Seq<u8>) -> bool {
    spec_crc_field(h) == spec_page_checksum(h, b)
}

/// The checksum is a function of the header with its checksum field
/// zeroed, and of the body: whatever checksum bytes two headers carry,
/// if they agree elsewhere they produce the same page checksum.
pub proof fn lemma_checksum_ignores_crc_field(h1: Seq<u8>, h2: Seq<u8>, b: Seq<u8>)
    requires
        zero_crc_header(h1) == zero_crc_header(h2),
    ensures
        spec_page_checksum(h1, b) == spec_page_checksum(h2, b),
{
}

/// Checksum determinism: the page checksum is a pure function of the
/// header with its checksum field zeroed and of the body; identical
/// inputs always give identical output.
pub proof fn lemma_checksum_deterministic(h1: Seq<u8>, b1: Seq<u8>, h2: Seq<u8>, b2: Seq<u8>)
    requires
        zero_crc_header(h1) == zero_crc_header(h2),
        b1 == b2,
    ensures
        spec_page_checksum(h1, b1) == spec_page_checksum(h2, b2),
{
}

/// Compute the checksum of a page from its raw header and body, treating
/// the checksum field in the header as zero.
pub fn compute_checksum(header: &[u8], body: &[u8]) -> (r: u32)
    requires
        header@.len() >= 27,
    ensures
        r == spec_page_checksum(header@, body@),
{
    let ghost zh: Seq<u8> = zero_crc_header(header@);
    let mut acc: u32 = 0;
    let mut i: usize = 0;
    while i < header.len()
        invariant
            i <= header@.len(),
            header@.len() >= 27,
            zh == zero_crc_header(header@),
            acc == crc_accumulate(0, zh.take(i as int)),
        decreases header@.len() - i,
    {
        let byte: u8 = if 22 <= i && i < 26 {
            0
        } else {
            header[i]
        };
        proof {
            assert(zh[i as int] == byte);
            assert(zh.take(i as int + 1) =~= zh.take(i as int).push(zh[i as int]));
            lemma_crc_accumulate_push(0, zh.take(i as int), zh[i as int]);
        }
        acc = crc_update_exec(acc, byte);
        i = i + 1;
    }
    proof {
        assert(zh.take(header@.len() as int) =~= zh);
    }
    let mut j: usize = 0;
    while j < body.len()
        invariant
            j <= body@.len(),
            zh == zero_crc_header(header@),
            acc == crc_accumulate(0, zh + body@.take(j as int)),
        decreases body@.len() - j,
    {
        proof {
            assert((zh + body@.take(j as int + 1)) =~= (zh + body@.take(j as int)).push(
                body@[j as int],
            ));
            lemma_crc_accumulate_push(0, zh + body@.take(j as int), body@[j as int]);
        }
        acc = crc_update_exec(acc, body[j]);
        j = j + 1;
    }
    proof {
        assert(zh + body@.take(body@.len() as int) =~= zh + body@);
    }
    acc
}

// ------------------------------------------------------------------
// Validation.
// ------------------------------------------------------------------

/// Error describing why a raw header was rejected.
#[derive(Clone, Copy, Debug, PartialEq, Eq)]
pub enum InvalidPageHeader {
    /// The first four bytes were not the capture pattern `O g g S`.
    NoMagicString,
    /// The version byte was not zero; it carries the offending value.
    BadVersion(u8),
    /// The header had fewer bytes than the fixed 27-byte prefix.
    TooShort,
}

/// Error describing why raw header and body bytes do not form a page.
#[derive(Clone, Copy, Debug, PartialEq, Eq)]
pub enum InvalidPage {
    /// The header failed validation on its own.
    InvalidHeader(InvalidPageHeader),
    /// The header length does not match the declared segment count.
    WrongHeaderLength,
    /// The body length does not match the sum of the lacing values.
    WrongBodyLength,
}

/// Check the fixed prefix of a raw header: enough bytes, the capture
/// pattern, and version zero.
pub fn validate_header(header: &[u8]) -> (r: Result<(), InvalidPageHeader>)
    ensures
        match r {
            Ok(()) => header@.len() >= 27 && starts_with_capture(header@) && header@[4] == 0,
            Err(InvalidPageHeader::TooShort) => header@.len() < 27,
            Err(InvalidPageHeader::NoMagicString) => header@.len() >= 27 && !starts_with_capture(
                header@,
            ),
            Err(InvalidPageHeader::BadVersion(v)) => header@.len() >= 27 && starts_with_capture(
                header@,
            ) && header@[4] == v && v != 0,
        },
{
    if header.len() < HEADER_SIZE_MIN {
        return Err(InvalidPageHeader::TooShort);
    }
    if !(header[0] == 0x4f && header[1] == 0x67 && header[2] == 0x67 && header[3] == 0x53) {
        return Err(InvalidPageHeader::NoMagicString);
    }
    if header[HEADER_VERSION] != 0 {
        return Err(InvalidPageHeader::BadVersion(header[HEADER_VERSION]));
    }
    Ok(())
}

// ------------------------------------------------------------------
// The Page record.
// ------------------------------------------------------------------

/// The mathematical contents of a page: its raw header and body bytes.
pub struct PageView {
    /// The raw header bytes.
    pub header: Seq<u8>,
    /// The raw body bytes.
    pub body: Seq<u8>,
}

/// One physical framing unit of the container, owning its raw header and
/// body bytes.  Every page handed out or accepted by this library is
/// structurally well formed (`wf`).
#[derive(Debug)]
pub struct Page {
    header: Vec<u8>,
    body: Vec<u8>,
}

impl View for Page {
    type V = PageView;

    closed spec fn view(&self) -> PageView {
        PageView { header: self.header@, body: self.body@ }
    }
}

impl Page {
    /// Structural well-formedness of this page.
    pub open spec fn wf(&self) -> bool {
        page_wf(self@.header, self@.body)
    }

    /// Build a page from raw parts without validation; the caller proves
    /// well-formedness.
    pub(crate) fn from_parts(header: Vec<u8>, body: Vec<u8>) -> (p: Page)
        requires
            page_wf(header@, body@),
        ensures
            p@.header == header@,
            p@.body == body@,
            p.wf(),
    {
        Page { header, body }
    }

    /// Try to build a page from raw header and body bytes, validating the
    /// header prefix, the header length and the body length.
    pub fn try_from(header: Vec<u8>, body: Vec<u8>) -> (r: Result<Page, InvalidPage>)
        ensures
            match r {
                Ok(p) => {
                    &&& p@.header == header@
                    &&& p@.body == body@
                    &&& p.wf()
                },
                Err(InvalidPage::InvalidHeader(e)) => !(header@.len() >= 27 && starts_with_capture(
                    header@,
                ) && header@[4] == 0),
                Err(InvalidPage::WrongHeaderLength) => header@.len() >= 27 && starts_with_capture(
                    header@,
                ) && header@[4] == 0 && header@.len() != 27 + header@[26],
                Err(InvalidPage::WrongBodyLength) => header_wf(header@) && body@.len() != lace_sum(
                    spec_segs(header@),
                ),
            },
            r.is_ok() <==> page_wf(header@, body@),
    {
        match validate_header(header.as_slice()) {
            Err(e) => {
                return Err(InvalidPage::InvalidHeader(e));
            },
            Ok(()) => {},
        }
        let nsegs: usize = header[HEADER_SEGMENTS] as usize;
        if header.len() != HEADER_SIZE_MIN + nsegs {
            return Err(InvalidPage::WrongHeaderLength);
        }
        let total: usize = segment_table_sum(header.as_slice(), HEADER_SIZE_MIN, nsegs);
        proof {
            assert(header@.subrange(27int, (27 + nsegs) as int) =~= spec_segs(header@));
        }
        if body.len() != total {
            return Err(InvalidPage::WrongBodyLength);
        }
        Ok(Page { header, body })
    }

    /// A minimal blank page: an empty segment table, an empty body, all
    /// numeric fields zero, and a correct checksum.
    pub fn new() -> (p: Page)
        ensures
            p.wf(),
            checksum_ok(p@.header, p@.body),
            spec_segs(p@.header).len() == 0,
            p@.body.len() == 0,
            spec_header_type(p@.header) == 0,
            spec_granule(p@.header) == 0,
            spec_serial(p@.header) == 0,
            spec_seqno(p@.header) == 0,
    {
        let segs: Vec<u8> = Vec::new();
        let body: Vec<u8> = Vec::new();
        build_page(0, 0, 0, 0, segs, body)
    }

    /// The raw header bytes.
    pub fn header(&self) -> (r: &[u8])
        ensures
            r@ == self@.header,
    {
        self.header.as_slice()
    }

    /// The raw body bytes.
    pub fn data(&self) -> (r: &[u8])
        ensures
            r@ == self@.body,
    {
        self.body.as_slice()
    }

    /// Replace the body bytes; rejected unless the new body's length
    /// matches the header's lacing values.
    pub fn set_data(&mut self, data: Vec<u8>) -> (r: Result<(), InvalidPage>)
        requires
            old(self).wf(),
        ensures
            final(self).wf(),
            match r {
                Ok(()) => final(self)@.header == old(self)@.header && final(self)@.body == data@
                    && data@.len() == lace_sum(spec_segs(old(self)@.header)),
                Err(e) => final(self)@ == old(self)@ && e == InvalidPage::WrongBodyLength
                    && data@.len() != lace_sum(spec_segs(old(self)@.header)),
            },
    {
        let nsegs: usize = self.header[HEADER_SEGMENTS] as usize;
        let total: usize = segment_table_sum(self.header.as_slice(), HEADER_SIZE_MIN, nsegs);
        proof {
            assert(self@.header.subrange(27int, (27 + nsegs) as int) =~= spec_segs(self@.header));
        }
        if data.len() != total {
            return Err(InvalidPage::WrongBodyLength);
        }
        self.body = data;
        Ok(())
    }

    /// Replace the header bytes; rejected unless the new header is well
    /// formed and its lacing values match the current body's length.
    pub fn set_header(&mut self, header: Vec<u8>) -> (r: Result<(), InvalidPage>)
        requires
            old(self).wf(),
        ensures
            final(self).wf(),
            match r {
                Ok(()) => final(self)@.body == old(self)@.body && final(self)@.header == header@
                    && page_wf(header@, old(self)@.body),
                Err(e) => final(self)@ == old(self)@ && !page_wf(header@, old(self)@.body),
            },
    {
        match validate_header(header.as_slice()) {
            Err(e) => {
                return Err(InvalidPage::InvalidHeader(e));
            },
            Ok(()) => {},
        }
        let nsegs: usize = header[HEADER_SEGMENTS] as usize;
        if header.len() != HEADER_SIZE_MIN + nsegs {
            return Err(InvalidPage::WrongHeaderLength);
        }
        let total: usize = segment_table_sum(header.as_slice(), HEADER_SIZE_MIN, nsegs);
        proof {
            assert(header@.subrange(27int, (27 + nsegs) as int) =~= spec_segs(header@));
        }
        if self.body.len() != total {
            return Err(InvalidPage::WrongBodyLength);
        }
        self.header = header;
        Ok(())
    }

    /// The version byte; zero on every well-formed page.
    pub fn version(&self) -> (r: u8)
        requires
            self.wf(),
        ensures
            r == spec_version(self@.header),
    {
        self.header[HEADER_VERSION]
    }

    /// The header-type byte.  Bit 0 marks a page continuing a packet from
    /// the previous page, bit 1 the first page of a logical stream, bit 2
    /// the last page of a logical stream.
    pub fn header_type(&self) -> (r: u8)
        requires
            self.wf(),
        ensures
            r == spec_header_type(self@.header),
    {
        self.header[HEADER_TYPE]
    }

    /// Whether this page continues a packet from the previous page of its
    /// logical stream.
    pub fn continues_packet(&self) -> (r: bool)
        requires
            self.wf(),
        ensures
            r == spec_continued(self@.header),
    {
        self.header[HEADER_TYPE] & 0x01 != 0
    }

    /// Whether this page is the first page of its logical stream.
    pub fn begins_logical_stream(&self) -> (r: bool)
        requires
            self.wf(),
        ensures
            r == spec_bos(self@.header),
    {
        self.header[HEADER_TYPE] & 0x02 != 0
    }

    /// Whether this page is the last page of its logical stream.
    pub fn ends_logical_stream(&self) -> (r: bool)
        requires
            self.wf(),
        ensures
            r == spec_eos(self@.header),
    {
        self.header[HEADER_TYPE] & 0x04 != 0
    }

    /// The absolute granule position carried by this page; -1 means
    /// undetermined.
    pub fn absgp(&self) -> (r: i64)
        requires
            self.wf(),
        ensures
            r == spec_granule(self@.header),
    {
        let field = vstd::slice::slice_subrange(
            self.header.as_slice(),
            HEADER_GRANULE_POSITION,
            HEADER_GRANULE_POSITION + 8,
        );
        u64_to_i64_exec(vstd::bytes::u64_from_le_bytes(field))
    }

    /// The serial number of the logical stream this page belongs to.
    pub fn stream_serial(&self) -> (r: i32)
        requires
            self.wf(),
        ensures
            r == spec_serial(self@.header),
    {
        let field = vstd::slice::slice_subrange(
            self.header.as_slice(),
            HEADER_PAGE_SERIAL_NUMBER,
            HEADER_PAGE_SERIAL_NUMBER + 4,
        );
        u32_to_i32_exec(vstd::bytes::u32_from_le_bytes(field))
    }

    /// The sequence number of this page within its logical stream, used
    /// to detect lost pages.
    pub fn index(&self) -> (r: u32)
        requires
            self.wf(),
        ensures
            r == spec_seqno(self@.header),
    {
        let field = vstd::slice::slice_subrange(
            self.header.as_slice(),
            HEADER_SEQUENCE_NUMBER,
            HEADER_SEQUENCE_NUMBER + 4,
        );
        vstd::bytes::u32_from_le_bytes(field)
    }

    /// The checksum stored in this page's header.
    pub fn crc_checksum(&self) -> (r: u32)
        requires
            self.wf(),
        ensures
            r == spec_crc_field(self@.header),
    {
        let field = vstd::slice::slice_subrange(
            self.header.as_slice(),
            HEADER_CHECKSUM,
            HEADER_CHECKSUM + 4,
        );
        vstd::bytes::u32_from_le_bytes(field)
    }

    /// How many packets complete on this page: the number of lacing
    /// values below 255.  This counts packets that began on an earlier
    /// page, and is zero when a packet spans the whole page.
    pub fn finished_packets(&self) -> (r: u8)
        requires
            self.wf(),
        ensures
            r == count_boundaries(spec_segs(self@.header)),
    {
        let ghost segs: Seq<u8> = spec_segs(self@.header);
        proof {
            lemma_count_boundaries_le_len(segs);
        }
        let mut count: usize = 0;
        let mut i: usize = HEADER_SIZE_MIN;
        while i < self.header.len()
            invariant
                self.wf(),
                27 <= i <= self@.header.len(),
                segs == spec_segs(self@.header),
                count == count_boundaries(segs.take(i - 27)),
                count_boundaries(segs.take(i - 27)) <= segs.take(i - 27).len(),
            decreases self@.header.len() - i,
        {
            proof {
                assert(segs.take(i - 27 + 1) =~= segs.take(i - 27).push(segs[i - 27]));
                assert(segs.take(i - 27 + 1).drop_last() =~= segs.take(i - 27));
                assert(segs.take(i - 27 + 1).last() == segs[i - 27]);
                assert(segs[i - 27] == self@.header[i as int]);
                lemma_count_boundaries_le_len(segs.take(i - 27 + 1));
            }
            if self.header[i] < 255 {
                count = count + 1;
            }
            i = i + 1;
        }
        proof {
            assert(segs.take(segs.len() as int) =~= segs);
        }
        count as u8
    }

    /// Recompute the checksum from the current header and body and store
    /// it in the header's checksum field.
    pub fn set_crc_checksum(&mut self)
        requires
            old(self).wf(),
        ensures
            final(self).wf(),
            final(self)@.body == old(self)@.body,
            zero_crc_header(final(self)@.header) == zero_crc_header(old(self)@.header),
            final(self)@.header.len() == old(self)@.header.len(),
            spec_segs(final(self)@.header) == spec_segs(old(self)@.header),
            spec_header_type(final(self)@.header) == spec_header_type(old(self)@.header),
            spec_granule(final(self)@.header) == spec_granule(old(self)@.header),
            spec_serial(final(self)@.header) == spec_serial(old(self)@.header),
            spec_seqno(final(self)@.header) == spec_seqno(old(self)@.header),
            checksum_ok(final(self)@.header, final(self)@.body),
    {
        let crc: u32 = compute_checksum(self.header.as_slice(), self.body.as_slice());
        let bytes: Vec<u8> = vstd::bytes::u32_to_le_bytes(crc);
        self.header.set(HEADER_CHECKSUM, bytes[0]);
        self.header.set(HEADER_CHECKSUM + 1, bytes[1]);
        self.header.set(HEADER_CHECKSUM + 2, bytes[2]);
        self.header.set(HEADER_CHECKSUM + 3, bytes[3]);
        proof {
            let oldh = old(self)@.header;
            let newh = self@.header;
            assert(zero_crc_header(newh) =~= zero_crc_header(oldh));
            assert(spec_segs(newh) =~= spec_segs(oldh));
            assert(newh.subrange(6, 14) =~= oldh.subrange(6, 14));
            assert(newh.subrange(14, 18) =~= oldh.subrange(14, 18));
            assert(newh.subrange(18, 22) =~= oldh.subrange(18, 22));
            assert(newh.subrange(22, 26) =~= vstd::bytes::spec_u32_to_le_bytes(crc));
            vstd::bytes::lemma_auto_spec_u32_to_from_le_bytes();
            lemma_checksum_ignores_crc_field(newh, oldh, self@.body);
        }
    }
}

/// Cloning a page copies its raw bytes.
impl Clone for Page {
    fn clone(&self) -> (r: Self)
        ensures
            r@ == self@,
            self.wf() ==> r.wf(),
    {
        let r = Page { header: clone_bytes(&self.header), body: clone_bytes(&self.body) };
        proof {
            assert(r@ =~= self@);
        }
        r
    }
}

/// Copy a byte vector.
pub(crate) fn clone_bytes(v: &Vec<u8>) -> (r: Vec<u8>)
    ensures
        r@ == v@,
{
    let mut r: Vec<u8> = Vec::new();
    let mut i: usize = 0;
    while i < v.len()
        invariant
            i <= v@.len(),
            r@ == v@.take(i as int),
        decreases v@.len() - i,
    {
        proof {
            assert(v@.take(i as int + 1) =~= v@.take(i as int).push(v@[i as int]));
        }
        r.push(v[i]);
        i = i + 1;
    }
    proof {
        assert(v@.take(v@.len() as int) =~= v@);
    }
    r
}

/// There are at most as many packet boundaries in a segment table as
/// there are entries.
pub proof fn lemma_count_boundaries_le_len(t: Seq<u8>)
    ensures
        count_boundaries(t) <= t.len(),
    decreases t.len(),
{
    if t.len() > 0 {
        lemma_count_boundaries_le_len(t.drop_last());
    }
}

/// Sum `count` lacing values of `bytes` starting at offset `start`.
/// The result is at most 255 * 255 and so fits comfortably in usize.
pub(crate) fn segment_table_sum(bytes: &[u8], start: usize, count: usize) -> (r: usize)
    requires
        start + count <= bytes@.len(),
        count <= 255,
    ensures
        r == lace_sum(bytes@.subrange(start as int, (start + count) as int)),
        r <= 255 * 255,
{
    let ghost whole: Seq<u8> = bytes@.subrange(start as int, (start + count) as int);
    let n: usize = bytes.len();
    let mut total: usize = 0;
    let mut i: usize = 0;
    while i < count
        invariant
            i <= count,
            count <= 255,
            n == bytes@.len(),
            start + count <= n,
            whole == bytes@.subrange(start as int, (start + count) as int),
            total == lace_sum(whole.take(i as int)),
            total <= 255 * i,
        decreases count - i,
    {
        proof {
            assert(whole.take(i as int + 1) =~= whole.take(i as int).push(whole[i as int]));
            assert(whole.take(i as int + 1).drop_last() =~= whole.take(i as int));
            assert(whole[i as int] == bytes@[start + i]);
        }
        total = total + bytes[start + i] as usize;
        i = i + 1;
    }
    proof {
        assert(whole.take(count as int) =~= whole);
    }
    total
}

/// The raw bytes of a header with the given fields: capture pattern,
/// version zero, the type byte, the three little-endian numeric fields,
/// the checksum field, the segment count and the segment table.
pub open spec fn spec_header_bytes(
    htype: u8,
    granule: i64,
    serial: i32,
    seqno: u32,
    crc: u32,
    segs: Seq<u8>,
) -> Seq<u8> {
    seq![0x4fu8, 0x67u8, 0x67u8, 0x53u8, 0u8, htype] + vstd::bytes::spec_u64_to_le_bytes(
        i64_to_u64(granule),
    ) + vstd::bytes::spec_u32_to_le_bytes(i32_to_u32(serial)) + vstd::bytes::spec_u32_to_le_bytes(
        seqno,
    ) + vstd::bytes::spec_u32_to_le_bytes(crc) + seq![segs.len() as u8] + segs
}

/// Reading the fields back out of `spec_header_bytes` gives the fields
/// that were put in.
pub proof fn lemma_header_bytes_fields(
    htype: u8,
    granule: i64,
    serial: i32,
    seqno: u32,
    crc: u32,
    segs: Seq<u8>,
)
    requires
        segs.len() <= 255,
    ensures
        ({
            let h = spec_header_bytes(htype, granule, serial, seqno, crc, segs);
            &&& h.len() == 27 + segs.len()
            &&& header_wf(h)
            &&& spec_version(h) == 0
            &&& spec_header_type(h) == htype
            &&& spec_granule(h) == granule
            &&& spec_serial(h) == serial
            &&& spec_seqno(h) == seqno
            &&& spec_crc_field(h) == crc
            &&& spec_nsegs(h) == segs.len()
            &&& spec_segs(h) == segs
        }),
{
    let h = spec_header_bytes(htype, granule, serial, seqno, crc, segs);
    vstd::bytes::lemma_auto_spec_u64_to_from_le_bytes();
    vstd::bytes::lemma_auto_spec_u32_to_from_le_bytes();
    let gb = vstd::bytes::spec_u64_to_le_bytes(i64_to_u64(granule));
    let sb = vstd::bytes::spec_u32_to_le_bytes(i32_to_u32(serial));
    let qb = vstd::bytes::spec_u32_to_le_bytes(seqno);
    let cb = vstd::bytes::spec_u32_to_le_bytes(crc);
    assert(h.len() == 27 + segs.len());
    assert(h.subrange(6, 14) =~= gb);
    assert(h.subrange(14, 18) =~= sb);
    assert(h.subrange(18, 22) =~= qb);
    assert(h.subrange(22, 26) =~= cb);
    assert(h.subrange(27, h.len() as int) =~= segs);
    assert(h[26] == segs.len() as u8);
    lemma_i64_u64_roundtrip(granule);
    lemma_i32_u32_roundtrip(serial);
}

/// Build a page from its fields: encode the header with a zero checksum
/// field, then compute and store the real checksum.
pub fn build_page(
    htype: u8,
    granule: i64,
    serial: i32,
    seqno: u32,
    segs: Vec<u8>,
    body: Vec<u8>,
) -> (p: Page)
    requires
        segs@.len() <= 255,
        body@.len() == lace_sum(segs@),
    ensures
        p.wf(),
        checksum_ok(p@.header, p@.body),
        p@.body == body@,
        spec_segs(p@.header) == segs@,
        spec_header_type(p@.header) == htype,
        spec_granule(p@.header) == granule,
        spec_serial(p@.header) == serial,
        spec_seqno(p@.header) == seqno,
        p@.header.len() == 27 + segs@.len(),
{
    let mut header: Vec<u8> = Vec::new();
    header.push(0x4f);
    header.push(0x67);
    header.push(0x67);
    header.push(0x53);
    header.push(0);
    header.push(htype);
    let mut gb: Vec<u8> = vstd::bytes::u64_to_le_bytes(i64_to_u64_exec(granule));
    header.append(&mut gb);
    let mut sb: Vec<u8> = vstd::bytes::u32_to_le_bytes(i32_to_u32_exec(serial));
    header.append(&mut sb);
    let mut qb: Vec<u8> = vstd::bytes::u32_to_le_bytes(seqno);
    header.append(&mut qb);
    let mut cb: Vec<u8> = vstd::bytes::u32_to_le_bytes(0);
    header.append(&mut cb);
    header.push(segs.len() as u8);
    let mut tail: Vec<u8> = segs;
    header.append(&mut tail);
    proof {
        vstd::bytes::lemma_auto_spec_u64_to_from_le_bytes();
        vstd::bytes::lemma_auto_spec_u32_to_from_le_bytes();
        assert(header@ =~= spec_header_bytes(htype, granule, serial, seqno, 0, segs@));
        lemma_header_bytes_fields(htype, granule, serial, seqno, 0, segs@);
    }
    let mut p = Page { header, body };
    proof {
        assert(p.wf());
    }
    p.set_crc_checksum();
    proof {
        let h0 = spec_header_bytes(htype, granule, serial, seqno, 0, segs@);
        let h1 = p@.header;
        assert(spec_segs(h1) == spec_segs(h0));
        lemma_header_bytes_fields(htype, granule, serial, seqno, 0, segs@);
    }
    p
}

} // verus!
