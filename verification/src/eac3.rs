//! E-AC-3 sync frames and the metadata blocks inside them.
//!
//! Audio coding is left to an outside decoder. This module owns frame timing and
//! the payloads that ride in the auxiliary data of a sync frame. A metadata block
//! starts with a sync word that is aligned to bytes of the auxiliary stream, and
//! that stream can begin at any bit of the frame, so all eight alignments are
//! searched.

pub use crate::bits::BitReader;
use crate::bits::{
    bits_value, bytes_at, law_aligned_bits_spell_their_byte, law_reads_compose, stream_error, Bits,
};
use crate::error::{AppError, Reason};
use crate::text::{around, decimal, digits, text_around, text_pair};
use vstd::prelude::*;

verus! {

pub const EAC3_SYNC_WORD: u64 = 0x0b77;

pub const EMDF_SYNC_WORD: u64 = 0x5838;

pub const MAX_SYNC_FRAME_BYTES: usize = 4096;

pub const MAX_EMDF_PAYLOAD_BYTES: u32 = 0x10_0000;

pub const HEADER_BYTES: usize = 7;

/// The machine width that a bit field has to fit.
#[derive(Clone, Copy, Debug, PartialEq, Eq, Structural)]
pub enum FieldWidth {
    Byte,
    Short,
    Word,
    Address,
}

impl FieldWidth {
    /// The largest value of the width.
    pub open spec fn maximum(self) -> nat {
        match self {
            FieldWidth::Byte => 0xff,
            FieldWidth::Short => 0xffff,
            FieldWidth::Word => 0xffff_ffff,
            FieldWidth::Address => usize::MAX as nat,
        }
    }

    pub open spec fn name(self) -> Seq<char> {
        match self {
            FieldWidth::Byte => "u8"@,
            FieldWidth::Short => "u16"@,
            FieldWidth::Word => "u32"@,
            FieldWidth::Address => "usize"@,
        }
    }

    fn label(&self) -> (r: &'static str)
        ensures
            r@ == self.name(),
    {
        match self {
            FieldWidth::Byte => "u8",
            FieldWidth::Short => "u16",
            FieldWidth::Word => "u32",
            FieldWidth::Address => "usize",
        }
    }
}

/// A malformed E-AC-3 stream or bit field.
#[derive(Clone, Copy, Debug, PartialEq, Eq, Structural)]
pub enum StreamFault {
    Truncated { position: usize, limit: usize, requested: usize, remaining: usize },
    FieldTooWide { width: FieldWidth },
    InvalidLimit,
    PositionPastLimit,
    SignedWidth,
    SkipPastEnd,
    VariableWidth,
    VariableOverflow,
    MissingSyncWord,
    ReservedStreamType,
    FrameLength { bytes: usize },
    ReservedReducedRate,
    NotEac3 { bitstream_id: u8 },
    EndsInHeader { read: usize },
    EndsInFrame { frame: u64, expected: usize },
    RateChange { known: u32, found: u32 },
    TimelineOverflow,
    FrameCountOverflow,
}

impl StreamFault {
    /// What the fault says behind the common prefix.
    pub open spec fn detail(self) -> Seq<char> {
        match self {
            StreamFault::Truncated { position, limit, requested, remaining } => {
                "truncated bitstream at bit "@ + digits(position as nat) + " of "@ + digits(
                    limit as nat,
                ) + ": requested "@ + digits(requested as nat) + " bits with "@ + digits(
                    remaining as nat,
                ) + " remaining"@
            },
            StreamFault::FieldTooWide { width } => {
                "bit field does not fit in "@ + width.name()
                    + ": out of range integral type conversion attempted"@
            },
            StreamFault::InvalidLimit => "invalid bit-reader limit"@,
            StreamFault::PositionPastLimit => "bit-reader position exceeds its limit"@,
            StreamFault::SignedWidth => "invalid signed bit-field width"@,
            StreamFault::SkipPastEnd => "truncated bitstream while skipping a field"@,
            StreamFault::VariableWidth => "invalid variable-field chunk width"@,
            StreamFault::VariableOverflow => "variable-length value overflowed"@,
            StreamFault::MissingSyncWord => "missing E-AC-3 sync word"@,
            StreamFault::ReservedStreamType => "reserved E-AC-3 stream type"@,
            StreamFault::FrameLength { bytes } => around(
                "invalid E-AC-3 frame length: "@,
                bytes as nat,
                " bytes"@,
            ),
            StreamFault::ReservedReducedRate => "reserved reduced E-AC-3 sample rate"@,
            StreamFault::NotEac3 { bitstream_id } => around(
                "sync frame is not E-AC-3 (bitstream ID "@,
                bitstream_id as nat,
                ")"@,
            ),
            StreamFault::EndsInHeader { read } => around(
                "E-AC-3 stream ended inside a sync-frame header after "@,
                read as nat,
                " bytes"@,
            ),
            StreamFault::EndsInFrame { frame, expected } => {
                "E-AC-3 stream ended inside frame "@ + digits(frame as nat) + " (expected "@
                    + digits(expected as nat) + " bytes)"@
            },
            StreamFault::RateChange { known, found } => {
                "E-AC-3 sample rate changes from "@ + digits(known as nat) + " to "@ + digits(
                    found as nat,
                ) + " within the stream"@
            },
            StreamFault::TimelineOverflow => "E-AC-3 sample timeline overflowed"@,
            StreamFault::FrameCountOverflow => "E-AC-3 frame count overflowed"@,
        }
    }

    pub open spec fn text(self) -> Seq<char> {
        "invalid E-AC-3 metadata: "@ + self.detail()
    }

    fn worded(&self) -> (r: String)
        ensures
            r@ == self.detail(),
    {
        match self {
            StreamFault::Truncated { position, limit, requested, remaining } => {
                let mut r = text_around("truncated bitstream at bit ", *position as u64, " of ");
                r.append(decimal(*limit as u64).as_str());
                r.append(": requested ");
                r.append(decimal(*requested as u64).as_str());
                r.append(" bits with ");
                r.append(decimal(*remaining as u64).as_str());
                r.append(" remaining");
                r
            },
            StreamFault::FieldTooWide { width } => {
                let mut r = text_pair("bit field does not fit in ", width.label());
                r.append(": out of range integral type conversion attempted");
                r
            },
            StreamFault::InvalidLimit => String::from_str("invalid bit-reader limit"),
            StreamFault::PositionPastLimit => String::from_str(
                "bit-reader position exceeds its limit",
            ),
            StreamFault::SignedWidth => String::from_str("invalid signed bit-field width"),
            StreamFault::SkipPastEnd => String::from_str(
                "truncated bitstream while skipping a field",
            ),
            StreamFault::VariableWidth => String::from_str("invalid variable-field chunk width"),
            StreamFault::VariableOverflow => String::from_str("variable-length value overflowed"),
            StreamFault::MissingSyncWord => String::from_str("missing E-AC-3 sync word"),
            StreamFault::ReservedStreamType => String::from_str("reserved E-AC-3 stream type"),
            StreamFault::FrameLength { bytes } => text_around(
                "invalid E-AC-3 frame length: ",
                *bytes as u64,
                " bytes",
            ),
            StreamFault::ReservedReducedRate => String::from_str(
                "reserved reduced E-AC-3 sample rate",
            ),
            StreamFault::NotEac3 { bitstream_id } => text_around(
                "sync frame is not E-AC-3 (bitstream ID ",
                *bitstream_id as u64,
                ")",
            ),
            StreamFault::EndsInHeader { read } => text_around(
                "E-AC-3 stream ended inside a sync-frame header after ",
                *read as u64,
                " bytes",
            ),
            StreamFault::EndsInFrame { frame, expected } => {
                let mut r = text_around("E-AC-3 stream ended inside frame ", *frame, " (expected ");
                r.append(decimal(*expected as u64).as_str());
                r.append(" bytes)");
                r
            },
            StreamFault::RateChange { known, found } => {
                let mut r = text_around("E-AC-3 sample rate changes from ", *known as u64, " to ");
                r.append(decimal(*found as u64).as_str());
                r.append(" within the stream");
                r
            },
            StreamFault::TimelineOverflow => String::from_str("E-AC-3 sample timeline overflowed"),
            StreamFault::FrameCountOverflow => String::from_str("E-AC-3 frame count overflowed"),
        }
    }

    /// Words the fault.
    pub fn message(&self) -> (r: String)
        ensures
            r@ == self.text(),
    {
        text_pair("invalid E-AC-3 metadata: ", self.worded().as_str())
    }
}

fn corrupt(fault: StreamFault) -> (e: AppError)
    ensures
        e == stream_error(fault),
{
    AppError::Render(Reason::Stream(fault))
}

#[derive(Clone, Copy, Debug, PartialEq, Eq, Structural)]
pub enum StreamType {
    Independent,
    Dependent,
    Ac3Converted,
}

/// The fixed part of a sync frame's header.
#[derive(Clone, Copy, Debug, PartialEq, Eq, Structural)]
pub struct SyncFrameHeader {
    pub stream_type: StreamType,
    pub substream_id: u8,
    pub frame_bytes: usize,
    pub sample_rate: u32,
    pub blocks: u8,
    pub channel_mode: u8,
    pub lfe: bool,
    pub bitstream_id: u8,
}

/// The reader's complaint when `count` bits at `position` are not all there.
pub open spec fn header_cut(bytes: Seq<u8>, position: nat, count: nat) -> AppError {
    stream_error(
        StreamFault::Truncated {
            position: position as usize,
            limit: (8 * bytes.len()) as usize,
            requested: count as usize,
            remaining: (8 * bytes.len() - position) as usize,
        },
    )
}

/// The sample rate that a rate code and, behind code three, a reduced-rate code
/// select.
pub open spec fn coded_sample_rate(rate: nat, next: nat) -> u32 {
    if rate == 3 {
        if next == 0 { 24_000 } else if next == 1 { 22_050 } else { 16_000 }
    } else if rate == 0 { 48_000 } else if rate == 1 { 44_100 } else { 32_000 }
}

/// The number of audio blocks; reduced-rate frames always hold six.
pub open spec fn coded_blocks(rate: nat, next: nat) -> u8 {
    if rate == 3 || next == 3 { 6 } else { (next + 1) as u8 }
}

/// The header that a byte string starts with, or the first thing wrong with it.
/// The fields stand at fixed bit positions.
pub open spec fn parsed_header(bytes: Seq<u8>) -> Result<SyncFrameHeader, AppError> {
    let length = 8 * bytes.len();
    let stream = bits_value(bytes, 16, 2);
    let frame_bytes = 2 * (bits_value(bytes, 21, 11) + 1);
    let rate = bits_value(bytes, 32, 2);
    let next = bits_value(bytes, 34, 2);
    let bitstream_id = bits_value(bytes, 40, 5);
    if length < 16 {
        Err(header_cut(bytes, 0, 16))
    } else if bits_value(bytes, 0, 16) != EAC3_SYNC_WORD {
        Err(stream_error(StreamFault::MissingSyncWord))
    } else if length < 18 {
        Err(header_cut(bytes, 16, 2))
    } else if stream == 3 {
        Err(stream_error(StreamFault::ReservedStreamType))
    } else if length < 21 {
        Err(header_cut(bytes, 18, 3))
    } else if length < 32 {
        Err(header_cut(bytes, 21, 11))
    } else if frame_bytes < 7 {
        Err(stream_error(StreamFault::FrameLength { bytes: frame_bytes as usize }))
    } else if length < 34 {
        Err(header_cut(bytes, 32, 2))
    } else if length < 36 {
        Err(header_cut(bytes, 34, 2))
    } else if rate == 3 && next == 3 {
        Err(stream_error(StreamFault::ReservedReducedRate))
    } else if length < 39 {
        Err(header_cut(bytes, 36, 3))
    } else if length < 40 {
        Err(header_cut(bytes, 39, 1))
    } else if length < 45 {
        Err(header_cut(bytes, 40, 5))
    } else if bitstream_id < 11 || bitstream_id > 16 {
        Err(stream_error(StreamFault::NotEac3 { bitstream_id: bitstream_id as u8 }))
    } else {
        Ok(
            SyncFrameHeader {
                stream_type: if stream == 0 {
                    StreamType::Independent
                } else if stream == 1 {
                    StreamType::Dependent
                } else {
                    StreamType::Ac3Converted
                },
                substream_id: bits_value(bytes, 18, 3) as u8,
                frame_bytes: frame_bytes as usize,
                sample_rate: coded_sample_rate(rate, next),
                blocks: coded_blocks(rate, next),
                channel_mode: bits_value(bytes, 36, 3) as u8,
                lfe: bits_value(bytes, 39, 1) != 0,
                bitstream_id: bitstream_id as u8,
            },
        )
    }
}

impl SyncFrameHeader {
    /// A header as the parser produces it.
    pub open spec fn wf(self) -> bool {
        &&& 8 <= self.frame_bytes <= MAX_SYNC_FRAME_BYTES
        &&& self.frame_bytes % 2 == 0
        &&& 1 <= self.blocks <= 6
        &&& self.substream_id < 8
        &&& self.channel_mode < 8
        &&& 11 <= self.bitstream_id <= 16
        &&& 16_000 <= self.sample_rate <= 48_000
    }

    /// Parses the fixed portion of a sync-frame header.
    #[verifier::spinoff_prover]
    #[verifier::rlimit(40)]
    pub fn parse(bytes: &[u8]) -> (r: Result<Self, AppError>)
        requires
            8 * bytes@.len() <= usize::MAX,
        ensures
            r == parsed_header(bytes@),
            r matches Ok(header) ==> header.wf(),
    {
        proof {
            lemma_small_fields(bytes@);
        }
        let mut bits = BitReader::new(bytes);
        let sync: u64 = bits.read(16)?;
        if sync != EAC3_SYNC_WORD {
            return Err(corrupt(StreamFault::MissingSyncWord));
        }
        let code: u8 = bits.read_u8(2)?;
        let stream_type = if code == 0 {
            StreamType::Independent
        } else if code == 1 {
            StreamType::Dependent
        } else if code == 2 {
            StreamType::Ac3Converted
        } else {
            return Err(corrupt(StreamFault::ReservedStreamType));
        };
        let substream_id: u8 = bits.read_u8(3)?;
        let words: usize = bits.read_usize(11)?;
        let frame_bytes: usize = (words + 1) * 2;
        if frame_bytes < HEADER_BYTES || frame_bytes > MAX_SYNC_FRAME_BYTES {
            return Err(corrupt(StreamFault::FrameLength { bytes: frame_bytes }));
        }
        let rate: u8 = bits.read_u8(2)?;
        let next: u8 = bits.read_u8(2)?;
        if rate == 3 && next == 3 {
            return Err(corrupt(StreamFault::ReservedReducedRate));
        }
        let sample_rate: u32 = if rate == 3 {
            if next == 0 { 24_000 } else if next == 1 { 22_050 } else { 16_000 }
        } else if rate == 0 { 48_000 } else if rate == 1 { 44_100 } else { 32_000 };
        let blocks: u8 = if rate == 3 || next == 3 { 6 } else { next + 1 };
        let channel_mode: u8 = bits.read_u8(3)?;
        let lfe: bool = bits.read_bit()?;
        let bitstream_id: u8 = bits.read_u8(5)?;
        if bitstream_id < 11 || bitstream_id > 16 {
            return Err(corrupt(StreamFault::NotEac3 { bitstream_id }));
        }
        Ok(
            SyncFrameHeader {
                stream_type,
                substream_id,
                frame_bytes,
                sample_rate,
                blocks,
                channel_mode,
                lfe,
                bitstream_id,
            },
        )
    }

    /// How many samples of each channel the frame holds.
    pub open spec fn samples(self) -> nat {
        256 * self.blocks as nat
    }

    pub fn sample_count(self) -> (r: usize)
        ensures
            r == self.samples(),
    {
        self.blocks as usize * 256
    }
}

/// The fields of a header stay within their widths.
proof fn lemma_small_fields(bytes: Seq<u8>)
    ensures
        bits_value(bytes, 16, 2) < 4,
        bits_value(bytes, 18, 3) < 8,
        bits_value(bytes, 21, 11) < 2048,
        bits_value(bytes, 32, 2) < 4,
        bits_value(bytes, 34, 2) < 4,
        bits_value(bytes, 36, 3) < 8,
        bits_value(bytes, 40, 5) < 32,
{
    vstd::arithmetic::power2::lemma2_to64();
    crate::bits::lemma_bits_value_bound(bytes, 16, 2);
    crate::bits::lemma_bits_value_bound(bytes, 18, 3);
    crate::bits::lemma_bits_value_bound(bytes, 21, 11);
    crate::bits::lemma_bits_value_bound(bytes, 32, 2);
    crate::bits::lemma_bits_value_bound(bytes, 34, 2);
    crate::bits::lemma_bits_value_bound(bytes, 36, 3);
    crate::bits::lemma_bits_value_bound(bytes, 40, 5);
}

/// One payload of a metadata block.
#[derive(Clone, Debug, PartialEq, Eq)]
pub struct MetadataPayload {
    pub id: u32,
    pub sample_offset: Option<u16>,
    pub data: Vec<u8>,
    pub bit_len: usize,
}

/// What a payload holds.
pub struct PayloadView {
    pub id: u32,
    pub sample_offset: Option<u16>,
    pub data: Seq<u8>,
    pub bit_len: usize,
}

impl View for MetadataPayload {
    type V = PayloadView;

    open spec fn view(&self) -> PayloadView {
        PayloadView {
            id: self.id,
            sample_offset: self.sample_offset,
            data: self.data@,
            bit_len: self.bit_len,
        }
    }
}

impl PayloadView {
    /// The identifier is a supported one and the bit length covers the data
    /// exactly.
    pub open spec fn wf(self) -> bool {
        &&& 1 <= self.id <= 14
        &&& self.bit_len == 8 * self.data.len()
        &&& self.data.len() <= MAX_EMDF_PAYLOAD_BYTES
    }
}

impl MetadataPayload {
    /// A reader over the payload's bits.
    pub fn bits(&self) -> (r: BitReader<'_>)
        requires
            8 * self.data@.len() <= usize::MAX,
            self.bit_len <= 8 * self.data@.len(),
        ensures
            r.wf(),
            r@ == (Bits { bytes: self.data@, position: 0, limit: self.bit_len as nat }),
    {
        BitReader::with_limit(self.data.as_slice(), self.bit_len)
    }
}

/// A metadata block: the bits it occupies and what it carries.
pub struct Block {
    pub start: nat,
    pub end: nat,
    pub payloads: Seq<PayloadView>,
}

/// A bit that, where set, is followed by a field to pass over.
pub open spec fn optional_skip(b: Bits, count: nat) -> Option<Bits> {
    match b.flag() {
        Err(_) => None,
        Ok((present, rest)) => if !present {
            Some(rest)
        } else if count > rest.remaining() {
            None
        } else {
            Some(rest.advanced(count))
        },
    }
}

/// A bit that, where set, is followed by a variable-length number to pass over.
pub open spec fn optional_variable(b: Bits, chunk: nat) -> Option<Bits> {
    match b.flag() {
        Err(_) => None,
        Ok((present, rest)) => if !present {
            Some(rest)
        } else {
            match rest.variable(chunk, None) {
                (Ok(_), after) => Some(after),
                (Err(_), _) => None,
            }
        },
    }
}

/// The sample offset of a payload, in the upper eleven of twelve bits.
pub open spec fn optional_offset(b: Bits) -> Option<(Option<u16>, Bits)> {
    match b.flag() {
        Err(_) => None,
        Ok((present, rest)) => if !present {
            Some((None, rest))
        } else {
            match rest.field(12) {
                Err(_) => None,
                Ok((value, after)) => Some((Some((value / 2) as u16), after)),
            }
        },
    }
}

/// How a payload may be processed: seven more bits for a payload with an own
/// time position, nine behind the bit of one that is aligned to the frame, and
/// none for one that an unaware device has to discard.
pub open spec fn processing_info(b: Bits, has_offset: bool) -> Option<Bits> {
    match b.flag() {
        Err(_) => None,
        Ok((discard, rest)) => if discard {
            Some(rest)
        } else if has_offset {
            if 7 > rest.remaining() { None } else { Some(rest.advanced(7)) }
        } else {
            optional_skip(rest, 9)
        },
    }
}

/// What follows a payload's identifier up to its size.
#[verifier::opaque]
pub open spec fn payload_config(b: Bits) -> Option<(Option<u16>, Bits)> {
    match optional_offset(b) {
        None => None,
        Some((offset, after_offset)) => match optional_variable(after_offset, 11) {
            None => None,
            Some(after_duration) => match optional_variable(after_duration, 2) {
                None => None,
                Some(after_group) => match optional_skip(after_group, 8) {
                    None => None,
                    Some(after_codec) => match processing_info(after_codec, offset is Some) {
                        None => None,
                        Some(rest) => Some((offset, rest)),
                    },
                },
            },
        },
    }
}

/// A payload with the given identifier.
#[verifier::opaque]
pub open spec fn payload(b: Bits, id: u32) -> Option<(PayloadView, Bits)> {
    match payload_config(b) {
        None => None,
        Some((offset, sized)) => match sized.variable(8, None) {
            (Err(_), _) => None,
            (Ok(size), body) => if size > MAX_EMDF_PAYLOAD_BYTES || 8 * size > body.remaining() {
                None
            } else {
                Some(
                    (
                        PayloadView {
                            id,
                            sample_offset: offset,
                            data: bytes_at(body.bytes, body.position as int, size),
                            bit_len: (8 * size) as usize,
                        },
                        body.advanced((8 * size) as nat),
                    ),
                )
            },
        },
    }
}

/// The payloads up to the end marker or the end of the block.
pub open spec fn block_payloads(b: Bits) -> Option<Seq<PayloadView>>
    decreases b.remaining(),
{
    if b.remaining() < 5 {
        Some(seq![])
    } else {
        match b.field(5) {
            Err(_) => None,
            Ok((id, rest)) => if id == 0 {
                Some(seq![])
            } else if id > 14 {
                None
            } else {
                match payload(rest, id as u32) {
                    None => None,
                    Some((first, after)) => if after.remaining() < b.remaining() {
                        match block_payloads(after) {
                            None => None,
                            Some(others) => Some(seq![first] + others),
                        }
                    } else {
                        None
                    },
                }
            },
        }
    }
}

/// The metadata block that starts at a bit of a frame, where one does: a sync
/// word, the length in bytes, version and key of zero, and payloads that all fit.
#[verifier::opaque]
pub open spec fn emdf_block(frame: Seq<u8>, start: nat) -> Option<Block> {
    let bits = 8 * frame.len();
    let length = bits_value(frame, start as int + 16, 16);
    let end = start + 32 + 8 * length;
    let body = Bits { bytes: frame, position: start + 32, limit: end };
    if start + 32 > bits || bits_value(frame, start as int, 16) != EMDF_SYNC_WORD {
        None
    } else if length == 0 || end > bits {
        None
    } else {
        match body.field(2) {
            Err(_) => None,
            Ok((version, keyed)) => match keyed.field(3) {
                Err(_) => None,
                Ok((key, rest)) => if version != 0 || key != 0 {
                    None
                } else {
                    match block_payloads(rest) {
                        None => None,
                        Some(payloads) => Some(Block { start, end, payloads }),
                    }
                },
            },
        }
    }
}

/// Whether a bit lies inside one of the blocks.
pub open spec fn covered(blocks: Seq<Block>, position: nat) -> bool {
    exists|i: int| 0 <= i < blocks.len() && #[trigger] blocks[i].start <= position < blocks[i].end
}

/// The search from a bit position of one alignment on, and through the later
/// alignments, with the blocks that were accepted before.
pub open spec fn search(frame: Seq<u8>, alignment: nat, position: nat, accepted: Seq<Block>) -> Seq<Block>
    decreases 8 - alignment, 8 * frame.len() + 8 - position,
{
    if alignment >= 8 {
        accepted
    } else if position + 32 > 8 * frame.len() {
        search(frame, alignment + 1, alignment + 1, accepted)
    } else if covered(accepted, position) {
        search(frame, alignment, position + 8, accepted)
    } else {
        match emdf_block(frame, position) {
            None => search(frame, alignment, position + 8, accepted),
            Some(block) => if block.end > position && block.end <= 8 * frame.len() {
                search(frame, alignment, block.end, accepted.push(block))
            } else {
                accepted
            },
        }
    }
}

/// The blocks of a frame: at every alignment in turn, from the front, each valid
/// block that does not start inside one accepted before.
pub open spec fn emdf_blocks(frame: Seq<u8>) -> Seq<Block> {
    search(frame, 0, 0, seq![])
}

/// The payloads of a list of blocks, in order.
pub open spec fn all_payloads(blocks: Seq<Block>) -> Seq<PayloadView>
    decreases blocks.len(),
{
    if blocks.len() == 0 {
        seq![]
    } else {
        all_payloads(blocks.drop_last()) + blocks.last().payloads
    }
}

/// The views of a list of payloads.
pub open spec fn payload_views(payloads: Seq<MetadataPayload>) -> Seq<PayloadView> {
    payloads.map_values(|p: MetadataPayload| p@)
}

fn read_optional_skip(bits: &mut BitReader, count: usize) -> (r: bool)
    requires
        old(bits).wf(),
    ensures
        final(bits).wf(),
        r == (optional_skip(old(bits)@, count as nat) is Some),
        r ==> final(bits)@ == optional_skip(old(bits)@, count as nat)->0,
{
    match bits.read_bit() {
        Err(_) => false,
        Ok(present) => if present {
            bits.skip(count).is_ok()
        } else {
            true
        },
    }
}

fn read_optional_variable(bits: &mut BitReader, chunk: usize) -> (r: bool)
    requires
        old(bits).wf(),
    ensures
        final(bits).wf(),
        r == (optional_variable(old(bits)@, chunk as nat) is Some),
        r ==> final(bits)@ == optional_variable(old(bits)@, chunk as nat)->0,
{
    match bits.read_bit() {
        Err(_) => false,
        Ok(present) => if present {
            bits.variable(chunk, None).is_ok()
        } else {
            true
        },
    }
}

fn read_optional_offset(bits: &mut BitReader) -> (r: Option<Option<u16>>)
    requires
        old(bits).wf(),
    ensures
        final(bits).wf(),
        match optional_offset(old(bits)@) {
            None => r is None,
            Some((offset, rest)) => r == Some(offset) && final(bits)@ == rest,
        },
{
    match bits.read_bit() {
        Err(_) => None,
        Ok(present) => if present {
            proof {
                vstd::arithmetic::power2::lemma2_to64();
                crate::bits::lemma_bits_value_bound(bits@.bytes, bits@.position as int, 12);
            }
            match bits.read_u16(12) {
                Err(_) => None,
                Ok(value) => Some(Some(value / 2)),
            }
        } else {
            Some(None)
        },
    }
}

fn read_processing_info(bits: &mut BitReader, has_offset: bool) -> (r: bool)
    requires
        old(bits).wf(),
    ensures
        final(bits).wf(),
        r == (processing_info(old(bits)@, has_offset) is Some),
        r ==> final(bits)@ == processing_info(old(bits)@, has_offset)->0,
{
    match bits.read_bit() {
        Err(_) => false,
        Ok(discard) => if discard {
            true
        } else if has_offset {
            bits.skip(7).is_ok()
        } else {
            read_optional_skip(bits, 9)
        },
    }
}

fn read_payload_config(bits: &mut BitReader) -> (r: Option<Option<u16>>)
    requires
        old(bits).wf(),
    ensures
        final(bits).wf(),
        match payload_config(old(bits)@) {
            None => r is None,
            Some((offset, rest)) => r == Some(offset) && final(bits)@ == rest,
        },
{
    reveal(payload_config);
    match read_optional_offset(bits) {
        None => None,
        Some(offset) => {
            if read_optional_variable(bits, 11) && read_optional_variable(bits, 2)
                && read_optional_skip(bits, 8) && read_processing_info(bits, offset.is_some()) {
                Some(offset)
            } else {
                None
            }
        },
    }
}

fn read_payload(bits: &mut BitReader, id: u32) -> (r: Option<MetadataPayload>)
    requires
        old(bits).wf(),
    ensures
        final(bits).wf(),
        match payload(old(bits)@, id) {
            None => r is None,
            Some((p, rest)) => r is Some && r->0@ == p && final(bits)@ == rest,
        },
{
    reveal(payload);
    match read_payload_config(bits) {
        None => None,
        Some(sample_offset) => match bits.variable(8, None) {
            Err(_) => None,
            Ok(size) => {
                if size > MAX_EMDF_PAYLOAD_BYTES {
                    return None;
                }
                let bit_len: usize = size as usize * 8;
                if bit_len > bits.remaining() {
                    return None;
                }
                let data = bits.copy_bytes(size as usize);
                Some(MetadataPayload { id, sample_offset, data, bit_len })
            },
        },
    }
}

/// Reading never lengthens what remains.
pub proof fn lemma_variable_advances(b: Bits, chunk: nat, budget: Option<usize>, value: nat, extension: nat)
    ensures
        ({
            let after = b.variable_from(chunk, budget, value, extension).1;
            &&& after.bytes == b.bytes
            &&& after.limit == b.limit
            &&& after.position >= b.position
            &&& after.remaining() <= b.remaining()
        }),
    decreases b.remaining(),
{
    match b.field(chunk) {
        Err(_) => {},
        Ok((part, after)) => match after.field(1) {
            Err(_) => {},
            Ok((more, rest)) => {
                if value + part < u32::MAX && more != 0 && Bits::may_extend(budget, extension) {
                    lemma_variable_advances(
                        rest,
                        chunk,
                        budget,
                        ((value + part + 1) * vstd::arithmetic::power2::pow2(chunk)) as nat
                            % 0x1_0000_0000,
                        extension + 1,
                    );
                }
            },
        },
    }
}

/// One reading position comes strictly later in the same bits than another.
spec fn later(b: Bits, rest: Bits) -> bool {
    &&& rest.bytes == b.bytes
    &&& rest.limit == b.limit
    &&& rest.position > b.position
    &&& rest.remaining() <= b.remaining()
}

proof fn lemma_optional_variable_advances(b: Bits, chunk: nat)
    ensures
        optional_variable(b, chunk) matches Some(rest) ==> later(b, rest),
{
    if let Ok((_, rest)) = b.flag() {
        lemma_variable_advances(rest, chunk, None, 0, 0);
    }
}

proof fn lemma_config_advances(b: Bits)
    ensures
        payload_config(b) matches Some((_, rest)) ==> later(b, rest),
{
    reveal(payload_config);
    if let Some((offset, after_offset)) = optional_offset(b) {
        assert(later(b, after_offset));
        lemma_optional_variable_advances(after_offset, 11);
        if let Some(after_duration) = optional_variable(after_offset, 11) {
            lemma_optional_variable_advances(after_duration, 2);
            if let Some(after_group) = optional_variable(after_duration, 2) {
                assert(later(b, after_group));
                if let Some(after_codec) = optional_skip(after_group, 8) {
                    assert(later(b, after_codec));
                    if let Some(rest) = processing_info(after_codec, offset is Some) {
                        assert(later(after_codec, rest));
                    }
                }
            }
        }
    }
}

/// A payload is read from later on, and it is well formed.
proof fn lemma_payload_advances(b: Bits, id: u32)
    ensures
        payload(b, id) matches Some((p, rest)) ==> {
            &&& later(b, rest)
            &&& p.id == id
            &&& p.data.len() <= MAX_EMDF_PAYLOAD_BYTES
            &&& p.bit_len == 8 * p.data.len()
        },
{
    reveal(payload);
    lemma_config_advances(b);
    if let Some((_, sized)) = payload_config(b) {
        lemma_variable_advances(sized, 8, None, 0, 0);
    }
}

/// Reads the payloads of a block up to its end marker.
fn read_block_payloads(bits: &mut BitReader) -> (r: Option<Vec<MetadataPayload>>)
    requires
        old(bits).wf(),
    ensures
        match block_payloads(old(bits)@) {
            None => r is None,
            Some(payloads) => r is Some && payload_views(r->0@) == payloads,
        },
{
    let ghost body = bits@;
    let mut payloads: Vec<MetadataPayload> = Vec::new();
    while bits.remaining() >= 5
        invariant_except_break
            block_payloads(body) == (match block_payloads(bits@) {
                None => None,
                Some(others) => Some(payload_views(payloads@) + others),
            }),
        invariant
            bits.wf(),
            body == old(bits)@,
        ensures
            block_payloads(body) == Some(payload_views(payloads@)),
        decreases bits@.remaining(),
    {
        let ghost before = bits@;
        proof {
            vstd::arithmetic::power2::lemma2_to64();
            crate::bits::lemma_bits_value_bound(bits@.bytes, bits@.position as int, 5);
        }
        let id: u32 = match bits.read_u32(5) {
            Err(_) => return None,
            Ok(id) => id,
        };
        if id == 0 {
            assert(payload_views(payloads@) + Seq::<PayloadView>::empty() =~= payload_views(
                payloads@,
            ));
            break;
        }
        if id > 14 {
            return None;
        }
        proof {
            lemma_payload_advances(bits@, id);
        }
        match read_payload(bits, id) {
            None => return None,
            Some(p) => {
                let ghost gathered = payload_views(payloads@);
                let ghost view = p@;
                payloads.push(p);
                proof {
                    assert(payload_views(payloads@) =~= gathered.push(view));
                    match block_payloads(bits@) {
                        None => {},
                        Some(others) => {
                            assert(payload_views(payloads@) + others =~= gathered + (seq![view]
                                + others));
                        },
                    }
                }
            },
        }
    }
    Some(payloads)
}

/// Parses the block at a bit position, where one starts there.
fn parse_emdf_block(frame: &[u8], start: usize) -> (r: Option<(usize, Vec<MetadataPayload>)>)
    requires
        8 * frame@.len() <= usize::MAX,
    ensures
        match emdf_block(frame@, start as nat) {
            None => r is None,
            Some(block) => r is Some && (r->0).0 == block.end && payload_views((r->0).1@)
                == block.payloads,
        },
{
    reveal(emdf_block);
    if start > frame.len() * 8 || frame.len() * 8 - start < 32 {
        return None;
    }
    let mut bits = BitReader::at(frame, start);
    proof {
        vstd::arithmetic::power2::lemma2_to64();
        crate::bits::lemma_bits_value_bound(frame@, start + 16, 16);
    }
    match bits.read(16) {
        Err(_) => return None,
        Ok(sync) => {
            if sync != EMDF_SYNC_WORD {
                return None;
            }
        },
    }
    let length: usize = match bits.read_usize(16) {
        Err(_) => return None,
        Ok(length) => length,
    };
    if length == 0 || length * 8 > frame.len() * 8 - (start + 32) {
        return None;
    }
    let end: usize = start + 32 + length * 8;
    if bits.set_limit(end).is_err() {
        return None;
    }
    match bits.read(2) {
        Err(_) => return None,
        Ok(version) => {
            match bits.read(3) {
                Err(_) => return None,
                Ok(key) => {
                    if version != 0 || key != 0 {
                        return None;
                    }
                },
            }
        },
    }
    match read_block_payloads(&mut bits) {
        None => None,
        Some(payloads) => Some((end, payloads)),
    }
}

/// Whether one of the half-open ranges holds a position.
fn within(accepted: &Vec<(usize, usize)>, position: usize, Ghost(blocks): Ghost<Seq<Block>>) -> (r: bool)
    requires
        accepted@.len() == blocks.len(),
        forall|i: int|
            0 <= i < blocks.len() ==> (#[trigger] accepted@[i]).0 == blocks[i].start
                && accepted@[i].1 == blocks[i].end,
    ensures
        r == covered(blocks, position as nat),
{
    let mut i: usize = 0;
    while i < accepted.len()
        invariant
            i <= accepted@.len() == blocks.len(),
            forall|k: int|
                0 <= k < blocks.len() ==> (#[trigger] accepted@[k]).0 == blocks[k].start
                    && accepted@[k].1 == blocks[k].end,
            forall|k: int|
                0 <= k < i ==> !(#[trigger] blocks[k].start <= position < blocks[k].end),
        decreases accepted@.len() - i,
    {
        let range: (usize, usize) = accepted[i];
        if range.0 <= position && position < range.1 {
            assert(blocks[i as int].start <= position < blocks[i as int].end);
            return true;
        }
        i = i + 1;
    }
    false
}

/// Finds every structurally valid metadata block in one sync frame.
///
/// Candidate sync words are searched at all eight bit alignments. Compressed
/// audio can hold the same sixteen bits by chance, so a candidate counts only if
/// its length, version, key, payload identifiers and payload bounds all hold.
pub fn extract_emdf_payloads(frame: &[u8]) -> (r: Vec<MetadataPayload>)
    requires
        8 * frame@.len() <= usize::MAX,
    ensures
        payload_views(r@) == all_payloads(emdf_blocks(frame@)),
        forall|i: int| 0 <= i < r@.len() ==> (#[trigger] r@[i])@.wf(),
{
    let bit_len: usize = frame.len() * 8;
    let mut result: Vec<MetadataPayload> = Vec::new();
    let mut accepted: Vec<(usize, usize)> = Vec::new();
    let ghost mut blocks: Seq<Block> = seq![];
    let mut alignment: usize = 0;
    while alignment < 8
        invariant
            alignment <= 8,
            bit_len == 8 * frame@.len(),
            search(frame@, alignment as nat, alignment as nat, blocks) == emdf_blocks(frame@),
            accepted@.len() == blocks.len(),
            forall|i: int|
                0 <= i < blocks.len() ==> (#[trigger] accepted@[i]).0 == blocks[i].start
                    && accepted@[i].1 == blocks[i].end,
            payload_views(result@) =~= all_payloads(blocks),
        decreases 8 - alignment,
    {
        let mut position: usize = alignment;
        while position <= bit_len && bit_len - position >= 32
            invariant
                alignment < 8,
                bit_len == 8 * frame@.len(),
                search(frame@, alignment as nat, position as nat, blocks) == emdf_blocks(frame@),
                accepted@.len() == blocks.len(),
                forall|i: int|
                    0 <= i < blocks.len() ==> (#[trigger] accepted@[i]).0 == blocks[i].start
                        && accepted@[i].1 == blocks[i].end,
                payload_views(result@) =~= all_payloads(blocks),
            decreases bit_len - position,
        {
            if within(&accepted, position, Ghost(blocks)) {
                position = position + 8;
            } else {
                match parse_emdf_block(frame, position) {
                    None => {
                        position = position + 8;
                    },
                    Some((end, payloads)) => {
                        let ghost block = emdf_block(frame@, position as nat)->0;
                        proof {
                            lemma_block_shape(frame@, position as nat);
                        }
                        let ghost before = result@;
                        let mut payloads = payloads;
                        let ghost found = payloads@;
                        accepted.push((position, end));
                        result.append(&mut payloads);
                        proof {
                            let grown = blocks.push(block);
                            assert(grown.drop_last() =~= blocks);
                            assert(payload_views(result@) =~= payload_views(before)
                                + payload_views(found));
                            blocks = grown;
                        }
                        position = end;
                    },
                }
            }
        }
        alignment = alignment + 1;
    }
    proof {
        lemma_payloads_wf(frame@, 0, 0, seq![]);
        assert forall|i: int| 0 <= i < result@.len() implies (#[trigger] result@[i])@.wf() by {
            assert(payload_views(result@)[i] == result@[i]@);
        }
    }
    result
}

/// Payloads of a block are well formed.
proof fn lemma_block_payloads_wf(b: Bits)
    ensures
        block_payloads(b) matches Some(payloads) ==> forall|i: int|
            0 <= i < payloads.len() ==> (#[trigger] payloads[i]).wf(),
    decreases b.remaining(),
{
    if b.remaining() >= 5 {
        if let Ok((id, rest)) = b.field(5) {
            if 0 < id <= 14 {
                lemma_payload_advances(rest, id as u32);
                if let Some((first, after)) = payload(rest, id as u32) {
                    lemma_block_payloads_wf(after);
                }
            }
        }
    }
}

/// Where a block lies, and that its payloads are well formed.
pub proof fn lemma_block_shape(frame: Seq<u8>, start: nat)
    ensures
        emdf_block(frame, start) matches Some(block) ==> {
            &&& block.start == start
            &&& start + 32 < block.end <= 8 * frame.len()
            &&& block.end % 8 == start % 8
            &&& forall|i: int|
                0 <= i < block.payloads.len() ==> (#[trigger] block.payloads[i]).wf()
        },
{
    reveal(emdf_block);
    if let Some(block) = emdf_block(frame, start) {
        let body = Bits { bytes: frame, position: start + 32, limit: block.end };
        lemma_block_payloads_wf(body.advanced(2).advanced(3));
    }
}

proof fn lemma_all_payloads_push(blocks: Seq<Block>, block: Block)
    ensures
        all_payloads(blocks.push(block)) == all_payloads(blocks) + block.payloads,
{
    assert(blocks.push(block).drop_last() =~= blocks);
}

spec fn well_formed(payloads: Seq<PayloadView>) -> bool {
    forall|i: int| 0 <= i < payloads.len() ==> (#[trigger] payloads[i]).wf()
}

proof fn lemma_payloads_wf(frame: Seq<u8>, alignment: nat, position: nat, accepted: Seq<Block>)
    requires
        well_formed(all_payloads(accepted)),
    ensures
        well_formed(all_payloads(search(frame, alignment, position, accepted))),
    decreases 8 - alignment, 8 * frame.len() + 8 - position,
{
    if alignment < 8 {
        if position + 32 > 8 * frame.len() {
            lemma_payloads_wf(frame, alignment + 1, alignment + 1, accepted);
        } else if covered(accepted, position) {
            lemma_payloads_wf(frame, alignment, position + 8, accepted);
        } else {
            match emdf_block(frame, position) {
                None => lemma_payloads_wf(frame, alignment, position + 8, accepted),
                Some(block) => {
                    lemma_block_shape(frame, position);
                    lemma_all_payloads_push(accepted, block);
                    lemma_payloads_wf(frame, alignment, block.end, accepted.push(block));
                },
            }
        }
    }
}

/// What was accepted stays accepted.
proof fn lemma_search_keeps(frame: Seq<u8>, alignment: nat, position: nat, accepted: Seq<Block>)
    ensures
        accepted.len() <= search(frame, alignment, position, accepted).len(),
        forall|i: int|
            0 <= i < accepted.len() ==> #[trigger] search(frame, alignment, position, accepted)[i]
                == accepted[i],
    decreases 8 - alignment, 8 * frame.len() + 8 - position,
{
    if alignment < 8 {
        if position + 32 > 8 * frame.len() {
            lemma_search_keeps(frame, alignment + 1, alignment + 1, accepted);
        } else if covered(accepted, position) {
            lemma_search_keeps(frame, alignment, position + 8, accepted);
        } else {
            match emdf_block(frame, position) {
                None => lemma_search_keeps(frame, alignment, position + 8, accepted),
                Some(block) => {
                    lemma_block_shape(frame, position);
                    lemma_search_keeps(frame, alignment, block.end, accepted.push(block));
                    assert forall|i: int| 0 <= i < accepted.len() implies #[trigger] search(
                        frame,
                        alignment,
                        position,
                        accepted,
                    )[i] == accepted[i] by {
                        assert(accepted.push(block)[i] == accepted[i]);
                    }
                },
            }
        }
    }
}

proof fn lemma_search_reaches(
    frame: Seq<u8>,
    alignment: nat,
    position: nat,
    accepted: Seq<Block>,
    target: nat,
)
    requires
        emdf_block(frame, target) is Some,
        alignment < 8,
        position % 8 == alignment,
        target % 8 > alignment || (target % 8 == alignment && (target >= position || covered(
            accepted,
            target,
        ))),
    ensures
        covered(search(frame, alignment, position, accepted), target),
    decreases 8 - alignment, 8 * frame.len() + 8 - position,
{
    let found = search(frame, alignment, position, accepted);
    if covered(accepted, target) {
        lemma_search_keeps(frame, alignment, position, accepted);
        let i = choose|i: int|
            0 <= i < accepted.len() && #[trigger] accepted[i].start <= target < accepted[i].end;
        assert(found[i] == accepted[i]);
        assert(found[i].start <= target < found[i].end);
    } else if position + 32 > 8 * frame.len() {
        lemma_block_shape(frame, target);
        lemma_search_reaches(frame, alignment + 1, alignment + 1, accepted, target);
    } else if covered(accepted, position) {
        lemma_search_reaches(frame, alignment, position + 8, accepted, target);
    } else {
        match emdf_block(frame, position) {
            None => lemma_search_reaches(frame, alignment, position + 8, accepted, target),
            Some(block) => {
                lemma_block_shape(frame, position);
                let grown = accepted.push(block);
                if target % 8 == alignment && target < block.end {
                    assert(grown[accepted.len() as int].start <= target < grown[accepted.len() as int].end);
                }
                lemma_search_reaches(frame, alignment, block.end, grown, target);
            },
        }
    }
}

/// No valid block is lost, at whatever bit it starts: it is accepted, or it
/// starts inside a block that is.
pub proof fn law_valid_blocks_are_covered(frame: Seq<u8>, start: nat)
    requires
        emdf_block(frame, start) is Some,
    ensures
        covered(emdf_blocks(frame), start),
{
    lemma_search_reaches(frame, 0, 0, seq![], start);
}

/// A block was accepted only where it is valid and does not start inside a block
/// accepted before it.
spec fn search_sound(frame: Seq<u8>, blocks: Seq<Block>) -> bool {
    forall|i: int|
        0 <= i < blocks.len() ==> {
            &&& emdf_block(frame, (#[trigger] blocks[i]).start) == Some(blocks[i])
            &&& !covered(blocks.take(i), blocks[i].start)
        }
}

proof fn lemma_search_sound(frame: Seq<u8>, alignment: nat, position: nat, accepted: Seq<Block>)
    requires
        search_sound(frame, accepted),
    ensures
        search_sound(frame, search(frame, alignment, position, accepted)),
    decreases 8 - alignment, 8 * frame.len() + 8 - position,
{
    if alignment < 8 {
        if position + 32 > 8 * frame.len() {
            lemma_search_sound(frame, alignment + 1, alignment + 1, accepted);
        } else if covered(accepted, position) {
            lemma_search_sound(frame, alignment, position + 8, accepted);
        } else {
            match emdf_block(frame, position) {
                None => lemma_search_sound(frame, alignment, position + 8, accepted),
                Some(block) => {
                    lemma_block_shape(frame, position);
                    let grown = accepted.push(block);
                    assert forall|i: int| 0 <= i < grown.len() implies {
                        &&& emdf_block(frame, (#[trigger] grown[i]).start) == Some(grown[i])
                        &&& !covered(grown.take(i), grown[i].start)
                    } by {
                        if i < accepted.len() {
                            assert(grown[i] == accepted[i]);
                            assert(grown.take(i) =~= accepted.take(i));
                        } else {
                            assert(grown.take(i) =~= accepted);
                        }
                    }
                    lemma_search_sound(frame, alignment, block.end, grown);
                },
            }
        }
    }
}

/// Every accepted block is a valid block of the frame, and none starts inside
/// one that was accepted before it.
pub proof fn law_accepted_blocks_are_valid(frame: Seq<u8>, i: int)
    requires
        0 <= i < emdf_blocks(frame).len(),
    ensures
        emdf_block(frame, emdf_blocks(frame)[i].start) == Some(emdf_blocks(frame)[i]),
        !covered(emdf_blocks(frame).take(i), emdf_blocks(frame)[i].start),
{
    lemma_search_sound(frame, 0, 0, seq![]);
    let block = emdf_blocks(frame)[i];
}

/// A frame with at most one valid block gives the payloads of that block, at
/// whatever bit it starts, and a frame without one gives none: no valid block is
/// missed, and what only looks like one is passed over.
pub proof fn law_a_single_block_gives_its_payloads(frame: Seq<u8>, start: nat)
    requires
        forall|position: nat| #[trigger] emdf_block(frame, position) is Some ==> position == start,
    ensures
        all_payloads(emdf_blocks(frame)) == (match emdf_block(frame, start) {
            Some(block) => block.payloads,
            None => seq![],
        }),
{
    let blocks = emdf_blocks(frame);
    assert forall|i: int| 0 <= i < blocks.len() implies (#[trigger] blocks[i]).start == start
        && emdf_block(frame, start) == Some(blocks[i]) by {
        law_accepted_blocks_are_valid(frame, i);
    }
    if blocks.len() > 1 {
        law_accepted_blocks_are_valid(frame, 1);
        lemma_block_shape(frame, start);
        assert(blocks.take(1)[0] == blocks[0]);
        assert(blocks.take(1)[0].start <= start < blocks.take(1)[0].end);
    }
    if emdf_block(frame, start) is Some {
        law_valid_blocks_are_covered(frame, start);
        assert(blocks.drop_last() =~= seq![]);
        assert(all_payloads(seq![]) =~= seq![]);
        assert(all_payloads(blocks) =~= blocks[0].payloads);
    }
}

/// Where frames lie on the sample timeline.
#[derive(Clone, Copy, Debug, PartialEq, Eq, Structural)]
pub struct FrameTimeline {
    /// The first sample of the next primary frame.
    pub sample_start: u64,
    /// The first sample of the current primary frame.
    pub current_program_start: u64,
    /// How many frames came so far.
    pub frame_index: u64,
    /// The sample rate of the frames that came so far.
    pub sample_rate: Option<u32>,
}

impl FrameTimeline {
    /// A primary frame belongs to independent substream zero; it moves the
    /// timeline on, and all other frames share its start.
    pub open spec fn primary(header: SyncFrameHeader) -> bool {
        header.stream_type == StreamType::Independent && header.substream_id == 0
    }

    /// The timeline before the first frame.
    pub open spec fn begun() -> FrameTimeline {
        FrameTimeline {
            sample_start: 0,
            current_program_start: 0,
            frame_index: 0,
            sample_rate: None,
        }
    }

    /// The timeline with the start of a frame's program, which is that of the
    /// primary frame before it unless the frame is primary itself.
    pub open spec fn entered(self, header: SyncFrameHeader) -> FrameTimeline {
        FrameTimeline {
            current_program_start: if FrameTimeline::primary(header) {
                self.sample_start
            } else {
                self.current_program_start
            },
            sample_rate: Some(header.sample_rate),
            ..self
        }
    }

    /// The timeline that has entered a frame, and has its samples behind it.
    pub open spec fn passed(self, header: SyncFrameHeader) -> FrameTimeline {
        FrameTimeline {
            sample_start: if FrameTimeline::primary(header) {
                (self.sample_start + header.samples()) as u64
            } else {
                self.sample_start
            },
            ..self.entered(header)
        }
    }

    /// What a frame leaves of the timeline, and what stops it: another sample rate
    /// than that of the frames before, or an overflow.
    pub open spec fn after(self, header: SyncFrameHeader) -> (FrameTimeline, Result<(), AppError>) {
        if self.sample_rate is Some && self.sample_rate->0 != header.sample_rate {
            (
                self,
                Err(
                    stream_error(
                        StreamFault::RateChange {
                            known: self.sample_rate->0,
                            found: header.sample_rate,
                        },
                    ),
                ),
            )
        } else if FrameTimeline::primary(header) && self.sample_start + header.samples()
            > u64::MAX {
            (self.entered(header), Err(stream_error(StreamFault::TimelineOverflow)))
        } else if self.frame_index == u64::MAX {
            (self.passed(header), Err(stream_error(StreamFault::FrameCountOverflow)))
        } else {
            (
                FrameTimeline {
                    frame_index: (self.frame_index + 1) as u64,
                    ..self.passed(header)
                },
                Ok(()),
            )
        }
    }

    pub fn new() -> (r: Self)
        ensures
            r == FrameTimeline::begun(),
    {
        FrameTimeline {
            sample_start: 0,
            current_program_start: 0,
            frame_index: 0,
            sample_rate: None,
        }
    }

    /// Places a complete frame on the timeline and gathers its payloads. Where the
    /// sample rate changes the timeline stays as it was; an overflow leaves it
    /// where it struck.
    pub fn accept(&mut self, header: SyncFrameHeader, frame: &[u8]) -> (r: Result<Eac3Frame, AppError>)
        requires
            8 * frame@.len() <= usize::MAX,
        ensures
            *final(self) == old(self).after(header).0,
            match old(self).after(header).1 {
                Err(e) => r == Err::<Eac3Frame, AppError>(e),
                Ok(_) => r is Ok && r->Ok_0.describes(header, *final(self), frame@),
            },
    {
        match self.sample_rate {
            None => {},
            Some(known) => if known != header.sample_rate {
                return Err(
                    corrupt(StreamFault::RateChange { known, found: header.sample_rate }),
                );
            },
        }
        self.sample_rate = Some(header.sample_rate);
        if matches!(header.stream_type, StreamType::Independent) && header.substream_id == 0 {
            self.current_program_start = self.sample_start;
            match self.sample_start.checked_add(header.sample_count() as u64) {
                None => return Err(corrupt(StreamFault::TimelineOverflow)),
                Some(start) => {
                    self.sample_start = start;
                },
            }
        }
        let payloads = extract_emdf_payloads(frame);
        if self.frame_index == u64::MAX {
            return Err(corrupt(StreamFault::FrameCountOverflow));
        }
        self.frame_index = self.frame_index + 1;
        Ok(Eac3Frame { header, sample_start: self.current_program_start, payloads })
    }
}

/// One sync frame with its place on the timeline and its payloads.
#[derive(Clone, Debug, PartialEq, Eq)]
pub struct Eac3Frame {
    pub header: SyncFrameHeader,
    pub sample_start: u64,
    pub payloads: Vec<MetadataPayload>,
}

impl Eac3Frame {
    /// The frame with this header and these bytes, on a timeline that has just
    /// accepted it.
    pub open spec fn describes(self, header: SyncFrameHeader, timeline: FrameTimeline, bytes: Seq<u8>) -> bool {
        &&& self.header == header
        &&& self.sample_start == timeline.current_program_start
        &&& payload_views(self.payloads@) == all_payloads(emdf_blocks(bytes))
        &&& forall|i: int| 0 <= i < self.payloads@.len() ==> (#[trigger] self.payloads@[i])@.wf()
    }
}

/// Reads consecutive sync frames from a byte string.
pub struct FrameReader<'a> {
    pub input: &'a [u8],
    pub offset: usize,
    pub timeline: FrameTimeline,
}

impl<'a> FrameReader<'a> {
    pub open spec fn wf(&self) -> bool {
        &&& 8 * self.input@.len() <= usize::MAX
        &&& self.offset <= self.input@.len()
    }

    /// What has not been read yet.
    pub open spec fn rest(&self) -> Seq<u8> {
        self.input@.skip(self.offset as int)
    }

    pub fn new(input: &'a [u8]) -> (r: Self)
        requires
            8 * input@.len() <= usize::MAX,
        ensures
            r.wf(),
            r.input == input,
            r.offset == 0,
            r.timeline == FrameTimeline::begun(),
    {
        FrameReader { input, offset: 0, timeline: FrameTimeline::new() }
    }

    /// How many bytes of what has not been read the next frame takes: all of them
    /// where they end too early, and the header alone where it is malformed.
    pub open spec fn taken(rest: Seq<u8>) -> nat {
        if rest.len() < HEADER_BYTES {
            rest.len()
        } else {
            match parsed_header(rest.take(HEADER_BYTES as int)) {
                Err(_) => HEADER_BYTES as nat,
                Ok(header) => if rest.len() < header.frame_bytes {
                    rest.len()
                } else {
                    header.frame_bytes as nat
                },
            }
        }
    }

    /// Reads the next complete sync frame. A clean end of the input gives
    /// `None`; truncated and malformed frames and changes of the sample rate are
    /// errors. The bytes that were read for an error are gone.
    pub fn next_frame(&mut self) -> (r: Result<Option<Eac3Frame>, AppError>)
        requires
            old(self).wf(),
        ensures
            final(self).wf(),
            final(self).input == old(self).input,
            final(self).offset == old(self).offset + FrameReader::taken(old(self).rest()),
            ({
                let rest = old(self).rest();
                let same = final(self).timeline == old(self).timeline;
                if rest.len() == 0 {
                    r == Ok::<Option<Eac3Frame>, AppError>(None) && same
                } else if rest.len() < HEADER_BYTES {
                    r == Err::<Option<Eac3Frame>, AppError>(
                        stream_error(StreamFault::EndsInHeader { read: rest.len() as usize }),
                    ) && same
                } else {
                    match parsed_header(rest.take(HEADER_BYTES as int)) {
                        Err(e) => r == Err::<Option<Eac3Frame>, AppError>(e) && same,
                        Ok(header) => if rest.len() < header.frame_bytes {
                            r == Err::<Option<Eac3Frame>, AppError>(
                                stream_error(
                                    StreamFault::EndsInFrame {
                                        frame: old(self).timeline.frame_index,
                                        expected: header.frame_bytes,
                                    },
                                ),
                            ) && same
                        } else {
                            let (next, placed) = old(self).timeline.after(header);
                            &&& final(self).timeline == next
                            &&& match placed {
                                Err(e) => r == Err::<Option<Eac3Frame>, AppError>(e),
                                Ok(_) => r is Ok && r->Ok_0 is Some && (r->Ok_0)->0.describes(
                                    header,
                                    next,
                                    rest.take(header.frame_bytes as int),
                                ),
                            }
                        },
                    }
                }
            }),
    {
        let available: usize = self.input.len() - self.offset;
        if available == 0 {
            return Ok(None);
        }
        if available < HEADER_BYTES {
            self.offset = self.input.len();
            return Err(corrupt(StreamFault::EndsInHeader { read: available }));
        }
        let start: usize = self.offset;
        let prefix = vstd::slice::slice_subrange(self.input, start, start + HEADER_BYTES);
        assert(prefix@ =~= self.rest().take(HEADER_BYTES as int));
        self.offset = start + HEADER_BYTES;
        let header = SyncFrameHeader::parse(prefix)?;
        if available < header.frame_bytes {
            self.offset = self.input.len();
            return Err(
                corrupt(
                    StreamFault::EndsInFrame {
                        frame: self.timeline.frame_index,
                        expected: header.frame_bytes,
                    },
                ),
            );
        }
        let end: usize = start + header.frame_bytes;
        let frame = vstd::slice::slice_subrange(self.input, start, end);
        assert(frame@ =~= old(self).rest().take(header.frame_bytes as int));
        self.offset = end;
        let accepted = self.timeline.accept(header, frame)?;
        Ok(Some(accepted))
    }
}

/// The sample timeline only moves forward, and every frame is placed at the
/// start of the primary frame before it.
pub proof fn law_timeline_moves_forward(t: FrameTimeline, header: SyncFrameHeader)
    requires
        t.after(header).1 is Ok,
        t.current_program_start <= t.sample_start,
    ensures
        ({
            let next = t.after(header).0;
            &&& t.sample_start <= next.sample_start
            &&& t.current_program_start <= next.current_program_start
            &&& next.current_program_start <= next.sample_start
            &&& FrameTimeline::primary(header) ==> next.current_program_start == t.sample_start
            &&& !FrameTimeline::primary(header) ==> next.current_program_start
                == t.current_program_start
        }),
{
}

/// The timeline behind a row of frames, none of which stops it; else nothing.
pub open spec fn timeline_through(headers: Seq<SyncFrameHeader>) -> Option<FrameTimeline>
    decreases headers.len(),
{
    if headers.len() == 0 {
        Some(FrameTimeline::begun())
    } else {
        match timeline_through(headers.drop_last()) {
            None => None,
            Some(timeline) => if timeline.after(headers.last()).1 is Ok {
                Some(timeline.after(headers.last()).0)
            } else {
                None
            },
        }
    }
}

/// The samples that the primary frames among a row of frames hold.
pub open spec fn primary_samples(headers: Seq<SyncFrameHeader>) -> nat
    decreases headers.len(),
{
    if headers.len() == 0 {
        0
    } else {
        primary_samples(headers.drop_last()) + if FrameTimeline::primary(headers.last()) {
            256 * headers.last().blocks as nat
        } else {
            0
        }
    }
}

/// The frames before the last primary one, or none where no frame is primary.
pub open spec fn before_program(headers: Seq<SyncFrameHeader>) -> Seq<SyncFrameHeader>
    decreases headers.len(),
{
    if headers.len() == 0 {
        headers
    } else if FrameTimeline::primary(headers.last()) {
        headers.drop_last()
    } else {
        before_program(headers.drop_last())
    }
}

/// In a whole stream only primary frames move the timeline: the program at hand
/// starts at the sum of the samples of the primary frames before its own, and the
/// next one at the sum of all of them.
pub proof fn law_programs_start_behind_the_primary_frames(headers: Seq<SyncFrameHeader>)
    requires
        timeline_through(headers) is Some,
    ensures
        ({
            let timeline = timeline_through(headers)->0;
            &&& timeline.current_program_start == primary_samples(before_program(headers))
            &&& timeline.sample_start == primary_samples(headers)
            &&& timeline.frame_index == headers.len()
        }),
    decreases headers.len(),
{
    if headers.len() > 0 {
        law_programs_start_behind_the_primary_frames(headers.drop_last());
    }
}

/// A frame that is read behind a row of frames starts at the sum of the samples
/// of the primary frames before its program. A frame that is not primary shares
/// the start of the primary frame before it.
pub proof fn law_frames_start_with_their_program(
    headers: Seq<SyncFrameHeader>,
    frame: Eac3Frame,
    bytes: Seq<u8>,
)
    requires
        timeline_through(headers) is Some,
        timeline_through(headers)->0.after(frame.header).1 is Ok,
        frame.describes(
            frame.header,
            timeline_through(headers)->0.after(frame.header).0,
            bytes,
        ),
    ensures
        timeline_through(headers.push(frame.header))
            == Some(timeline_through(headers)->0.after(frame.header).0),
        frame.sample_start == primary_samples(before_program(headers.push(frame.header))),
{
    assert(headers.push(frame.header).drop_last() =~= headers);
    law_programs_start_behind_the_primary_frames(headers.push(frame.header));
}

/// All frames of a stream have one sample rate.
pub proof fn law_the_sample_rate_never_changes(headers: Seq<SyncFrameHeader>, i: int)
    requires
        timeline_through(headers) is Some,
        0 <= i < headers.len(),
    ensures
        timeline_through(headers)->0.sample_rate == Some(headers[i].sample_rate),
    decreases headers.len(),
{
    if i < headers.len() - 1 {
        law_the_sample_rate_never_changes(headers.drop_last(), i);
    }
}

/// A reduced rate is half the rate with the same code. Of the full ones, the second
/// is 147 of 160 parts of the first, and the third two of three.
pub proof fn law_reduced_rates_are_halves(code: nat, next: nat)
    requires
        code < 3,
    ensures
        2 * coded_sample_rate(3, code) == coded_sample_rate(code, next),
        coded_sample_rate(0, next) == 48_000,
        160 * coded_sample_rate(1, next) == 147 * coded_sample_rate(0, next),
        3 * coded_sample_rate(2, next) == 2 * coded_sample_rate(0, next),
{
}

/// A frame has one, two, three or six blocks of 256 samples, and six at a reduced
/// rate.
pub proof fn law_frames_have_up_to_six_blocks(rate: nat, next: nat)
    requires
        rate < 4,
        next < 4,
    ensures
        coded_blocks(3, next) == 6,
        coded_blocks(rate, 3) == 6,
        rate < 3 && next < 3 ==> coded_blocks(rate, next) == next + 1,
{
}

/// The fields of a header in its bytes: the sync word 0x0b77; two bits of stream
/// type, three of substream, and eleven of the length in words less one; two bits
/// of the rate, two of the blocks or of a reduced rate, three of the channel mode,
/// and one of the low-frequency channel; and five bits of the version, 11 to 16.
pub proof fn law_header_fields_stand_in_their_bytes(bytes: Seq<u8>)
    requires
        parsed_header(bytes) is Ok,
    ensures
        ({
            let header = parsed_header(bytes)->Ok_0;
            let rate = bytes[4] as int / 64;
            let next = bytes[4] as int / 16 % 4;
            &&& bytes.len() >= 6
            &&& bytes[0] == 0x0b && bytes[1] == 0x77
            &&& header.stream_type is Independent <==> bytes[2] as int / 64 == 0
            &&& header.stream_type is Dependent <==> bytes[2] as int / 64 == 1
            &&& header.stream_type is Ac3Converted <==> bytes[2] as int / 64 == 2
            &&& header.substream_id == bytes[2] as int / 8 % 8
            &&& header.frame_bytes == 2 * (256 * (bytes[2] as int % 8) + bytes[3] + 1)
            &&& header.sample_rate == coded_sample_rate(rate as nat, next as nat)
            &&& header.blocks == coded_blocks(rate as nat, next as nat)
            &&& header.samples() == 256 * header.blocks
            &&& header.channel_mode == bytes[4] as int / 2 % 8
            &&& header.lfe <==> bytes[4] as int % 2 == 1
            &&& header.bitstream_id == bytes[5] as int / 8
            &&& 11 <= header.bitstream_id <= 16
        }),
{
    lemma_header_bytes(bytes);
    lemma_small_fields(bytes);
}

/// A header is accepted wherever its bytes are there and no field is reserved.
pub proof fn law_plain_headers_are_accepted(bytes: Seq<u8>)
    requires
        bytes.len() >= 6,
        bytes[0] == 0x0b && bytes[1] == 0x77,
        bytes[2] as int / 64 < 3,
        256 * (bytes[2] as int % 8) + bytes[3] >= 3,
        bytes[4] as int / 16 < 15,
        88 <= bytes[5] < 136,
    ensures
        parsed_header(bytes) is Ok,
{
    lemma_header_bytes(bytes);
    lemma_small_fields(bytes);
}

proof fn lemma_header_bytes(bytes: Seq<u8>)
    requires
        bytes.len() >= 6,
    ensures
        bits_value(bytes, 0, 16) == 256 * bytes[0] + bytes[1],
        bits_value(bytes, 16, 2) == bytes[2] as int / 64,
        bits_value(bytes, 18, 3) == bytes[2] as int / 8 % 8,
        bits_value(bytes, 21, 11) == 256 * (bytes[2] as int % 8) + bytes[3],
        bits_value(bytes, 32, 2) == bytes[4] as int / 64,
        bits_value(bytes, 34, 2) == bytes[4] as int / 16 % 4,
        bits_value(bytes, 36, 3) == bytes[4] as int / 2 % 8,
        bits_value(bytes, 39, 1) == bytes[4] as int % 2,
        bits_value(bytes, 40, 5) == bytes[5] as int / 8,
{
    vstd::arithmetic::power2::lemma2_to64();
    lemma_small_fields(bytes);
    law_aligned_bits_spell_their_byte(bytes, 0);
    law_aligned_bits_spell_their_byte(bytes, 1);
    law_aligned_bits_spell_their_byte(bytes, 2);
    law_aligned_bits_spell_their_byte(bytes, 3);
    law_aligned_bits_spell_their_byte(bytes, 4);
    law_aligned_bits_spell_their_byte(bytes, 5);
    law_reads_compose(bytes, 0, 8, 8);
    law_reads_compose(bytes, 16, 2, 6);
    law_reads_compose(bytes, 18, 3, 3);
    law_reads_compose(bytes, 21, 3, 8);
    law_reads_compose(bytes, 32, 2, 6);
    law_reads_compose(bytes, 34, 2, 4);
    law_reads_compose(bytes, 36, 3, 1);
    law_reads_compose(bytes, 40, 5, 3);
    crate::bits::lemma_bits_value_bound(bytes, 18, 6);
    crate::bits::lemma_bits_value_bound(bytes, 21, 3);
    crate::bits::lemma_bits_value_bound(bytes, 34, 6);
    crate::bits::lemma_bits_value_bound(bytes, 36, 4);
    crate::bits::lemma_bits_value_bound(bytes, 39, 1);
    crate::bits::lemma_bits_value_bound(bytes, 45, 3);
}

/// The offset of a payload is the first eleven of twelve bits behind the bit that
/// announces it; a field to pass over is passed over exactly where its bit is set.
pub proof fn law_optional_fields_follow_their_bit(b: Bits, count: nat)
    requires
        b.remaining() >= 13,
        count < b.remaining(),
    ensures
        ({
            let present = bits_value(b.bytes, b.position as int, 1) == 1;
            &&& present ==> optional_offset(b) == Some(
                (
                    Some(bits_value(b.bytes, (b.position + 1) as int, 11) as u16),
                    b.advanced(13),
                ),
            )
            &&& !present ==> optional_offset(b) == Some((None::<u16>, b.advanced(1)))
            &&& present ==> optional_skip(b, count) == Some(b.advanced(count + 1))
            &&& !present ==> optional_skip(b, count) == Some(b.advanced(1))
            &&& !present ==> optional_variable(b, count) == Some(b.advanced(1))
        }),
{
    vstd::arithmetic::power2::lemma2_to64();
    crate::bits::lemma_bits_value_bound(b.bytes, b.position as int, 1);
    crate::bits::lemma_bits_value_bound(b.bytes, (b.position + 12) as int, 1);
    law_reads_compose(b.bytes, (b.position + 1) as int, 11, 1);
    assert(b.advanced(1).advanced(12) == b.advanced(13));
    assert(b.advanced(1).advanced(count) == b.advanced(count + 1));
}

/// A payload that must be discarded has no further flags. Any other has seven bits
/// of them where it has a time of its own, and else nine behind a bit.
pub proof fn law_processing_flags_follow_their_kind(b: Bits)
    requires
        b.remaining() >= 11,
    ensures
        ({
            let discard = bits_value(b.bytes, b.position as int, 1) == 1;
            let flagged = bits_value(b.bytes, (b.position + 1) as int, 1) == 1;
            &&& discard ==> processing_info(b, true) == Some(b.advanced(1)) && processing_info(
                b,
                false,
            ) == Some(b.advanced(1))
            &&& !discard ==> processing_info(b, true) == Some(b.advanced(8))
            &&& !discard && flagged ==> processing_info(b, false) == Some(b.advanced(11))
            &&& !discard && !flagged ==> processing_info(b, false) == Some(b.advanced(2))
        }),
{
    vstd::arithmetic::power2::lemma2_to64();
    crate::bits::lemma_bits_value_bound(b.bytes, b.position as int, 1);
    crate::bits::lemma_bits_value_bound(b.bytes, (b.position + 1) as int, 1);
    assert(b.advanced(1).advanced(7) == b.advanced(8));
    assert(b.advanced(1).advanced(1) == b.advanced(2));
    assert(b.advanced(2).advanced(9) == b.advanced(11));
}

/// A payload holds the bytes that stand behind its size, whatever bit they start at:
/// each is eight bits of the block, and none is left out.
pub proof fn law_payloads_hold_their_bytes(b: Bits, id: u32, i: int)
    requires
        payload(b, id) matches Some((read, _)) && 0 <= i < read.data.len(),
    ensures
        ({
            let (read, rest) = payload(b, id)->0;
            let start = rest.position - 8 * read.data.len();
            &&& read.id == id
            &&& read.bit_len == 8 * read.data.len()
            &&& read.data[i] == bits_value(b.bytes, start + 8 * i, 8)
            &&& rest.position <= rest.limit
            &&& payload_config(b) matches Some((offset, sized)) && read.sample_offset == offset
                && sized.variable(8, None).0 == Ok::<nat, AppError>(read.data.len())
        }),
{
    reveal(payload);
    reveal(payload_config);
    vstd::arithmetic::power2::lemma2_to64();
    let (read, rest) = payload(b, id)->0;
    lemma_config_keeps_bytes(b);
    let (_, sized) = payload_config(b)->0;
    lemma_variable_keeps_bytes(sized, 8, 0, 0);
    crate::bits::lemma_bits_value_bound(
        b.bytes,
        rest.position - 8 * read.data.len() + 8 * i,
        8,
    );
}

proof fn lemma_variable_keeps_bytes(b: Bits, chunk: nat, value: nat, extension: nat)
    ensures
        b.variable_from(chunk, None, value, extension).1.bytes == b.bytes,
        b.variable_from(chunk, None, value, extension).1.limit == b.limit,
    decreases b.remaining(),
{
    if let Ok((part, after)) = b.field(chunk) {
        if value + part <= u32::MAX {
            if let Ok((more, rest)) = after.field(1) {
                if more != 0 && value + part != u32::MAX {
                    lemma_variable_keeps_bytes(
                        rest,
                        chunk,
                        ((value + part + 1) * vstd::arithmetic::power2::pow2(chunk)) as nat
                            % 0x1_0000_0000,
                        extension + 1,
                    );
                }
            }
        }
    }
}

proof fn lemma_config_keeps_bytes(b: Bits)
    ensures
        payload_config(b) matches Some((_, rest)) ==> rest.bytes == b.bytes && rest.limit == b.limit,
{
    reveal(payload_config);
    if let Some((offset, b1)) = optional_offset(b) {
        lemma_variable_keeps_bytes(b1.advanced(1), 11, 0, 0);
        if let Some(b2) = optional_variable(b1, 11) {
            lemma_variable_keeps_bytes(b2.advanced(1), 2, 0, 0);
        }
    }
}

/// A block is accepted only behind its sync word 0x5838 and sixteen bits of its
/// length in bytes, with version and key of zero; it ends where its length says.
pub proof fn law_blocks_begin_with_their_sync_word(frame: Seq<u8>, start: nat)
    requires
        emdf_block(frame, start) is Some,
    ensures
        ({
            let block = emdf_block(frame, start)->0;
            let length = bits_value(frame, (start + 16) as int, 16);
            &&& bits_value(frame, start as int, 16) == 0x5838
            &&& length > 0
            &&& block.start == start
            &&& block.end == start + 32 + 8 * length
            &&& block.end <= 8 * frame.len()
            &&& bits_value(frame, (start + 32) as int, 5) == 0
        }),
{
    reveal(emdf_block);
    vstd::arithmetic::power2::lemma2_to64();
    law_reads_compose(frame, (start + 32) as int, 2, 3);
}

/// Payloads end at an identifier of zero or where fewer than five bits are left; a
/// block with an identifier above 14 is no block.
pub proof fn law_payloads_end_at_the_marker(b: Bits)
    ensures
        b.remaining() < 5 ==> block_payloads(b) == Some(Seq::<PayloadView>::empty()),
        b.remaining() >= 5 ==> {
            let id = bits_value(b.bytes, b.position as int, 5);
            &&& id == 0 ==> block_payloads(b) == Some(Seq::<PayloadView>::empty())
            &&& id > 14 ==> block_payloads(b) is None
            &&& block_payloads(b) matches Some(list) ==> (id > 0 ==> list.len() > 0 && list[0].id
                == id && (payload(b.advanced(5), id as u32) matches Some((first, _)) && first
                == list[0]))
        },
{
    reveal(payload);
    vstd::arithmetic::power2::lemma2_to64();
    if b.remaining() >= 5 {
        crate::bits::lemma_bits_value_bound(b.bytes, b.position as int, 5);
    }
}

} // verus!
