//! Side information for joint object coding: the matrices that rebuild objects
//! from a downmix, band by band and timeslot by timeslot.
//!
//! Matrix entries are kept exactly. They are multiples of 820/8192, and between
//! two entries they move along a straight line, so every value is a ratio of
//! small integers in that unit.

use crate::bits::{bits_value, lemma_bits_value_bound, BitReader, Bits};
use crate::eac3::{MetadataPayload, PayloadView};
use crate::error::{AppError, Reason};
use crate::text::{around, decimal, digits, text_around};
use vstd::prelude::*;

verus! {

pub const QMF_SUBBANDS: usize = 64;

pub const JOC_PAYLOAD_ID: u32 = 14;

pub const MAX_OBJECTS: usize = 64;

pub const MAX_TIMESLOTS: usize = 32;

/// Malformed or unsupported side information.
#[derive(Clone, Copy, Debug, PartialEq, Eq, Structural)]
pub enum JocFault {
    PayloadId { found: u32 },
    FrameSamples { samples: usize },
    Timeslots { timeslots: usize },
    Downmix { value: usize },
    Extension { value: usize },
    SteepOrder { first: usize, second: usize },
    SparseChannel { channel: usize, channels: usize },
    TrailingBits { bits: usize },
    Padding,
    HuffmanNode,
    HuffmanLeaf,
    HuffmanEndless,
}

impl JocFault {
    pub open spec fn text(self) -> Seq<char> {
        match self {
            JocFault::PayloadId { found } => around(
                "invalid JOC metadata: expected JOC payload ID 14, found "@,
                found as nat,
                ""@,
            ),
            JocFault::FrameSamples { samples } => around(
                "invalid JOC metadata: JOC frame has "@,
                samples as nat,
                " PCM samples; expected a positive multiple of 64"@,
            ),
            JocFault::Timeslots { timeslots } => around(
                "invalid JOC metadata: JOC frame spans "@,
                timeslots as nat,
                " QMF timeslots; the syntax can address at most 32"@,
            ),
            JocFault::Downmix { value } => around(
                "unsupported JOC feature: reserved JOC downmix configuration "@,
                value as nat,
                ""@,
            ),
            JocFault::Extension { value } => around(
                "unsupported JOC feature: reserved JOC extension configuration "@,
                value as nat,
                ""@,
            ),
            JocFault::SteepOrder { first, second } => around(
                "invalid JOC metadata: JOC steep-transition offsets are not ordered: "@,
                first as nat,
                " then "@,
            ) + digits(second as nat),
            JocFault::SparseChannel { channel, channels } => around(
                "invalid JOC metadata: sparse JOC channel "@,
                channel as nat,
                " exceeds the "@,
            ) + digits(channels as nat) + "-channel downmix"@,
            JocFault::TrailingBits { bits } => around(
                "invalid JOC metadata: JOC payload has "@,
                bits as nat,
                " trailing bits; at most 7 padding bits are allowed"@,
            ),
            JocFault::Padding => "invalid JOC metadata: JOC payload has non-zero padding"@,
            JocFault::HuffmanNode => {
                "invalid JOC metadata: JOC Huffman tree selected an invalid node"@
            },
            JocFault::HuffmanLeaf => {
                "invalid JOC metadata: JOC Huffman leaf overflowed: out of range integral type conversion attempted"@
            },
            JocFault::HuffmanEndless => "invalid JOC metadata: JOC Huffman code did not terminate"@,
        }
    }

    /// Words the fault.
    pub fn message(&self) -> (r: String)
        ensures
            r@ == self.text(),
    {
        match self {
            JocFault::PayloadId { found } => text_around(
                "invalid JOC metadata: expected JOC payload ID 14, found ",
                *found as u64,
                "",
            ),
            JocFault::FrameSamples { samples } => text_around(
                "invalid JOC metadata: JOC frame has ",
                *samples as u64,
                " PCM samples; expected a positive multiple of 64",
            ),
            JocFault::Timeslots { timeslots } => text_around(
                "invalid JOC metadata: JOC frame spans ",
                *timeslots as u64,
                " QMF timeslots; the syntax can address at most 32",
            ),
            JocFault::Downmix { value } => text_around(
                "unsupported JOC feature: reserved JOC downmix configuration ",
                *value as u64,
                "",
            ),
            JocFault::Extension { value } => text_around(
                "unsupported JOC feature: reserved JOC extension configuration ",
                *value as u64,
                "",
            ),
            JocFault::SteepOrder { first, second } => {
                let mut r = text_around(
                    "invalid JOC metadata: JOC steep-transition offsets are not ordered: ",
                    *first as u64,
                    " then ",
                );
                r.append(decimal(*second as u64).as_str());
                r
            },
            JocFault::SparseChannel { channel, channels } => {
                let mut r = text_around(
                    "invalid JOC metadata: sparse JOC channel ",
                    *channel as u64,
                    " exceeds the ",
                );
                r.append(decimal(*channels as u64).as_str());
                r.append("-channel downmix");
                r
            },
            JocFault::TrailingBits { bits } => text_around(
                "invalid JOC metadata: JOC payload has ",
                *bits as u64,
                " trailing bits; at most 7 padding bits are allowed",
            ),
            JocFault::Padding => String::from_str(
                "invalid JOC metadata: JOC payload has non-zero padding",
            ),
            JocFault::HuffmanNode => String::from_str(
                "invalid JOC metadata: JOC Huffman tree selected an invalid node",
            ),
            JocFault::HuffmanLeaf => String::from_str(
                "invalid JOC metadata: JOC Huffman leaf overflowed: out of range integral type conversion attempted",
            ),
            JocFault::HuffmanEndless => String::from_str(
                "invalid JOC metadata: JOC Huffman code did not terminate",
            ),
        }
    }
}

pub open spec fn invalid_error(fault: JocFault) -> AppError {
    AppError::Render(Reason::Joc(fault))
}

pub open spec fn unsupported_error(fault: JocFault) -> AppError {
    AppError::UnsupportedInput(Reason::Joc(fault))
}

fn invalid(fault: JocFault) -> (e: AppError)
    ensures
        e == invalid_error(fault),
{
    AppError::Render(Reason::Joc(fault))
}

fn unsupported(fault: JocFault) -> (e: AppError)
    ensures
        e == unsupported_error(fault),
{
    AppError::UnsupportedInput(Reason::Joc(fault))
}

/// One row of a code tree: where a zero and a one lead. A positive entry is the
/// next row, and a negative entry `-1 - v` is the symbol `v`.
#[derive(Clone, Copy, Debug, PartialEq, Eq, Structural)]
pub struct Branch {
    pub zero: i16,
    pub one: i16,
}

/// The code trees of the standard.
#[derive(Clone, Debug)]
pub struct JocTables {
    pub coarse_generic: Vec<Branch>,
    pub coarse_sparse: Vec<Branch>,
    pub fine_generic: Vec<Branch>,
    pub fine_sparse: Vec<Branch>,
    pub five_channel_index: Vec<Branch>,
    pub seven_channel_index: Vec<Branch>,
}

/// The symbol that comes next, from a row of a tree on, within a number of steps.
pub open spec fn symbol_from(b: Bits, tree: Seq<Branch>, node: int, steps: nat) -> Result<
    (u16, Bits),
    AppError,
>
    decreases steps,
{
    if steps == 0 {
        Err(invalid_error(JocFault::HuffmanEndless))
    } else if node >= tree.len() {
        Err(invalid_error(JocFault::HuffmanNode))
    } else {
        match b.flag() {
            Err(e) => Err(e),
            Ok((bit, rest)) => {
                let next = if bit { tree[node].one } else { tree[node].zero };
                if next == 0 {
                    Err(invalid_error(JocFault::HuffmanLeaf))
                } else if next < 0 {
                    Ok(((-1 - next) as u16, rest))
                } else {
                    symbol_from(rest, tree, next as int, (steps - 1) as nat)
                }
            },
        }
    }
}

/// The symbol that comes next.
#[verifier::opaque]
pub open spec fn symbol(b: Bits, tree: Seq<Branch>) -> Result<(u16, Bits), AppError> {
    symbol_from(b, tree, 0, tree.len() + 1)
}

/// Reads one symbol of a code tree.
pub fn huffman_decode(bits: &mut BitReader, tree: &[Branch]) -> (r: Result<u16, AppError>)
    requires
        old(bits).wf(),
    ensures
        final(bits).wf(),
        match symbol(old(bits)@, tree@) {
            Err(e) => r == Err::<u16, AppError>(e),
            Ok((value, rest)) => r == Ok::<u16, AppError>(value) && value <= 0x7fff && final(bits)@
                == rest,
        },
{
    reveal(symbol);
    let mut node: usize = 0;
    let mut step: usize = 0;
    loop
        invariant
            step <= tree@.len(),
            bits.wf(),
            symbol(old(bits)@, tree@) == symbol_from(
                bits@,
                tree@,
                node as int,
                (tree@.len() + 1 - step) as nat,
            ),
        decreases tree@.len() + 1 - step,
    {
        if node >= tree.len() {
            return Err(invalid(JocFault::HuffmanNode));
        }
        let bit: bool = match bits.read_bit() {
            Err(e) => return Err(e),
            Ok(bit) => bit,
        };
        let next: i16 = if bit { tree[node].one } else { tree[node].zero };
        if next == 0 {
            return Err(invalid(JocFault::HuffmanLeaf));
        }
        if next < 0 {
            return Ok((-1 - next) as u16);
        }
        node = next as usize;
        if step == tree.len() {
            assert(symbol_from(bits@, tree@, node as int, 0) is Err);
            return Err(invalid(JocFault::HuffmanEndless));
        }
        step = step + 1;
    }
}

/// How the downmix carries the objects.
#[derive(Clone, Copy, Debug, PartialEq, Eq, Structural)]
pub enum DownmixConfiguration {
    FiveChannel,
    SevenChannel,
    FiveChannelHeight,
    FiveChannelPhaseShifted,
    FiveChannelHeightPhaseShifted,
}

/// The configuration with a coded value.
pub open spec fn coded_downmix(value: nat) -> Option<DownmixConfiguration> {
    if value == 0 {
        Some(DownmixConfiguration::FiveChannel)
    } else if value == 1 {
        Some(DownmixConfiguration::SevenChannel)
    } else if value == 2 {
        Some(DownmixConfiguration::FiveChannelHeight)
    } else if value == 3 {
        Some(DownmixConfiguration::FiveChannelPhaseShifted)
    } else if value == 4 {
        Some(DownmixConfiguration::FiveChannelHeightPhaseShifted)
    } else {
        None
    }
}

pub open spec fn downmix_info(b: Bits) -> Result<(DownmixConfiguration, Bits), AppError> {
    match b.field(3) {
        Err(e) => Err(e),
        Ok((value, rest)) => match coded_downmix(value) {
            None => Err(unsupported_error(JocFault::Downmix { value: value as usize })),
            Some(downmix) => Ok((downmix, rest)),
        },
    }
}

impl DownmixConfiguration {
    fn read(bits: &mut BitReader) -> (r: Result<Self, AppError>)
        requires
            old(bits).wf(),
        ensures
            final(bits).wf(),
            match downmix_info(old(bits)@) {
                Err(e) => r == Err::<DownmixConfiguration, AppError>(e),
                Ok((downmix, rest)) => r == Ok::<DownmixConfiguration, AppError>(downmix)
                    && final(bits)@ == rest,
            },
    {
        let value: usize = bits.read_small(3)?;
        match value {
            0 => Ok(DownmixConfiguration::FiveChannel),
            1 => Ok(DownmixConfiguration::SevenChannel),
            2 => Ok(DownmixConfiguration::FiveChannelHeight),
            3 => Ok(DownmixConfiguration::FiveChannelPhaseShifted),
            4 => Ok(DownmixConfiguration::FiveChannelHeightPhaseShifted),
            _ => Err(unsupported(JocFault::Downmix { value })),
        }
    }

    pub open spec fn channels(self) -> nat {
        match self {
            DownmixConfiguration::FiveChannel => 5,
            DownmixConfiguration::FiveChannelPhaseShifted => 5,
            DownmixConfiguration::SevenChannel => 7,
            DownmixConfiguration::FiveChannelHeight => 7,
            DownmixConfiguration::FiveChannelHeightPhaseShifted => 7,
        }
    }

    /// How many channels the downmix has.
    pub fn channel_count(self) -> (r: usize)
        ensures
            r == self.channels(),
    {
        match self {
            DownmixConfiguration::FiveChannel | DownmixConfiguration::FiveChannelPhaseShifted => 5,
            DownmixConfiguration::SevenChannel
            | DownmixConfiguration::FiveChannelHeight
            | DownmixConfiguration::FiveChannelHeightPhaseShifted => 7,
        }
    }
}

/// The step width of coded levels.
#[derive(Clone, Copy, Debug, PartialEq, Eq, Structural)]
pub enum Quantization {
    Coarse,
    Fine,
}

impl Quantization {
    /// How many levels there are.
    pub open spec fn steps(self) -> int {
        match self {
            Quantization::Coarse => 96,
            Quantization::Fine => 192,
        }
    }

    /// The level of an unselected entry of a sparse matrix.
    pub open spec fn sparse_offset(self) -> int {
        match self {
            Quantization::Coarse => 50,
            Quantization::Fine => 100,
        }
    }

    /// The value of a level in units of 820/8192: levels count from the middle, and
    /// a coarse step is two units.
    pub open spec fn value(self, level: int) -> int {
        match self {
            Quantization::Coarse => 2 * (level - 48),
            Quantization::Fine => level - 96,
        }
    }

    fn step_count(self) -> (r: u16)
        ensures
            r == self.steps(),
    {
        match self {
            Quantization::Coarse => 96,
            Quantization::Fine => 192,
        }
    }

    fn unselected(self) -> (r: u16)
        ensures
            r == self.sparse_offset(),
    {
        match self {
            Quantization::Coarse => 50,
            Quantization::Fine => 100,
        }
    }

    fn dequantize(self, level: u16) -> (r: i16)
        requires
            level < self.steps(),
        ensures
            r == self.value(level as int),
            -96 <= r <= 96,
    {
        match self {
            Quantization::Coarse => 2 * (level as i16 - 48),
            Quantization::Fine => level as i16 - 96,
        }
    }
}

/// How values move within a frame: along a line, or in steps at given timeslots.
#[derive(Clone, Copy, Debug, PartialEq, Eq, Structural)]
pub enum Interpolation {
    Smooth,
    Steep { first: usize, second: usize },
}

/// How one object is coded.
#[derive(Clone, Copy, Debug, PartialEq, Eq, Structural)]
pub struct ObjectInfo {
    pub band_index: usize,
    pub sparse: bool,
    pub quantization: Quantization,
    pub interpolation: Interpolation,
    /// One or two.
    pub data_points: usize,
}

/// The numbers of parameter bands.
pub open spec fn band_count(index: nat) -> nat {
    band_boundaries(index).len()
}

/// The first subband of every parameter band.
pub open spec fn band_boundaries(index: nat) -> Seq<usize> {
    if index == 0 {
        seq![0]
    } else if index == 1 {
        seq![0, 3, 14]
    } else if index == 2 {
        seq![0, 1, 3, 9, 23]
    } else if index == 3 {
        seq![0, 1, 2, 4, 8, 14, 23]
    } else if index == 4 {
        seq![0, 1, 2, 3, 5, 7, 9, 14, 23]
    } else if index == 5 {
        seq![0, 1, 2, 3, 4, 6, 8, 11, 14, 18, 23, 35]
    } else if index == 6 {
        seq![0, 1, 2, 3, 4, 5, 6, 7, 8, 9, 11, 14, 18, 23, 35]
    } else {
        seq![
            0, 1, 2, 3, 4, 5, 6, 7, 8, 9, 10, 11, 12, 14, 16, 18, 20, 23, 26, 30, 35, 41, 48,
        ]
    }
}

/// The last band that starts at or before a subband.
pub open spec fn band_of(boundaries: Seq<usize>, subband: nat) -> nat
    decreases boundaries.len(),
{
    if boundaries.len() <= 1 {
        0
    } else if boundaries.last() <= subband {
        (boundaries.len() - 1) as nat
    } else {
        band_of(boundaries.drop_last(), subband)
    }
}

fn boundaries(index: usize) -> (r: Vec<usize>)
    requires
        index < 8,
    ensures
        r@ == band_boundaries(index as nat),
        1 <= r@.len() <= 23,
{
    match index {
        0 => vec![0],
        1 => vec![0, 3, 14],
        2 => vec![0, 1, 3, 9, 23],
        3 => vec![0, 1, 2, 4, 8, 14, 23],
        4 => vec![0, 1, 2, 3, 5, 7, 9, 14, 23],
        5 => vec![0, 1, 2, 3, 4, 6, 8, 11, 14, 18, 23, 35],
        6 => vec![0, 1, 2, 3, 4, 5, 6, 7, 8, 9, 11, 14, 18, 23, 35],
        _ => vec![
            0, 1, 2, 3, 4, 5, 6, 7, 8, 9, 10, 11, 12, 14, 16, 18, 20, 23, 26, 30, 35, 41, 48,
        ],
    }
}

/// The parameter band of a subband.
pub fn subband_to_parameter_band(band_index: usize, subband: usize) -> (r: usize)
    requires
        band_index < 8,
    ensures
        r == band_of(band_boundaries(band_index as nat), subband as nat),
        r < band_count(band_index as nat),
{
    let bounds = boundaries(band_index);
    let mut band: usize = bounds.len() - 1;
    assert(bounds@.take(band + 1) =~= bounds@);
    while band > 0 && bounds[band] > subband
        invariant
            band < bounds@.len(),
            bounds@ == band_boundaries(band_index as nat),
            band_of(bounds@, subband as nat) == band_of(bounds@.take(band + 1), subband as nat),
        decreases band,
    {
        assert(bounds@.take(band + 1).drop_last() =~= bounds@.take(band as int));
        band = band - 1;
    }
    band
}

#[verifier::opaque]
pub open spec fn steep_offsets(b: Bits, steep: bool, points: nat) -> Result<(Interpolation, Bits), AppError> {
    if !steep {
        Ok((Interpolation::Smooth, b))
    } else {
        match b.field(5) {
            Err(e) => Err(e),
            Ok((first, b1)) => if points == 1 {
                Ok((Interpolation::Steep { first: (first + 1) as usize, second: 0 }, b1))
            } else {
                match b1.field(5) {
                    Err(e) => Err(e),
                    Ok((second, rest)) => if second < first {
                        Err(
                            invalid_error(
                                JocFault::SteepOrder {
                                    first: (first + 1) as usize,
                                    second: (second + 1) as usize,
                                },
                            ),
                        )
                    } else {
                        Ok(
                            (
                                Interpolation::Steep {
                                    first: (first + 1) as usize,
                                    second: (second + 1) as usize,
                                },
                                rest,
                            ),
                        )
                    },
                }
            },
        }
    }
}

/// How an object is coded, where it is coded at all.
#[verifier::opaque]
pub open spec fn object_info(b: Bits) -> Result<(Option<ObjectInfo>, Bits), AppError> {
    match b.flag() {
        Err(e) => Err(e),
        Ok((present, b1)) => if !present {
            Ok((None, b1))
        } else {
            match b1.field(3) {
                Err(e) => Err(e),
                Ok((band_index, b2)) => match b2.flag() {
                    Err(e) => Err(e),
                    Ok((sparse, b3)) => match b3.flag() {
                        Err(e) => Err(e),
                        Ok((fine, b4)) => match b4.flag() {
                            Err(e) => Err(e),
                            Ok((steep, b5)) => match b5.field(1) {
                                Err(e) => Err(e),
                                Ok((more, b6)) => match steep_offsets(b6, steep, more + 1) {
                                    Err(e) => Err(e),
                                    Ok((interpolation, rest)) => Ok(
                                        (
                                            Some(
                                                ObjectInfo {
                                                    band_index: band_index as usize,
                                                    sparse,
                                                    quantization: if fine {
                                                        Quantization::Fine
                                                    } else {
                                                        Quantization::Coarse
                                                    },
                                                    interpolation,
                                                    data_points: (more + 1) as usize,
                                                },
                                            ),
                                            rest,
                                        ),
                                    ),
                                },
                            },
                        },
                    },
                },
            }
        },
    }
}

fn read_steep_offsets(bits: &mut BitReader, steep: bool, points: usize) -> (r: Result<
    Interpolation,
    AppError,
>)
    requires
        old(bits).wf(),
        1 <= points <= 2,
    ensures
        final(bits).wf(),
        match steep_offsets(old(bits)@, steep, points as nat) {
            Err(e) => r == Err::<Interpolation, AppError>(e),
            Ok((interpolation, rest)) => r == Ok::<Interpolation, AppError>(interpolation)
                && final(bits)@ == rest,
        },
{
    reveal(steep_offsets);
    if !steep {
        return Ok(Interpolation::Smooth);
    }
    let first: usize = bits.read_small(5)?;
    if points == 1 {
        return Ok(Interpolation::Steep { first: first + 1, second: 0 });
    }
    let second: usize = bits.read_small(5)?;
    if second < first {
        return Err(invalid(JocFault::SteepOrder { first: first + 1, second: second + 1 }));
    }
    Ok(Interpolation::Steep { first: first + 1, second: second + 1 })
}

impl ObjectInfo {
    pub open spec fn wf(self) -> bool {
        self.band_index < 8 && 1 <= self.data_points <= 2
    }

    pub open spec fn bands(self) -> nat {
        band_count(self.band_index as nat)
    }

    fn read(bits: &mut BitReader) -> (r: Result<Option<Self>, AppError>)
        requires
            old(bits).wf(),
        ensures
            final(bits).wf(),
            match object_info(old(bits)@) {
                Err(e) => r == Err::<Option<ObjectInfo>, AppError>(e),
                Ok((info, rest)) => r == Ok::<Option<ObjectInfo>, AppError>(info) && (info matches Some(
                    i,
                ) ==> i.wf()) && final(bits)@ == rest,
            },
    {
        reveal(object_info);
        let present: bool = bits.read_bit()?;
        if !present {
            return Ok(None);
        }
        let band_index: usize = bits.read_small(3)?;
        let sparse: bool = bits.read_bit()?;
        let fine: bool = bits.read_bit()?;
        let steep: bool = bits.read_bit()?;
        let more: usize = bits.read_small(1)?;
        let interpolation: Interpolation = read_steep_offsets(bits, steep, more + 1)?;
        Ok(
            Some(
                ObjectInfo {
                    band_index,
                    sparse,
                    quantization: if fine { Quantization::Fine } else { Quantization::Coarse },
                    interpolation,
                    data_points: more + 1,
                },
            ),
        )
    }
}

pub open spec fn object_infos(b: Bits, count: nat) -> Result<(Seq<Option<ObjectInfo>>, Bits), AppError>
    decreases count,
{
    if count == 0 {
        Ok((seq![], b))
    } else {
        match object_info(b) {
            Err(e) => Err(e),
            Ok((first, b1)) => match object_infos(b1, (count - 1) as nat) {
                Err(e) => Err(e),
                Ok((others, rest)) => Ok((seq![first] + others, rest)),
            },
        }
    }
}

pub open spec fn infos_wf(infos: Seq<Option<ObjectInfo>>) -> bool {
    forall|i: int| 0 <= i < infos.len() ==> ((#[trigger] infos[i]) matches Some(info) ==> info.wf())
}

fn read_object_infos(bits: &mut BitReader, count: usize) -> (r: Result<
    Vec<Option<ObjectInfo>>,
    AppError,
>)
    requires
        old(bits).wf(),
    ensures
        final(bits).wf(),
        match object_infos(old(bits)@, count as nat) {
            Err(e) => r == Err::<Vec<Option<ObjectInfo>>, AppError>(e),
            Ok((infos, rest)) => r is Ok && r->Ok_0@ == infos && infos_wf(infos) && infos.len()
                == count && final(bits)@ == rest,
        },
{
    let mut infos: Vec<Option<ObjectInfo>> = Vec::new();
    let mut i: usize = 0;
    while i < count
        invariant
            i <= count,
            bits.wf(),
            infos@.len() == i,
            infos_wf(infos@),
            object_infos(old(bits)@, count as nat) == (match object_infos(
                bits@,
                (count - i) as nat,
            ) {
                Err(e) => Err(e),
                Ok((others, rest)) => Ok((infos@ + others, rest)),
            }),
        decreases count - i,
    {
        let ghost before = infos@;
        match ObjectInfo::read(bits) {
            Err(e) => return Err(e),
            Ok(info) => {
                infos.push(info);
                proof {
                    match object_infos(bits@, (count - i - 1) as nat) {
                        Err(_) => {},
                        Ok((others, _)) => {
                            assert(before + (seq![info] + others) =~= infos@ + others);
                        },
                    }
                }
            },
        }
        i = i + 1;
    }
    assert(infos@ + Seq::<Option<ObjectInfo>>::empty() =~= infos@);
    Ok(infos)
}

/// A run of symbols of one tree.
pub open spec fn symbols(b: Bits, tree: Seq<Branch>, count: nat) -> Result<(Seq<u16>, Bits), AppError>
    decreases count,
{
    if count == 0 {
        Ok((seq![], b))
    } else {
        match symbol(b, tree) {
            Err(e) => Err(e),
            Ok((first, b1)) => match symbols(b1, tree, (count - 1) as nat) {
                Err(e) => Err(e),
                Ok((others, rest)) => Ok((seq![first] + others, rest)),
            },
        }
    }
}

pub open spec fn symbols_wf(values: Seq<u16>) -> bool {
    forall|i: int| 0 <= i < values.len() ==> (#[trigger] values[i]) <= 0x7fff
}

fn read_symbols(bits: &mut BitReader, tree: &[Branch], count: usize) -> (r: Result<Vec<u16>, AppError>)
    requires
        old(bits).wf(),
    ensures
        final(bits).wf(),
        match symbols(old(bits)@, tree@, count as nat) {
            Err(e) => r == Err::<Vec<u16>, AppError>(e),
            Ok((values, rest)) => r is Ok && r->Ok_0@ == values && values.len() == count
                && symbols_wf(values) && final(bits)@ == rest,
        },
{
    let mut values: Vec<u16> = Vec::new();
    let mut i: usize = 0;
    while i < count
        invariant
            i <= count,
            bits.wf(),
            values@.len() == i,
            symbols_wf(values@),
            symbols(old(bits)@, tree@, count as nat) == (match symbols(
                bits@,
                tree@,
                (count - i) as nat,
            ) {
                Err(e) => Err(e),
                Ok((others, rest)) => Ok((values@ + others, rest)),
            }),
        decreases count - i,
    {
        let ghost before = values@;
        match huffman_decode(bits, tree) {
            Err(e) => return Err(e),
            Ok(value) => {
                values.push(value);
                proof {
                    match symbols(bits@, tree@, (count - i - 1) as nat) {
                        Err(_) => {},
                        Ok((others, _)) => {
                            assert(before + (seq![value] + others) =~= values@ + others);
                        },
                    }
                }
            },
        }
        i = i + 1;
    }
    assert(values@ + Seq::<u16>::empty() =~= values@);
    Ok(values)
}

/// The symbols of one data point. A sparse point names a channel for every band; a
/// dense one has an entry for every channel and band.
#[derive(Clone, Debug)]
pub struct DataPoint {
    pub channels: Vec<u16>,
    pub values: Vec<u16>,
}

/// What a data point holds.
pub struct PointView {
    pub channels: Seq<u16>,
    pub values: Seq<u16>,
}

impl View for DataPoint {
    type V = PointView;

    open spec fn view(&self) -> PointView {
        PointView { channels: self.channels@, values: self.values@ }
    }
}

impl PointView {
    pub open spec fn wf(self, info: ObjectInfo, channels: nat) -> bool {
        &&& symbols_wf(self.values)
        &&& symbols_wf(self.channels)
        &&& info.sparse ==> self.channels.len() == info.bands() && self.values.len()
            == info.bands() && self.channels[0] < channels
        &&& !info.sparse ==> self.values.len() == channels * info.bands()
    }
}

impl JocTables {
    /// The tree of dense entries.
    pub open spec fn generic(self, quantization: Quantization) -> Seq<Branch> {
        match quantization {
            Quantization::Coarse => self.coarse_generic@,
            Quantization::Fine => self.fine_generic@,
        }
    }

    /// The tree of sparse entries.
    pub open spec fn sparse(self, quantization: Quantization) -> Seq<Branch> {
        match quantization {
            Quantization::Coarse => self.coarse_sparse@,
            Quantization::Fine => self.fine_sparse@,
        }
    }

    /// The tree of channel indexes.
    pub open spec fn index(self, channels: nat) -> Seq<Branch> {
        if channels == 5 { self.five_channel_index@ } else { self.seven_channel_index@ }
    }

    fn generic_tree(&self, quantization: Quantization) -> (r: &[Branch])
        ensures
            r@ == self.generic(quantization),
    {
        match quantization {
            Quantization::Coarse => self.coarse_generic.as_slice(),
            Quantization::Fine => self.fine_generic.as_slice(),
        }
    }

    fn sparse_tree(&self, quantization: Quantization) -> (r: &[Branch])
        ensures
            r@ == self.sparse(quantization),
    {
        match quantization {
            Quantization::Coarse => self.coarse_sparse.as_slice(),
            Quantization::Fine => self.fine_sparse.as_slice(),
        }
    }

    fn index_tree(&self, channels: usize) -> (r: &[Branch])
        ensures
            r@ == self.index(channels as nat),
    {
        if channels == 5 {
            self.five_channel_index.as_slice()
        } else {
            self.seven_channel_index.as_slice()
        }
    }
}

/// One sparse data point: the first channel, the channel symbols of the other
/// bands, and a value symbol for every band.
pub open spec fn sparse_point(b: Bits, info: ObjectInfo, channels: nat, tables: JocTables) -> Result<
    (PointView, Bits),
    AppError,
> {
    match b.field(3) {
        Err(e) => Err(e),
        Ok((first, b1)) => if first >= channels {
            Err(
                invalid_error(
                    JocFault::SparseChannel {
                        channel: first as usize,
                        channels: channels as usize,
                    },
                ),
            )
        } else {
            match symbols(b1, tables.index(channels), (info.bands() - 1) as nat) {
                Err(e) => Err(e),
                Ok((others, b2)) => match symbols(
                    b2,
                    tables.sparse(info.quantization),
                    info.bands(),
                ) {
                    Err(e) => Err(e),
                    Ok((values, rest)) => Ok(
                        (PointView { channels: seq![first as u16] + others, values }, rest),
                    ),
                },
            }
        },
    }
}

pub open spec fn data_point(b: Bits, info: ObjectInfo, channels: nat, tables: JocTables) -> Result<
    (PointView, Bits),
    AppError,
> {
    if info.sparse {
        sparse_point(b, info, channels, tables)
    } else {
        match symbols(b, tables.generic(info.quantization), channels * info.bands()) {
            Err(e) => Err(e),
            Ok((values, rest)) => Ok((PointView { channels: seq![], values }, rest)),
        }
    }
}

fn read_sparse_point(bits: &mut BitReader, info: ObjectInfo, channels: usize, tables: &JocTables) -> (r: Result<
    DataPoint,
    AppError,
>)
    requires
        old(bits).wf(),
        info.wf(),
        info.sparse,
        channels == 5 || channels == 7,
    ensures
        final(bits).wf(),
        match sparse_point(old(bits)@, info, channels as nat, *tables) {
            Err(e) => r == Err::<DataPoint, AppError>(e),
            Ok((point, rest)) => r is Ok && r->Ok_0@ == point && point.wf(info, channels as nat)
                && final(bits)@ == rest,
        },
{
    let bands: usize = boundaries(info.band_index).len();
    let first: usize = bits.read_small(3)?;
    if first >= channels {
        return Err(invalid(JocFault::SparseChannel { channel: first, channels }));
    }
    let others: Vec<u16> = read_symbols(bits, tables.index_tree(channels), bands - 1)?;
    let values: Vec<u16> = read_symbols(bits, tables.sparse_tree(info.quantization), bands)?;
    let mut named: Vec<u16> = Vec::new();
    named.push(first as u16);
    let mut others = others;
    let ghost listed = others@;
    named.append(&mut others);
    assert(named@ =~= seq![first as u16] + listed);
    Ok(DataPoint { channels: named, values })
}

fn read_data_point(bits: &mut BitReader, info: ObjectInfo, channels: usize, tables: &JocTables) -> (r: Result<
    DataPoint,
    AppError,
>)
    requires
        old(bits).wf(),
        info.wf(),
        channels == 5 || channels == 7,
    ensures
        final(bits).wf(),
        match data_point(old(bits)@, info, channels as nat, *tables) {
            Err(e) => r == Err::<DataPoint, AppError>(e),
            Ok((point, rest)) => r is Ok && r->Ok_0@ == point && point.wf(info, channels as nat)
                && final(bits)@ == rest,
        },
{
    if info.sparse {
        return read_sparse_point(bits, info, channels, tables);
    }
    let bands: usize = boundaries(info.band_index).len();
    let entries: usize = if channels == 5 { 5 * bands } else { 7 * bands };
    proof {
        assert(entries == channels * bands) by (nonlinear_arith)
            requires
                channels == 5 && entries == 5 * bands || channels == 7 && entries == 7 * bands,
        ;
    }
    let values: Vec<u16> = read_symbols(bits, tables.generic_tree(info.quantization), entries)?;
    Ok(DataPoint { channels: Vec::new(), values })
}

/// The channel that a sparse point selects in a band.
pub open spec fn selected_channel(point: PointView, channels: nat, band: nat) -> int {
    if band == 0 {
        point.channels[0] as int
    } else {
        (point.channels[band - 1] + point.channels[band as int]) % (channels as int)
    }
}

/// The level of a matrix entry. Levels are coded as differences along the bands,
/// modulo the number of levels; an entry that a sparse point does not select has a
/// level of its own.
pub open spec fn level(info: ObjectInfo, point: PointView, channels: nat, channel: nat, band: nat) -> int
    decreases band,
{
    let steps = info.quantization.steps();
    if info.sparse {
        let offset = info.quantization.sparse_offset();
        if selected_channel(point, channels, band) != channel {
            offset
        } else if band == 0 {
            (offset + point.values[0]) % steps
        } else {
            (level(info, point, channels, channel, (band - 1) as nat) + point.values[band as int])
                % steps
        }
    } else {
        let coded = point.values[(channel * info.bands() + band) as int];
        if band == 0 {
            (steps / 2 + coded) % steps
        } else {
            (level(info, point, channels, channel, (band - 1) as nat) + coded) % steps
        }
    }
}

/// The value of a matrix entry in units of 820/8192.
pub open spec fn entry(info: ObjectInfo, point: PointView, channels: nat, channel: nat, band: nat) -> int {
    info.quantization.value(level(info, point, channels, channel, band))
}

pub proof fn lemma_level_bound(info: ObjectInfo, point: PointView, channels: nat, channel: nat, band: nat)
    ensures
        0 <= level(info, point, channels, channel, band) < info.quantization.steps(),
    decreases band,
{
    if band > 0 {
        lemma_level_bound(info, point, channels, channel, (band - 1) as nat);
    }
}

/// The levels of one channel, band by band.
fn channel_levels(info: ObjectInfo, point: &DataPoint, channels: usize, channel: usize) -> (r: Vec<u16>)
    requires
        info.wf(),
        channels == 5 || channels == 7,
        channel < channels,
        point@.wf(info, channels as nat),
    ensures
        r@.len() == info.bands(),
        forall|k: int|
            0 <= k < r@.len() ==> #[trigger] r@[k] == level(
                info,
                point@,
                channels as nat,
                channel as nat,
                k as nat,
            ),
{
    let bands: usize = boundaries(info.band_index).len();
    let steps: u16 = info.quantization.step_count();
    let offset: u16 = info.quantization.unselected();
    let mut levels: Vec<u16> = Vec::new();
    let mut band: usize = 0;
    while band < bands
        invariant
            band <= bands,
            bands == info.bands() <= 23,
            info.wf(),
            channels == 5 || channels == 7,
            channel < channels,
            point@.wf(info, channels as nat),
            steps == info.quantization.steps(),
            offset == info.quantization.sparse_offset(),
            levels@.len() == band,
            forall|k: int|
                0 <= k < band ==> #[trigger] levels@[k] == level(
                    info,
                    point@,
                    channels as nat,
                    channel as nat,
                    k as nat,
                ),
        decreases bands - band,
    {
        proof {
            if band > 0 {
                lemma_level_bound(
                    info,
                    point@,
                    channels as nat,
                    channel as nat,
                    (band - 1) as nat,
                );
                assert(levels@[band - 1] == level(
                    info,
                    point@,
                    channels as nat,
                    channel as nat,
                    (band - 1) as nat,
                ));
            }
            assert(channel * bands + band < channels * bands) by (nonlinear_arith)
                requires
                    channel + 1 <= channels,
                    band < bands,
            ;
        }
        let next: u16 = if info.sparse {
            let selected: usize = if band == 0 {
                point.channels[0] as usize
            } else {
                (point.channels[band - 1] as usize + point.channels[band] as usize) % channels
            };
            if selected != channel {
                offset
            } else if band == 0 {
                (offset + point.values[0]) % steps
            } else {
                (levels[band - 1] + point.values[band]) % steps
            }
        } else {
            proof {
                assert(channel * bands <= 7 * 23) by (nonlinear_arith)
                    requires
                        channel <= 7,
                        bands <= 23,
                ;
            }
            let coded: u16 = point.values[channel * bands + band];
            if band == 0 {
                (steps / 2 + coded) % steps
            } else {
                (levels[band - 1] + coded) % steps
            }
        };
        levels.push(next);
        band = band + 1;
    }
    levels
}

/// The value of a matrix entry, for all channels and bands of a point.
pub open spec fn holds_entries(values: Seq<Vec<i16>>, info: ObjectInfo, point: PointView, channels: nat) -> bool {
    &&& values.len() == channels
    &&& forall|c: int|
        0 <= c < channels ==> (#[trigger] values[c])@.len() == info.bands() && forall|k: int|
            0 <= k < info.bands() ==> #[trigger] values[c]@[k] == entry(
                info,
                point,
                channels,
                c as nat,
                k as nat,
            ) && -96 <= values[c]@[k] <= 96
}

/// Computes the matrix of a data point.
pub fn differential_decode(info: ObjectInfo, point: &DataPoint, channels: usize) -> (r: Vec<Vec<i16>>)
    requires
        info.wf(),
        channels == 5 || channels == 7,
        point@.wf(info, channels as nat),
    ensures
        holds_entries(r@, info, point@, channels as nat),
{
    let mut values: Vec<Vec<i16>> = Vec::new();
    let mut channel: usize = 0;
    while channel < channels
        invariant
            channel <= channels,
            info.wf(),
            channels == 5 || channels == 7,
            point@.wf(info, channels as nat),
            values@.len() == channel,
            forall|c: int|
                0 <= c < channel ==> (#[trigger] values@[c])@.len() == info.bands() && forall|
                    k: int,
                |
                    0 <= k < info.bands() ==> #[trigger] values@[c]@[k] == entry(
                        info,
                        point@,
                        channels as nat,
                        c as nat,
                        k as nat,
                    ) && -96 <= values@[c]@[k] <= 96,
        decreases channels - channel,
    {
        let levels = channel_levels(info, point, channels, channel);
        let mut row: Vec<i16> = Vec::new();
        let mut band: usize = 0;
        while band < levels.len()
            invariant
                band <= levels@.len() == info.bands(),
                forall|k: int|
                    0 <= k < levels@.len() ==> #[trigger] levels@[k] == level(
                        info,
                        point@,
                        channels as nat,
                        channel as nat,
                        k as nat,
                    ),
                row@.len() == band,
                forall|k: int|
                    0 <= k < band ==> #[trigger] row@[k] == entry(
                        info,
                        point@,
                        channels as nat,
                        channel as nat,
                        k as nat,
                    ) && -96 <= row@[k] <= 96,
            decreases levels@.len() - band,
        {
            proof {
                lemma_level_bound(info, point@, channels as nat, channel as nat, band as nat);
            }
            row.push(info.quantization.dequantize(levels[band]));
            band = band + 1;
        }
        values.push(row);
        channel = channel + 1;
    }
    values
}

/// The data of one coded object.
pub struct ObjectData {
    pub info: ObjectInfo,
    pub points: Seq<PointView>,
}

impl ObjectData {
    pub open spec fn wf(self, channels: nat) -> bool {
        &&& self.info.wf()
        &&& self.points.len() == self.info.data_points
        &&& forall|p: int|
            0 <= p < self.points.len() ==> (#[trigger] self.points[p]).wf(self.info, channels)
    }

    /// A value of the matrix at a data point, for a subband.
    pub open spec fn value(self, channels: nat, point: int, channel: nat, subband: nat) -> int {
        entry(
            self.info,
            self.points[point],
            channels,
            channel,
            band_of(band_boundaries(self.info.band_index as nat), subband),
        )
    }

    /// The value that the object's last data point leaves for the next frame.
    pub open spec fn left(self, channels: nat, channel: nat, subband: nat) -> int {
        self.value(channels, self.points.len() - 1, channel, subband)
    }
}

pub open spec fn data_points(b: Bits, info: ObjectInfo, channels: nat, tables: JocTables, count: nat) -> Result<
    (Seq<PointView>, Bits),
    AppError,
>
    decreases count,
{
    if count == 0 {
        Ok((seq![], b))
    } else {
        match data_point(b, info, channels, tables) {
            Err(e) => Err(e),
            Ok((first, b1)) => match data_points(b1, info, channels, tables, (count - 1) as nat) {
                Err(e) => Err(e),
                Ok((others, rest)) => Ok((seq![first] + others, rest)),
            },
        }
    }
}

/// The data of the objects from `object` on. Objects that are not coded have none.
pub open spec fn objects_data(
    b: Bits,
    infos: Seq<Option<ObjectInfo>>,
    channels: nat,
    tables: JocTables,
    object: nat,
) -> Result<(Seq<Option<ObjectData>>, Bits), AppError>
    decreases infos.len() - object,
{
    if object >= infos.len() {
        Ok((seq![], b))
    } else {
        match infos[object as int] {
            None => match objects_data(b, infos, channels, tables, object + 1) {
                Err(e) => Err(e),
                Ok((others, rest)) => Ok((seq![None] + others, rest)),
            },
            Some(info) => match data_points(
                b,
                info,
                channels,
                tables,
                info.data_points as nat,
            ) {
                Err(e) => Err(e),
                Ok((points, b1)) => match objects_data(b1, infos, channels, tables, object + 1) {
                    Err(e) => Err(e),
                    Ok((others, rest)) => Ok(
                        (seq![Some(ObjectData { info, points })] + others, rest),
                    ),
                },
            },
        }
    }
}

/// The data of one coded object, with the matrices of its points.
struct CodedObject {
    info: ObjectInfo,
    points: Vec<DataPoint>,
    matrices: Vec<Vec<Vec<i16>>>,
}

impl CodedObject {
    spec fn view(&self) -> ObjectData {
        ObjectData {
            info: self.info,
            points: self.points@.map_values(|point: DataPoint| point@),
        }
    }

    spec fn wf(&self, channels: nat) -> bool {
        &&& self@.wf(channels)
        &&& self.matrices@.len() == self.points@.len()
        &&& forall|p: int|
            0 <= p < self.points@.len() ==> holds_entries(
                (#[trigger] self.matrices@[p])@,
                self.info,
                self.points@[p]@,
                channels,
            )
    }

    /// Looks up a value of the matrix at a data point.
    fn value(&self, channels: usize, point: usize, channel: usize, subband: usize) -> (r: i16)
        requires
            self.wf(channels as nat),
            point < self.points@.len(),
            channel < channels,
        ensures
            r == self@.value(channels as nat, point as int, channel as nat, subband as nat),
            -96 <= r <= 96,
    {
        let band: usize = subband_to_parameter_band(self.info.band_index, subband);
        let matrix: &Vec<Vec<i16>> = &self.matrices[point];
        assert(holds_entries(
            self.matrices@[point as int]@,
            self.info,
            self.points@[point as int]@,
            channels as nat,
        ));
        assert(self@.points[point as int] == self.points@[point as int]@);
        assert(matrix@[channel as int]@.len() == self.info.bands());
        let r: i16 = matrix[channel][band];
        assert(matrix@[channel as int]@[band as int] == entry(
            self.info,
            self.points@[point as int]@,
            channels as nat,
            channel as nat,
            band as nat,
        ));
        r
    }
}

fn read_coded_object(bits: &mut BitReader, info: ObjectInfo, channels: usize, tables: &JocTables) -> (r: Result<
    CodedObject,
    AppError,
>)
    requires
        old(bits).wf(),
        info.wf(),
        channels == 5 || channels == 7,
    ensures
        final(bits).wf(),
        match data_points(
            old(bits)@,
            info,
            channels as nat,
            *tables,
            info.data_points as nat,
        ) {
            Err(e) => r == Err::<CodedObject, AppError>(e),
            Ok((points, rest)) => r is Ok && r->Ok_0@ == (ObjectData { info, points })
                && r->Ok_0.wf(channels as nat) && final(bits)@ == rest,
        },
{
    let mut points: Vec<DataPoint> = Vec::new();
    let mut matrices: Vec<Vec<Vec<i16>>> = Vec::new();
    let mut i: usize = 0;
    while i < info.data_points
        invariant
            i <= info.data_points,
            info.wf(),
            channels == 5 || channels == 7,
            bits.wf(),
            points@.len() == i,
            matrices@.len() == i,
            forall|p: int| 0 <= p < i ==> (#[trigger] points@[p])@.wf(info, channels as nat),
            forall|p: int|
                0 <= p < i ==> holds_entries(
                    (#[trigger] matrices@[p])@,
                    info,
                    points@[p]@,
                    channels as nat,
                ),
            data_points(old(bits)@, info, channels as nat, *tables, info.data_points as nat) == (
            match data_points(
                bits@,
                info,
                channels as nat,
                *tables,
                (info.data_points - i) as nat,
            ) {
                Err(e) => Err(e),
                Ok((others, rest)) => Ok(
                    (points@.map_values(|point: DataPoint| point@) + others, rest),
                ),
            }),
        decreases info.data_points - i,
    {
        let ghost before = points@.map_values(|point: DataPoint| point@);
        match read_data_point(bits, info, channels, tables) {
            Err(e) => return Err(e),
            Ok(point) => {
                let ghost read = point@;
                matrices.push(differential_decode(info, &point, channels));
                points.push(point);
                proof {
                    let after = points@.map_values(|point: DataPoint| point@);
                    assert(after =~= before.push(read));
                    match data_points(
                        bits@,
                        info,
                        channels as nat,
                        *tables,
                        (info.data_points - i - 1) as nat,
                    ) {
                        Err(_) => {},
                        Ok((others, _)) => {
                            assert(before + (seq![read] + others) =~= after + others);
                        },
                    }
                }
            },
        }
        i = i + 1;
    }
    proof {
        let all = points@.map_values(|point: DataPoint| point@);
        assert(all + Seq::<PointView>::empty() =~= all);
    }
    Ok(CodedObject { info, points, matrices })
}

/// The data of a list of objects.
spec fn object_views(objects: Seq<Option<CodedObject>>) -> Seq<Option<ObjectData>> {
    objects.map_values(
        |object: Option<CodedObject>|
            match object {
                None => None,
                Some(coded) => Some(coded@),
            },
    )
}

spec fn coded_objects_wf(objects: Seq<Option<CodedObject>>, channels: nat) -> bool {
    forall|i: int|
        0 <= i < objects.len() ==> ((#[trigger] objects[i]) matches Some(coded) ==> coded.wf(
            channels,
        ))
}

fn read_objects(
    bits: &mut BitReader,
    infos: &Vec<Option<ObjectInfo>>,
    channels: usize,
    tables: &JocTables,
) -> (r: Result<Vec<Option<CodedObject>>, AppError>)
    requires
        old(bits).wf(),
        infos_wf(infos@),
        channels == 5 || channels == 7,
    ensures
        final(bits).wf(),
        match objects_data(old(bits)@, infos@, channels as nat, *tables, 0) {
            Err(e) => r == Err::<Vec<Option<CodedObject>>, AppError>(e),
            Ok((objects, rest)) => r is Ok && object_views(r->Ok_0@) == objects
                && coded_objects_wf(r->Ok_0@, channels as nat) && r->Ok_0@.len() == infos@.len()
                && final(bits)@ == rest,
        },
{
    let mut objects: Vec<Option<CodedObject>> = Vec::new();
    let mut i: usize = 0;
    while i < infos.len()
        invariant
            i <= infos@.len(),
            infos_wf(infos@),
            channels == 5 || channels == 7,
            bits.wf(),
            objects@.len() == i,
            coded_objects_wf(objects@, channels as nat),
            objects_data(old(bits)@, infos@, channels as nat, *tables, 0) == (match objects_data(
                bits@,
                infos@,
                channels as nat,
                *tables,
                i as nat,
            ) {
                Err(e) => Err(e),
                Ok((others, rest)) => Ok((object_views(objects@) + others, rest)),
            }),
        decreases infos@.len() - i,
    {
        let ghost before = object_views(objects@);
        let info: Option<ObjectInfo> = infos[i];
        match info {
            None => {
                objects.push(None);
            },
            Some(info) => {
                match read_coded_object(bits, info, channels, tables) {
                    Err(e) => return Err(e),
                    Ok(coded) => {
                        objects.push(Some(coded));
                    },
                }
            },
        }
        proof {
            let read = match objects@[i as int] {
                None => None,
                Some(coded) => Some(coded@),
            };
            assert(object_views(objects@) =~= before.push(read));
            match objects_data(bits@, infos@, channels as nat, *tables, (i + 1) as nat) {
                Err(_) => {},
                Ok((others, _)) => {
                    assert(before + (seq![read] + others) =~= object_views(objects@) + others);
                },
            }
        }
        i = i + 1;
    }
    assert(object_views(objects@) + Seq::<Option<ObjectData>>::empty() =~= object_views(objects@));
    Ok(objects)
}

/// A matrix value: a ratio in units of 820/8192.
#[derive(Clone, Copy, Debug, PartialEq, Eq, Structural)]
pub struct Coefficient {
    pub numerator: i32,
    pub denominator: u32,
}

/// The point `step` parts of `steps` along the way from one value to another.
pub open spec fn along(from: int, to: int, step: int, steps: int) -> Coefficient {
    Coefficient {
        numerator: (from * steps + (to - from) * step) as i32,
        denominator: steps as u32,
    }
}

pub open spec fn held(value: int) -> Coefficient {
    Coefficient { numerator: value as i32, denominator: 1 }
}

/// The value of an object in a timeslot, from the value that the frame before left
/// and the values at its data points.
pub open spec fn interpolated(
    info: ObjectInfo,
    timeslots: int,
    timeslot: int,
    previous: int,
    first: int,
    last: int,
) -> Coefficient {
    match info.interpolation {
        Interpolation::Steep { first: start, second: turn } => if timeslot < start {
            held(previous)
        } else if info.data_points == 1 || timeslot < turn {
            held(first)
        } else {
            held(last)
        },
        Interpolation::Smooth => if info.data_points == 1 {
            along(previous, first, timeslot + 1, timeslots)
        } else if timeslot < timeslots / 2 {
            along(previous, first, timeslot + 1, timeslots / 2)
        } else {
            along(first, last, timeslot - timeslots / 2 + 1, timeslots - timeslots / 2)
        },
    }
}

fn step_along(from: i16, to: i16, step: usize, steps: usize) -> (r: Coefficient)
    requires
        -96 <= from <= 96,
        -96 <= to <= 96,
        1 <= step <= steps <= 32,
    ensures
        r == along(from as int, to as int, step as int, steps as int),
{
    proof {
        assert(-96 * 32 <= from * steps <= 96 * 32) by (nonlinear_arith)
            requires
                -96 <= from <= 96,
                1 <= steps <= 32,
        ;
        assert(-192 * 32 <= (to - from) * step <= 192 * 32) by (nonlinear_arith)
            requires
                -192 <= to - from <= 192,
                1 <= step <= 32,
        ;
    }
    Coefficient {
        numerator: from as i32 * steps as i32 + (to as i32 - from as i32) * step as i32,
        denominator: steps as u32,
    }
}

fn interpolate(
    info: ObjectInfo,
    timeslots: usize,
    timeslot: usize,
    previous: i16,
    first: i16,
    last: i16,
) -> (r: Coefficient)
    requires
        1 <= timeslots <= 32,
        timeslot < timeslots,
        -96 <= previous <= 96,
        -96 <= first <= 96,
        -96 <= last <= 96,
    ensures
        r == interpolated(
            info,
            timeslots as int,
            timeslot as int,
            previous as int,
            first as int,
            last as int,
        ),
{
    match info.interpolation {
        Interpolation::Steep { first: start, second: turn } => {
            if timeslot < start {
                Coefficient { numerator: previous as i32, denominator: 1 }
            } else if info.data_points == 1 || timeslot < turn {
                Coefficient { numerator: first as i32, denominator: 1 }
            } else {
                Coefficient { numerator: last as i32, denominator: 1 }
            }
        },
        Interpolation::Smooth => {
            if info.data_points == 1 {
                step_along(previous, first, timeslot + 1, timeslots)
            } else if timeslot < timeslots / 2 {
                step_along(previous, first, timeslot + 1, timeslots / 2)
            } else {
                step_along(first, last, timeslot - timeslots / 2 + 1, timeslots - timeslots / 2)
            }
        },
    }
}

/// What the matrices of a frame are computed from.
pub struct FrameData {
    pub objects: Seq<Option<ObjectData>>,
    /// The values that the frame before left: object by object, channel by channel,
    /// subband by subband.
    pub previous: Seq<i16>,
    pub channels: nat,
    pub timeslots: nat,
}

/// The place of a value in the history.
pub open spec fn history_index(channels: nat, object: nat, channel: nat, subband: nat) -> int {
    ((object * channels + channel) * 64 + subband) as int
}

/// The place of a value in a frame's matrices.
pub open spec fn matrix_index(
    timeslots: nat,
    channels: nat,
    object: nat,
    timeslot: nat,
    channel: nat,
    subband: nat,
) -> int {
    (((object * timeslots + timeslot) * channels + channel) * 64 + subband) as int
}

impl FrameData {
    pub open spec fn wf(self) -> bool {
        &&& self.channels == 5 || self.channels == 7
        &&& 1 <= self.timeslots <= MAX_TIMESLOTS
        &&& self.objects.len() <= MAX_OBJECTS
        &&& self.previous.len() == self.objects.len() * self.channels * 64
        &&& forall|i: int| 0 <= i < self.previous.len() ==> -96 <= #[trigger] self.previous[i] <= 96
        &&& forall|i: int|
            0 <= i < self.objects.len() ==> ((#[trigger] self.objects[i]) matches Some(data) ==> data.wf(
                self.channels,
            ))
    }

    /// One matrix value. Objects that are not coded are silent.
    pub open spec fn coefficient(self, object: nat, timeslot: nat, channel: nat, subband: nat) -> Coefficient {
        match self.objects[object as int] {
            None => held(0),
            Some(data) => interpolated(
                data.info,
                self.timeslots as int,
                timeslot as int,
                self.previous[history_index(self.channels, object, channel, subband)] as int,
                data.value(self.channels, 0, channel, subband),
                data.left(self.channels, channel, subband),
            ),
        }
    }

    /// The value left for the next frame. Objects that are not coded leave what they
    /// found.
    pub open spec fn left(self, object: nat, channel: nat, subband: nat) -> i16 {
        match self.objects[object as int] {
            None => self.previous[history_index(self.channels, object, channel, subband)],
            Some(data) => data.left(self.channels, channel, subband) as i16,
        }
    }

    /// The values of one object, timeslot and channel.
    pub open spec fn row(self, object: nat, timeslot: nat, channel: nat) -> Seq<Coefficient> {
        Seq::new(64, |subband: int| self.coefficient(object, timeslot, channel, subband as nat))
    }

    /// The rows of the first `count` channels.
    pub open spec fn slot(self, object: nat, timeslot: nat, count: nat) -> Seq<Coefficient>
        decreases count,
    {
        if count == 0 {
            seq![]
        } else {
            self.slot(object, timeslot, (count - 1) as nat) + self.row(
                object,
                timeslot,
                (count - 1) as nat,
            )
        }
    }

    /// The first `count` timeslots of an object.
    pub open spec fn object_rows(self, object: nat, count: nat) -> Seq<Coefficient>
        decreases count,
    {
        if count == 0 {
            seq![]
        } else {
            self.object_rows(object, (count - 1) as nat) + self.slot(
                object,
                (count - 1) as nat,
                self.channels,
            )
        }
    }

    /// All values of the first `count` objects.
    pub open spec fn all_rows(self, count: nat) -> Seq<Coefficient>
        decreases count,
    {
        if count == 0 {
            seq![]
        } else {
            self.all_rows((count - 1) as nat) + self.object_rows(
                (count - 1) as nat,
                self.timeslots,
            )
        }
    }

    /// The values that one object and channel leave.
    pub open spec fn left_row(self, object: nat, channel: nat) -> Seq<i16> {
        Seq::new(64, |subband: int| self.left(object, channel, subband as nat))
    }

    pub open spec fn left_object(self, object: nat, count: nat) -> Seq<i16>
        decreases count,
    {
        if count == 0 {
            seq![]
        } else {
            self.left_object(object, (count - 1) as nat) + self.left_row(
                object,
                (count - 1) as nat,
            )
        }
    }

    /// The values that the first `count` objects leave.
    pub open spec fn left_rows(self, count: nat) -> Seq<i16>
        decreases count,
    {
        if count == 0 {
            seq![]
        } else {
            self.left_rows((count - 1) as nat) + self.left_object((count - 1) as nat, self.channels)
        }
    }
}

proof fn lemma_slot_index(d: FrameData, object: nat, timeslot: nat, count: nat)
    ensures
        d.slot(object, timeslot, count).len() == count * 64,
        forall|channel: nat, subband: nat|
            channel < count && subband < 64 ==> #[trigger] d.slot(object, timeslot, count)[(channel
                * 64 + subband) as int] == d.coefficient(object, timeslot, channel, subband),
    decreases count,
{
    if count > 0 {
        lemma_slot_index(d, object, timeslot, (count - 1) as nat);
        let shorter = d.slot(object, timeslot, (count - 1) as nat);
        let row = d.row(object, timeslot, (count - 1) as nat);
        assert forall|channel: nat, subband: nat|
            channel < count && subband < 64 implies #[trigger] d.slot(object, timeslot, count)[(
        channel * 64 + subband) as int] == d.coefficient(object, timeslot, channel, subband) by {
            if channel == count - 1 {
                assert((shorter + row)[(channel * 64 + subband) as int] == row[subband as int]);
            } else {
                assert((shorter + row)[(channel * 64 + subband) as int] == shorter[(channel * 64
                    + subband) as int]);
            }
        }
    }
}

proof fn lemma_object_index(d: FrameData, object: nat, count: nat, timeslot: nat, channel: nat, subband: nat)
    requires
        timeslot < count,
        channel < d.channels,
        subband < 64,
    ensures
        d.object_rows(object, count).len() == count * (d.channels * 64),
        d.object_rows(object, count)[(timeslot * (d.channels * 64) + (channel * 64 + subband)) as int]
            == d.coefficient(object, timeslot, channel, subband),
    decreases count,
{
    let width = d.channels * 64;
    lemma_slot_index(d, object, (count - 1) as nat, d.channels);
    lemma_object_len(d, object, count);
    lemma_object_len(d, object, (count - 1) as nat);
    let shorter = d.object_rows(object, (count - 1) as nat);
    let slot = d.slot(object, (count - 1) as nat, d.channels);
    let inner = channel * 64 + subband;
    assert(inner < width) by (nonlinear_arith)
        requires
            channel + 1 <= d.channels,
            subband < 64,
            inner == channel * 64 + subband,
            width == d.channels * 64,
    ;
    if timeslot == count - 1 {
        assert((shorter + slot)[(timeslot * width + inner) as int] == slot[inner as int]);
    } else {
        assert(timeslot * width + inner < (count - 1) * width) by (nonlinear_arith)
            requires
                timeslot + 1 <= count - 1,
                inner < width,
        ;
        assert((shorter + slot)[(timeslot * width + inner) as int] == shorter[(timeslot * width
            + inner) as int]);
        lemma_object_index(d, object, (count - 1) as nat, timeslot, channel, subband);
    }
}

proof fn lemma_object_len(d: FrameData, object: nat, count: nat)
    ensures
        d.object_rows(object, count).len() == count * (d.channels * 64),
    decreases count,
{
    if count > 0 {
        lemma_object_len(d, object, (count - 1) as nat);
        lemma_slot_index(d, object, (count - 1) as nat, d.channels);
        let width = d.channels * 64;
        assert((count - 1) * width + width == count * width) by (nonlinear_arith);
    } else {
        assert(0 * (d.channels * 64) == 0) by (nonlinear_arith);
    }
}

proof fn lemma_rows_len(d: FrameData, count: nat)
    ensures
        d.all_rows(count).len() == count * (d.timeslots * (d.channels * 64)),
    decreases count,
{
    let width = d.timeslots * (d.channels * 64);
    if count > 0 {
        lemma_rows_len(d, (count - 1) as nat);
        lemma_object_len(d, (count - 1) as nat, d.timeslots);
        assert((count - 1) * width + width == count * width) by (nonlinear_arith);
    } else {
        assert(0 * width == 0) by (nonlinear_arith);
    }
}

proof fn lemma_rows_index(d: FrameData, count: nat, object: nat, timeslot: nat, channel: nat, subband: nat)
    requires
        object < count,
        timeslot < d.timeslots,
        channel < d.channels,
        subband < 64,
    ensures
        matrix_index(d.timeslots, d.channels, object, timeslot, channel, subband)
            < d.all_rows(count).len(),
        d.all_rows(count)[matrix_index(
            d.timeslots,
            d.channels,
            object,
            timeslot,
            channel,
            subband,
        )] == d.coefficient(object, timeslot, channel, subband),
    decreases count,
{
    let slot_width = d.channels * 64;
    let width = d.timeslots * slot_width;
    let inner = timeslot * slot_width + (channel * 64 + subband);
    assert(matrix_index(d.timeslots, d.channels, object, timeslot, channel, subband) == object
        * width + inner) by (nonlinear_arith)
        requires
            slot_width == d.channels * 64,
            width == d.timeslots * slot_width,
            inner == timeslot * slot_width + (channel * 64 + subband),
            matrix_index(d.timeslots, d.channels, object, timeslot, channel, subband) == ((object
                * d.timeslots + timeslot) * d.channels + channel) * 64 + subband,
    ;
    assert(channel * 64 + subband < slot_width) by (nonlinear_arith)
        requires
            channel + 1 <= d.channels,
            subband < 64,
            slot_width == d.channels * 64,
    ;
    assert(inner < width) by (nonlinear_arith)
        requires
            timeslot + 1 <= d.timeslots,
            channel * 64 + subband < slot_width,
            width == d.timeslots * slot_width,
            inner == timeslot * slot_width + (channel * 64 + subband),
    ;
    lemma_rows_len(d, count);
    lemma_rows_len(d, (count - 1) as nat);
    lemma_object_index(d, (count - 1) as nat, d.timeslots, timeslot, channel, subband);
    let shorter = d.all_rows((count - 1) as nat);
    let last = d.object_rows((count - 1) as nat, d.timeslots);
    assert((count - 1) * width + width == count * width) by (nonlinear_arith);
    if object == count - 1 {
        assert((shorter + last)[(object * width + inner) as int] == last[inner as int]);
    } else {
        assert(object * width + inner < (count - 1) * width) by (nonlinear_arith)
            requires
                object + 1 <= count - 1,
                inner < width,
        ;
        assert((shorter + last)[(object * width + inner) as int] == shorter[(object * width + inner) as int]);
        lemma_rows_index(d, (count - 1) as nat, object, timeslot, channel, subband);
    }
}

/// Every matrix value of a frame stands at the place that its object, timeslot,
/// channel and subband give.
pub proof fn law_matrix_values_stand_at_their_index(
    d: FrameData,
    object: nat,
    timeslot: nat,
    channel: nat,
    subband: nat,
)
    requires
        object < d.objects.len(),
        timeslot < d.timeslots,
        channel < d.channels,
        subband < QMF_SUBBANDS,
    ensures
        d.all_rows(d.objects.len())[matrix_index(
            d.timeslots,
            d.channels,
            object,
            timeslot,
            channel,
            subband,
        )] == d.coefficient(object, timeslot, channel, subband),
{
    lemma_rows_index(d, d.objects.len(), object, timeslot, channel, subband);
}

/// The gain that makes up for clipping protection: one plus `fraction` 32nds of
/// two to the power of `power` minus four.
#[derive(Clone, Copy, Debug, PartialEq, Eq, Structural)]
pub struct ClipGain {
    pub power: u8,
    pub fraction: u8,
}

/// What a payload says, before any history is applied.
pub struct SideInfo {
    pub downmix: DownmixConfiguration,
    pub clip_gain: ClipGain,
    pub sequence: nat,
    pub objects: Seq<Option<ObjectData>>,
}

/// The padding behind the side information: at most seven zero bits.
#[verifier::opaque]
pub open spec fn padding_info(b: Bits) -> Result<(), AppError> {
    if b.remaining() > 7 {
        Err(invalid_error(JocFault::TrailingBits { bits: b.remaining() as usize }))
    } else {
        match b.field(b.remaining()) {
            Err(e) => Err(e),
            Ok((value, _)) => if value != 0 {
                Err(invalid_error(JocFault::Padding))
            } else {
                Ok(())
            },
        }
    }
}

/// The part of a payload before its objects.
#[verifier::opaque]
pub open spec fn joc_header(b: Bits) -> Result<
    ((DownmixConfiguration, nat, ClipGain, nat), Bits),
    AppError,
> {
    match downmix_info(b) {
        Err(e) => Err(e),
        Ok((downmix, b1)) => match b1.field(6) {
            Err(e) => Err(e),
            Ok((more, b2)) => match b2.field(3) {
                Err(e) => Err(e),
                Ok((extension, b3)) => if extension != 0 {
                    Err(unsupported_error(JocFault::Extension { value: extension as usize }))
                } else {
                    match b3.field(3) {
                        Err(e) => Err(e),
                        Ok((power, b4)) => match b4.field(5) {
                            Err(e) => Err(e),
                            Ok((fraction, b5)) => match b5.field(10) {
                                Err(e) => Err(e),
                                Ok((sequence, rest)) => Ok(
                                    (
                                        (
                                            downmix,
                                            more + 1,
                                            ClipGain { power: power as u8, fraction: fraction as u8 },
                                            sequence,
                                        ),
                                        rest,
                                    ),
                                ),
                            },
                        },
                    }
                },
            },
        },
    }
}

/// The side information of a payload.
#[verifier::opaque]
pub open spec fn side_info(b: Bits, tables: JocTables) -> Result<SideInfo, AppError> {
    match joc_header(b) {
        Err(e) => Err(e),
        Ok(((downmix, count, clip_gain, sequence), b1)) => match object_infos(b1, count) {
            Err(e) => Err(e),
            Ok((infos, b2)) => match objects_data(b2, infos, downmix.channels(), tables, 0) {
                Err(e) => Err(e),
                Ok((objects, b3)) => match padding_info(b3) {
                    Err(e) => Err(e),
                    Ok(_) => Ok(SideInfo { downmix, clip_gain, sequence, objects }),
                },
            },
        },
    }
}

/// The sequence number that continues another. Zero is never a continuation.
pub open spec fn continued(last: nat) -> nat {
    if last == 1023 { 1 } else { last + 1 }
}

/// One frame of interpolated reconstruction matrices.
#[derive(Clone, Debug)]
pub struct JocFrame {
    pub downmix: DownmixConfiguration,
    pub object_count: usize,
    pub input_channels: usize,
    pub timeslots: usize,
    pub clip_gain: ClipGain,
    pub sequence: u16,
    pub splice: bool,
    /// Object-major, then timeslot, input channel, and subband.
    pub coefficients: Vec<Coefficient>,
}

impl JocFrame {
    pub open spec fn wf(&self) -> bool {
        &&& self.coefficients@.len() == self.object_count * (self.timeslots * (self.input_channels
            * 64))
        &&& self.timeslots >= 1
        &&& self.input_channels >= 1
    }

    /// Whether four indexes name a value.
    pub open spec fn names(&self, object: nat, timeslot: nat, channel: nat, subband: nat) -> bool {
        &&& object < self.object_count
        &&& timeslot < self.timeslots
        &&& channel < self.input_channels
        &&& subband < 64
    }

    pub open spec fn at(&self, object: nat, timeslot: nat, channel: nat, subband: nat) -> Coefficient {
        self.coefficients@[matrix_index(
            self.timeslots as nat,
            self.input_channels as nat,
            object,
            timeslot,
            channel,
            subband,
        )]
    }

    /// The place of a value.
    fn index(&self, object: usize, timeslot: usize, channel: usize, subband: usize) -> (r: Option<
        usize,
    >)
        requires
            self.wf(),
        ensures
            r is Some <==> self.names(object as nat, timeslot as nat, channel as nat, subband as nat),
            r matches Some(index) ==> index == matrix_index(
                self.timeslots as nat,
                self.input_channels as nat,
                object as nat,
                timeslot as nat,
                channel as nat,
                subband as nat,
            ) && index < self.coefficients@.len() && index - subband + 64
                <= self.coefficients@.len(),
    {
        if object >= self.object_count || timeslot >= self.timeslots || channel
            >= self.input_channels || subband >= QMF_SUBBANDS {
            return None;
        }
        assert(self.coefficients.len() <= usize::MAX);
        proof {
            lemma_index_bound(
                self.object_count as nat,
                self.timeslots as nat,
                self.input_channels as nat,
                object as nat,
                timeslot as nat,
                channel as nat,
                subband as nat,
            );
        }
        let slot: usize = object * self.timeslots + timeslot;
        let row: usize = slot * self.input_channels + channel;
        Some(row * QMF_SUBBANDS + subband)
    }

    /// One matrix value, where the indexes name one.
    pub fn coefficient(&self, object: usize, timeslot: usize, channel: usize, subband: usize) -> (r: Option<
        Coefficient,
    >)
        requires
            self.wf(),
        ensures
            r == (if self.names(object as nat, timeslot as nat, channel as nat, subband as nat) {
                Some(self.at(object as nat, timeslot as nat, channel as nat, subband as nat))
            } else {
                None
            }),
    {
        match self.index(object, timeslot, channel, subband) {
            None => None,
            Some(index) => Some(self.coefficients[index]),
        }
    }

    /// The values of all subbands of a channel.
    pub fn channel_coefficients(&self, object: usize, timeslot: usize, channel: usize) -> (r: Option<
        &[Coefficient],
    >)
        requires
            self.wf(),
        ensures
            r is Some <==> self.names(object as nat, timeslot as nat, channel as nat, 0),
            r matches Some(row) ==> row@.len() == QMF_SUBBANDS && forall|subband: nat|
                subband < QMF_SUBBANDS ==> #[trigger] row@[subband as int] == self.at(
                    object as nat,
                    timeslot as nat,
                    channel as nat,
                    subband,
                ),
    {
        match self.index(object, timeslot, channel, 0) {
            None => None,
            Some(start) => {
                assert(self.coefficients.len() <= usize::MAX);
                let row = vstd::slice::slice_subrange(
                    self.coefficients.as_slice(),
                    start,
                    start + QMF_SUBBANDS,
                );
                Some(row)
            },
        }
    }

    /// All values.
    pub fn coefficients(&self) -> (r: &[Coefficient])
        ensures
            r@ == self.coefficients@,
    {
        self.coefficients.as_slice()
    }

    /// The values of the last timeslot of an object.
    pub open spec fn last_slot(&self, object: nat) -> Seq<Coefficient> {
        let start = (object * self.timeslots + (self.timeslots - 1)) * (self.input_channels * 64);
        self.coefficients@.subrange(start, start + self.input_channels * 64)
    }

    /// The last slot of an object, repeated.
    pub open spec fn held_object(&self, object: nat, count: nat) -> Seq<Coefficient>
        decreases count,
    {
        if count == 0 {
            seq![]
        } else {
            self.held_object(object, (count - 1) as nat) + self.last_slot(object)
        }
    }

    pub open spec fn held_rows(&self, timeslots: nat, count: nat) -> Seq<Coefficient>
        decreases count,
    {
        if count == 0 {
            seq![]
        } else {
            self.held_rows(timeslots, (count - 1) as nat) + self.held_object(
                (count - 1) as nat,
                timeslots,
            )
        }
    }

    /// A frame of any number of timeslots that repeats the last timeslot of this
    /// one.
    pub fn hold_last(&self, timeslots: usize) -> (r: Self)
        requires
            self.wf(),
            self.object_count * (timeslots * (self.input_channels * 64)) <= usize::MAX,
        ensures
            r.downmix == self.downmix,
            r.object_count == self.object_count,
            r.input_channels == self.input_channels,
            r.timeslots == timeslots,
            r.clip_gain == self.clip_gain,
            r.sequence == self.sequence,
            !r.splice,
            r.coefficients@ == self.held_rows(timeslots as nat, self.object_count as nat),
            timeslots >= 1 ==> r.wf(),
    {
        let mut coefficients: Vec<Coefficient> = Vec::new();
        let mut object: usize = 0;
        while object < self.object_count
            invariant
                object <= self.object_count,
                self.wf(),
                coefficients@ =~= self.held_rows(timeslots as nat, object as nat),
            decreases self.object_count - object,
        {
            assert(self.coefficients.len() <= usize::MAX);
            proof {
                lemma_index_bound(
                    self.object_count as nat,
                    self.timeslots as nat,
                    self.input_channels as nat,
                    object as nat,
                    (self.timeslots - 1) as nat,
                    0,
                    0,
                );
                lemma_slot_bound(
                    self.object_count as nat,
                    self.timeslots as nat,
                    self.input_channels as nat,
                    object as nat,
                );
            }
            let width: usize = self.input_channels * QMF_SUBBANDS;
            let slot: usize = object * self.timeslots + (self.timeslots - 1);
            let start: usize = slot * width;
            let ghost before = coefficients@;
            let mut timeslot: usize = 0;
            while timeslot < timeslots
                invariant
                    timeslot <= timeslots,
                    width == self.input_channels * 64,
                    start == (object * self.timeslots + (self.timeslots - 1)) * (self.input_channels
                        * 64),
                    start + width <= self.coefficients@.len(),
                    coefficients@ =~= before + self.held_object(object as nat, timeslot as nat),
                decreases timeslots - timeslot,
            {
                assert(self.coefficients.len() <= usize::MAX);
                let source = vstd::slice::slice_subrange(
                    self.coefficients.as_slice(),
                    start,
                    start + width,
                );
                let ghost gathered = coefficients@;
                push_all(&mut coefficients, source);
                assert(gathered + self.last_slot(object as nat) =~= before + (self.held_object(
                    object as nat,
                    timeslot as nat,
                ) + self.last_slot(object as nat)));
                timeslot = timeslot + 1;
            }
            object = object + 1;
        }
        proof {
            lemma_held_len(*self, timeslots as nat, self.object_count as nat);
        }
        JocFrame {
            downmix: self.downmix,
            object_count: self.object_count,
            input_channels: self.input_channels,
            timeslots,
            clip_gain: self.clip_gain,
            sequence: self.sequence,
            splice: false,
            coefficients,
        }
    }
}

fn push_all(target: &mut Vec<Coefficient>, source: &[Coefficient])
    ensures
        final(target)@ == old(target)@ + source@,
{
    let mut i: usize = 0;
    while i < source.len()
        invariant
            i <= source@.len(),
            target@ =~= old(target)@ + source@.take(i as int),
        decreases source@.len() - i,
    {
        target.push(source[i]);
        i = i + 1;
    }
    assert(source@.take(i as int) =~= source@);
}

/// Indexes that are in range name a place inside the matrices.
proof fn lemma_index_bound(
    objects: nat,
    timeslots: nat,
    channels: nat,
    object: nat,
    timeslot: nat,
    channel: nat,
    subband: nat,
)
    requires
        object < objects,
        timeslot < timeslots,
        channel < channels,
        subband < 64,
    ensures
        object * timeslots + timeslot < objects * timeslots,
        (object * timeslots + timeslot) * channels + channel < objects * timeslots * channels,
        matrix_index(timeslots, channels, object, timeslot, channel, subband) - subband + 64
            <= objects * (timeslots * (channels * 64)),
        objects * timeslots * channels <= objects * (timeslots * (channels * 64)),
        objects * timeslots <= objects * timeslots * channels,
        object * timeslots <= objects * timeslots,
        (object * timeslots + timeslot) * channels <= objects * timeslots * channels,
{
    let slot = object * timeslots + timeslot;
    let slots = objects * timeslots;
    assert(slot < slots) by (nonlinear_arith)
        requires
            object + 1 <= objects,
            timeslot < timeslots,
            slot == object * timeslots + timeslot,
            slots == objects * timeslots,
    ;
    let row = slot * channels + channel;
    let rows = slots * channels;
    assert(row < rows) by (nonlinear_arith)
        requires
            slot + 1 <= slots,
            channel < channels,
            row == slot * channels + channel,
            rows == slots * channels,
    ;
    assert(objects * (timeslots * (channels * 64)) == rows * 64) by (nonlinear_arith)
        requires
            rows == slots * channels,
            slots == objects * timeslots,
    ;
    assert(slots <= rows) by (nonlinear_arith)
        requires
            rows == slots * channels,
            channels >= 1,
    ;
    assert(object * timeslots <= objects * timeslots) by (nonlinear_arith)
        requires
            object <= objects,
    ;
    assert(slot * channels <= slots * channels) by (nonlinear_arith)
        requires
            slot <= slots,
    ;
}

proof fn lemma_slot_bound(objects: nat, timeslots: nat, channels: nat, object: nat)
    requires
        object < objects,
        timeslots >= 1,
    ensures
        channels * 64 <= objects * (timeslots * (channels * 64)),
        (object * timeslots + (timeslots - 1)) * (channels * 64) + channels * 64 <= objects * (
        timeslots * (channels * 64)),
        (object * timeslots + (timeslots - 1)) * (channels * 64) >= 0,
{
    let width = channels * 64;
    let slot = object * timeslots + (timeslots - 1);
    assert(slot + 1 <= objects * timeslots) by (nonlinear_arith)
        requires
            object + 1 <= objects,
            slot == object * timeslots + (timeslots - 1),
    ;
    assert(slot * width + width <= (objects * timeslots) * width) by (nonlinear_arith)
        requires
            slot + 1 <= objects * timeslots,
    ;
    assert((objects * timeslots) * width == objects * (timeslots * width)) by (nonlinear_arith);
    assert(slot >= 0) by (nonlinear_arith)
        requires
            slot == object * timeslots + (timeslots - 1),
            timeslots >= 1,
            object >= 0,
    ;
    assert(slot * width >= 0) by (nonlinear_arith)
        requires
            slot >= 0,
            width >= 0,
    ;
}

proof fn lemma_held_object_len(frame: JocFrame, object: nat, count: nat)
    requires
        frame.wf(),
        object < frame.object_count,
    ensures
        frame.held_object(object, count).len() == count * (frame.input_channels * 64),
    decreases count,
{
    let width = (frame.input_channels * 64) as nat;
    if count > 0 {
        lemma_held_object_len(frame, object, (count - 1) as nat);
        lemma_slot_bound(
            frame.object_count as nat,
            frame.timeslots as nat,
            frame.input_channels as nat,
            object,
        );
        assert((count - 1) * width + width == count * width) by (nonlinear_arith);
    } else {
        assert(0 * width == 0) by (nonlinear_arith);
    }
}

proof fn lemma_held_len(frame: JocFrame, timeslots: nat, count: nat)
    requires
        frame.wf(),
        count <= frame.object_count,
    ensures
        frame.held_rows(timeslots, count).len() == count * (timeslots * (frame.input_channels * 64)),
    decreases count,
{
    let width = (timeslots * (frame.input_channels * 64)) as nat;
    if count > 0 {
        lemma_held_len(frame, timeslots, (count - 1) as nat);
        lemma_held_object_len(frame, (count - 1) as nat, timeslots);
        assert((count - 1) * width + width == count * width) by (nonlinear_arith);
    } else {
        assert(0 * width == 0) by (nonlinear_arith);
    }
}

proof fn lemma_held_object_index(frame: JocFrame, object: nat, count: nat, timeslot: nat, inner: nat)
    requires
        frame.wf(),
        object < frame.object_count,
        timeslot < count,
        inner < frame.input_channels * 64,
    ensures
        frame.held_object(object, count)[timeslot * (frame.input_channels * 64) + inner]
            == frame.last_slot(object)[inner as int],
    decreases count,
{
    let width = (frame.input_channels * 64) as nat;
    lemma_held_object_len(frame, object, (count - 1) as nat);
    lemma_slot_bound(
        frame.object_count as nat,
        frame.timeslots as nat,
        frame.input_channels as nat,
        object,
    );
    let shorter = frame.held_object(object, (count - 1) as nat);
    let slot = frame.last_slot(object);
    if timeslot < count - 1 {
        assert(timeslot * width + inner < (count - 1) * width) by (nonlinear_arith)
            requires
                timeslot + 1 <= count - 1,
                inner < width,
        ;
        assert((shorter + slot)[(timeslot * width + inner) as int] == shorter[(timeslot * width
            + inner) as int]);
        lemma_held_object_index(frame, object, (count - 1) as nat, timeslot, inner);
    } else {
        assert((shorter + slot)[(timeslot * width + inner) as int] == slot[inner as int]);
    }
}

proof fn lemma_held_index(frame: JocFrame, timeslots: nat, count: nat, object: nat, timeslot: nat, inner: nat)
    requires
        frame.wf(),
        count <= frame.object_count,
        object < count,
        timeslot < timeslots,
        inner < frame.input_channels * 64,
    ensures
        frame.held_rows(timeslots, count)[object * (timeslots * (frame.input_channels * 64))
            + timeslot * (frame.input_channels * 64) + inner] == frame.last_slot(
            object,
        )[inner as int],
    decreases count,
{
    let width = (frame.input_channels * 64) as nat;
    let object_width = timeslots * width;
    let place = timeslot * width + inner;
    assert(place < object_width) by (nonlinear_arith)
        requires
            timeslot + 1 <= timeslots,
            inner < width,
            place == timeslot * width + inner,
            object_width == timeslots * width,
    ;
    lemma_held_len(frame, timeslots, (count - 1) as nat);
    lemma_held_object_len(frame, (count - 1) as nat, timeslots);
    let shorter = frame.held_rows(timeslots, (count - 1) as nat);
    let last = frame.held_object((count - 1) as nat, timeslots);
    if object < count - 1 {
        assert(object * object_width + place < (count - 1) * object_width) by (nonlinear_arith)
            requires
                object + 1 <= count - 1,
                place < object_width,
        ;
        assert((shorter + last)[(object * object_width + place) as int] == shorter[(object
            * object_width + place) as int]);
        lemma_held_index(frame, timeslots, (count - 1) as nat, object, timeslot, inner);
    } else {
        assert((shorter + last)[(object * object_width + place) as int] == last[place as int]);
        lemma_held_object_index(frame, object, timeslots, timeslot, inner);
    }
}

/// A held frame repeats the last timeslot: every value of every timeslot is the
/// value of the last timeslot of the frame it was made from.
pub proof fn law_held_frame_repeats_the_last_timeslot(
    frame: JocFrame,
    held: JocFrame,
    object: nat,
    timeslot: nat,
    channel: nat,
    subband: nat,
)
    requires
        frame.wf(),
        held.object_count == frame.object_count,
        held.input_channels == frame.input_channels,
        held.coefficients@ == frame.held_rows(held.timeslots as nat, frame.object_count as nat),
        held.names(object, timeslot, channel, subband),
    ensures
        held.at(object, timeslot, channel, subband) == frame.at(
            object,
            (frame.timeslots - 1) as nat,
            channel,
            subband,
        ),
{
    let channels = frame.input_channels as nat;
    let width = channels * 64;
    let inner = channel * 64 + subband;
    let last = (frame.timeslots - 1) as nat;
    let slots = held.timeslots as nat;
    assert(inner < width) by (nonlinear_arith)
        requires
            channel + 1 <= channels,
            subband < 64,
            inner == channel * 64 + subband,
            width == channels * 64,
    ;
    lemma_held_index(frame, slots, frame.object_count as nat, object, timeslot, inner);
    lemma_slot_bound(frame.object_count as nat, frame.timeslots as nat, channels, object);
    assert(matrix_index(slots, channels, object, timeslot, channel, subband) == object * (slots
        * width) + timeslot * width + inner) by (nonlinear_arith)
        requires
            matrix_index(slots, channels, object, timeslot, channel, subband) == ((object * slots
                + timeslot) * channels + channel) * 64 + subband,
            inner == channel * 64 + subband,
            width == channels * 64,
    ;
    assert(matrix_index(frame.timeslots as nat, channels, object, last, channel, subband) == (object
        * frame.timeslots + last) * width + inner) by (nonlinear_arith)
        requires
            matrix_index(frame.timeslots as nat, channels, object, last, channel, subband) == ((
            object * frame.timeslots + last) * channels + channel) * 64 + subband,
            inner == channel * 64 + subband,
            width == channels * 64,
    ;
}

/// Reads the padding behind the side information.
fn read_padding(bits: &mut BitReader) -> (r: Result<(), AppError>)
    requires
        old(bits).wf(),
    ensures
        final(bits).wf(),
        r == padding_info(old(bits)@),
{
    reveal(padding_info);
    let remaining: usize = bits.remaining();
    if remaining > 7 {
        return Err(invalid(JocFault::TrailingBits { bits: remaining }));
    }
    let value: u64 = bits.read(remaining)?;
    if value != 0 {
        return Err(invalid(JocFault::Padding));
    }
    Ok(())
}

fn read_header(bits: &mut BitReader) -> (r: Result<(DownmixConfiguration, usize, ClipGain, u16), AppError>)
    requires
        old(bits).wf(),
    ensures
        final(bits).wf(),
        match joc_header(old(bits)@) {
            Err(e) => r == Err::<(DownmixConfiguration, usize, ClipGain, u16), AppError>(e),
            Ok(((downmix, count, clip_gain, sequence), rest)) => r is Ok && r->Ok_0.0 == downmix
                && r->Ok_0.1 == count && 1 <= count <= MAX_OBJECTS && r->Ok_0.2 == clip_gain
                && r->Ok_0.3 == sequence && sequence <= 1023 && final(bits)@ == rest,
        },
{
    reveal(joc_header);
    let downmix = DownmixConfiguration::read(bits)?;
    let more: usize = bits.read_small(6)?;
    let extension: usize = bits.read_small(3)?;
    if extension != 0 {
        return Err(unsupported(JocFault::Extension { value: extension }));
    }
    let power: usize = bits.read_small(3)?;
    let fraction: usize = bits.read_small(5)?;
    let sequence: usize = bits.read_small(10)?;
    Ok(
        (
            downmix,
            more + 1,
            ClipGain { power: power as u8, fraction: fraction as u8 },
            sequence as u16,
        ),
    )
}

/// A decoded payload, before any history is applied.
struct DecodedSide {
    downmix: DownmixConfiguration,
    clip_gain: ClipGain,
    sequence: u16,
    objects: Vec<Option<CodedObject>>,
}

impl DecodedSide {
    spec fn view(&self) -> SideInfo {
        SideInfo {
            downmix: self.downmix,
            clip_gain: self.clip_gain,
            sequence: self.sequence as nat,
            objects: object_views(self.objects@),
        }
    }

    spec fn wf(&self) -> bool {
        &&& coded_objects_wf(self.objects@, self.downmix.channels())
        &&& 1 <= self.objects@.len() <= MAX_OBJECTS
        &&& self.sequence <= 1023
    }
}

fn read_side_info(bits: &mut BitReader, tables: &JocTables) -> (r: Result<DecodedSide, AppError>)
    requires
        old(bits).wf(),
    ensures
        match side_info(old(bits)@, *tables) {
            Err(e) => r == Err::<DecodedSide, AppError>(e),
            Ok(side) => r is Ok && r->Ok_0@ == side && r->Ok_0.wf(),
        },
{
    reveal(side_info);
    let (downmix, count, clip_gain, sequence) = read_header(bits)?;
    let infos = read_object_infos(bits, count)?;
    let objects = read_objects(bits, &infos, downmix.channel_count(), tables)?;
    read_padding(bits)?;
    Ok(DecodedSide { downmix, clip_gain, sequence, objects })
}

/// The values that a frame starts from: those left by the frame before, or none
/// behind a splice.
pub open spec fn history(previous: Seq<i16>, splice: bool, objects: nat, channels: nat) -> Seq<i16> {
    if splice {
        Seq::new(objects * channels * 64, |i: int| 0i16)
    } else {
        previous
    }
}

/// Decodes side information, keeping the values that the next frame moves on from.
#[derive(Clone, Debug)]
pub struct JocDecoder {
    pub previous: Vec<i16>,
    pub previous_objects: usize,
    pub previous_channels: usize,
    pub last_sequence: Option<u16>,
}

impl Default for JocDecoder {
    fn default() -> (r: Self)
        ensures
            r.wf(),
            r.previous@.len() == 0 && r.previous_objects == 0 && r.previous_channels == 0
                && r.last_sequence is None,
    {
        JocDecoder::new()
    }
}

impl JocDecoder {
    pub open spec fn wf(&self) -> bool {
        &&& self.previous@.len() == self.previous_objects * self.previous_channels * 64
        &&& forall|i: int| 0 <= i < self.previous@.len() ==> -96 <= #[trigger] self.previous@[i] <= 96
        &&& self.last_sequence matches Some(last) ==> last <= 1023
    }

    pub fn new() -> (r: Self)
        ensures
            r.wf(),
            r.previous@.len() == 0 && r.previous_objects == 0 && r.previous_channels == 0
                && r.last_sequence is None,
    {
        JocDecoder {
            previous: Vec::new(),
            previous_objects: 0,
            previous_channels: 0,
            last_sequence: None,
        }
    }

    /// Whether a payload does not continue the one before: other dimensions, or a
    /// sequence number that is not the next.
    pub open spec fn spliced(&self, side: SideInfo) -> bool {
        ||| self.previous_objects != side.objects.len()
        ||| self.previous_channels != side.downmix.channels()
        ||| side.sequence == 0
        ||| (self.last_sequence matches Some(last) && side.sequence != continued(last as nat))
    }

    /// What the matrices of a payload are computed from.
    pub open spec fn frame_data(&self, side: SideInfo, timeslots: nat) -> FrameData {
        FrameData {
            objects: side.objects,
            previous: history(
                self.previous@,
                self.spliced(side),
                side.objects.len(),
                side.downmix.channels(),
            ),
            channels: side.downmix.channels(),
            timeslots,
        }
    }

    /// The side information of a payload, or what is wrong with it.
    pub open spec fn decoded(payload: PayloadView, frame_samples: nat, tables: JocTables) -> Result<
        SideInfo,
        AppError,
    > {
        let b = Bits { bytes: payload.data, position: 0, limit: payload.bit_len as nat };
        if payload.id != JOC_PAYLOAD_ID {
            Err(invalid_error(JocFault::PayloadId { found: payload.id }))
        } else if frame_samples == 0 || frame_samples % 64 != 0 {
            Err(invalid_error(JocFault::FrameSamples { samples: frame_samples as usize }))
        } else if frame_samples / 64 > MAX_TIMESLOTS {
            Err(invalid_error(JocFault::Timeslots { timeslots: (frame_samples / 64) as usize }))
        } else {
            side_info(b, tables)
        }
    }

    /// Whether a frame holds what the side information of a payload describes.
    pub open spec fn gives(&self, side: SideInfo, timeslots: nat, frame: JocFrame) -> bool {
        let data = self.frame_data(side, timeslots);
        &&& frame.wf()
        &&& frame.downmix == side.downmix
        &&& frame.object_count == side.objects.len()
        &&& frame.input_channels == side.downmix.channels()
        &&& frame.timeslots == timeslots
        &&& frame.clip_gain == side.clip_gain
        &&& frame.sequence == side.sequence
        &&& frame.splice == self.spliced(side)
        &&& frame.coefficients@ == data.all_rows(side.objects.len())
    }

    /// Whether a decoder remembers what the next payload is held against.
    pub open spec fn leaves(&self, side: SideInfo, timeslots: nat, after: JocDecoder) -> bool {
        let data = self.frame_data(side, timeslots);
        &&& after.previous@ == data.left_rows(side.objects.len())
        &&& after.previous_objects == side.objects.len()
        &&& after.previous_channels == side.downmix.channels()
        &&& after.last_sequence == Some(side.sequence as u16)
    }

    /// What comes of decoding a payload: a frame and what the decoder remembers, or
    /// an error that leaves the decoder as it was.
    pub open spec fn decodes(
        &self,
        payload: PayloadView,
        frame_samples: nat,
        tables: JocTables,
        r: Result<JocFrame, AppError>,
        after: JocDecoder,
    ) -> bool {
        match JocDecoder::decoded(payload, frame_samples, tables) {
            Err(e) => r == Err::<JocFrame, AppError>(e) && after == *self,
            Ok(side) => {
                &&& self.frame_data(side, frame_samples / 64).wf()
                &&& r is Ok
                &&& self.gives(side, frame_samples / 64, r->Ok_0)
                &&& self.leaves(side, frame_samples / 64, after)
            },
        }
    }

    /// Whether two decoders remember the same.
    pub open spec fn remembers_like(&self, other: JocDecoder) -> bool {
        &&& self.previous@ == other.previous@
        &&& self.previous_objects == other.previous_objects
        &&& self.previous_channels == other.previous_channels
        &&& self.last_sequence == other.last_sequence
    }

    /// Decodes one payload and interpolates its matrices over the timeslots of a
    /// frame of `frame_samples` samples. The decoder stays as it was on an error.
    pub fn decode(&mut self, payload: &MetadataPayload, frame_samples: usize, tables: &JocTables) -> (r: Result<
        JocFrame,
        AppError,
    >)
        requires
            old(self).wf(),
            8 * payload.data@.len() <= usize::MAX,
            payload.bit_len <= 8 * payload.data@.len(),
        ensures
            final(self).wf(),
            old(self).decodes(payload@, frame_samples as nat, *tables, r, *final(self)),
    {
        if payload.id != JOC_PAYLOAD_ID {
            return Err(invalid(JocFault::PayloadId { found: payload.id }));
        }
        if frame_samples == 0 || frame_samples % QMF_SUBBANDS != 0 {
            return Err(invalid(JocFault::FrameSamples { samples: frame_samples }));
        }
        let timeslots: usize = frame_samples / QMF_SUBBANDS;
        if timeslots > MAX_TIMESLOTS {
            return Err(invalid(JocFault::Timeslots { timeslots }));
        }
        let mut bits = payload.bits();
        let side = read_side_info(&mut bits, tables)?;
        let channels: usize = side.downmix.channel_count();
        let object_count: usize = side.objects.len();
        assert(object_views(side.objects@).len() == object_count);
        let continues: bool = match self.last_sequence {
            None => true,
            Some(last) => side.sequence == (if last == 1023 { 1 } else { last + 1 }),
        };
        let splice: bool = self.previous_objects != object_count || self.previous_channels
            != channels || side.sequence == 0 || !continues;
        let ghost data = self.frame_data(side@, timeslots as nat);
        let previous: Vec<i16> = if splice {
            silent_history(object_count, channels)
        } else {
            copy_history(&self.previous)
        };
        assert(previous@ =~= data.previous);
        proof {
            lemma_frame_data_wf(*old(self), side, timeslots as nat);
        }
        let coefficients = frame_matrices(
            &side.objects,
            &previous,
            channels,
            timeslots,
            Ghost(data),
        );
        let left = frame_history(&side.objects, &previous, channels, Ghost(data));
        proof {
            lemma_rows_len(data, object_count as nat);
            lemma_left_bounds(data, object_count as nat);
            assert(object_count * (channels * 64) == object_count * channels * 64)
                by (nonlinear_arith);
        }
        self.previous = left;
        self.previous_objects = object_count;
        self.previous_channels = channels;
        self.last_sequence = Some(side.sequence);
        Ok(
            JocFrame {
                downmix: side.downmix,
                object_count,
                input_channels: channels,
                timeslots,
                clip_gain: side.clip_gain,
                sequence: side.sequence,
                splice,
                coefficients,
            },
        )
    }
}

proof fn lemma_frame_data_wf(decoder: JocDecoder, side: DecodedSide, timeslots: nat)
    requires
        decoder.wf(),
        side.wf(),
        1 <= timeslots <= MAX_TIMESLOTS,
    ensures
        decoder.frame_data(side@, timeslots).wf(),
{
    let data = decoder.frame_data(side@, timeslots);
    assert forall|i: int| 0 <= i < data.objects.len() implies ((#[trigger] data.objects[i]) matches Some(
        object,
    ) ==> object.wf(data.channels)) by {
        assert(data.objects[i] == object_views(side.objects@)[i]);
    }
}

fn silent_history(objects: usize, channels: usize) -> (r: Vec<i16>)
    requires
        objects <= MAX_OBJECTS,
        channels == 5 || channels == 7,
    ensures
        r@ == Seq::new((objects * channels * 64) as nat, |i: int| 0i16),
{
    let length: usize = if channels == 5 { objects * 320 } else { objects * 448 };
    proof {
        assert(length == objects * channels * 64) by (nonlinear_arith)
            requires
                channels == 5 && length == objects * 320 || channels == 7 && length == objects * 448,
        ;
    }
    let mut history: Vec<i16> = Vec::new();
    let mut i: usize = 0;
    while i < length
        invariant
            i <= length,
            history@ =~= Seq::new(i as nat, |i: int| 0i16),
        decreases length - i,
    {
        history.push(0);
        i = i + 1;
    }
    history
}

fn copy_history(source: &Vec<i16>) -> (r: Vec<i16>)
    ensures
        r@ == source@,
{
    let mut copy: Vec<i16> = Vec::new();
    let mut i: usize = 0;
    while i < source.len()
        invariant
            i <= source@.len(),
            copy@ =~= source@.take(i as int),
        decreases source@.len() - i,
    {
        copy.push(source[i]);
        i = i + 1;
    }
    assert(source@.take(i as int) =~= source@);
    copy
}

proof fn lemma_history_bound(objects: nat, channels: nat, object: nat, channel: nat, subband: nat)
    requires
        objects <= MAX_OBJECTS,
        channels == 5 || channels == 7,
        object < objects,
        channel < channels,
        subband < 64,
    ensures
        0 <= history_index(channels, object, channel, subband) < objects * channels * 64,
        object * channels <= 448,
{
    assert(object * channels + channel < objects * channels) by (nonlinear_arith)
        requires
            object + 1 <= objects,
            channel < channels,
    ;
    assert(object * channels <= 448) by (nonlinear_arith)
        requires
            object <= 64,
            channels <= 7,
    ;
}

/// What frames are computed from, as the decoder holds it.
spec fn backed(objects: Seq<Option<CodedObject>>, previous: Seq<i16>, channels: nat, data: FrameData) -> bool {
    &&& data.wf()
    &&& data.objects == object_views(objects)
    &&& data.previous == previous
    &&& data.channels == channels
    &&& coded_objects_wf(objects, channels)
}

/// Appends the values of one object, timeslot and channel.
fn push_row(
    target: &mut Vec<Coefficient>,
    objects: &Vec<Option<CodedObject>>,
    previous: &Vec<i16>,
    channels: usize,
    timeslots: usize,
    place: (usize, usize, usize),
    Ghost(data): Ghost<FrameData>,
)
    requires
        backed(objects@, previous@, channels as nat, data),
        timeslots == data.timeslots,
        place.0 < objects@.len(),
        place.1 < timeslots,
        place.2 < channels,
    ensures
        final(target)@ == old(target)@ + data.row(place.0 as nat, place.1 as nat, place.2 as nat),
{
    let (object, timeslot, channel): (usize, usize, usize) = place;
    let ghost row = data.row(object as nat, timeslot as nat, channel as nat);
    let mut subband: usize = 0;
    while subband < QMF_SUBBANDS
        invariant
            subband <= 64,
            backed(objects@, previous@, channels as nat, data),
            timeslots == data.timeslots,
            object < objects@.len(),
            timeslot < timeslots,
            channel < channels,
            row == data.row(object as nat, timeslot as nat, channel as nat),
            target@ =~= old(target)@ + row.take(subband as int),
        decreases 64 - subband,
    {
        proof {
            lemma_history_bound(
                objects@.len(),
                channels as nat,
                object as nat,
                channel as nat,
                subband as nat,
            );
            assert(data.objects[object as int] == object_views(objects@)[object as int]);
        }
        let value: Coefficient = match &objects[object] {
            None => Coefficient { numerator: 0, denominator: 1 },
            Some(coded) => {
                let before: i16 = previous[(object * channels + channel) * QMF_SUBBANDS + subband];
                let first: i16 = coded.value(channels, 0, channel, subband);
                let last: i16 = coded.value(channels, coded.points.len() - 1, channel, subband);
                interpolate(coded.info, timeslots, timeslot, before, first, last)
            },
        };
        assert(value == row[subband as int]);
        target.push(value);
        subband = subband + 1;
    }
    assert(row.take(64) =~= row);
}

/// Computes all matrix values of a frame.
fn frame_matrices(
    objects: &Vec<Option<CodedObject>>,
    previous: &Vec<i16>,
    channels: usize,
    timeslots: usize,
    Ghost(data): Ghost<FrameData>,
) -> (r: Vec<Coefficient>)
    requires
        backed(objects@, previous@, channels as nat, data),
        timeslots == data.timeslots,
    ensures
        r@ == data.all_rows(objects@.len()),
{
    let mut result: Vec<Coefficient> = Vec::new();
    let mut object: usize = 0;
    while object < objects.len()
        invariant
            object <= objects@.len(),
            backed(objects@, previous@, channels as nat, data),
            timeslots == data.timeslots,
            result@ =~= data.all_rows(object as nat),
        decreases objects@.len() - object,
    {
        let ghost before_object = result@;
        let mut timeslot: usize = 0;
        while timeslot < timeslots
            invariant
                timeslot <= timeslots,
                object < objects@.len(),
                backed(objects@, previous@, channels as nat, data),
                timeslots == data.timeslots,
                result@ =~= before_object + data.object_rows(object as nat, timeslot as nat),
            decreases timeslots - timeslot,
        {
            let ghost before_slot = result@;
            let mut channel: usize = 0;
            while channel < channels
                invariant
                    channel <= channels,
                    object < objects@.len(),
                    timeslot < timeslots,
                    backed(objects@, previous@, channels as nat, data),
                    timeslots == data.timeslots,
                    result@ =~= before_slot + data.slot(
                        object as nat,
                        timeslot as nat,
                        channel as nat,
                    ),
                decreases channels - channel,
            {
                push_row(
                    &mut result,
                    objects,
                    previous,
                    channels,
                    timeslots,
                    (object, timeslot, channel),
                    Ghost(data),
                );
                channel = channel + 1;
            }
            timeslot = timeslot + 1;
        }
        object = object + 1;
    }
    result
}

/// Computes the values that a frame leaves for the next.
fn frame_history(
    objects: &Vec<Option<CodedObject>>,
    previous: &Vec<i16>,
    channels: usize,
    Ghost(data): Ghost<FrameData>,
) -> (r: Vec<i16>)
    requires
        backed(objects@, previous@, channels as nat, data),
    ensures
        r@ == data.left_rows(objects@.len()),
{
    let mut result: Vec<i16> = Vec::new();
    let mut object: usize = 0;
    while object < objects.len()
        invariant
            object <= objects@.len(),
            backed(objects@, previous@, channels as nat, data),
            result@ =~= data.left_rows(object as nat),
        decreases objects@.len() - object,
    {
        let ghost before_object = result@;
        let mut channel: usize = 0;
        while channel < channels
            invariant
                channel <= channels,
                object < objects@.len(),
                backed(objects@, previous@, channels as nat, data),
                result@ =~= before_object + data.left_object(object as nat, channel as nat),
            decreases channels - channel,
        {
            let ghost before_row = result@;
            let ghost row = data.left_row(object as nat, channel as nat);
            let mut subband: usize = 0;
            while subband < QMF_SUBBANDS
                invariant
                    subband <= 64,
                    object < objects@.len(),
                    channel < channels,
                    backed(objects@, previous@, channels as nat, data),
                    row == data.left_row(object as nat, channel as nat),
                    result@ =~= before_row + row.take(subband as int),
                decreases 64 - subband,
            {
                proof {
                    lemma_history_bound(
                        objects@.len(),
                        channels as nat,
                        object as nat,
                        channel as nat,
                        subband as nat,
                    );
                    assert(data.objects[object as int] == object_views(objects@)[object as int]);
                }
                let value: i16 = match &objects[object] {
                    None => previous[(object * channels + channel) * QMF_SUBBANDS + subband],
                    Some(coded) => coded.value(
                        channels,
                        coded.points.len() - 1,
                        channel,
                        subband,
                    ),
                };
                assert(value == row[subband as int]);
                result.push(value);
                subband = subband + 1;
            }
            assert(row.take(64) =~= row);
            channel = channel + 1;
        }
        object = object + 1;
    }
    result
}

proof fn lemma_entry_bound(data: ObjectData, channels: nat, point: int, channel: nat, subband: nat)
    ensures
        -96 <= data.value(channels, point, channel, subband) <= 96,
{
    lemma_level_bound(
        data.info,
        data.points[point],
        channels,
        channel,
        band_of(band_boundaries(data.info.band_index as nat), subband),
    );
}

proof fn lemma_left_object_bounds(d: FrameData, object: nat, count: nat)
    requires
        d.wf(),
        object < d.objects.len(),
        count <= d.channels,
    ensures
        d.left_object(object, count).len() == count * 64,
        forall|i: int|
            0 <= i < count * 64 ==> -96 <= #[trigger] d.left_object(object, count)[i] <= 96,
    decreases count,
{
    if count > 0 {
        lemma_left_object_bounds(d, object, (count - 1) as nat);
        let row = d.left_row(object, (count - 1) as nat);
        assert forall|s: int| 0 <= s < 64 implies -96 <= #[trigger] row[s] <= 96 by {
            match d.objects[object as int] {
                None => {
                    lemma_history_bound(
                        d.objects.len(),
                        d.channels,
                        object,
                        (count - 1) as nat,
                        s as nat,
                    );
                },
                Some(data) => {
                    lemma_entry_bound(
                        data,
                        d.channels,
                        data.points.len() - 1,
                        (count - 1) as nat,
                        s as nat,
                    );
                },
            }
        }
    }
}

proof fn lemma_left_bounds(d: FrameData, count: nat)
    requires
        d.wf(),
        count <= d.objects.len(),
    ensures
        d.left_rows(count).len() == count * (d.channels * 64),
        forall|i: int| 0 <= i < d.left_rows(count).len() ==> -96 <= #[trigger] d.left_rows(count)[i] <= 96,
    decreases count,
{
    let width = d.channels * 64;
    if count > 0 {
        lemma_left_bounds(d, (count - 1) as nat);
        lemma_left_object_bounds(d, (count - 1) as nat, d.channels);
        assert((count - 1) * width + width == count * width) by (nonlinear_arith);
    } else {
        assert(0 * width == 0) by (nonlinear_arith);
    }
}

/// A smooth object arrives: in the last timeslot its value is exactly the value of
/// its last data point, which is the value that the next frame moves on from.
pub proof fn law_smooth_objects_arrive(d: FrameData, object: nat, channel: nat, subband: nat)
    requires
        d.wf(),
        object < d.objects.len(),
        d.objects[object as int] matches Some(data) && data.info.interpolation is Smooth,
        channel < d.channels,
        subband < QMF_SUBBANDS,
    ensures
        ({
            let last = d.coefficient(object, (d.timeslots - 1) as nat, channel, subband);
            &&& last.denominator > 0
            &&& last.numerator == d.left(object, channel, subband) * last.denominator
        }),
{
    let data = d.objects[object as int]->0;
    let from = if data.info.data_points == 1 {
        d.previous[history_index(d.channels, object, channel, subband)] as int
    } else {
        data.value(d.channels, 0, channel, subband)
    };
    let to = data.left(d.channels, channel, subband);
    let steps = if data.info.data_points == 1 {
        d.timeslots as int
    } else {
        d.timeslots - d.timeslots / 2
    };
    lemma_entry_bound(data, d.channels, data.points.len() - 1, channel, subband);
    lemma_entry_bound(data, d.channels, 0, channel, subband);
    assert(data.points.len() == 1 || data.points.len() == 2);
    assert(from * steps + (to - from) * steps == to * steps) by (nonlinear_arith);
    assert(-96 * 32 <= to * steps <= 96 * 32) by (nonlinear_arith)
        requires
            -96 <= to <= 96,
            1 <= steps <= 32,
    ;
}

/// Whether two results are the same error, or frames with the same contents.
pub open spec fn same_outcome(first: Result<JocFrame, AppError>, second: Result<JocFrame, AppError>) -> bool {
    match (first, second) {
        (Ok(a), Ok(b)) => {
            &&& a.downmix == b.downmix
            &&& a.object_count == b.object_count
            &&& a.input_channels == b.input_channels
            &&& a.timeslots == b.timeslots
            &&& a.clip_gain == b.clip_gain
            &&& a.sequence == b.sequence
            &&& a.splice == b.splice
            &&& a.coefficients@ == b.coefficients@
        },
        (Err(a), Err(b)) => a == b,
        _ => false,
    }
}

/// A payload that fails leaves no trace: whatever is decoded next comes out as it
/// does of a decoder that has never seen the failed payload, and both remember the
/// same behind it.
pub proof fn law_a_failed_payload_leaves_no_trace(
    decoder: JocDecoder,
    copy: JocDecoder,
    bad: PayloadView,
    bad_samples: nat,
    failure: Result<JocFrame, AppError>,
    failed: JocDecoder,
    payload: PayloadView,
    frame_samples: nat,
    tables: JocTables,
    first: Result<JocFrame, AppError>,
    first_after: JocDecoder,
    second: Result<JocFrame, AppError>,
    second_after: JocDecoder,
)
    requires
        decoder.remembers_like(copy),
        decoder.decodes(bad, bad_samples, tables, failure, failed),
        failure is Err,
        failed.decodes(payload, frame_samples, tables, first, first_after),
        copy.decodes(payload, frame_samples, tables, second, second_after),
    ensures
        same_outcome(first, second),
        first_after.remembers_like(second_after),
{
}

/// The partitions of the subbands. Every one starts at the lowest subband, its
/// bands follow one another and never get narrower towards the top, and none of
/// them splits a band of the finest one. Of their bands, which are 1, 3, 5, 7, 9,
/// 12, 15 and 23, each starting point names the partitions that share it.
pub proof fn law_partitions_share_their_bounds(index: nat)
    requires
        index < 8,
    ensures
        ({
            let bounds = band_boundaries(index);
            &&& bounds[0] == 0
            &&& forall|i: int, j: int| 0 <= i < j < bounds.len() ==> bounds[i] < bounds[j]
            &&& bounds.last() < QMF_SUBBANDS
            &&& bounds.len() == (if index < 5 {
                (2 * index + 1) as int
            } else if index < 7 {
                3 * index - 3
            } else {
                23int
            })
            &&& index >= 2 ==> bounds.contains(1)
            &&& index >= 3 ==> bounds.contains(2)
            &&& index != 0 && index != 3 ==> bounds.contains(3)
            &&& (index == 3 || index >= 5) ==> bounds.contains(4)
            &&& (index == 4 || index >= 6) ==> bounds.contains(5)
            &&& index >= 5 ==> bounds.contains(6)
            &&& (index == 4 || index >= 6) ==> bounds.contains(7)
            &&& (index == 3 || index >= 5) ==> bounds.contains(8)
            &&& (index == 2 || index == 4 || index >= 6) ==> bounds.contains(9)
            &&& index == 7 ==> bounds.contains(10)
            &&& index >= 5 ==> bounds.contains(11)
            &&& index == 7 ==> bounds.contains(12)
            &&& index != 0 && index != 2 ==> bounds.contains(14)
            &&& index == 7 ==> bounds.contains(16)
            &&& index >= 5 ==> bounds.contains(18)
            &&& index == 7 ==> bounds.contains(20)
            &&& index >= 2 ==> bounds.contains(23)
            &&& index == 7 ==> bounds.contains(26)
            &&& index == 7 ==> bounds.contains(30)
            &&& index >= 5 ==> bounds.contains(35)
            &&& index == 7 ==> bounds.contains(41)
            &&& index == 7 ==> bounds.contains(48)
        }),
{
    let bounds = band_boundaries(index);
    if index == 0 {
    } else if index == 1 {
        assert(bounds[1] == 3);
        assert(bounds[2] == 14);
    } else if index == 2 {
        assert(bounds[1] == 1);
        assert(bounds[2] == 3);
        assert(bounds[3] == 9);
        assert(bounds[4] == 23);
    } else if index == 3 {
        assert(bounds[1] == 1);
        assert(bounds[2] == 2);
        assert(bounds[3] == 4);
        assert(bounds[4] == 8);
        assert(bounds[5] == 14);
        assert(bounds[6] == 23);
    } else if index == 4 {
        assert(bounds[1] == 1);
        assert(bounds[2] == 2);
        assert(bounds[3] == 3);
        assert(bounds[4] == 5);
        assert(bounds[5] == 7);
        assert(bounds[6] == 9);
        assert(bounds[7] == 14);
        assert(bounds[8] == 23);
    } else if index == 5 {
        assert(bounds[1] == 1);
        assert(bounds[2] == 2);
        assert(bounds[3] == 3);
        assert(bounds[4] == 4);
        assert(bounds[5] == 6);
        assert(bounds[6] == 8);
        assert(bounds[7] == 11);
        assert(bounds[8] == 14);
        assert(bounds[9] == 18);
        assert(bounds[10] == 23);
        assert(bounds[11] == 35);
    } else if index == 6 {
        assert(bounds[1] == 1);
        assert(bounds[2] == 2);
        assert(bounds[3] == 3);
        assert(bounds[4] == 4);
        assert(bounds[5] == 5);
        assert(bounds[6] == 6);
        assert(bounds[7] == 7);
        assert(bounds[8] == 8);
        assert(bounds[9] == 9);
        assert(bounds[10] == 11);
        assert(bounds[11] == 14);
        assert(bounds[12] == 18);
        assert(bounds[13] == 23);
        assert(bounds[14] == 35);
    } else {
        assert(bounds[1] == 1);
        assert(bounds[2] == 2);
        assert(bounds[3] == 3);
        assert(bounds[4] == 4);
        assert(bounds[5] == 5);
        assert(bounds[6] == 6);
        assert(bounds[7] == 7);
        assert(bounds[8] == 8);
        assert(bounds[9] == 9);
        assert(bounds[10] == 10);
        assert(bounds[11] == 11);
        assert(bounds[12] == 12);
        assert(bounds[13] == 14);
        assert(bounds[14] == 16);
        assert(bounds[15] == 18);
        assert(bounds[16] == 20);
        assert(bounds[17] == 23);
        assert(bounds[18] == 26);
        assert(bounds[19] == 30);
        assert(bounds[20] == 35);
        assert(bounds[21] == 41);
        assert(bounds[22] == 48);
    }
}


/// A subband belongs to the band that starts at or before it, and the band behind
/// that one starts later.
pub proof fn law_a_subband_lies_in_its_band(index: nat, subband: nat)
    requires
        index < 8,
    ensures
        ({
            let bounds = band_boundaries(index);
            let band = band_of(bounds, subband);
            &&& band < bounds.len()
            &&& bounds[band as int] <= subband
            &&& band + 1 < bounds.len() ==> subband < bounds[band as int + 1]
        }),
{
    lemma_band_of_bounds(band_boundaries(index), subband);
}

proof fn lemma_band_of_bounds(bounds: Seq<usize>, subband: nat)
    requires
        bounds.len() > 0,
        bounds[0] == 0,
    ensures
        band_of(bounds, subband) < bounds.len(),
        bounds[band_of(bounds, subband) as int] <= subband,
        band_of(bounds, subband) + 1 < bounds.len() ==> subband < bounds[band_of(
            bounds,
            subband,
        ) as int + 1],
    decreases bounds.len(),
{
    if bounds.len() > 1 && bounds.last() > subband {
        lemma_band_of_bounds(bounds.drop_last(), subband);
    }
}

/// The sum of a run of symbols.
pub open spec fn symbol_sum(values: Seq<u16>, start: int, count: nat) -> int
    decreases count,
{
    if count == 0 {
        0
    } else {
        symbol_sum(values, start, (count - 1) as nat) + values[start + count - 1]
    }
}

proof fn lemma_dense_level(info: ObjectInfo, point: PointView, channels: nat, channel: nat, band: nat)
    requires
        !info.sparse,
    ensures
        ({
            let sum = symbol_sum(point.values, (channel * info.bands()) as int, band + 1);
            &&& info.quantization is Coarse ==> level(info, point, channels, channel, band) == (48
                + sum) % 96
            &&& info.quantization is Fine ==> level(info, point, channels, channel, band) == (96
                + sum) % 192
        }),
    decreases band,
{
    let start = (channel * info.bands()) as int;
    let sum = symbol_sum(point.values, start, band + 1);
    let before = symbol_sum(point.values, start, band);
    assert(sum == before + point.values[start + band]);
    if band > 0 {
        lemma_dense_level(info, point, channels, channel, (band - 1) as nat);
        lemma_counted_round(48 + before, point.values[start + band] as int);
        lemma_counted_round(96 + before, point.values[start + band] as int);
    } else {
        assert(before == 0);
    }
}

/// Adding to a number that was counted round is adding to the number.
proof fn lemma_counted_round(n: int, more: int)
    ensures
        (n % 96 + more) % 96 == (n + more) % 96,
        (n % 192 + more) % 192 == (n + more) % 192,
{
}

/// The values of a dense point add up along the bands: a coarse value is two units
/// for every level above the middle of 96, a fine one is one unit for every level
/// above the middle of 192, and the level in a band is the middle and the sum of
/// the channel's symbols up to that band, turned around at the ends. So every value
/// differs from that of the band before by the band's own symbol.
pub proof fn law_dense_values_add_up_their_symbols(
    values: Seq<Vec<i16>>,
    info: ObjectInfo,
    point: PointView,
    channels: nat,
    channel: nat,
    band: nat,
)
    requires
        holds_entries(values, info, point, channels),
        !info.sparse,
        channel < channels,
        band < info.bands(),
    ensures
        ({
            let value = values[channel as int]@[band as int];
            let sum = symbol_sum(point.values, (channel * info.bands()) as int, band + 1);
            let coded = point.values[(channel * info.bands() + band) as int];
            &&& info.quantization is Coarse ==> value == 2 * ((48 + sum) % 96) - 96
            &&& info.quantization is Fine ==> value == (96 + sum) % 192 - 96
            &&& band > 0 && info.quantization is Coarse ==> (value - values[channel as int]@[band
                - 1] - 2 * coded) % 192 == 0
            &&& band > 0 && info.quantization is Fine ==> (value - values[channel as int]@[band - 1]
                - coded) % 192 == 0
        }),
{
    assert(values[channel as int]@.len() == info.bands());
    assert(values[channel as int]@[band as int] == entry(info, point, channels, channel, band));
    lemma_dense_level(info, point, channels, channel, band);
    reveal_with_fuel(symbol_sum, 2);
    if band > 0 {
        assert(values[channel as int]@[band - 1] == entry(
            info,
            point,
            channels,
            channel,
            (band - 1) as nat,
        ));
        lemma_dense_level(info, point, channels, channel, (band - 1) as nat);
    }
}

/// A sparse point gives one channel a value of its own in every band: that which
/// the point names in the first band, and behind it the sum of the last two
/// channel symbols, counted round. The other channels rest at two coarse steps,
/// whatever the step width. A channel that was at rest starts from there with the
/// band's symbol, and one that is named again moves on by it.
pub proof fn law_sparse_values_follow_the_named_channel(
    values: Seq<Vec<i16>>,
    info: ObjectInfo,
    point: PointView,
    channels: nat,
    channel: nat,
    band: nat,
)
    requires
        holds_entries(values, info, point, channels),
        info.sparse,
        channel < channels,
        band < info.bands(),
    ensures
        ({
            let value = values[channel as int]@[band as int];
            let unit: int = if info.quantization is Coarse { 2 } else { 1 };
            let named = if band == 0 {
                point.channels[0] == channel
            } else {
                (point.channels[band - 1] + point.channels[band as int]) % (channels as int)
                    == channel
            };
            let before: int = if band == 0 { 4 } else { values[channel as int]@[band - 1] as int };
            &&& -96 <= value < 96
            &&& !named ==> value == 4
            &&& named ==> (value - before - unit * point.values[band as int]) % 192 == 0
        }),
{
    assert(values[channel as int]@.len() == info.bands());
    assert(values[channel as int]@[band as int] == entry(info, point, channels, channel, band));
    lemma_level_bound(info, point, channels, channel, band);
    if band > 0 {
        assert(values[channel as int]@[band - 1] == entry(
            info,
            point,
            channels,
            channel,
            (band - 1) as nat,
        ));
        lemma_level_bound(info, point, channels, channel, (band - 1) as nat);
    }
}

/// The middle level is silent, and a coarse level is the fine level twice as high:
/// both step widths span the same values.
pub proof fn law_both_step_widths_span_the_same_values(level: int)
    ensures
        Quantization::Fine.steps() == 2 * Quantization::Coarse.steps(),
        Quantization::Coarse.value(level) == Quantization::Fine.value(2 * level),
        Quantization::Fine.value(level + 1) == Quantization::Fine.value(level) + 1,
        Quantization::Fine.value(Quantization::Fine.steps() / 2) == 0,
        Quantization::Coarse.value(Quantization::Coarse.steps() / 2) == 0,
{
}

/// A matrix value of a smooth object is the mean of the two values around it,
/// weighted by how far it has come: from the value that the frame before left to
/// the only point in all timeslots; or to the first of two points in the first half
/// of them, and on to the second in the others. A steep object holds its values and
/// changes at the timeslots that were coded, and one that is not coded is silent
/// and leaves what it found.
pub proof fn law_matrix_values_move_between_their_points(
    d: FrameData,
    object: nat,
    timeslot: nat,
    channel: nat,
    subband: nat,
)
    requires
        d.wf(),
        object < d.objects.len(),
        timeslot < d.timeslots,
        channel < d.channels,
        subband < QMF_SUBBANDS,
    ensures
        ({
            let now = d.coefficient(object, timeslot, channel, subband);
            let before = d.previous[((object * d.channels + channel) * 64 + subband) as int];
            let half = (d.timeslots / 2) as int;
            &&& now.denominator > 0
            &&& d.objects[object as int] is None ==> now.numerator == 0 && d.left(
                object,
                channel,
                subband,
            ) == before
            &&& d.objects[object as int] matches Some(data) ==> {
                let only = data.value(d.channels, 0, channel, subband);
                let second = data.value(d.channels, 1, channel, subband);
                &&& d.left(object, channel, subband) == (if data.info.data_points == 1 {
                    only
                } else {
                    second
                })
                &&& data.info.interpolation is Smooth && data.info.data_points == 1
                    ==> now.numerator == before * (d.timeslots - 1 - timeslot) + only * (timeslot
                    + 1) && now.denominator == d.timeslots
                &&& data.info.interpolation is Smooth && data.info.data_points == 2 && timeslot
                    < half ==> now.numerator == before * (half - 1 - timeslot) + only * (timeslot
                    + 1) && now.denominator == half
                &&& data.info.interpolation is Smooth && data.info.data_points == 2 && timeslot
                    >= half ==> now.numerator == only * (d.timeslots - 1 - timeslot) + second * (
                timeslot + 1 - half) && now.denominator == d.timeslots - half
                &&& data.info.interpolation matches Interpolation::Steep { first, second: turn } ==> {
                    &&& now.denominator == 1
                    &&& timeslot < first ==> now.numerator == before
                    &&& timeslot >= first && (data.info.data_points == 1 || timeslot < turn)
                        ==> now.numerator == only
                    &&& timeslot >= first && data.info.data_points == 2 && timeslot >= turn
                        ==> now.numerator == second
                }
            }
        }),
{
    let place = history_index(d.channels, object, channel, subband);
    lemma_history_bound(d.objects.len(), d.channels, object, channel, subband);
    let before = d.previous[place] as int;
    assert(-96 <= d.previous[place] <= 96);
    if let Some(data) = d.objects[object as int] {
        assert(data.wf(d.channels));
        let half = (d.timeslots / 2) as int;
        let only = data.value(d.channels, 0, channel, subband);
        let second = data.value(d.channels, 1, channel, subband);
        lemma_entry_bound(data, d.channels, 0, channel, subband);
        lemma_entry_bound(data, d.channels, data.points.len() - 1, channel, subband);
        if data.info.interpolation is Smooth {
            let step = timeslot as int;
            if data.info.data_points == 1 {
                lemma_weighted(before, only, step, d.timeslots as int);
            } else if step < half {
                lemma_weighted(before, only, step, half);
            } else {
                lemma_weighted(only, second, step - half, d.timeslots - half);
            }
        }
    }
}

proof fn lemma_weighted(from: int, to: int, step: int, steps: int)
    requires
        -96 <= from <= 96,
        -96 <= to <= 96,
        0 <= step < steps <= 32,
    ensures
        from * steps + (to - from) * (step + 1) == from * (steps - 1 - step) + to * (step + 1),
        -10_000 <= from * steps + (to - from) * (step + 1) <= 10_000,
{
    assert(from * steps + (to - from) * (step + 1) == from * (steps - 1 - step) + to * (step + 1))
        by (nonlinear_arith);
    assert(-3072 <= from * (steps - 1 - step) <= 3072) by (nonlinear_arith)
        requires
            -96 <= from <= 96,
            0 <= steps - 1 - step <= 32,
    ;
    assert(-3072 <= to * (step + 1) <= 3072) by (nonlinear_arith)
        requires
            -96 <= to <= 96,
            0 <= step + 1 <= 32,
    ;
}

/// The fields before the objects stand at fixed places: three bits for the downmix,
/// six for the number of objects less one, three that are zero, three and five for
/// the clip gain, and ten for the sequence number. Values 0 and 3 of the downmix
/// have five channels, 1, 2 and 4 have seven, and no others are known.
pub proof fn law_the_header_fields_stand_at_fixed_places(b: Bits)
    ensures
        ({
            let at = |place: int, count: nat| bits_value(b.bytes, b.position + place, count);
            let kind = at(0, 3);
            &&& joc_header(b) is Ok <==> b.remaining() >= 30 && kind <= 4 && at(9, 3) == 0
            &&& joc_header(b) matches Ok(((downmix, count, clip_gain, sequence), rest)) ==> {
                &&& downmix.channels() == (if kind == 0 || kind == 3 { 5nat } else { 7 })
                &&& downmix is FiveChannel <==> kind == 0
                &&& downmix is SevenChannel <==> kind == 1
                &&& downmix is FiveChannelHeight <==> kind == 2
                &&& count == at(3, 6) + 1
                &&& clip_gain.power == at(12, 3)
                &&& clip_gain.fraction == at(15, 5)
                &&& sequence == at(20, 10)
                &&& rest == b.advanced(30)
            }
        }),
{
    reveal(joc_header);
    vstd::arithmetic::power2::lemma2_to64();
    lemma_bits_value_bound(b.bytes, (b.position + 12) as int, 3);
    lemma_bits_value_bound(b.bytes, (b.position + 15) as int, 5);
}

/// How an object is coded stands at fixed places too: whether it is coded at all,
/// the partition, sparse or dense, fine or coarse, steep or smooth, and whether
/// there is a second point. A steep object adds five bits for each point, which are
/// one less than the timeslot of the change; changes must not go back in time.
pub proof fn law_the_coding_of_an_object_stands_at_fixed_places(b: Bits)
    ensures
        ({
            let at = |place: int, count: nat| bits_value(b.bytes, b.position + place, count);
            let steep = at(6, 1) == 1;
            let two = at(7, 1) == 1;
            let length: nat = if at(0, 1) == 0 {
                1
            } else if !steep {
                8
            } else if !two {
                13
            } else {
                18
            };
            &&& object_info(b) is Ok <==> b.remaining() >= 1 && b.remaining() >= length && !(length
                == 18 && at(13, 5) < at(8, 5))
            &&& object_info(b) matches Ok((info, rest)) ==> {
                &&& rest == b.advanced(length)
                &&& info is Some <==> at(0, 1) == 1
                &&& info matches Some(i) ==> {
                    &&& i.band_index == at(1, 3)
                    &&& i.sparse <==> at(4, 1) == 1
                    &&& i.quantization is Fine <==> at(5, 1) == 1
                    &&& i.data_points == (if two { 2int } else { 1 })
                    &&& i.interpolation is Smooth <==> !steep
                    &&& i.interpolation matches Interpolation::Steep { first, second } ==> {
                        &&& first == at(8, 5) + 1
                        &&& two ==> second == at(13, 5) + 1
                    }
                }
            }
        }),
{
    reveal(object_info);
    reveal(steep_offsets);
    vstd::arithmetic::power2::lemma2_to64();
    lemma_bits_value_bound(b.bytes, (b.position + 0) as int, 1);
    lemma_bits_value_bound(b.bytes, (b.position + 1) as int, 3);
    lemma_bits_value_bound(b.bytes, (b.position + 4) as int, 1);
    lemma_bits_value_bound(b.bytes, (b.position + 5) as int, 1);
    lemma_bits_value_bound(b.bytes, (b.position + 6) as int, 1);
    lemma_bits_value_bound(b.bytes, (b.position + 7) as int, 1);
    lemma_bits_value_bound(b.bytes, (b.position + 8) as int, 5);
    lemma_bits_value_bound(b.bytes, (b.position + 13) as int, 5);
}

/// A payload continues the one before exactly where it has the same numbers of
/// objects and channels and the sequence number that comes next; numbers run from 1
/// to 1023 and start again, and zero starts a stream. Where it does, its values
/// move on from those that were left, and else from silence.
pub proof fn law_only_the_next_payload_continues(decoder: JocDecoder, side: SideInfo, timeslots: nat)
    requires
        decoder.wf(),
        decoder.last_sequence is Some,
    ensures
        ({
            let d = decoder.frame_data(side, timeslots);
            let next = decoder.last_sequence->0 % 1023 + 1;
            let continues = side.sequence == next && side.objects.len() == decoder.previous_objects
                && side.downmix.channels() == decoder.previous_channels;
            &&& decoder.spliced(side) <==> !continues
            &&& continues ==> d.previous == decoder.previous@
            &&& !continues ==> d.previous.len() == side.objects.len() * side.downmix.channels() * 64
            &&& !continues ==> forall|i: int|
                0 <= i < d.previous.len() ==> #[trigger] d.previous[i] == 0
        }),
{
}

/// Whether a bit leads to the entry of a path that it should: from the first row, or
/// the row that the entry before names.
pub open spec fn leads_on(b: Bits, tree: Seq<Branch>, path: Seq<i16>, i: int) -> bool {
    let row = if i == 0 { 0 } else { path[i - 1] as int };
    &&& row < tree.len()
    &&& path[i] == (if bits_value(b.bytes, b.position + i, 1) == 1 {
        tree[row].one
    } else {
        tree[row].zero
    })
}

/// A symbol is found along its path: from the first row, a zero or a one leads to
/// the next row, and at last to the symbol, of which exactly the bits of the path
/// are read.
pub proof fn law_a_symbol_is_found_along_its_path(b: Bits, tree: Seq<Branch>, path: Seq<i16>)
    requires
        1 <= path.len() <= tree.len() + 1,
        path.len() <= b.remaining(),
        forall|i: int| 0 <= i < path.len() - 1 ==> 0 < #[trigger] path[i],
        path.last() < 0,
        forall|i: int| 0 <= i < path.len() ==> #[trigger] leads_on(b, tree, path, i),
    ensures
        symbol(b, tree) == Ok::<(u16, Bits), AppError>(
            ((-1 - path.last()) as u16, b.advanced(path.len())),
        ),
{
    reveal(symbol);
    lemma_symbol_along(b, tree, path, 0);
    assert(b.advanced(0) == b);
}

proof fn lemma_symbol_along(b: Bits, tree: Seq<Branch>, path: Seq<i16>, step: nat)
    requires
        step < path.len() <= tree.len() + 1,
        path.len() <= b.remaining(),
        forall|i: int| 0 <= i < path.len() - 1 ==> 0 < #[trigger] path[i],
        path.last() < 0,
        forall|i: int| 0 <= i < path.len() ==> #[trigger] leads_on(b, tree, path, i),
    ensures
        symbol_from(
            b.advanced(step),
            tree,
            if step == 0 { 0 } else { path[step - 1] as int },
            (tree.len() + 1 - step) as nat,
        ) == Ok::<(u16, Bits), AppError>(((-1 - path.last()) as u16, b.advanced(path.len()))),
    decreases path.len() - step,
{
    vstd::arithmetic::power2::lemma2_to64();
    lemma_bits_value_bound(b.bytes, (b.position + step) as int, 1);
    let here = b.advanced(step);
    assert(here.advanced(1) == b.advanced(step + 1));
    assert(leads_on(b, tree, path, step as int));
    if step + 1 < path.len() {
        lemma_symbol_along(b, tree, path, step + 1);
    }
}

/// What a frame leaves is for every object, channel and subband the last value it had there,
/// at the place where the next frame looks for it.
pub proof fn law_the_next_frame_finds_the_last_values(
    d: FrameData,
    count: nat,
    object: nat,
    channel: nat,
    subband: nat,
)
    requires
        object < count,
        channel < d.channels,
        subband < 64,
    ensures
        ({
            let left = d.left_rows(count);
            let place = history_index(d.channels, object, channel, subband);
            &&& left.len() == count * d.channels * 64
            &&& 0 <= place < left.len()
            &&& left[place] == d.left(object, channel, subband)
        }),
    decreases count,
{
    let less = (count - 1) as nat;
    let size = d.channels * 64;
    lemma_left_object_place(d, less, d.channels);
    lemma_left_rows_length(d, less);
    lemma_left_rows_length(d, count);
    assert(count * d.channels * 64 == less * d.channels * 64 + size) by (nonlinear_arith)
        requires
            less == count - 1,
            size == d.channels * 64,
    ;
    let place = history_index(d.channels, object, channel, subband);
    assert(place == object * d.channels * 64 + (channel * 64 + subband)) by (nonlinear_arith)
        requires
            place == (object * d.channels + channel) * 64 + subband,
    ;
    assert(0 <= object * d.channels * 64) by (nonlinear_arith);
    if object < less {
        law_the_next_frame_finds_the_last_values(d, less, object, channel, subband);
    } else {
        let last = d.left_object(less, d.channels);
        assert(last[(channel * 64 + subband) as int] == d.left(less, channel, subband));
    }
}

proof fn lemma_left_rows_length(d: FrameData, count: nat)
    ensures
        d.left_rows(count).len() == count * d.channels * 64,
    decreases count,
{
    if count > 0 {
        let less = (count - 1) as nat;
        lemma_left_rows_length(d, less);
        lemma_left_object_place(d, less, d.channels);
        assert(count * d.channels * 64 == less * d.channels * 64 + d.channels * 64)
            by (nonlinear_arith)
            requires
                less == count - 1,
        ;
    } else {
        assert(count * d.channels * 64 == 0) by (nonlinear_arith)
            requires
                count == 0,
        ;
    }
}

proof fn lemma_left_object_place(d: FrameData, object: nat, count: nat)
    ensures
        d.left_object(object, count).len() == count * 64,
        forall|channel: nat, subband: nat|
            channel < count && subband < 64 ==> d.left_object(object, count)[(channel * 64
                + subband) as int] == #[trigger] d.left(object, channel, subband),
    decreases count,
{
    if count > 0 {
        let less = (count - 1) as nat;
        lemma_left_object_place(d, object, less);
        let all = d.left_object(object, count);
        assert forall|channel: nat, subband: nat| channel < count && subband < 64 implies all[(
        channel * 64 + subband) as int] == #[trigger] d.left(object, channel, subband) by {
            if channel < less {
                assert(all[(channel * 64 + subband) as int] == d.left_object(object, less)[(channel
                    * 64 + subband) as int]);
            } else {
                assert(all[(channel * 64 + subband) as int] == d.left_row(object, less)[
                    subband as int
                ]);
            }
        }
    }
}

/// Behind a splice a frame starts from silence, and otherwise from what the one before left.
pub proof fn law_a_splice_starts_from_silence(
    previous: Seq<i16>,
    objects: nat,
    channels: nat,
    i: int,
)
    requires
        0 <= i < objects * channels * 64,
    ensures
        history(previous, true, objects, channels).len() == objects * channels * 64,
        history(previous, true, objects, channels)[i] == 0,
        history(previous, false, objects, channels) == previous,
{
}

} // verus!
