//! TrueHD access units as the renderer needs them.
//!
//! The decoder itself stays outside; what it hands over is held here as plain
//! values.

use crate::error::{AppError, Reason};
use crate::isf::{isf_size, IsfConfig, IsfFault};
use crate::oamd::nonstandard_labels;
use crate::object::{
    coded_distance, default_trim, distance_tenths, plain_settings, uniform_trim, update_views,
    zero_extent, zero_scalar, Distance, Extent, Gain, IsfState, ObjectState, ObjectTrim,
    ObjectTrimMode, ObjectTrimSettings, ObjectZone, Placement, Point, Scalar, ScreenAnchor,
    SpatialUpdate, TrimTable, UpdateView,
};
use crate::speaker::{copy_speakers, Speaker};
use crate::text::{around, decimal, digits, text_around, text_pair};
use vstd::prelude::*;

verus! {

/// Malformed or unsupported TrueHD audio or metadata.
#[derive(Clone, Copy, Debug, PartialEq, Eq, Structural)]
pub enum TrueHdFault {
    Dimensions { samples: usize, channels: usize },
    RateOrChannels,
    BedCount { found: usize, declared: usize },
    BedChannels { beds: usize, channels: usize },
    DescribedChannels { beds: usize, isf: usize, dynamic: usize, channels: usize },
    MissingTiming { block: usize },
    OamdOffset,
    EvolutionOffset,
    ScaledOffset,
    MetadataOffset,
    MissingIsfBlock { block: usize, signal: usize },
    MissingBedBlock { block: usize, object: usize },
    MissingDynamicBlock { block: usize, object: usize },
    MissingTrim { object: usize },
    IsfRange { channels: usize },
    InconsistentIsf,
    DistanceIndex { index: u8 },
    ZoneIndex { index: u8 },
    WarpMode { mode: u8 },
    GlobalTrimMode,
    SurroundTrim,
    HeightTrim,
    BedSpeaker { index: usize },
    FrameCount,
    NoFrames,
}

impl TrueHdFault {
    pub open spec fn text(self) -> Seq<char> {
        match self {
            TrueHdFault::Dimensions { samples, channels } => "TrueHD decoder returned invalid dimensions: "@
                + digits(samples as nat)
                + " samples, "@
                + digits(channels as nat)
                + " channels"@,
            TrueHdFault::RateOrChannels => {
                "TrueHD decoder returned an invalid sample rate or channel count"@
            },
            TrueHdFault::BedCount { found, declared } => "TrueHD metadata bed assignment contains "@
                + digits(found as nat)
                + " channels but declares "@
                + digits(declared as nat),
            TrueHdFault::BedChannels { beds, channels } => "TrueHD metadata describes "@
                + digits(beds as nat)
                + " bed channels but decoder returned "@
                + digits(channels as nat)
                + " channels"@,
            TrueHdFault::DescribedChannels { beds, isf, dynamic, channels } => "TrueHD metadata describes "@
                + digits(beds as nat)
                + " bed, "@
                + digits(isf as nat)
                + " ISF, and "@
                + digits(dynamic as nat)
                + " dynamic channels, but decoder returned "@
                + digits(channels as nat),
            TrueHdFault::MissingTiming { block } => "TrueHD metadata is missing timing for object block "@
                + digits(block as nat),
            TrueHdFault::OamdOffset => "TrueHD OAMD sample offset overflowed"@,
            TrueHdFault::EvolutionOffset => {
                "TrueHD evolution sample offset overflowed: out of range integral type conversion attempted"@
            },
            TrueHdFault::ScaledOffset => {
                "scaled OAMD sample offset overflowed: out of range integral type conversion attempted"@
            },
            TrueHdFault::MetadataOffset => "TrueHD metadata sample offset overflowed"@,
            TrueHdFault::MissingIsfBlock { block, signal } => "TrueHD metadata is missing block "@
                + digits(block as nat)
                + " for ISF signal "@
                + digits(signal as nat),
            TrueHdFault::MissingBedBlock { block, object } => "TrueHD metadata is missing block "@
                + digits(block as nat)
                + " for bed object "@
                + digits(object as nat),
            TrueHdFault::MissingDynamicBlock { block, object } => "TrueHD metadata is missing block "@
                + digits(block as nat)
                + " for dynamic object "@
                + digits(object as nat),
            TrueHdFault::MissingTrim { object } => "TrueHD OAMD trim metadata is missing object "@
                + digits(object as nat),
            TrueHdFault::IsfRange { channels } => "TrueHD metadata describes an ISF range beyond "@
                + digits(channels as nat)
                + " decoded channels"@,
            TrueHdFault::InconsistentIsf => {
                "TrueHD access unit contains inconsistent ISF assignments"@
            },
            TrueHdFault::DistanceIndex { index } => "invalid TrueHD OAMD distance index "@
                + digits(index as nat),
            TrueHdFault::ZoneIndex { index } => "reserved TrueHD OAMD zone index "@
                + digits(index as nat),
            TrueHdFault::WarpMode { mode } => "reserved TrueHD OAMD warp mode "@
                + digits(mode as nat),
            TrueHdFault::GlobalTrimMode => "reserved TrueHD OAMD global trim mode 3"@,
            TrueHdFault::SurroundTrim => "reserved TrueHD OAMD surround trim value"@,
            TrueHdFault::HeightTrim => "reserved TrueHD OAMD height trim value"@,
            TrueHdFault::BedSpeaker { index } => "unsupported TrueHD bed speaker index "@
                + digits(index as nat),
            TrueHdFault::FrameCount => "TrueHD frame count overflowed"@,
            TrueHdFault::NoFrames => "embedded TrueHD decoder produced no audio frames"@,
        }
    }

    pub fn message(&self) -> (r: String)
        ensures
            r@ == self.text(),
    {
        match self {
            TrueHdFault::Dimensions { samples, channels } => {
                let mut text = String::from_str("TrueHD decoder returned invalid dimensions: ");
                text.append(decimal(*samples as u64).as_str());
                text.append(" samples, ");
                text.append(decimal(*channels as u64).as_str());
                text.append(" channels");
                text
            },
            TrueHdFault::RateOrChannels => String::from_str(
                "TrueHD decoder returned an invalid sample rate or channel count",
            ),
            TrueHdFault::BedCount { found, declared } => {
                let mut text = String::from_str("TrueHD metadata bed assignment contains ");
                text.append(decimal(*found as u64).as_str());
                text.append(" channels but declares ");
                text.append(decimal(*declared as u64).as_str());
                text
            },
            TrueHdFault::BedChannels { beds, channels } => {
                let mut text = String::from_str("TrueHD metadata describes ");
                text.append(decimal(*beds as u64).as_str());
                text.append(" bed channels but decoder returned ");
                text.append(decimal(*channels as u64).as_str());
                text.append(" channels");
                text
            },
            TrueHdFault::DescribedChannels { beds, isf, dynamic, channels } => {
                let mut text = String::from_str("TrueHD metadata describes ");
                text.append(decimal(*beds as u64).as_str());
                text.append(" bed, ");
                text.append(decimal(*isf as u64).as_str());
                text.append(" ISF, and ");
                text.append(decimal(*dynamic as u64).as_str());
                text.append(" dynamic channels, but decoder returned ");
                text.append(decimal(*channels as u64).as_str());
                text
            },
            TrueHdFault::MissingTiming { block } => {
                let mut text = String::from_str("TrueHD metadata is missing timing for object block ");
                text.append(decimal(*block as u64).as_str());
                text
            },
            TrueHdFault::OamdOffset => String::from_str("TrueHD OAMD sample offset overflowed"),
            TrueHdFault::EvolutionOffset => String::from_str(
                "TrueHD evolution sample offset overflowed: out of range integral type conversion attempted",
            ),
            TrueHdFault::ScaledOffset => String::from_str(
                "scaled OAMD sample offset overflowed: out of range integral type conversion attempted",
            ),
            TrueHdFault::MetadataOffset => String::from_str(
                "TrueHD metadata sample offset overflowed",
            ),
            TrueHdFault::MissingIsfBlock { block, signal } => {
                let mut text = String::from_str("TrueHD metadata is missing block ");
                text.append(decimal(*block as u64).as_str());
                text.append(" for ISF signal ");
                text.append(decimal(*signal as u64).as_str());
                text
            },
            TrueHdFault::MissingBedBlock { block, object } => {
                let mut text = String::from_str("TrueHD metadata is missing block ");
                text.append(decimal(*block as u64).as_str());
                text.append(" for bed object ");
                text.append(decimal(*object as u64).as_str());
                text
            },
            TrueHdFault::MissingDynamicBlock { block, object } => {
                let mut text = String::from_str("TrueHD metadata is missing block ");
                text.append(decimal(*block as u64).as_str());
                text.append(" for dynamic object ");
                text.append(decimal(*object as u64).as_str());
                text
            },
            TrueHdFault::MissingTrim { object } => {
                let mut text = String::from_str("TrueHD OAMD trim metadata is missing object ");
                text.append(decimal(*object as u64).as_str());
                text
            },
            TrueHdFault::IsfRange { channels } => {
                let mut text = String::from_str("TrueHD metadata describes an ISF range beyond ");
                text.append(decimal(*channels as u64).as_str());
                text.append(" decoded channels");
                text
            },
            TrueHdFault::InconsistentIsf => String::from_str(
                "TrueHD access unit contains inconsistent ISF assignments",
            ),
            TrueHdFault::DistanceIndex { index } => {
                let mut text = String::from_str("invalid TrueHD OAMD distance index ");
                text.append(decimal(*index as u64).as_str());
                text
            },
            TrueHdFault::ZoneIndex { index } => {
                let mut text = String::from_str("reserved TrueHD OAMD zone index ");
                text.append(decimal(*index as u64).as_str());
                text
            },
            TrueHdFault::WarpMode { mode } => {
                let mut text = String::from_str("reserved TrueHD OAMD warp mode ");
                text.append(decimal(*mode as u64).as_str());
                text
            },
            TrueHdFault::GlobalTrimMode => String::from_str(
                "reserved TrueHD OAMD global trim mode 3",
            ),
            TrueHdFault::SurroundTrim => String::from_str(
                "reserved TrueHD OAMD surround trim value",
            ),
            TrueHdFault::HeightTrim => String::from_str("reserved TrueHD OAMD height trim value"),
            TrueHdFault::BedSpeaker { index } => {
                let mut text = String::from_str("unsupported TrueHD bed speaker index ");
                text.append(decimal(*index as u64).as_str());
                text
            },
            TrueHdFault::FrameCount => String::from_str("TrueHD frame count overflowed"),
            TrueHdFault::NoFrames => String::from_str(
                "embedded TrueHD decoder produced no audio frames",
            ),
        }
    }
}

/// A channel label of the decoder.
#[derive(Clone, Copy, Debug, PartialEq, Eq, Structural)]
pub enum ChannelLabel {
    L,
    R,
    C,
    Lfe,
    Ls,
    Rs,
    Tfl,
    Tfr,
    Tsl,
    Tsr,
    Tbl,
    Tbr,
    Lsc,
    Rsc,
    Lb,
    Rb,
    Cb,
    Tc,
    Lsd,
    Rsd,
    Lw,
    Rw,
    Tfc,
    Lfe2,
}

/// The speaker of a channel label.
pub open spec fn label_speaker(label: ChannelLabel) -> Speaker {
    match label {
        ChannelLabel::L => Speaker::FrontLeft,
        ChannelLabel::R => Speaker::FrontRight,
        ChannelLabel::C => Speaker::FrontCenter,
        ChannelLabel::Lfe | ChannelLabel::Lfe2 => Speaker::Lfe,
        ChannelLabel::Ls | ChannelLabel::Lsc => Speaker::SideLeft,
        ChannelLabel::Rs | ChannelLabel::Rsc => Speaker::SideRight,
        ChannelLabel::Lb | ChannelLabel::Lsd => Speaker::RearLeft,
        ChannelLabel::Rb | ChannelLabel::Rsd => Speaker::RearRight,
        ChannelLabel::Cb => Speaker::RearCenter,
        ChannelLabel::Tfl => Speaker::TopFrontLeft,
        ChannelLabel::Tfr => Speaker::TopFrontRight,
        ChannelLabel::Tsl => Speaker::TopSideLeft,
        ChannelLabel::Tsr => Speaker::TopSideRight,
        ChannelLabel::Tbl => Speaker::TopRearLeft,
        ChannelLabel::Tbr => Speaker::TopRearRight,
        ChannelLabel::Tc | ChannelLabel::Tfc => Speaker::TopFrontCenter,
        ChannelLabel::Lw => Speaker::WideLeft,
        ChannelLabel::Rw => Speaker::WideRight,
    }
}

/// The speaker of a channel label.
pub fn channel_label_to_speaker(label: ChannelLabel) -> (r: Speaker)
    ensures
        r == label_speaker(label),
{
    match label {
        ChannelLabel::L => Speaker::FrontLeft,
        ChannelLabel::R => Speaker::FrontRight,
        ChannelLabel::C => Speaker::FrontCenter,
        ChannelLabel::Lfe | ChannelLabel::Lfe2 => Speaker::Lfe,
        ChannelLabel::Ls | ChannelLabel::Lsc => Speaker::SideLeft,
        ChannelLabel::Rs | ChannelLabel::Rsc => Speaker::SideRight,
        ChannelLabel::Lb | ChannelLabel::Lsd => Speaker::RearLeft,
        ChannelLabel::Rb | ChannelLabel::Rsd => Speaker::RearRight,
        ChannelLabel::Cb => Speaker::RearCenter,
        ChannelLabel::Tfl => Speaker::TopFrontLeft,
        ChannelLabel::Tfr => Speaker::TopFrontRight,
        ChannelLabel::Tsl => Speaker::TopSideLeft,
        ChannelLabel::Tsr => Speaker::TopSideRight,
        ChannelLabel::Tbl => Speaker::TopRearLeft,
        ChannelLabel::Tbr => Speaker::TopRearRight,
        ChannelLabel::Tc | ChannelLabel::Tfc => Speaker::TopFrontCenter,
        ChannelLabel::Lw => Speaker::WideLeft,
        ChannelLabel::Rw => Speaker::WideRight,
    }
}

/// One object in one metadata block. Real numbers stand as the bits of doubles.
#[derive(Clone, Copy, Debug, PartialEq, Eq)]
pub struct ObjectInfo {
    pub not_active: bool,
    /// Whole decibels; the lowest value stands for silence.
    pub gain: i8,
    pub size: [u64; 3],
    pub follows_screen: bool,
    pub screen_factor: u64,
    pub depth_factor: u64,
    pub distance_specified: bool,
    pub at_infinity: bool,
    pub distance_index: u8,
    pub zone_index: u8,
    pub elevation: bool,
    pub snap: bool,
}

/// When a metadata block takes effect.
#[derive(Clone, Copy, Debug, PartialEq, Eq, Structural)]
pub struct BlockTiming {
    pub offset_factor: u8,
    pub ramp_duration: u16,
}

/// The object element of a payload.
#[derive(Clone, Debug)]
pub struct ObjectElement {
    pub sample_offset: usize,
    pub block_count: usize,
    pub timing: Vec<BlockTiming>,
    /// By object, then by block.
    pub objects: Vec<Vec<ObjectInfo>>,
}

/// The spread of an object in one block.
#[derive(Clone, Copy, Debug, PartialEq, Eq, Structural)]
pub struct Divergence {
    pub present: bool,
    pub bits: u64,
}

/// The trim of one speaker configuration.
#[derive(Clone, Copy, Debug, PartialEq, Eq, Structural)]
pub struct CodedTrim {
    pub use_default: bool,
    pub disabled: bool,
    pub center: Option<u64>,
    pub surround: Option<u64>,
    pub height: Option<u64>,
    pub top_bottom: Option<u64>,
    pub listener: Option<u64>,
}

/// The trim element of a payload.
#[derive(Clone, Debug)]
pub struct TrimElement {
    pub warp_mode: u8,
    pub global_mode: u8,
    pub per_object: bool,
    pub disabled: Vec<bool>,
    pub configurations: [Option<CodedTrim>; 9],
}

/// One metadata payload of an access unit.
#[derive(Clone, Debug)]
pub struct MetadataPayload {
    pub evolution_offset: u64,
    /// Which of the bed speakers each bed has.
    pub beds: Vec<[bool; 17]>,
    pub bed_objects: usize,
    pub isf_objects: usize,
    pub dynamic_objects: usize,
    pub element: Option<ObjectElement>,
    pub trim: Option<TrimElement>,
    /// By object, then by block.
    pub divergence: Vec<Vec<Divergence>>,
    /// By object, then by block.
    pub positions: Vec<Vec<[u64; 3]>>,
}

/// A decoded access unit.
#[derive(Clone, Debug)]
pub struct DecodedUnit {
    pub sampling_frequency: u32,
    pub sample_length: usize,
    pub channel_count: usize,
    pub pcm: Vec<[i32; 16]>,
    pub labels: Vec<ChannelLabel>,
    pub payloads: Vec<MetadataPayload>,
}

/// A failure to render.
pub open spec fn failed<T>(fault: TrueHdFault) -> Result<T, AppError> {
    Err(AppError::Render(Reason::TrueHd(fault)))
}

/// An input that is not supported.
pub open spec fn unsupported<T>(fault: TrueHdFault) -> Result<T, AppError> {
    Err(AppError::UnsupportedInput(Reason::TrueHd(fault)))
}

fn fail<T>(fault: TrueHdFault) -> (r: Result<T, AppError>)
    ensures
        r == failed::<T>(fault),
{
    Err(AppError::Render(Reason::TrueHd(fault)))
}

fn refuse<T>(fault: TrueHdFault) -> (r: Result<T, AppError>)
    ensures
        r == unsupported::<T>(fault),
{
    Err(AppError::UnsupportedInput(Reason::TrueHd(fault)))
}

/// The speaker of a bed index.
pub open spec fn bed_speaker(index: usize) -> Result<Speaker, AppError> {
    if index == 0 {
        Ok(Speaker::FrontLeft)
    } else if index == 1 {
        Ok(Speaker::FrontRight)
    } else if index == 2 {
        Ok(Speaker::FrontCenter)
    } else if index == 3 || index == 16 {
        Ok(Speaker::Lfe)
    } else if index == 4 {
        Ok(Speaker::SideLeft)
    } else if index == 5 {
        Ok(Speaker::SideRight)
    } else if index == 6 {
        Ok(Speaker::RearLeft)
    } else if index == 7 {
        Ok(Speaker::RearRight)
    } else if index == 8 {
        Ok(Speaker::TopFrontLeft)
    } else if index == 9 {
        Ok(Speaker::TopFrontRight)
    } else if index == 10 {
        Ok(Speaker::TopSideLeft)
    } else if index == 11 {
        Ok(Speaker::TopSideRight)
    } else if index == 12 {
        Ok(Speaker::TopRearLeft)
    } else if index == 13 {
        Ok(Speaker::TopRearRight)
    } else if index == 14 {
        Ok(Speaker::WideLeft)
    } else if index == 15 {
        Ok(Speaker::WideRight)
    } else {
        unsupported(TrueHdFault::BedSpeaker { index })
    }
}

/// The speaker of a bed index.
pub fn bed_index_to_speaker(index: usize) -> (r: Result<Speaker, AppError>)
    ensures
        r == bed_speaker(index),
{
    match index {
        0 => Ok(Speaker::FrontLeft),
        1 => Ok(Speaker::FrontRight),
        2 => Ok(Speaker::FrontCenter),
        3 | 16 => Ok(Speaker::Lfe),
        4 => Ok(Speaker::SideLeft),
        5 => Ok(Speaker::SideRight),
        6 => Ok(Speaker::RearLeft),
        7 => Ok(Speaker::RearRight),
        8 => Ok(Speaker::TopFrontLeft),
        9 => Ok(Speaker::TopFrontRight),
        10 => Ok(Speaker::TopSideLeft),
        11 => Ok(Speaker::TopSideRight),
        12 => Ok(Speaker::TopRearLeft),
        13 => Ok(Speaker::TopRearRight),
        14 => Ok(Speaker::WideLeft),
        15 => Ok(Speaker::WideRight),
        _ => refuse(TrueHdFault::BedSpeaker { index }),
    }
}

/// The places among the first flags that are set.
pub open spec fn set_places(flags: Seq<bool>, count: nat) -> Seq<usize>
    decreases count,
{
    if count == 0 {
        seq![]
    } else {
        let before = set_places(flags, (count - 1) as nat);
        if flags[count - 1] {
            before.push((count - 1) as usize)
        } else {
            before
        }
    }
}

/// Calls `BedAssignment::to_index_vec` of the decoder crate. It lists the places
/// of the flags that are set, in order.
#[verifier::external_body]
fn bed_places(flags: &[bool; 17]) -> (r: Vec<usize>)
    ensures
        r@ == set_places(flags@, 17),
{
    truehd::structs::oamd::BedAssignment(*flags).to_index_vec()
}

/// The bed indices of the first beds, one after the other.
pub open spec fn bed_list(beds: Seq<[bool; 17]>, count: nat) -> Seq<usize>
    decreases count,
{
    if count == 0 {
        seq![]
    } else {
        bed_list(beds, (count - 1) as nat) + set_places(beds[count - 1]@, 17)
    }
}

/// The speakers of bed indices, from a place on.
pub open spec fn speakers_from(list: Seq<usize>, start: nat) -> Result<Seq<Speaker>, AppError>
    decreases list.len() - start,
{
    if start >= list.len() {
        Ok(seq![])
    } else {
        match bed_speaker(list[start as int]) {
            Err(e) => Err(e),
            Ok(speaker) => match speakers_from(list, start + 1) {
                Err(e) => Err(e),
                Ok(others) => Ok(seq![speaker] + others),
            },
        }
    }
}

fn list_beds(beds: &[[bool; 17]]) -> (r: Vec<usize>)
    ensures
        r@ == bed_list(beds@, beds@.len()),
{
    let mut list: Vec<usize> = Vec::new();
    let mut i: usize = 0;
    while i < beds.len()
        invariant
            i <= beds@.len(),
            list@ == bed_list(beds@, i as nat),
        decreases beds@.len() - i,
    {
        let places = bed_places(&beds[i]);
        let ghost known = list@;
        let mut k: usize = 0;
        while k < places.len()
            invariant
                k <= places@.len(),
                list@ =~= known + places@.take(k as int),
            decreases places@.len() - k,
        {
            list.push(places[k]);
            k = k + 1;
        }
        assert(places@.take(k as int) =~= places@);
        i = i + 1;
    }
    list
}

fn speakers_of(list: &[usize]) -> (r: Result<Vec<Speaker>, AppError>)
    ensures
        match speakers_from(list@, 0) {
            Err(e) => r == Err::<Vec<Speaker>, AppError>(e),
            Ok(speakers) => r is Ok && r->Ok_0@ == speakers,
        },
{
    let mut speakers: Vec<Speaker> = Vec::new();
    let mut i: usize = 0;
    while i < list.len()
        invariant
            i <= list@.len(),
            speakers_from(list@, 0) == (match speakers_from(list@, i as nat) {
                Err(e) => Err(e),
                Ok(others) => Ok(speakers@ + others),
            }),
        decreases list@.len() - i,
    {
        let ghost known = speakers@;
        let speaker = bed_index_to_speaker(list[i])?;
        speakers.push(speaker);
        proof {
            if let Ok(others) = speakers_from(list@, (i + 1) as nat) {
                assert(known + (seq![speaker] + others) =~= speakers@ + others);
            }
        }
        i = i + 1;
    }
    assert(speakers@ + Seq::<Speaker>::empty() =~= speakers@);
    Ok(speakers)
}

/// A level of whole decibels, where the lowest value stands for silence.
pub open spec fn coded_gain(db: i8) -> Gain {
    if db == -128 {
        Gain::Silent
    } else {
        Gain::Decibels { db }
    }
}

fn object_gain(db: i8) -> (r: Gain)
    ensures
        r == coded_gain(db),
{
    if db == -128 {
        Gain::Silent
    } else {
        Gain::Decibels { db }
    }
}

/// Whether the double with these bits is above minus three quarters.
pub open spec fn above_trim_floor(bits: u64) -> bool {
    let magnitude = bits as int % 0x8000_0000_0000_0000;
    magnitude <= 0x7ff0_0000_0000_0000 && ((bits as int) < 0x8000_0000_0000_0000 || magnitude
        < 0x3fe8_0000_0000_0000)
}

fn is_above_trim_floor(bits: u64) -> (r: bool)
    ensures
        r == above_trim_floor(bits),
{
    let magnitude: u64 = bits % 0x8000_0000_0000_0000;
    magnitude <= 0x7ff0_0000_0000_0000 && (bits < 0x8000_0000_0000_0000 || magnitude
        < 0x3fe8_0000_0000_0000)
}

/// A level that may be absent.
pub open spec fn level(bits: Option<u64>) -> Scalar {
    match bits {
        None => zero_scalar(),
        Some(bits) => Scalar::Double { bits },
    }
}

fn level_of(bits: Option<u64>) -> (r: Scalar)
    ensures
        r == level(bits),
{
    match bits {
        None => Scalar::zero(),
        Some(bits) => Scalar::Double { bits },
    }
}

/// The settings of one speaker configuration.
pub open spec fn coded_settings(coded: Option<CodedTrim>) -> Result<ObjectTrimSettings, AppError> {
    match coded {
        None => Ok(plain_settings(ObjectTrimMode::Default)),
        Some(trim) => if trim.use_default {
            Ok(plain_settings(ObjectTrimMode::Default))
        } else if trim.disabled {
            Ok(plain_settings(ObjectTrimMode::Disabled))
        } else if trim.surround is Some && above_trim_floor(trim.surround->0) {
            unsupported(TrueHdFault::SurroundTrim)
        } else if trim.height is Some && above_trim_floor(trim.height->0) {
            unsupported(TrueHdFault::HeightTrim)
        } else {
            Ok(
                ObjectTrimSettings {
                    mode: ObjectTrimMode::Custom,
                    center_db: level(trim.center),
                    surround_db: level(trim.surround),
                    height_db: level(trim.height),
                    top_bottom_balance: level(trim.top_bottom),
                    listener_balance: level(trim.listener),
                },
            )
        },
    }
}

fn settings_of(coded: Option<CodedTrim>) -> (r: Result<ObjectTrimSettings, AppError>)
    ensures
        r == coded_settings(coded),
{
    match coded {
        None => Ok(ObjectTrimSettings::plain(ObjectTrimMode::Default)),
        Some(trim) => {
            if trim.use_default {
                return Ok(ObjectTrimSettings::plain(ObjectTrimMode::Default));
            }
            if trim.disabled {
                return Ok(ObjectTrimSettings::plain(ObjectTrimMode::Disabled));
            }
            if let Some(bits) = trim.surround {
                if is_above_trim_floor(bits) {
                    return refuse(TrueHdFault::SurroundTrim);
                }
            }
            if let Some(bits) = trim.height {
                if is_above_trim_floor(bits) {
                    return refuse(TrueHdFault::HeightTrim);
                }
            }
            Ok(
                ObjectTrimSettings {
                    mode: ObjectTrimMode::Custom,
                    center_db: level_of(trim.center),
                    surround_db: level_of(trim.surround),
                    height_db: level_of(trim.height),
                    top_bottom_balance: level_of(trim.top_bottom),
                    listener_balance: level_of(trim.listener),
                },
            )
        },
    }
}

/// The settings of the speaker configurations, from a place on.
pub open spec fn settings_from(list: Seq<Option<CodedTrim>>, start: nat) -> Result<
    Seq<ObjectTrimSettings>,
    AppError,
>
    decreases list.len() - start,
{
    if start >= list.len() {
        Ok(seq![])
    } else {
        match coded_settings(list[start as int]) {
            Err(e) => Err(e),
            Ok(settings) => match settings_from(list, start + 1) {
                Err(e) => Err(e),
                Ok(others) => Ok(seq![settings] + others),
            },
        }
    }
}

/// The trim of an object.
pub open spec fn trim_of(element: Option<TrimElement>, object: usize) -> Result<
    ObjectTrim,
    AppError,
> {
    match element {
        None => Ok(default_trim()),
        Some(element) => {
            let warp_y = element.warp_mode == 1;
            if element.warp_mode > 1 {
                unsupported(TrueHdFault::WarpMode { mode: element.warp_mode })
            } else if element.global_mode == 3 {
                unsupported(TrueHdFault::GlobalTrimMode)
            } else if element.per_object && object >= element.disabled@.len() {
                failed(TrueHdFault::MissingTrim { object })
            } else if (element.per_object && element.disabled@[object as int])
                || element.global_mode == 1 {
                Ok(uniform_trim(warp_y, plain_settings(ObjectTrimMode::Disabled)))
            } else if element.global_mode == 0 {
                Ok(uniform_trim(warp_y, plain_settings(ObjectTrimMode::Default)))
            } else {
                match settings_from(element.configurations@, 0) {
                    Err(e) => Err(e),
                    Ok(list) => Ok(
                        ObjectTrim { warp_y, disabled: false, table: TrimTable::of(list) },
                    ),
                }
            }
        },
    }
}

proof fn lemma_settings_length(list: Seq<Option<CodedTrim>>, start: nat)
    requires
        start <= list.len(),
    ensures
        settings_from(list, start) is Ok ==> settings_from(list, start)->Ok_0.len() == list.len()
            - start,
    decreases list.len() - start,
{
    if start < list.len() {
        lemma_settings_length(list, start + 1);
    }
}

fn settings_list(list: &[Option<CodedTrim>; 9]) -> (r: Result<Vec<ObjectTrimSettings>, AppError>)
    ensures
        match settings_from(list@, 0) {
            Err(e) => r == Err::<Vec<ObjectTrimSettings>, AppError>(e),
            Ok(settings) => r is Ok && r->Ok_0@ == settings && settings.len() == 9,
        },
{
    let mut found: Vec<ObjectTrimSettings> = Vec::new();
    let mut i: usize = 0;
    proof {
        lemma_settings_length(list@, 0);
    }
    while i < 9
        invariant
            i <= 9,
            list@.len() == 9,
            settings_from(list@, 0) == (match settings_from(list@, i as nat) {
                Err(e) => Err(e),
                Ok(others) => Ok(found@ + others),
            }),
        decreases 9 - i,
    {
        let ghost known = found@;
        let settings = settings_of(list[i])?;
        found.push(settings);
        proof {
            if let Ok(others) = settings_from(list@, (i + 1) as nat) {
                assert(known + (seq![settings] + others) =~= found@ + others);
            }
        }
        i = i + 1;
    }
    assert(found@ + Seq::<ObjectTrimSettings>::empty() =~= found@);
    Ok(found)
}

/// The trim of an object.
pub fn object_trim(element: &Option<TrimElement>, object: usize) -> (r: Result<
    ObjectTrim,
    AppError,
>)
    ensures
        r == trim_of(*element, object),
{
    match element {
        None => Ok(ObjectTrim::default_algorithm()),
        Some(element) => {
            if element.warp_mode > 1 {
                return refuse(TrueHdFault::WarpMode { mode: element.warp_mode });
            }
            let warp_y: bool = element.warp_mode == 1;
            if element.global_mode == 3 {
                return refuse(TrueHdFault::GlobalTrimMode);
            }
            if element.per_object && object >= element.disabled.len() {
                return fail(TrueHdFault::MissingTrim { object });
            }
            if (element.per_object && element.disabled[object]) || element.global_mode == 1 {
                return Ok(
                    ObjectTrim::uniform(
                        warp_y,
                        ObjectTrimSettings::plain(ObjectTrimMode::Disabled),
                    ),
                );
            }
            if element.global_mode == 0 {
                return Ok(
                    ObjectTrim::uniform(
                        warp_y,
                        ObjectTrimSettings::plain(ObjectTrimMode::Default),
                    ),
                );
            }
            let list = settings_list(&element.configurations)?;
            Ok(ObjectTrim::from_configurations(warp_y, list.as_slice()))
        },
    }
}

/// A number of samples at 48 kHz, counted at another rate.
pub open spec fn scaled_samples(samples: usize, sample_rate: u32) -> Result<usize, AppError> {
    let scaled = samples * sample_rate / 48_000;
    if scaled <= usize::MAX {
        Ok(scaled as usize)
    } else {
        failed(TrueHdFault::ScaledOffset)
    }
}

/// Counts samples at 48 kHz at another rate.
pub fn scale_oamd_samples(samples: usize, sample_rate: u32) -> (r: Result<usize, AppError>)
    ensures
        r == scaled_samples(samples, sample_rate),
{
    let wide: u128 = samples as u128;
    assert(wide * sample_rate <= 0xffff_ffff_ffff_ffff * 0xffff_ffff) by (nonlinear_arith)
        requires
            wide <= 0xffff_ffff_ffff_ffff,
            sample_rate <= 0xffff_ffff,
    ;
    let scaled: u128 = wide * sample_rate as u128 / 48_000;
    if scaled <= usize::MAX as u128 {
        Ok(scaled as usize)
    } else {
        fail(TrueHdFault::ScaledOffset)
    }
}

/// One object in one block, where the metadata holds it.
pub open spec fn info_at(objects: Seq<Vec<ObjectInfo>>, object: nat, block: nat) -> Option<
    ObjectInfo,
> {
    if object < objects.len() && block < objects[object as int]@.len() {
        Some(objects[object as int]@[block as int])
    } else {
        None
    }
}

fn find_info(objects: &Vec<Vec<ObjectInfo>>, object: usize, block: usize) -> (r: Option<ObjectInfo>)
    ensures
        r == info_at(objects@, object as nat, block as nat),
{
    if object < objects.len() {
        let blocks: &Vec<ObjectInfo> = &objects[object];
        if block < blocks.len() {
            return Some(blocks[block]);
        }
    }
    None
}

/// The state of one signal of the intermediate spatial format.
pub open spec fn isf_state(
    payload: MetadataPayload,
    element: ObjectElement,
    beds: nat,
    block: usize,
    signal: usize,
) -> Result<IsfState, AppError> {
    let place = beds + signal as nat;
    match info_at(element.objects@, place, block as nat) {
        None => failed(TrueHdFault::MissingIsfBlock { block, signal }),
        Some(info) => match trim_of(payload.trim, place as usize) {
            Err(e) => Err(e),
            Ok(trim) => Ok(
                IsfState {
                    source_channel: place as usize,
                    active: !info.not_active,
                    gain: coded_gain(info.gain),
                    trim,
                },
            ),
        },
    }
}

/// The states of the signals of the intermediate spatial format, from one on.
pub open spec fn isf_states(
    payload: MetadataPayload,
    element: ObjectElement,
    beds: nat,
    block: usize,
    start: nat,
) -> Result<Seq<IsfState>, AppError>
    decreases payload.isf_objects - start,
{
    if start >= payload.isf_objects {
        Ok(seq![])
    } else {
        match isf_state(payload, element, beds, block, start as usize) {
            Err(e) => Err(e),
            Ok(state) => match isf_states(payload, element, beds, block, start + 1) {
                Err(e) => Err(e),
                Ok(others) => Ok(seq![state] + others),
            },
        }
    }
}

/// The state of one bed channel.
pub open spec fn bed_state(
    payload: MetadataPayload,
    element: ObjectElement,
    speakers: Seq<Speaker>,
    block: usize,
    object: usize,
) -> Result<ObjectState, AppError> {
    let speaker = speakers[object as int];
    match info_at(element.objects@, object as nat, block as nat) {
        None => failed(TrueHdFault::MissingBedBlock { block, object }),
        Some(info) => match trim_of(payload.trim, object) {
            Err(e) => Err(e),
            Ok(trim) => Ok(
                ObjectState {
                    source_channel: object,
                    active: !info.not_active,
                    bed_speaker: Some(speaker),
                    position: Placement::Speaker { speaker },
                    screen: None,
                    distance: None,
                    gain: coded_gain(info.gain),
                    size: zero_extent(),
                    snap: false,
                    zone: ObjectZone::All,
                    elevation: true,
                    divergence: zero_scalar(),
                    trim,
                },
            ),
        },
    }
}

/// The states of the bed channels, from one on.
pub open spec fn bed_states(
    payload: MetadataPayload,
    element: ObjectElement,
    speakers: Seq<Speaker>,
    block: usize,
    start: nat,
) -> Result<Seq<ObjectState>, AppError>
    decreases speakers.len() - start,
{
    if start >= speakers.len() {
        Ok(seq![])
    } else {
        match bed_state(payload, element, speakers, block, start as usize) {
            Err(e) => Err(e),
            Ok(state) => match bed_states(payload, element, speakers, block, start + 1) {
                Err(e) => Err(e),
                Ok(others) => Ok(seq![state] + others),
            },
        }
    }
}

/// The position of an object in a block; the centre where there is none.
pub open spec fn position_at(positions: Seq<Vec<[u64; 3]>>, object: nat, block: nat) -> Point {
    if object < positions.len() && block < positions[object as int]@.len() {
        let place = positions[object as int]@[block as int]@;
        Point {
            x: Scalar::Double { bits: place[0] },
            y: Scalar::Double { bits: place[1] },
            z: Scalar::Double { bits: place[2] },
        }
    } else {
        Point {
            x: Scalar::Double { bits: 0 },
            y: Scalar::Double { bits: 0 },
            z: Scalar::Double { bits: 0 },
        }
    }
}

/// The spread of an object in a block.
pub open spec fn divergence_at(list: Seq<Vec<Divergence>>, object: nat, block: nat) -> Scalar {
    if object < list.len() && block < list[object as int]@.len()
        && list[object as int]@[block as int].present {
        Scalar::Double { bits: list[object as int]@[block as int].bits }
    } else {
        zero_scalar()
    }
}

/// The authored distance of an object.
pub open spec fn distance_of(info: ObjectInfo) -> Result<Option<Distance>, AppError> {
    if !info.distance_specified {
        Ok(None)
    } else if info.at_infinity {
        Ok(Some(Distance::Infinite))
    } else if info.distance_index < 16 {
        Ok(Some(Distance::Tenths { value: distance_tenths(info.distance_index as nat) }))
    } else {
        unsupported(TrueHdFault::DistanceIndex { index: info.distance_index })
    }
}

/// The zone of an object.
pub open spec fn zone_of(index: u8) -> Result<ObjectZone, AppError> {
    match ObjectZone::coded(index as nat) {
        None => unsupported(TrueHdFault::ZoneIndex { index }),
        Some(zone) => Ok(zone),
    }
}

/// What a screen anchor is made of.
pub open spec fn anchor_of(info: ObjectInfo) -> Option<ScreenAnchor> {
    if info.follows_screen {
        Some(
            ScreenAnchor {
                factor: Scalar::Double { bits: info.screen_factor },
                depth: Scalar::Double { bits: info.depth_factor },
            },
        )
    } else {
        None
    }
}

/// The apparent size of an object.
pub open spec fn extent_of(info: ObjectInfo) -> Extent {
    Extent {
        width: Scalar::Double { bits: info.size@[0] },
        depth: Scalar::Double { bits: info.size@[1] },
        height: Scalar::Double { bits: info.size@[2] },
    }
}

/// The state of one moving object. Its channel stands behind the beds and the
/// signals of the intermediate spatial format.
pub open spec fn dynamic_state_of(
    payload: MetadataPayload,
    element: ObjectElement,
    beds: nat,
    block: usize,
    object: usize,
) -> Result<ObjectState, AppError> {
    let place = beds + payload.isf_objects as nat + object as nat;
    match info_at(element.objects@, place, block as nat) {
        None => failed(TrueHdFault::MissingDynamicBlock { block, object }),
        Some(info) => match distance_of(info) {
            Err(e) => Err(e),
            Ok(distance) => match zone_of(info.zone_index) {
                Err(e) => Err(e),
                Ok(zone) => match trim_of(payload.trim, place as usize) {
                    Err(e) => Err(e),
                    Ok(trim) => Ok(
                        ObjectState {
                            source_channel: place as usize,
                            active: !info.not_active,
                            bed_speaker: None,
                            position: Placement::Room {
                                point: position_at(payload.positions@, place, block as nat),
                                authored: position_at(payload.positions@, place, block as nat),
                            },
                            screen: anchor_of(info),
                            distance,
                            gain: coded_gain(info.gain),
                            size: extent_of(info),
                            snap: info.snap && !info.follows_screen,
                            zone,
                            elevation: info.elevation,
                            divergence: divergence_at(
                                payload.divergence@,
                                place,
                                block as nat,
                            ),
                            trim,
                        },
                    ),
                },
            },
        },
    }
}

/// The states of the moving objects, from one on.
pub open spec fn dynamic_states(
    payload: MetadataPayload,
    element: ObjectElement,
    beds: nat,
    block: usize,
    start: nat,
) -> Result<Seq<ObjectState>, AppError>
    decreases payload.dynamic_objects - start,
{
    if start >= payload.dynamic_objects {
        Ok(seq![])
    } else {
        match dynamic_state_of(payload, element, beds, block, start as usize) {
            Err(e) => Err(e),
            Ok(state) => match dynamic_states(payload, element, beds, block, start + 1) {
                Err(e) => Err(e),
                Ok(others) => Ok(seq![state] + others),
            },
        }
    }
}

fn find_position(positions: &Vec<Vec<[u64; 3]>>, object: usize, block: usize) -> (r: Point)
    ensures
        r == position_at(positions@, object as nat, block as nat),
{
    if object < positions.len() {
        let blocks: &Vec<[u64; 3]> = &positions[object];
        if block < blocks.len() {
            let place: [u64; 3] = blocks[block];
            return Point {
                x: Scalar::Double { bits: place[0] },
                y: Scalar::Double { bits: place[1] },
                z: Scalar::Double { bits: place[2] },
            };
        }
    }
    Point {
        x: Scalar::Double { bits: 0 },
        y: Scalar::Double { bits: 0 },
        z: Scalar::Double { bits: 0 },
    }
}

fn find_divergence(list: &Vec<Vec<Divergence>>, object: usize, block: usize) -> (r: Scalar)
    ensures
        r == divergence_at(list@, object as nat, block as nat),
{
    if object < list.len() {
        let blocks: &Vec<Divergence> = &list[object];
        if block < blocks.len() && blocks[block].present {
            return Scalar::Double { bits: blocks[block].bits };
        }
    }
    Scalar::zero()
}

fn read_distance(info: &ObjectInfo) -> (r: Result<Option<Distance>, AppError>)
    ensures
        r == distance_of(*info),
{
    if !info.distance_specified {
        return Ok(None);
    }
    if info.at_infinity {
        return Ok(Some(Distance::Infinite));
    }
    if info.distance_index < 16 {
        return Ok(Some(Distance::Tenths { value: coded_distance(info.distance_index as usize) }));
    }
    refuse(TrueHdFault::DistanceIndex { index: info.distance_index })
}

fn read_zone(index: u8) -> (r: Result<ObjectZone, AppError>)
    ensures
        r == zone_of(index),
{
    match ObjectZone::from_index(index) {
        None => refuse(TrueHdFault::ZoneIndex { index }),
        Some(zone) => Ok(zone),
    }
}

fn dynamic_state(
    payload: &MetadataPayload,
    element: &ObjectElement,
    beds: usize,
    block: usize,
    object: usize,
) -> (r: Result<ObjectState, AppError>)
    requires
        beds + payload.isf_objects + object <= usize::MAX,
    ensures
        r == dynamic_state_of(*payload, *element, beds as nat, block, object),
{
    let place: usize = beds + payload.isf_objects + object;
    let info: ObjectInfo = match find_info(&element.objects, place, block) {
        None => return fail(TrueHdFault::MissingDynamicBlock { block, object }),
        Some(info) => info,
    };
    let distance = read_distance(&info)?;
    let zone = read_zone(info.zone_index)?;
    let trim = object_trim(&payload.trim, place)?;
    let point: Point = find_position(&payload.positions, place, block);
    let screen: Option<ScreenAnchor> = if info.follows_screen {
        Some(
            ScreenAnchor {
                factor: Scalar::Double { bits: info.screen_factor },
                depth: Scalar::Double { bits: info.depth_factor },
            },
        )
    } else {
        None
    };
    Ok(
        ObjectState {
            source_channel: place,
            active: !info.not_active,
            bed_speaker: None,
            position: Placement::Room { point, authored: point },
            screen,
            distance,
            gain: object_gain(info.gain),
            size: Extent {
                width: Scalar::Double { bits: info.size[0] },
                depth: Scalar::Double { bits: info.size[1] },
                height: Scalar::Double { bits: info.size[2] },
            },
            snap: info.snap && !info.follows_screen,
            zone,
            elevation: info.elevation,
            divergence: find_divergence(&payload.divergence, place, block),
            trim,
        },
    )
}

fn read_isf_state(
    payload: &MetadataPayload,
    element: &ObjectElement,
    beds: usize,
    block: usize,
    signal: usize,
) -> (r: Result<IsfState, AppError>)
    requires
        beds + signal <= usize::MAX,
    ensures
        r == isf_state(*payload, *element, beds as nat, block, signal),
{
    let place: usize = beds + signal;
    let info: ObjectInfo = match find_info(&element.objects, place, block) {
        None => return fail(TrueHdFault::MissingIsfBlock { block, signal }),
        Some(info) => info,
    };
    let trim = object_trim(&payload.trim, place)?;
    Ok(
        IsfState {
            source_channel: place,
            active: !info.not_active,
            gain: object_gain(info.gain),
            trim,
        },
    )
}

fn read_bed_state(
    payload: &MetadataPayload,
    element: &ObjectElement,
    speakers: &[Speaker],
    block: usize,
    object: usize,
) -> (r: Result<ObjectState, AppError>)
    requires
        object < speakers@.len(),
    ensures
        r == bed_state(*payload, *element, speakers@, block, object),
{
    let info: ObjectInfo = match find_info(&element.objects, object, block) {
        None => return fail(TrueHdFault::MissingBedBlock { block, object }),
        Some(info) => info,
    };
    let trim = object_trim(&payload.trim, object)?;
    let speaker: Speaker = speakers[object];
    Ok(
        ObjectState {
            source_channel: object,
            active: !info.not_active,
            bed_speaker: Some(speaker),
            position: Placement::Speaker { speaker },
            screen: None,
            distance: None,
            gain: object_gain(info.gain),
            size: Extent { width: Scalar::zero(), depth: Scalar::zero(), height: Scalar::zero() },
            snap: false,
            zone: ObjectZone::All,
            elevation: true,
            divergence: Scalar::zero(),
            trim,
        },
    )
}

fn read_isf_states(
    payload: &MetadataPayload,
    element: &ObjectElement,
    beds: usize,
    block: usize,
) -> (r: Result<Vec<IsfState>, AppError>)
    requires
        beds + payload.isf_objects <= usize::MAX,
    ensures
        match isf_states(*payload, *element, beds as nat, block, 0) {
            Err(e) => r == Err::<Vec<IsfState>, AppError>(e),
            Ok(states) => r is Ok && r->Ok_0@ == states,
        },
{
    let mut states: Vec<IsfState> = Vec::new();
    let mut i: usize = 0;
    while i < payload.isf_objects
        invariant
            i <= payload.isf_objects,
            beds + payload.isf_objects <= usize::MAX,
            isf_states(*payload, *element, beds as nat, block, 0) == (match isf_states(
                *payload,
                *element,
                beds as nat,
                block,
                i as nat,
            ) {
                Err(e) => Err(e),
                Ok(others) => Ok(states@ + others),
            }),
        decreases payload.isf_objects - i,
    {
        let ghost known = states@;
        let state = read_isf_state(payload, element, beds, block, i)?;
        states.push(state);
        proof {
            if let Ok(others) = isf_states(*payload, *element, beds as nat, block, (i + 1) as nat) {
                assert(known + (seq![state] + others) =~= states@ + others);
            }
        }
        i = i + 1;
    }
    assert(states@ + Seq::<IsfState>::empty() =~= states@);
    Ok(states)
}

/// The states of the beds and then of the moving objects in a block.
pub open spec fn object_states(
    payload: MetadataPayload,
    element: ObjectElement,
    speakers: Seq<Speaker>,
    block: usize,
) -> Result<Seq<ObjectState>, AppError> {
    match bed_states(payload, element, speakers, block, 0) {
        Err(e) => Err(e),
        Ok(beds) => match dynamic_states(payload, element, speakers.len(), block, 0) {
            Err(e) => Err(e),
            Ok(moving) => Ok(beds + moving),
        },
    }
}

fn read_object_states(
    payload: &MetadataPayload,
    element: &ObjectElement,
    speakers: &[Speaker],
    block: usize,
) -> (r: Result<Vec<ObjectState>, AppError>)
    requires
        speakers@.len() + payload.isf_objects + payload.dynamic_objects <= usize::MAX,
    ensures
        match object_states(*payload, *element, speakers@, block) {
            Err(e) => r == Err::<Vec<ObjectState>, AppError>(e),
            Ok(states) => r is Ok && r->Ok_0@ == states,
        },
{
    let mut states: Vec<ObjectState> = Vec::new();
    let mut i: usize = 0;
    while i < speakers.len()
        invariant
            i <= speakers@.len(),
            bed_states(*payload, *element, speakers@, block, 0) == (match bed_states(
                *payload,
                *element,
                speakers@,
                block,
                i as nat,
            ) {
                Err(e) => Err(e),
                Ok(others) => Ok(states@ + others),
            }),
        decreases speakers@.len() - i,
    {
        let ghost known = states@;
        let state = read_bed_state(payload, element, speakers, block, i)?;
        states.push(state);
        proof {
            if let Ok(others) = bed_states(*payload, *element, speakers@, block, (i + 1) as nat) {
                assert(known + (seq![state] + others) =~= states@ + others);
            }
        }
        i = i + 1;
    }
    assert(states@ + Seq::<ObjectState>::empty() =~= states@);
    let ghost beds = states@;
    let ghost count = speakers@.len();
    let mut k: usize = 0;
    assert(beds + Seq::<ObjectState>::empty() =~= beds);
    let ghost mut moving: Seq<ObjectState> = seq![];
    while k < payload.dynamic_objects
        invariant
            k <= payload.dynamic_objects,
            count == speakers@.len(),
            speakers@.len() + payload.isf_objects + payload.dynamic_objects <= usize::MAX,
            states@ =~= beds + moving,
            bed_states(*payload, *element, speakers@, block, 0) == Ok::<Seq<ObjectState>, AppError>(
                beds,
            ),
            dynamic_states(*payload, *element, count, block, 0) == (match dynamic_states(
                *payload,
                *element,
                count,
                block,
                k as nat,
            ) {
                Err(e) => Err(e),
                Ok(others) => Ok(moving + others),
            }),
        decreases payload.dynamic_objects - k,
    {
        let ghost known = moving;
        let state = dynamic_state(payload, element, speakers.len(), block, k)?;
        states.push(state);
        proof {
            moving = moving.push(state);
            if let Ok(others) = dynamic_states(*payload, *element, count, block, (k + 1) as nat) {
                assert(known + (seq![state] + others) =~= moving + others);
            }
        }
        k = k + 1;
    }
    assert(moving + Seq::<ObjectState>::empty() =~= moving);
    Ok(states)
}

/// When a block takes effect, in samples of the access unit.
pub open spec fn block_offset(
    payload: MetadataPayload,
    element: ObjectElement,
    timing: BlockTiming,
    sample_rate: u32,
) -> Result<usize, AppError> {
    let coded = element.sample_offset + timing.offset_factor * 32;
    if coded > usize::MAX {
        failed(TrueHdFault::OamdOffset)
    } else if payload.evolution_offset > usize::MAX {
        failed(TrueHdFault::EvolutionOffset)
    } else {
        match scaled_samples(coded as usize, sample_rate) {
            Err(e) => Err(e),
            Ok(scaled) => if payload.evolution_offset + scaled > usize::MAX {
                failed(TrueHdFault::MetadataOffset)
            } else {
                Ok((payload.evolution_offset + scaled) as usize)
            },
        }
    }
}

/// The update of one block.
pub open spec fn block_update(
    payload: MetadataPayload,
    element: ObjectElement,
    speakers: Seq<Speaker>,
    sample_rate: u32,
    block: usize,
) -> Result<UpdateView, AppError> {
    match isf_states(payload, element, speakers.len(), block, 0) {
        Err(e) => Err(e),
        Ok(isf) => match object_states(payload, element, speakers, block) {
            Err(e) => Err(e),
            Ok(objects) => if block >= element.timing@.len() {
                failed(TrueHdFault::MissingTiming { block })
            } else {
                let timing = element.timing@[block as int];
                match block_offset(payload, element, timing, sample_rate) {
                    Err(e) => Err(e),
                    Ok(offset) => match scaled_samples(
                        timing.ramp_duration as usize,
                        sample_rate,
                    ) {
                        Err(e) => Err(e),
                        Ok(ramp) => Ok(
                            UpdateView {
                                sample_offset: offset as nat,
                                ramp_samples: ramp as nat,
                                bed_speakers: speakers,
                                isf,
                                objects,
                            },
                        ),
                    },
                }
            },
        },
    }
}

/// The updates of the blocks, from one on.
pub open spec fn block_updates(
    payload: MetadataPayload,
    element: ObjectElement,
    speakers: Seq<Speaker>,
    sample_rate: u32,
    start: nat,
) -> Result<Seq<UpdateView>, AppError>
    decreases element.block_count - start,
{
    if start >= element.block_count {
        Ok(seq![])
    } else {
        match block_update(payload, element, speakers, sample_rate, start as usize) {
            Err(e) => Err(e),
            Ok(update) => match block_updates(
                payload,
                element,
                speakers,
                sample_rate,
                start + 1,
            ) {
                Err(e) => Err(e),
                Ok(others) => Ok(seq![update] + others),
            },
        }
    }
}

/// The updates that a payload asks for.
pub open spec fn payload_updates(
    payload: MetadataPayload,
    channel_count: usize,
    sample_rate: u32,
) -> Result<Seq<UpdateView>, AppError> {
    match speakers_from(bed_list(payload.beds@, payload.beds@.len()), 0) {
        Err(e) => Err(e),
        Ok(speakers) => {
            let beds = speakers.len();
            if beds != payload.bed_objects {
                failed(
                    TrueHdFault::BedCount { found: beds as usize, declared: payload.bed_objects },
                )
            } else if beds > channel_count {
                failed(TrueHdFault::BedChannels { beds: beds as usize, channels: channel_count })
            } else {
                match payload.element {
                    None => Ok(
                        seq![
                            UpdateView {
                                sample_offset: 0,
                                ramp_samples: 0,
                                bed_speakers: speakers,
                                isf: seq![],
                                objects: seq![],
                            },
                        ],
                    ),
                    Some(element) => if beds + payload.isf_objects + payload.dynamic_objects
                        > channel_count {
                        failed(
                            TrueHdFault::DescribedChannels {
                                beds: beds as usize,
                                isf: payload.isf_objects,
                                dynamic: payload.dynamic_objects,
                                channels: channel_count,
                            },
                        )
                    } else {
                        block_updates(payload, element, speakers, sample_rate, 0)
                    },
                }
            }
        },
    }
}

fn read_block_offset(
    payload: &MetadataPayload,
    element: &ObjectElement,
    timing: BlockTiming,
    sample_rate: u32,
) -> (r: Result<usize, AppError>)
    ensures
        r == block_offset(*payload, *element, timing, sample_rate),
{
    let step: usize = timing.offset_factor as usize * 32;
    let coded: usize = match element.sample_offset.checked_add(step) {
        None => return fail(TrueHdFault::OamdOffset),
        Some(coded) => coded,
    };
    if payload.evolution_offset as u128 > usize::MAX as u128 {
        return fail(TrueHdFault::EvolutionOffset);
    }
    let evolution: usize = payload.evolution_offset as usize;
    let scaled = scale_oamd_samples(coded, sample_rate)?;
    match evolution.checked_add(scaled) {
        None => fail(TrueHdFault::MetadataOffset),
        Some(offset) => Ok(offset),
    }
}

fn read_block_update(
    payload: &MetadataPayload,
    element: &ObjectElement,
    speakers: &[Speaker],
    sample_rate: u32,
    block: usize,
) -> (r: Result<SpatialUpdate, AppError>)
    requires
        speakers@.len() + payload.isf_objects + payload.dynamic_objects <= usize::MAX,
    ensures
        match block_update(*payload, *element, speakers@, sample_rate, block) {
            Err(e) => r == Err::<SpatialUpdate, AppError>(e),
            Ok(update) => r is Ok && r->Ok_0@ == update,
        },
{
    let isf = read_isf_states(payload, element, speakers.len(), block)?;
    let objects = read_object_states(payload, element, speakers, block)?;
    if block >= element.timing.len() {
        return fail(TrueHdFault::MissingTiming { block });
    }
    let timing: BlockTiming = element.timing[block];
    let sample_offset = read_block_offset(payload, element, timing, sample_rate)?;
    let ramp_samples = scale_oamd_samples(timing.ramp_duration as usize, sample_rate)?;
    Ok(
        SpatialUpdate {
            sample_offset,
            ramp_samples,
            bed_speakers: copy_speakers(speakers),
            isf,
            objects,
        },
    )
}

fn read_block_updates(
    payload: &MetadataPayload,
    element: &ObjectElement,
    speakers: &[Speaker],
    sample_rate: u32,
) -> (r: Result<Vec<SpatialUpdate>, AppError>)
    requires
        speakers@.len() + payload.isf_objects + payload.dynamic_objects <= usize::MAX,
    ensures
        match block_updates(*payload, *element, speakers@, sample_rate, 0) {
            Err(e) => r == Err::<Vec<SpatialUpdate>, AppError>(e),
            Ok(updates) => r is Ok && update_views(r->Ok_0@) == updates,
        },
{
    let mut updates: Vec<SpatialUpdate> = Vec::new();
    let mut i: usize = 0;
    assert(update_views(updates@) =~= seq![]);
    while i < element.block_count
        invariant
            i <= element.block_count,
            speakers@.len() + payload.isf_objects + payload.dynamic_objects <= usize::MAX,
            block_updates(*payload, *element, speakers@, sample_rate, 0) == (match block_updates(
                *payload,
                *element,
                speakers@,
                sample_rate,
                i as nat,
            ) {
                Err(e) => Err(e),
                Ok(others) => Ok(update_views(updates@) + others),
            }),
        decreases element.block_count - i,
    {
        let ghost known = updates@;
        let update = read_block_update(payload, element, speakers, sample_rate, i)?;
        updates.push(update);
        proof {
            assert(update_views(updates@) =~= update_views(known).push(update@));
            if let Ok(others) = block_updates(
                *payload,
                *element,
                speakers@,
                sample_rate,
                (i + 1) as nat,
            ) {
                assert(update_views(known) + (seq![update@] + others) =~= update_views(updates@)
                    + others);
            }
        }
        i = i + 1;
    }
    assert(update_views(updates@) + Seq::<UpdateView>::empty() =~= update_views(updates@));
    Ok(updates)
}

/// Makes timed updates of a metadata payload.
pub fn metadata_updates(payload: &MetadataPayload, channel_count: usize, sample_rate: u32) -> (r:
    Result<Vec<SpatialUpdate>, AppError>)
    ensures
        match payload_updates(*payload, channel_count, sample_rate) {
            Err(e) => r == Err::<Vec<SpatialUpdate>, AppError>(e),
            Ok(updates) => r is Ok && update_views(r->Ok_0@) == updates,
        },
{
    let list = list_beds(payload.beds.as_slice());
    let speakers = speakers_of(list.as_slice())?;
    let beds: usize = speakers.len();
    if beds != payload.bed_objects {
        return fail(TrueHdFault::BedCount { found: beds, declared: payload.bed_objects });
    }
    if beds > channel_count {
        return fail(TrueHdFault::BedChannels { beds, channels: channel_count });
    }
    match &payload.element {
        None => {
            let update = SpatialUpdate {
                sample_offset: 0,
                ramp_samples: 0,
                bed_speakers: speakers,
                isf: Vec::new(),
                objects: Vec::new(),
            };
            let mut updates: Vec<SpatialUpdate> = Vec::new();
            updates.push(update);
            assert(update@.isf =~= seq![]);
            assert(update@.objects =~= seq![]);
            assert(update_views(updates@) =~= seq![update@]);
            Ok(updates)
        },
        Some(element) => {
            let described: u128 = beds as u128 + payload.isf_objects as u128
                + payload.dynamic_objects as u128;
            if described > channel_count as u128 {
                return fail(
                    TrueHdFault::DescribedChannels {
                        beds,
                        isf: payload.isf_objects,
                        dynamic: payload.dynamic_objects,
                        channels: channel_count,
                    },
                );
            }
            read_block_updates(payload, element, speakers.as_slice(), sample_rate)
        },
    }
}

/// A decoded access unit as the renderer takes it. The samples are whole numbers
/// of 24 bits, frame by frame.
#[derive(Clone, Debug)]
pub struct TrueHdFrame {
    pub sample_rate: u32,
    pub sample_count: usize,
    pub channel_count: usize,
    pub samples: Vec<i32>,
    pub channel_speakers: Vec<Option<Speaker>>,
    pub isf: Option<IsfConfig>,
    pub spatial_updates: Vec<SpatialUpdate>,
}

/// What a frame holds.
pub struct FrameView {
    pub sample_rate: u32,
    pub sample_count: usize,
    pub channel_count: usize,
    pub samples: Seq<i32>,
    pub channel_speakers: Seq<Option<Speaker>>,
    pub isf: Option<IsfConfig>,
    pub spatial_updates: Seq<UpdateView>,
}

impl View for TrueHdFrame {
    type V = FrameView;

    open spec fn view(&self) -> FrameView {
        FrameView {
            sample_rate: self.sample_rate,
            sample_count: self.sample_count,
            channel_count: self.channel_count,
            samples: self.samples@,
            channel_speakers: self.channel_speakers@,
            isf: self.isf,
            spatial_updates: update_views(self.spatial_updates@),
        }
    }
}

/// The first channels of the first rows, one row after the other.
pub open spec fn interleaved(rows: Seq<[i32; 16]>, channels: nat, count: nat) -> Seq<i32>
    decreases count,
{
    if count == 0 {
        seq![]
    } else {
        interleaved(rows, channels, (count - 1) as nat) + rows[count - 1]@.take(channels as int)
    }
}

/// The samples of a frame stand channel by channel, frame by frame.
pub proof fn law_samples_are_interleaved(
    rows: Seq<[i32; 16]>,
    channels: nat,
    count: nat,
    row: nat,
    channel: nat,
)
    requires
        channels <= 16,
        count <= rows.len(),
        row < count,
        channel < channels,
    ensures
        interleaved(rows, channels, count).len() == count * channels,
        row * channels + channel < count * channels,
        interleaved(rows, channels, count)[(row * channels + channel) as int]
            == rows[row as int]@[channel as int],
    decreases count,
{
    lemma_interleaved_length(rows, channels, count);
    lemma_interleaved_length(rows, channels, (count - 1) as nat);
    assert((count - 1) * channels + channels == count * channels) by (nonlinear_arith);
    assert(row * channels + channels <= count * channels) by (nonlinear_arith)
        requires
            row + 1 <= count,
    ;
    if row + 1 < count {
        law_samples_are_interleaved(rows, channels, (count - 1) as nat, row, channel);
    }
}

proof fn lemma_interleaved_length(rows: Seq<[i32; 16]>, channels: nat, count: nat)
    requires
        channels <= 16,
        count <= rows.len(),
    ensures
        interleaved(rows, channels, count).len() == count * channels,
    decreases count,
{
    if count > 0 {
        lemma_interleaved_length(rows, channels, (count - 1) as nat);
        assert((count - 1) * channels + channels == count * channels) by (nonlinear_arith);
        assert(rows[count - 1]@.len() == 16);
    } else {
        assert(0 * channels == 0) by (nonlinear_arith);
    }
}

/// The speakers of the channels by their labels.
pub open spec fn labelled(labels: Seq<ChannelLabel>, count: nat) -> Seq<Option<Speaker>> {
    Seq::new(
        count,
        |i: int|
            if i < labels.len() {
                Some(label_speaker(labels[i]))
            } else {
                None
            },
    )
}

/// The speakers of the channels, where beds have taken the first of them.
pub open spec fn with_beds(speakers: Seq<Option<Speaker>>, beds: Seq<Speaker>) -> Seq<
    Option<Speaker>,
> {
    Seq::new(
        speakers.len(),
        |i: int|
            if i < beds.len() {
                Some(beds[i])
            } else {
                speakers[i]
            },
    )
}

/// What the payloads of an access unit have said so far.
pub struct Gathered {
    pub speakers: Seq<Option<Speaker>>,
    pub isf: Option<IsfConfig>,
    pub updates: Seq<UpdateView>,
}

/// The run of signals of the intermediate spatial format that a payload
/// declares.
pub open spec fn declared_isf(payload: MetadataPayload, channels: usize) -> Result<
    Option<IsfConfig>,
    AppError,
> {
    if payload.isf_objects == 0 {
        Ok(None)
    } else if !isf_size(payload.isf_objects as nat) {
        Err(
            AppError::UnsupportedInput(
                Reason::Isf(IsfFault::ChannelCount { count: payload.isf_objects }),
            ),
        )
    } else if payload.bed_objects + payload.isf_objects > channels {
        failed(TrueHdFault::IsfRange { channels })
    } else {
        Ok(
            Some(
                IsfConfig {
                    start_channel: payload.bed_objects,
                    channel_count: payload.isf_objects,
                },
            ),
        )
    }
}

/// What is known once a payload has been read.
pub open spec fn with_payload(
    known: Gathered,
    payload: MetadataPayload,
    channels: usize,
    sample_rate: u32,
) -> Result<Gathered, AppError> {
    match payload_updates(payload, channels, sample_rate) {
        Err(e) => Err(e),
        Ok(updates) => match declared_isf(payload, channels) {
            Err(e) => Err(e),
            Ok(declared) => if declared is Some && known.isf is Some && known.isf != declared {
                unsupported(TrueHdFault::InconsistentIsf)
            } else {
                Ok(
                    Gathered {
                        speakers: if updates.len() > 0 {
                            with_beds(known.speakers, updates[0].bed_speakers)
                        } else {
                            known.speakers
                        },
                        isf: if declared is Some {
                            declared
                        } else {
                            known.isf
                        },
                        updates: known.updates + updates,
                    },
                )
            },
        },
    }
}

/// What is known once the payloads from one on have been read.
pub open spec fn gathered_from(
    known: Gathered,
    payloads: Seq<MetadataPayload>,
    channels: usize,
    sample_rate: u32,
    start: nat,
) -> Result<Gathered, AppError>
    decreases payloads.len() - start,
{
    if start >= payloads.len() {
        Ok(known)
    } else {
        match with_payload(known, payloads[start as int], channels, sample_rate) {
            Err(e) => Err(e),
            Ok(next) => gathered_from(next, payloads, channels, sample_rate, start + 1),
        }
    }
}

/// The frame that an access unit becomes.
pub open spec fn converted(unit: DecodedUnit) -> Result<FrameView, AppError> {
    if unit.sample_length > unit.pcm@.len() || unit.channel_count > 16 {
        failed(
            TrueHdFault::Dimensions { samples: unit.sample_length, channels: unit.channel_count },
        )
    } else if unit.sampling_frequency == 0 || unit.channel_count == 0 {
        failed(TrueHdFault::RateOrChannels)
    } else {
        let start = Gathered {
            speakers: labelled(unit.labels@, unit.channel_count as nat),
            isf: None,
            updates: seq![],
        };
        match gathered_from(
            start,
            unit.payloads@,
            unit.channel_count,
            unit.sampling_frequency,
            0,
        ) {
            Err(e) => Err(e),
            Ok(known) => Ok(
                FrameView {
                    sample_rate: unit.sampling_frequency,
                    sample_count: unit.sample_length,
                    channel_count: unit.channel_count,
                    samples: interleaved(
                        unit.pcm@,
                        unit.channel_count as nat,
                        unit.sample_length as nat,
                    ),
                    channel_speakers: known.speakers,
                    isf: known.isf,
                    spatial_updates: known.updates,
                },
            ),
        }
    }
}

fn interleave(rows: &[[i32; 16]], channels: usize, count: usize) -> (r: Vec<i32>)
    requires
        channels <= 16,
        count <= rows@.len(),
    ensures
        r@ == interleaved(rows@, channels as nat, count as nat),
{
    let mut samples: Vec<i32> = Vec::new();
    let mut i: usize = 0;
    while i < count
        invariant
            i <= count <= rows@.len(),
            channels <= 16,
            samples@ == interleaved(rows@, channels as nat, i as nat),
        decreases count - i,
    {
        let row: &[i32; 16] = &rows[i];
        let ghost known = samples@;
        let mut k: usize = 0;
        while k < channels
            invariant
                k <= channels <= 16,
                row@.len() == 16,
                samples@ =~= known + row@.take(k as int),
            decreases channels - k,
        {
            samples.push(row[k]);
            k = k + 1;
        }
        i = i + 1;
    }
    samples
}

fn label_channels(labels: &[ChannelLabel], count: usize) -> (r: Vec<Option<Speaker>>)
    ensures
        r@ == labelled(labels@, count as nat),
{
    let mut speakers: Vec<Option<Speaker>> = Vec::new();
    let mut i: usize = 0;
    while i < count
        invariant
            i <= count,
            speakers@ =~= labelled(labels@, i as nat),
        decreases count - i,
    {
        if i < labels.len() {
            speakers.push(Some(channel_label_to_speaker(labels[i])));
        } else {
            speakers.push(None);
        }
        i = i + 1;
    }
    speakers
}

fn place_beds(speakers: &[Option<Speaker>], beds: &[Speaker]) -> (r: Vec<Option<Speaker>>)
    ensures
        r@ == with_beds(speakers@, beds@),
{
    let mut placed: Vec<Option<Speaker>> = Vec::new();
    let mut i: usize = 0;
    while i < speakers.len()
        invariant
            i <= speakers@.len(),
            placed@ =~= with_beds(speakers@, beds@).take(i as int),
        decreases speakers@.len() - i,
    {
        if i < beds.len() {
            placed.push(Some(beds[i]));
        } else {
            placed.push(speakers[i]);
        }
        i = i + 1;
    }
    assert(with_beds(speakers@, beds@).take(i as int) =~= with_beds(speakers@, beds@));
    placed
}

fn read_declared_isf(payload: &MetadataPayload, channels: usize) -> (r: Result<
    Option<IsfConfig>,
    AppError,
>)
    ensures
        r == declared_isf(*payload, channels),
{
    if payload.isf_objects == 0 {
        return Ok(None);
    }
    let config = IsfConfig::new(payload.bed_objects, payload.isf_objects)?;
    match config.start_channel.checked_add(config.channel_count) {
        None => fail(TrueHdFault::IsfRange { channels }),
        Some(end) => if end > channels {
            fail(TrueHdFault::IsfRange { channels })
        } else {
            Ok(Some(config))
        },
    }
}

fn reconcile_isf(known: Option<IsfConfig>, declared: Option<IsfConfig>) -> (r: Result<
    Option<IsfConfig>,
    AppError,
>)
    ensures
        r == (if declared is Some && known is Some && known != declared {
            unsupported(TrueHdFault::InconsistentIsf)
        } else {
            Ok(
                if declared is Some {
                    declared
                } else {
                    known
                },
            )
        }),
{
    match (known, declared) {
        (Some(first), Some(second)) => if first.start_channel != second.start_channel
            || first.channel_count != second.channel_count {
            refuse(TrueHdFault::InconsistentIsf)
        } else {
            Ok(declared)
        },
        (None, Some(_)) => Ok(declared),
        _ => Ok(known),
    }
}

/// Turns a decoded access unit into a frame for the renderer.
pub fn convert_frame(unit: &DecodedUnit) -> (r: Result<TrueHdFrame, AppError>)
    ensures
        match converted(*unit) {
            Err(e) => r == Err::<TrueHdFrame, AppError>(e),
            Ok(frame) => r is Ok && r->Ok_0@ == frame,
        },
{
    if unit.sample_length > unit.pcm.len() || unit.channel_count > 16 {
        return fail(
            TrueHdFault::Dimensions { samples: unit.sample_length, channels: unit.channel_count },
        );
    }
    if unit.sampling_frequency == 0 || unit.channel_count == 0 {
        return fail(TrueHdFault::RateOrChannels);
    }
    let channels: usize = unit.channel_count;
    let rate: u32 = unit.sampling_frequency;
    let samples = interleave(unit.pcm.as_slice(), channels, unit.sample_length);
    let mut speakers = label_channels(unit.labels.as_slice(), channels);
    let mut isf: Option<IsfConfig> = None;
    let mut updates: Vec<SpatialUpdate> = Vec::new();
    let ghost start = Gathered {
        speakers: labelled(unit.labels@, channels as nat),
        isf: None,
        updates: seq![],
    };
    let ghost payloads = unit.payloads@;
    let mut i: usize = 0;
    assert(update_views(updates@) =~= seq![]);
    while i < unit.payloads.len()
        invariant
            i <= unit.payloads@.len(),
            payloads == unit.payloads@,
            channels == unit.channel_count,
            rate == unit.sampling_frequency,
            !(unit.sample_length > unit.pcm@.len() || unit.channel_count > 16),
            !(unit.sampling_frequency == 0 || unit.channel_count == 0),
            start == (Gathered {
                speakers: labelled(unit.labels@, unit.channel_count as nat),
                isf: None,
                updates: seq![],
            }),
            gathered_from(start, payloads, channels, rate, 0) == gathered_from(
                Gathered { speakers: speakers@, isf, updates: update_views(updates@) },
                payloads,
                channels,
                rate,
                i as nat,
            ),
        decreases unit.payloads@.len() - i,
    {
        let payload: &MetadataPayload = &unit.payloads[i];
        let ghost known = Gathered {
            speakers: speakers@,
            isf,
            updates: update_views(updates@),
        };
        let mut added = metadata_updates(payload, channels, rate)?;
        let ghost views = update_views(added@);
        let declared = read_declared_isf(payload, channels)?;
        isf = reconcile_isf(isf, declared)?;
        if added.len() > 0 {
            assert(views[0] == added@[0]@);
            speakers = place_beds(speakers.as_slice(), added[0].bed_speakers.as_slice());
        }
        let ghost before = updates@;
        let ghost whole = added@;
        updates.append(&mut added);
        proof {
            assert(update_views(updates@) =~= update_views(before) + update_views(whole));
            assert(with_payload(known, payloads[i as int], channels, rate) == Ok::<
                Gathered,
                AppError,
            >(Gathered { speakers: speakers@, isf, updates: update_views(updates@) }));
        }
        i = i + 1;
    }
    Ok(
        TrueHdFrame {
            sample_rate: rate,
            sample_count: unit.sample_length,
            channel_count: channels,
            samples,
            channel_speakers: speakers,
            isf,
            spatial_updates: updates,
        },
    )
}

/// What one turn of the decoder has come to.
pub enum Arrival {
    /// More bytes are needed.
    Starved,
    /// No frame could be cut out of the bytes.
    BrokenFrame { cause: String },
    /// A frame could not be parsed.
    BrokenUnit { cause: String },
    /// A parsed unit could not be decoded.
    BrokenPresentation { cause: String },
    /// The unit repeats the one before it.
    Duplicate,
    Unit { unit: DecodedUnit },
}

/// What follows from it.
pub enum Action {
    /// Read more bytes.
    Read,
    /// Take the next turn.
    Skip,
    /// Render a frame, then take the next turn.
    Deliver { frame: TrueHdFrame },
}

/// How many frames a stream has given, and how strict its reading is.
#[derive(Clone, Copy, Debug, PartialEq, Eq, Structural)]
pub struct StreamProgress {
    pub presentation: u8,
    pub relaxed: bool,
    pub frames: u64,
}

/// What is said of a turn that failed, where nothing is passed over.
pub open spec fn arrival_text(arrival: Arrival, presentation: u8) -> Seq<char> {
    match arrival {
        Arrival::BrokenFrame { cause } => "TrueHD frame extraction failed: "@ + cause@,
        Arrival::BrokenUnit { cause } => "TrueHD access-unit parsing failed: "@ + cause@,
        Arrival::BrokenPresentation { cause } => around(
            "TrueHD presentation "@,
            presentation as nat,
            " decoding failed: "@,
        ) + cause@,
        _ => seq![],
    }
}

/// Whether a turn failed outside the library.
pub open spec fn broken(arrival: Arrival) -> bool {
    arrival is BrokenFrame || arrival is BrokenUnit || arrival is BrokenPresentation
}

impl StreamProgress {
    pub fn new(presentation: u8, relaxed: bool) -> (r: Self)
        ensures
            r == (StreamProgress { presentation, relaxed, frames: 0 }),
    {
        StreamProgress { presentation, relaxed, frames: 0 }
    }

    /// Decides what follows from a turn: a failure is passed over in relaxed
    /// reading and ends strict reading, and a unit is converted.
    pub fn decide(&self, arrival: Arrival) -> (r: Result<Action, AppError>)
        ensures
            arrival is Starved ==> r is Ok && r->Ok_0 is Read,
            arrival is Duplicate ==> r is Ok && r->Ok_0 is Skip,
            broken(arrival) && self.relaxed ==> r is Ok && r->Ok_0 is Skip,
            broken(arrival) && !self.relaxed ==> r is Err && r->Err_0 is Render && r->Err_0.text()
                == arrival_text(arrival, self.presentation),
            arrival matches Arrival::Unit { unit } ==> (match converted(unit) {
                Err(e) => r == Err::<Action, AppError>(e),
                Ok(frame) => r is Ok && r->Ok_0 is Deliver && r->Ok_0->frame@ == frame,
            }),
    {
        let message: String = match arrival {
            Arrival::Starved => return Ok(Action::Read),
            Arrival::Duplicate => return Ok(Action::Skip),
            Arrival::Unit { unit } => {
                let frame = convert_frame(&unit)?;
                return Ok(Action::Deliver { frame });
            },
            Arrival::BrokenFrame { cause } => text_pair(
                "TrueHD frame extraction failed: ",
                cause.as_str(),
            ),
            Arrival::BrokenUnit { cause } => text_pair(
                "TrueHD access-unit parsing failed: ",
                cause.as_str(),
            ),
            Arrival::BrokenPresentation { cause } => {
                let mut text = text_around(
                    "TrueHD presentation ",
                    self.presentation as u64,
                    " decoding failed: ",
                );
                text.append(cause.as_str());
                text
            },
        };
        if self.relaxed {
            return Ok(Action::Skip);
        }
        Err(AppError::Render(Reason::Note(message)))
    }

    /// Counts a frame that was rendered.
    pub fn count_frame(&mut self) -> (r: Result<(), AppError>)
        ensures
            old(self).frames < u64::MAX ==> r is Ok && *final(self) == (StreamProgress {
                frames: (old(self).frames + 1) as u64,
                ..*old(self)
            }),
            old(self).frames == u64::MAX ==> r == failed::<()>(TrueHdFault::FrameCount)
                && *final(self) == *old(self),
    {
        match self.frames.checked_add(1) {
            None => fail(TrueHdFault::FrameCount),
            Some(frames) => {
                self.frames = frames;
                Ok(())
            },
        }
    }

    /// A stream that gave no frame at all has failed.
    pub fn finish(&self) -> (r: Result<(), AppError>)
        ensures
            self.frames == 0 ==> r == failed::<()>(TrueHdFault::NoFrames),
            self.frames > 0 ==> r is Ok,
    {
        if self.frames == 0 {
            return fail(TrueHdFault::NoFrames);
        }
        Ok(())
    }
}

proof fn lemma_isf_channels(
    payload: MetadataPayload,
    element: ObjectElement,
    beds: nat,
    block: usize,
    start: nat,
)
    requires
        start <= payload.isf_objects,
        beds + payload.isf_objects <= usize::MAX,
        isf_states(payload, element, beds, block, start) is Ok,
    ensures
        ({
            let list = isf_states(payload, element, beds, block, start)->Ok_0;
            &&& list.len() == payload.isf_objects - start
            &&& forall|i: int|
                0 <= i < list.len() ==> (#[trigger] list[i]).source_channel == beds + start + i
        }),
    decreases payload.isf_objects - start,
{
    if start < payload.isf_objects {
        lemma_isf_channels(payload, element, beds, block, start + 1);
    }
}

proof fn lemma_bed_channels(
    payload: MetadataPayload,
    element: ObjectElement,
    speakers: Seq<Speaker>,
    block: usize,
    start: nat,
)
    requires
        start <= speakers.len() <= usize::MAX,
        bed_states(payload, element, speakers, block, start) is Ok,
    ensures
        ({
            let list = bed_states(payload, element, speakers, block, start)->Ok_0;
            &&& list.len() == speakers.len() - start
            &&& forall|i: int|
                0 <= i < list.len() ==> (#[trigger] list[i]).source_channel == start + i
        }),
    decreases speakers.len() - start,
{
    if start < speakers.len() {
        lemma_bed_channels(payload, element, speakers, block, start + 1);
    }
}

proof fn lemma_dynamic_channels(
    payload: MetadataPayload,
    element: ObjectElement,
    beds: nat,
    block: usize,
    start: nat,
)
    requires
        start <= payload.dynamic_objects,
        beds + payload.isf_objects + payload.dynamic_objects <= usize::MAX,
        dynamic_states(payload, element, beds, block, start) is Ok,
    ensures
        ({
            let list = dynamic_states(payload, element, beds, block, start)->Ok_0;
            &&& list.len() == payload.dynamic_objects - start
            &&& forall|i: int|
                0 <= i < list.len() ==> (#[trigger] list[i]).source_channel == beds
                    + payload.isf_objects + start + i
        }),
    decreases payload.dynamic_objects - start,
{
    if start < payload.dynamic_objects {
        lemma_dynamic_channels(payload, element, beds, block, start + 1);
    }
}

/// In every update the beds take the first channels, the signals of the
/// intermediate spatial format the next, and the moving objects the rest.
pub proof fn law_beds_then_isf_then_objects(
    payload: MetadataPayload,
    element: ObjectElement,
    speakers: Seq<Speaker>,
    sample_rate: u32,
    block: usize,
)
    requires
        speakers.len() + payload.isf_objects + payload.dynamic_objects <= usize::MAX,
        block_update(payload, element, speakers, sample_rate, block) is Ok,
    ensures
        ({
            let update = block_update(payload, element, speakers, sample_rate, block)->Ok_0;
            let beds = speakers.len();
            &&& update.isf.len() == payload.isf_objects
            &&& update.objects.len() == beds + payload.dynamic_objects
            &&& forall|i: int|
                0 <= i < update.isf.len() ==> (#[trigger] update.isf[i]).source_channel == beds + i
            &&& forall|i: int|
                0 <= i < beds ==> (#[trigger] update.objects[i]).source_channel == i
            &&& forall|i: int|
                beds <= i < update.objects.len() ==> (#[trigger] update.objects[i]).source_channel
                    == payload.isf_objects + i
        }),
{
    let beds = speakers.len();
    lemma_isf_channels(payload, element, beds, block, 0);
    lemma_bed_channels(payload, element, speakers, block, 0);
    lemma_dynamic_channels(payload, element, beds, block, 0);
    let first = bed_states(payload, element, speakers, block, 0)->Ok_0;
    let rest = dynamic_states(payload, element, beds, block, 0)->Ok_0;
    let all = first + rest;
    assert forall|i: int| 0 <= i < beds implies (#[trigger] all[i]).source_channel == i by {
        assert(all[i] == first[i]);
    }
    assert forall|i: int| beds <= i < all.len() implies (#[trigger] all[i]).source_channel
        == payload.isf_objects + i by {
        assert(all[i] == rest[i - beds]);
    }
}

/// Bed indices count the speakers as the bits of a nonstandard bed mask do, and there
/// are no others.
pub proof fn law_bed_indices_count_like_mask_bits(index: usize)
    ensures
        bed_speaker(index) is Ok <==> index < 17,
        index < 17 ==> bed_speaker(index) == Ok::<Speaker, AppError>(
            nonstandard_labels()[index as int],
        ),
{
}

/// Every speaker has its labels: those of the screen, the sides and wides have one
/// for each hand, the labels between side and screen count as sides, those behind
/// as rear, and the two above the middle and both low-frequency ones are one.
pub proof fn law_speakers_have_their_labels(label: ChannelLabel)
    ensures
        label_speaker(label) is FrontLeft <==> label is L,
        label_speaker(label) is FrontRight <==> label is R,
        label_speaker(label) is FrontCenter <==> label is C,
        label_speaker(label) is Lfe <==> label is Lfe || label is Lfe2,
        label_speaker(label) is SideLeft <==> label is Ls || label is Lsc,
        label_speaker(label) is SideRight <==> label is Rs || label is Rsc,
        label_speaker(label) is RearLeft <==> label is Lb || label is Lsd,
        label_speaker(label) is RearRight <==> label is Rb || label is Rsd,
        label_speaker(label) is RearCenter <==> label is Cb,
        label_speaker(label) is WideLeft <==> label is Lw,
        label_speaker(label) is WideRight <==> label is Rw,
        label_speaker(label) is TopFrontLeft <==> label is Tfl,
        label_speaker(label) is TopFrontRight <==> label is Tfr,
        label_speaker(label) is TopSideLeft <==> label is Tsl,
        label_speaker(label) is TopSideRight <==> label is Tsr,
        label_speaker(label) is TopRearLeft <==> label is Tbl,
        label_speaker(label) is TopRearRight <==> label is Tbr,
        label_speaker(label) is TopFrontCenter <==> label is Tc || label is Tfc,
{
}

/// Every listed place is one of a set flag, and every set flag is listed, in order.
pub proof fn law_set_flags_are_listed_in_order(flags: Seq<bool>, count: nat, place: int)
    requires
        count <= flags.len() <= usize::MAX,
        0 <= place < count,
    ensures
        flags[place] <==> set_places(flags, count).contains(place as usize),
        forall|i: int, j: int|
            0 <= i < j < set_places(flags, count).len() ==> set_places(flags, count)[i]
                < set_places(flags, count)[j],
        forall|i: int|
            0 <= i < set_places(flags, count).len() ==> #[trigger] set_places(flags, count)[i]
                < count,
    decreases count,
{
    let before = set_places(flags, (count - 1) as nat);
    if count > 1 {
        law_set_flags_are_listed_in_order(
            flags,
            (count - 1) as nat,
            if place < count - 1 { place } else { 0 },
        );
    } else {
        reveal_with_fuel(set_places, 2);
    }
    if place < count - 1 {
        if before.contains(place as usize) {
            let i = choose|i: int| 0 <= i < before.len() && before[i] == place as usize;
            assert(set_places(flags, count)[i] == place as usize);
        }
    } else if flags[count - 1] {
        assert(set_places(flags, count).last() == place as usize);
    }
}

/// A number of samples keeps its duration at another rate, down to a sample, and is
/// the same at 48 kHz.
pub proof fn law_scaled_samples_keep_their_duration(samples: usize, sample_rate: u32)
    ensures
        scaled_samples(samples, sample_rate) matches Ok(scaled) ==> scaled * 48_000 <= samples
            * sample_rate < (scaled + 1) * 48_000,
        scaled_samples(samples, 48_000) == Ok::<usize, AppError>(samples),
        sample_rate <= 48_000 ==> scaled_samples(samples, sample_rate) is Ok,
{
    let product = samples * sample_rate;
    assert(product >= 0) by (nonlinear_arith)
        requires
            samples >= 0,
            sample_rate >= 0,
            product == samples * sample_rate,
    ;
    if sample_rate <= 48_000 {
        assert(product <= samples * 48_000) by (nonlinear_arith)
            requires
                samples >= 0,
                sample_rate <= 48_000,
                product == samples * sample_rate,
        ;
    }
}

proof fn lemma_isf_facts(
    payload: MetadataPayload,
    element: ObjectElement,
    beds: nat,
    block: usize,
    start: nat,
)
    requires
        start <= payload.isf_objects,
        beds + payload.isf_objects <= usize::MAX,
        isf_states(payload, element, beds, block, start) is Ok,
    ensures
        ({
            let list = isf_states(payload, element, beds, block, start)->Ok_0;
            &&& list.len() == payload.isf_objects - start
            &&& forall|i: int|
                0 <= i < list.len() ==> Ok::<IsfState, AppError>(#[trigger] list[i]) == isf_state(
                    payload,
                    element,
                    beds,
                    block,
                    (start + i) as usize,
                )
        }),
    decreases payload.isf_objects - start,
{
    if start < payload.isf_objects {
        lemma_isf_facts(payload, element, beds, block, start + 1);
        let list = isf_states(payload, element, beds, block, start)->Ok_0;
        let others = isf_states(payload, element, beds, block, start + 1)->Ok_0;
        assert forall|i: int| 0 <= i < list.len() implies Ok::<IsfState, AppError>(
            #[trigger] list[i],
        ) == isf_state(payload, element, beds, block, (start + i) as usize) by {
            if i > 0 {
                assert(list[i] == others[i - 1]);
            }
        }
    }
}

proof fn lemma_bed_facts(
    payload: MetadataPayload,
    element: ObjectElement,
    speakers: Seq<Speaker>,
    block: usize,
    start: nat,
)
    requires
        start <= speakers.len() <= usize::MAX,
        bed_states(payload, element, speakers, block, start) is Ok,
    ensures
        ({
            let list = bed_states(payload, element, speakers, block, start)->Ok_0;
            &&& list.len() == speakers.len() - start
            &&& forall|i: int|
                0 <= i < list.len() ==> Ok::<ObjectState, AppError>(#[trigger] list[i])
                    == bed_state(payload, element, speakers, block, (start + i) as usize)
        }),
    decreases speakers.len() - start,
{
    if start < speakers.len() {
        lemma_bed_facts(payload, element, speakers, block, start + 1);
        let list = bed_states(payload, element, speakers, block, start)->Ok_0;
        let others = bed_states(payload, element, speakers, block, start + 1)->Ok_0;
        assert forall|i: int| 0 <= i < list.len() implies Ok::<ObjectState, AppError>(
            #[trigger] list[i],
        ) == bed_state(payload, element, speakers, block, (start + i) as usize) by {
            if i > 0 {
                assert(list[i] == others[i - 1]);
            }
        }
    }
}

proof fn lemma_dynamic_facts(
    payload: MetadataPayload,
    element: ObjectElement,
    beds: nat,
    block: usize,
    start: nat,
)
    requires
        start <= payload.dynamic_objects,
        beds + payload.isf_objects + payload.dynamic_objects <= usize::MAX,
        dynamic_states(payload, element, beds, block, start) is Ok,
    ensures
        ({
            let list = dynamic_states(payload, element, beds, block, start)->Ok_0;
            &&& list.len() == payload.dynamic_objects - start
            &&& forall|i: int|
                0 <= i < list.len() ==> Ok::<ObjectState, AppError>(#[trigger] list[i])
                    == dynamic_state_of(payload, element, beds, block, (start + i) as usize)
        }),
    decreases payload.dynamic_objects - start,
{
    if start < payload.dynamic_objects {
        lemma_dynamic_facts(payload, element, beds, block, start + 1);
        let list = dynamic_states(payload, element, beds, block, start)->Ok_0;
        let others = dynamic_states(payload, element, beds, block, start + 1)->Ok_0;
        assert forall|i: int| 0 <= i < list.len() implies Ok::<ObjectState, AppError>(
            #[trigger] list[i],
        ) == dynamic_state_of(payload, element, beds, block, (start + i) as usize) by {
            if i > 0 {
                assert(list[i] == others[i - 1]);
            }
        }
    }
}

/// Whether a level of a state is what the metadata says: whole decibels, or silence
/// at the lowest.
pub open spec fn levels_agree(gain: Gain, coded: i8) -> bool {
    match gain {
        Gain::Silent => coded == i8::MIN,
        Gain::Decibels { db } => db == coded && db > i8::MIN,
    }
}

/// An update tells of every channel what the metadata says of it in that block:
/// whether it sounds, which is where it is not marked as not active, its level, and
/// for moving objects how they are placed and rendered. Beds stand at their
/// speakers, with no extent; an object that follows the screen never snaps.
pub proof fn law_updates_tell_what_the_metadata_says(
    payload: MetadataPayload,
    element: ObjectElement,
    speakers: Seq<Speaker>,
    sample_rate: u32,
    block: usize,
    channel: nat,
)
    requires
        speakers.len() + payload.isf_objects + payload.dynamic_objects <= usize::MAX,
        block_update(payload, element, speakers, sample_rate, block) is Ok,
        channel < speakers.len() + payload.isf_objects + payload.dynamic_objects,
    ensures
        ({
            let update = block_update(payload, element, speakers, sample_rate, block)->Ok_0;
            let beds = speakers.len();
            let isf = payload.isf_objects as nat;
            let info = element.objects@[channel as int]@[block as int];
            &&& channel < element.objects@.len() && block < element.objects@[channel as int]@.len()
            &&& update.bed_speakers == speakers
            &&& channel < beds ==> {
                let state = update.objects[channel as int];
                &&& state.active == !info.not_active
                &&& levels_agree(state.gain, info.gain)
                &&& state.bed_speaker == Some(speakers[channel as int])
                &&& state.position == (Placement::Speaker { speaker: speakers[channel as int] })
                &&& !state.snap && state.screen is None && state.distance is None
                &&& state.zone is All && state.elevation
                &&& Ok::<ObjectTrim, AppError>(state.trim) == trim_of(payload.trim, channel as usize)
            }
            &&& beds <= channel < beds + isf ==> {
                let state = update.isf[channel - beds];
                &&& state.active == !info.not_active
                &&& levels_agree(state.gain, info.gain)
                &&& state.source_channel == channel
                &&& Ok::<ObjectTrim, AppError>(state.trim) == trim_of(payload.trim, channel as usize)
            }
            &&& beds + isf <= channel ==> {
                let state = update.objects[channel - isf];
                &&& state.active == !info.not_active
                &&& levels_agree(state.gain, info.gain)
                &&& state.source_channel == channel
                &&& state.bed_speaker is None
                &&& state.snap == (info.snap && !info.follows_screen)
                &&& state.elevation == info.elevation
                &&& Some(state.zone) == ObjectZone::coded(info.zone_index as nat)
                &&& state.screen is Some <==> info.follows_screen
                &&& state.screen matches Some(anchor) ==> anchor.factor == (Scalar::Double {
                    bits: info.screen_factor,
                }) && anchor.depth == (Scalar::Double { bits: info.depth_factor })
                &&& state.distance is None <==> !info.distance_specified
                &&& state.distance matches Some(distance) ==> {
                    &&& distance is Infinite <==> info.at_infinity
                    &&& !info.at_infinity ==> info.distance_index < 16 && distance == (
                    Distance::Tenths { value: distance_tenths(info.distance_index as nat) })
                }
                &&& state.size.width == (Scalar::Double { bits: info.size@[0] })
                &&& state.size.depth == (Scalar::Double { bits: info.size@[1] })
                &&& state.size.height == (Scalar::Double { bits: info.size@[2] })
                &&& state.position matches Placement::Room { point, authored } && point == authored
                    && (channel < payload.positions@.len() && block
                    < payload.positions@[channel as int]@.len() ==> {
                    let place = payload.positions@[channel as int]@[block as int]@;
                    &&& point.x == (Scalar::Double { bits: place[0] })
                    &&& point.y == (Scalar::Double { bits: place[1] })
                    &&& point.z == (Scalar::Double { bits: place[2] })
                })
                &&& channel < payload.divergence@.len() && block
                    < payload.divergence@[channel as int]@.len() ==> {
                    let spread = payload.divergence@[channel as int]@[block as int];
                    &&& spread.present ==> state.divergence == (Scalar::Double {
                        bits: spread.bits,
                    })
                    &&& !spread.present ==> state.divergence == (Scalar::Ratio {
                        numerator: 0,
                        denominator: 1,
                    })
                }
                &&& Ok::<ObjectTrim, AppError>(state.trim) == trim_of(payload.trim, channel as usize)
            }
        }),
{
    let beds = speakers.len();
    let isf = payload.isf_objects as nat;
    let update = block_update(payload, element, speakers, sample_rate, block)->Ok_0;
    lemma_isf_facts(payload, element, beds, block, 0);
    lemma_bed_facts(payload, element, speakers, block, 0);
    lemma_dynamic_facts(payload, element, beds, block, 0);
    let first = bed_states(payload, element, speakers, block, 0)->Ok_0;
    let rest = dynamic_states(payload, element, beds, block, 0)->Ok_0;
    if channel < beds {
        assert(update.objects[channel as int] == first[channel as int]);
        assert(Ok::<ObjectState, AppError>(first[channel as int]) == bed_state(
            payload,
            element,
            speakers,
            block,
            channel as usize,
        ));
    } else if channel < beds + isf {
        let signal = channel - beds;
        assert(Ok::<IsfState, AppError>(update.isf[signal]) == isf_state(
            payload,
            element,
            beds,
            block,
            signal as usize,
        ));
    } else {
        let object = channel - beds - isf;
        assert(update.objects[channel - isf] == rest[object]);
        assert(Ok::<ObjectState, AppError>(rest[object]) == dynamic_state_of(
            payload,
            element,
            beds,
            block,
            object as usize,
        ));
    }
}

/// The updates of a payload are those of its blocks in order, and none is left out.
pub proof fn law_every_block_has_its_update(
    payload: MetadataPayload,
    element: ObjectElement,
    speakers: Seq<Speaker>,
    sample_rate: u32,
    start: nat,
    block: nat,
)
    requires
        start <= block < element.block_count,
        block_updates(payload, element, speakers, sample_rate, start) is Ok,
    ensures
        ({
            let updates = block_updates(payload, element, speakers, sample_rate, start)->Ok_0;
            &&& updates.len() == element.block_count - start
            &&& Ok::<UpdateView, AppError>(updates[block - start]) == block_update(
                payload,
                element,
                speakers,
                sample_rate,
                block as usize,
            )
        }),
    decreases element.block_count - start,
{
    let updates = block_updates(payload, element, speakers, sample_rate, start)->Ok_0;
    let others = block_updates(payload, element, speakers, sample_rate, start + 1)->Ok_0;
    if start + 1 < element.block_count {
        law_every_block_has_its_update(
            payload,
            element,
            speakers,
            sample_rate,
            start + 1,
            if block > start { block } else { start + 1 },
        );
        if block > start {
            assert(updates[block - start] == others[block - start - 1]);
        }
    } else {
        reveal_with_fuel(block_updates, 2);
    }
}

/// A block takes effect behind the offset of its payload, at the offset of its
/// element and 32 samples for each step of its own, counted at the rate of the
/// stream; at 48 kHz the samples are those coded. Its ramp is counted likewise.
pub proof fn law_blocks_take_effect_in_time(
    payload: MetadataPayload,
    element: ObjectElement,
    speakers: Seq<Speaker>,
    block: usize,
)
    requires
        block_update(payload, element, speakers, 48_000, block) is Ok,
    ensures
        ({
            let update = block_update(payload, element, speakers, 48_000, block)->Ok_0;
            let timing = element.timing@[block as int];
            &&& block < element.timing@.len()
            &&& update.sample_offset == payload.evolution_offset + element.sample_offset + 32
                * timing.offset_factor
            &&& update.ramp_samples == timing.ramp_duration
        }),
{
    let timing = element.timing@[block as int];
    law_scaled_samples_keep_their_duration(
        (element.sample_offset + timing.offset_factor * 32) as usize,
        48_000,
    );
    law_scaled_samples_keep_their_duration(timing.ramp_duration as usize, 48_000);
}

/// A trim without an element is the default one. Else the global mode disables it or
/// leaves it to the default algorithm for all layouts, or the layouts have their own
/// settings; an object that is marked has none. Reserved modes are refused.
pub proof fn law_trims_follow_their_element(element: TrimElement, object: usize, layout: nat)
    requires
        layout < 9,
    ensures
        trim_of(None, object) matches Ok(trim) && trim.in_force(layout).mode is Default
            && !trim.warp_y,
        element.warp_mode > 1 || element.global_mode == 3 ==> trim_of(Some(element), object) is Err,
        trim_of(Some(element), object) matches Ok(trim) ==> {
            let marked = element.per_object && element.disabled@[object as int];
            &&& trim.warp_y <==> element.warp_mode == 1
            &&& marked || element.global_mode == 1 ==> trim.in_force(layout).mode is Disabled
            &&& !marked && element.global_mode == 0 ==> trim.in_force(layout).mode is Default
            &&& !marked && element.global_mode > 1 ==> Ok::<ObjectTrimSettings, AppError>(
                trim.in_force(layout),
            ) == coded_settings(element.configurations@[layout as int])
        },
        element.per_object && object >= element.disabled@.len() ==> trim_of(
            Some(element),
            object,
        ) is Err,
{
    assert(element.configurations@.len() == 9);
    if settings_from(element.configurations@, 0) is Ok {
        lemma_settings_facts(element.configurations@, 0);
    }
}

proof fn lemma_settings_facts(list: Seq<Option<CodedTrim>>, start: nat)
    requires
        start <= list.len(),
        settings_from(list, start) is Ok,
    ensures
        ({
            let settings = settings_from(list, start)->Ok_0;
            &&& settings.len() == list.len() - start
            &&& forall|i: int|
                0 <= i < settings.len() ==> Ok::<ObjectTrimSettings, AppError>(
                    #[trigger] settings[i],
                ) == coded_settings(list[start + i])
        }),
    decreases list.len() - start,
{
    if start < list.len() {
        lemma_settings_facts(list, start + 1);
        let settings = settings_from(list, start)->Ok_0;
        let others = settings_from(list, start + 1)->Ok_0;
        assert forall|i: int| 0 <= i < settings.len() implies Ok::<ObjectTrimSettings, AppError>(
            #[trigger] settings[i],
        ) == coded_settings(list[start + i]) by {
            if i > 0 {
                assert(settings[i] == others[i - 1]);
            }
        }
    }
}

/// The settings of a layout are the default ones where none are coded or a bit says
/// so, none where another says so, and else those coded, each in its own field and
/// zero where it is absent. A surround or height level above minus three quarters
/// is refused: a positive one, or a negative one whose magnitude is less.
pub proof fn law_coded_trims_keep_their_levels(trim: CodedTrim)
    ensures
        coded_settings(None) matches Ok(settings) && settings.mode is Default,
        trim.use_default ==> coded_settings(Some(trim)) == coded_settings(None),
        !trim.use_default && trim.disabled ==> (coded_settings(Some(trim)) matches Ok(settings)
            && settings.mode is Disabled),
        !trim.use_default && !trim.disabled ==> {
            let zero = Scalar::Ratio { numerator: 0, denominator: 1 };
            let r = coded_settings(Some(trim));
            &&& trim.surround is None && trim.height is None ==> r is Ok
            &&& (trim.surround matches Some(bits) && bits < 0x7ff0_0000_0000_0000) ==> r is Err
            &&& (trim.height matches Some(bits) && bits < 0x7ff0_0000_0000_0000) ==> r is Err
            &&& (trim.surround matches Some(bits) && 0x8000_0000_0000_0000 <= bits
                < 0xbfe8_0000_0000_0000) ==> r is Err
            &&& trim.surround == Some(0xbfe8_0000_0000_0000u64) && trim.height is None ==> r is Ok
            &&& r matches Ok(settings) ==> {
                &&& settings.mode is Custom
                &&& settings.center_db == (match trim.center {
                    None => zero,
                    Some(bits) => Scalar::Double { bits },
                })
                &&& settings.surround_db == (match trim.surround {
                    None => zero,
                    Some(bits) => Scalar::Double { bits },
                })
                &&& settings.height_db == (match trim.height {
                    None => zero,
                    Some(bits) => Scalar::Double { bits },
                })
                &&& settings.top_bottom_balance == (match trim.top_bottom {
                    None => zero,
                    Some(bits) => Scalar::Double { bits },
                })
                &&& settings.listener_balance == (match trim.listener {
                    None => zero,
                    Some(bits) => Scalar::Double { bits },
                })
            }
        },
{
}

/// A payload names the speakers of the first channels, and leaves the others; it says
/// where the signals of the intermediate spatial format stand, which is behind the
/// beds; and its updates follow those that came before it.
pub proof fn law_payloads_add_to_what_is_known(
    known: Gathered,
    payload: MetadataPayload,
    channels: usize,
    sample_rate: u32,
    channel: int,
)
    requires
        with_payload(known, payload, channels, sample_rate) is Ok,
        0 <= channel < known.speakers.len(),
    ensures
        ({
            let next = with_payload(known, payload, channels, sample_rate)->Ok_0;
            let updates = payload_updates(payload, channels, sample_rate)->Ok_0;
            &&& next.speakers.len() == known.speakers.len()
            &&& next.updates == known.updates + updates
            &&& updates.len() > 0 && channel < updates[0].bed_speakers.len()
                ==> next.speakers[channel] == Some(updates[0].bed_speakers[channel])
            &&& updates.len() > 0 && channel >= updates[0].bed_speakers.len()
                ==> next.speakers[channel] == known.speakers[channel]
            &&& payload.isf_objects == 0 ==> next.isf == known.isf
            &&& payload.isf_objects > 0 ==> (next.isf matches Some(isf) && isf.start_channel
                == payload.bed_objects && isf.channel_count == payload.isf_objects
                && isf.start_channel + isf.channel_count <= channels)
            &&& payload.isf_objects > 0 && known.isf is Some ==> next.isf == known.isf
        }),
{
}

/// The channels of a unit have the speakers of their labels; those behind the labels have
/// none.
pub proof fn law_channels_have_the_speakers_of_their_labels(
    labels: Seq<ChannelLabel>,
    count: nat,
    channel: int,
)
    requires
        0 <= channel < count,
    ensures
        labelled(labels, count).len() == count,
        labelled(labels, count)[channel] is Some <==> channel < labels.len(),
        channel < labels.len() ==> labelled(labels, count)[channel] == Some(
            label_speaker(labels[channel]),
        ),
{
}

/// Payloads are gathered one behind the other: what some of them give is what the others
/// are added to.
pub proof fn law_payloads_are_gathered_in_their_order(
    known: Gathered,
    payloads: Seq<MetadataPayload>,
    channels: usize,
    sample_rate: u32,
    start: nat,
    end: nat,
)
    requires
        start <= end <= payloads.len(),
    ensures
        ({
            let part = gathered_from(known, payloads.take(end as int), channels, sample_rate, start);
            let whole = gathered_from(known, payloads, channels, sample_rate, start);
            whole == (match part {
                Err(e) => Err(e),
                Ok(next) => gathered_from(next, payloads, channels, sample_rate, end),
            })
        }),
    decreases end - start,
{
    if start < end {
        assert(payloads.take(end as int)[start as int] == payloads[start as int]);
        match with_payload(known, payloads[start as int], channels, sample_rate) {
            Err(_) => {},
            Ok(next) => {
                law_payloads_are_gathered_in_their_order(
                    next,
                    payloads,
                    channels,
                    sample_rate,
                    start + 1,
                    end,
                );
            },
        }
    }
}

/// A unit becomes a frame of its own rate, length and channels, with its samples and with
/// what its payloads give; without payloads it is accepted exactly where it has a rate and
/// one to sixteen channels, and a row for every sample.
pub proof fn law_units_become_frames_of_their_size(unit: DecodedUnit)
    ensures
        converted(unit) matches Ok(frame) ==> {
            &&& frame.sample_rate == unit.sampling_frequency > 0
            &&& frame.sample_count == unit.sample_length <= unit.pcm@.len()
            &&& frame.channel_count == unit.channel_count
            &&& 1 <= frame.channel_count <= 16
            &&& frame.samples == interleaved(
                unit.pcm@,
                unit.channel_count as nat,
                unit.sample_length as nat,
            )
        },
        unit.payloads@.len() == 0 ==> (converted(unit) is Ok <==> unit.sampling_frequency > 0 && 1
            <= unit.channel_count <= 16 && unit.sample_length <= unit.pcm@.len()),
        unit.payloads@.len() == 0 ==> (converted(unit) matches Ok(frame)
            ==> frame.channel_speakers == labelled(unit.labels@, unit.channel_count as nat)
            && frame.isf is None && frame.spatial_updates.len() == 0),
{
}

/// Every bed index gives the speaker that it stands for, in the order of the indices; and
/// where all of them stand for one, none is refused.
pub proof fn law_every_bed_index_gives_its_speaker(list: Seq<usize>, start: nat)
    requires
        start <= list.len(),
    ensures
        match speakers_from(list, start) {
            Ok(speakers) => {
                &&& speakers.len() == list.len() - start
                &&& forall|i: int|
                    0 <= i < speakers.len() ==> bed_speaker(list[start + i]) == Ok::<
                        Speaker,
                        AppError,
                    >(#[trigger] speakers[i])
            },
            Err(e) => exists|i: int|
                start <= i < list.len() && bed_speaker(#[trigger] list[i]) == Err::<
                    Speaker,
                    AppError,
                >(e),
        },
    decreases list.len() - start,
{
    if start < list.len() {
        law_every_bed_index_gives_its_speaker(list, start + 1);
        match bed_speaker(list[start as int]) {
            Err(e) => {
                assert(bed_speaker(list[start as int]) == Err::<Speaker, AppError>(e));
            },
            Ok(speaker) => match speakers_from(list, start + 1) {
                Err(e) => {
                    let i = choose|i: int|
                        start + 1 <= i < list.len() && bed_speaker(#[trigger] list[i]) == Err::<
                            Speaker,
                            AppError,
                        >(e);
                    assert(bed_speaker(list[i]) == Err::<Speaker, AppError>(e));
                },
                Ok(others) => {
                    let speakers = seq![speaker] + others;
                    assert forall|i: int| 0 <= i < speakers.len() implies bed_speaker(
                        list[start + i],
                    ) == Ok::<Speaker, AppError>(#[trigger] speakers[i]) by {
                        if i > 0 {
                            assert(speakers[i] == others[i - 1]);
                            assert(list[(start + 1) + (i - 1)] == list[start + i]);
                        }
                    }
                },
            },
        }
    }
}

/// A turn has failed exactly where it neither waits for bytes nor brings a unit, whether
/// new or again.
pub proof fn law_turns_that_bring_nothing_have_failed(arrival: Arrival)
    ensures
        broken(arrival) <==> !(arrival is Starved || arrival is Duplicate || arrival is Unit),
{
}

} // verus!
