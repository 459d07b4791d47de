//! Object programs in E-AC-3: frames are put together, their metadata is
//! decoded, and reconstructed objects are brought back in step with the source.
//!
//! Samples stand as the bit patterns of IEEE 754 singles.

use crate::eac3::{Eac3Frame, MetadataPayload, StreamType, SyncFrameHeader};
use crate::error::{AppError, Reason};
use crate::isf::IsfConfig;
use crate::joc::{
    DownmixConfiguration, JocDecoder, JocFrame, JocTables, SideInfo, JOC_PAYLOAD_ID,
};
use crate::oamd::{
    lfe_indices, ObjectProperties, OamdDecoder, OamdFrame, Program, OAMD_PAYLOAD_ID,
};
use crate::qmf::RECONSTRUCTION_DELAY;
use crate::render::{
    all_finite, channel_views, deinterleave, finite_sample, pcm_words, planar, sample_words,
};
use crate::speaker::{find_speaker, speaker_place, Speaker};
use crate::text::{decimal, digits};
use std::collections::VecDeque;
use vstd::prelude::*;

verus! {

/// A malformed or unsupported object program in E-AC-3.
#[derive(Clone, Copy, Debug, PartialEq, Eq, Structural)]
pub enum AtmosFault {
    NoChannelCount,
    UnknownRate { hrir: u32 },
    StreamRate { rate: u32, hrir: u32 },
    FrameRate { rate: u32, hrir: u32 },
    SecondProgram,
    StartsDependent,
    Misaligned,
    DifferentTiming,
    NoOamd,
    MultipleOamd,
    NoJoc,
    MultipleJoc,
    Essences { oamd: usize, joc: usize },
    ObjectCountChanges,
    IsfChanges,
    LfeChanges,
    DecodedSamples,
    DecodedBytes,
    PcmEnded,
    NonFinite,
    SampleCount,
    MappingSize,
    LfeDisagreement,
    UnequalObjects,
    LfeBehind,
    NoFrames,
    LfeLeft { count: usize },
    ExtraPcm,
    MissingLeft,
    MissingRight,
    MissingCenter,
    MissingSurroundLeft,
    MissingSurroundRight,
    MissingRearLeft,
    MissingRearRight,
    MissingTopLeft,
    MissingTopRight,
    IndistinctChannels,
}

impl AtmosFault {
    pub open spec fn text(self) -> Seq<char> {
        match self {
            AtmosFault::NoChannelCount => "selected E-AC-3 stream has no channel count"@,
            AtmosFault::UnknownRate { hrir } => "DD+/Atmos sample rate unknown does not match HRIR sample rate "@
                + digits(hrir as nat)
                + "; object-domain resampling is not implemented yet"@,
            AtmosFault::StreamRate { rate, hrir } => "DD+/Atmos sample rate "@
                + digits(rate as nat)
                + " does not match HRIR sample rate "@
                + digits(hrir as nat)
                + "; object-domain resampling is not implemented yet"@,
            AtmosFault::FrameRate { rate, hrir } => "E-AC-3 frame sample rate "@
                + digits(rate as nat)
                + " does not match HRIR sample rate "@
                + digits(hrir as nat),
            AtmosFault::SecondProgram => {
                "invalid DD+/Atmos stream: selected E-AC-3 stream contains a second independent program"@
            },
            AtmosFault::StartsDependent => {
                "invalid DD+/Atmos stream: E-AC-3 elementary stream starts with a dependent substream"@
            },
            AtmosFault::Misaligned => {
                "invalid DD+/Atmos stream: dependent E-AC-3 substream is not aligned with its primary frame"@
            },
            AtmosFault::DifferentTiming => {
                "invalid DD+/Atmos stream: dependent E-AC-3 substream has different timing from its primary frame"@
            },
            AtmosFault::NoOamd => {
                "invalid DD+/Atmos stream: E-AC-3 Atmos frame has no OAMD payload"@
            },
            AtmosFault::MultipleOamd => {
                "invalid DD+/Atmos stream: E-AC-3 Atmos frame has multiple OAMD payloads"@
            },
            AtmosFault::NoJoc => "invalid DD+/Atmos stream: E-AC-3 Atmos frame has no JOC payload"@,
            AtmosFault::MultipleJoc => {
                "invalid DD+/Atmos stream: E-AC-3 Atmos frame has multiple JOC payloads"@
            },
            AtmosFault::Essences { oamd, joc } => "invalid DD+/Atmos stream: OAMD describes "@
                + digits(oamd as nat)
                + " JOC essences, JOC reconstructs "@
                + digits(joc as nat),
            AtmosFault::ObjectCountChanges => "OAMD object count changes within the stream"@,
            AtmosFault::IsfChanges => "OAMD ISF configuration changes within the stream"@,
            AtmosFault::LfeChanges => "OAMD LFE assignment changes within the stream"@,
            AtmosFault::DecodedSamples => {
                "invalid DD+/Atmos stream: decoded E-AC-3 sample count overflowed"@
            },
            AtmosFault::DecodedBytes => {
                "invalid DD+/Atmos stream: decoded E-AC-3 byte count overflowed"@
            },
            AtmosFault::PcmEnded => {
                "invalid DD+/Atmos stream: FFmpeg PCM ended before the E-AC-3 frame timeline"@
            },
            AtmosFault::NonFinite => {
                "invalid DD+/Atmos stream: FFmpeg decoded non-finite E-AC-3 PCM"@
            },
            AtmosFault::SampleCount => "invalid DD+/Atmos stream: E-AC-3 sample count overflowed"@,
            AtmosFault::MappingSize => {
                "invalid DD+/Atmos stream: JOC input-channel mapping has the wrong size"@
            },
            AtmosFault::LfeDisagreement => {
                "invalid DD+/Atmos stream: OAMD and the decoded E-AC-3 layout disagree about LFE presence"@
            },
            AtmosFault::UnequalObjects => {
                "invalid DD+/Atmos stream: QMF reconstruction returned unequal object lengths"@
            },
            AtmosFault::LfeBehind => {
                "invalid DD+/Atmos stream: LFE bypass fell behind reconstructed objects"@
            },
            AtmosFault::NoFrames => {
                "invalid DD+/Atmos stream: E-AC-3 stream contains no complete Atmos frames"@
            },
            AtmosFault::LfeLeft { count } => "invalid DD+/Atmos stream: "@
                + digits(count as nat)
                + " unconsumed LFE samples remain after QMF alignment"@,
            AtmosFault::ExtraPcm => {
                "invalid DD+/Atmos stream: FFmpeg decoded more PCM samples than the E-AC-3 frame timeline"@
            },
            AtmosFault::MissingLeft => "decoded E-AC-3 layout is missing JOC channel FrontLeft"@,
            AtmosFault::MissingRight => "decoded E-AC-3 layout is missing JOC channel FrontRight"@,
            AtmosFault::MissingCenter => {
                "decoded E-AC-3 layout is missing JOC channel FrontCenter"@
            },
            AtmosFault::MissingSurroundLeft => {
                "decoded E-AC-3 layout is missing JOC channel SideLeft/RearLeft"@
            },
            AtmosFault::MissingSurroundRight => {
                "decoded E-AC-3 layout is missing JOC channel SideRight/RearRight"@
            },
            AtmosFault::MissingRearLeft => "decoded E-AC-3 layout is missing JOC channel RearLeft"@,
            AtmosFault::MissingRearRight => {
                "decoded E-AC-3 layout is missing JOC channel RearRight"@
            },
            AtmosFault::MissingTopLeft => {
                "decoded E-AC-3 layout is missing JOC channel TopFrontLeft"@
            },
            AtmosFault::MissingTopRight => {
                "decoded E-AC-3 layout is missing JOC channel TopFrontRight"@
            },
            AtmosFault::IndistinctChannels => {
                "decoded E-AC-3 layout cannot provide distinct JOC input channels"@
            },
        }
    }

    pub fn message(&self) -> (r: String)
        ensures
            r@ == self.text(),
    {
        match self {
            AtmosFault::NoChannelCount => String::from_str(
                "selected E-AC-3 stream has no channel count",
            ),
            AtmosFault::UnknownRate { hrir } => {
                let mut text = String::from_str("DD+/Atmos sample rate unknown does not match HRIR sample rate ");
                text.append(decimal(*hrir as u64).as_str());
                text.append("; object-domain resampling is not implemented yet");
                text
            },
            AtmosFault::StreamRate { rate, hrir } => {
                let mut text = String::from_str("DD+/Atmos sample rate ");
                text.append(decimal(*rate as u64).as_str());
                text.append(" does not match HRIR sample rate ");
                text.append(decimal(*hrir as u64).as_str());
                text.append("; object-domain resampling is not implemented yet");
                text
            },
            AtmosFault::FrameRate { rate, hrir } => {
                let mut text = String::from_str("E-AC-3 frame sample rate ");
                text.append(decimal(*rate as u64).as_str());
                text.append(" does not match HRIR sample rate ");
                text.append(decimal(*hrir as u64).as_str());
                text
            },
            AtmosFault::SecondProgram => String::from_str(
                "invalid DD+/Atmos stream: selected E-AC-3 stream contains a second independent program",
            ),
            AtmosFault::StartsDependent => String::from_str(
                "invalid DD+/Atmos stream: E-AC-3 elementary stream starts with a dependent substream",
            ),
            AtmosFault::Misaligned => String::from_str(
                "invalid DD+/Atmos stream: dependent E-AC-3 substream is not aligned with its primary frame",
            ),
            AtmosFault::DifferentTiming => String::from_str(
                "invalid DD+/Atmos stream: dependent E-AC-3 substream has different timing from its primary frame",
            ),
            AtmosFault::NoOamd => String::from_str(
                "invalid DD+/Atmos stream: E-AC-3 Atmos frame has no OAMD payload",
            ),
            AtmosFault::MultipleOamd => String::from_str(
                "invalid DD+/Atmos stream: E-AC-3 Atmos frame has multiple OAMD payloads",
            ),
            AtmosFault::NoJoc => String::from_str(
                "invalid DD+/Atmos stream: E-AC-3 Atmos frame has no JOC payload",
            ),
            AtmosFault::MultipleJoc => String::from_str(
                "invalid DD+/Atmos stream: E-AC-3 Atmos frame has multiple JOC payloads",
            ),
            AtmosFault::Essences { oamd, joc } => {
                let mut text = String::from_str("invalid DD+/Atmos stream: OAMD describes ");
                text.append(decimal(*oamd as u64).as_str());
                text.append(" JOC essences, JOC reconstructs ");
                text.append(decimal(*joc as u64).as_str());
                text
            },
            AtmosFault::ObjectCountChanges => String::from_str(
                "OAMD object count changes within the stream",
            ),
            AtmosFault::IsfChanges => String::from_str(
                "OAMD ISF configuration changes within the stream",
            ),
            AtmosFault::LfeChanges => String::from_str(
                "OAMD LFE assignment changes within the stream",
            ),
            AtmosFault::DecodedSamples => String::from_str(
                "invalid DD+/Atmos stream: decoded E-AC-3 sample count overflowed",
            ),
            AtmosFault::DecodedBytes => String::from_str(
                "invalid DD+/Atmos stream: decoded E-AC-3 byte count overflowed",
            ),
            AtmosFault::PcmEnded => String::from_str(
                "invalid DD+/Atmos stream: FFmpeg PCM ended before the E-AC-3 frame timeline",
            ),
            AtmosFault::NonFinite => String::from_str(
                "invalid DD+/Atmos stream: FFmpeg decoded non-finite E-AC-3 PCM",
            ),
            AtmosFault::SampleCount => String::from_str(
                "invalid DD+/Atmos stream: E-AC-3 sample count overflowed",
            ),
            AtmosFault::MappingSize => String::from_str(
                "invalid DD+/Atmos stream: JOC input-channel mapping has the wrong size",
            ),
            AtmosFault::LfeDisagreement => String::from_str(
                "invalid DD+/Atmos stream: OAMD and the decoded E-AC-3 layout disagree about LFE presence",
            ),
            AtmosFault::UnequalObjects => String::from_str(
                "invalid DD+/Atmos stream: QMF reconstruction returned unequal object lengths",
            ),
            AtmosFault::LfeBehind => String::from_str(
                "invalid DD+/Atmos stream: LFE bypass fell behind reconstructed objects",
            ),
            AtmosFault::NoFrames => String::from_str(
                "invalid DD+/Atmos stream: E-AC-3 stream contains no complete Atmos frames",
            ),
            AtmosFault::LfeLeft { count } => {
                let mut text = String::from_str("invalid DD+/Atmos stream: ");
                text.append(decimal(*count as u64).as_str());
                text.append(" unconsumed LFE samples remain after QMF alignment");
                text
            },
            AtmosFault::ExtraPcm => String::from_str(
                "invalid DD+/Atmos stream: FFmpeg decoded more PCM samples than the E-AC-3 frame timeline",
            ),
            AtmosFault::MissingLeft => String::from_str(
                "decoded E-AC-3 layout is missing JOC channel FrontLeft",
            ),
            AtmosFault::MissingRight => String::from_str(
                "decoded E-AC-3 layout is missing JOC channel FrontRight",
            ),
            AtmosFault::MissingCenter => String::from_str(
                "decoded E-AC-3 layout is missing JOC channel FrontCenter",
            ),
            AtmosFault::MissingSurroundLeft => String::from_str(
                "decoded E-AC-3 layout is missing JOC channel SideLeft/RearLeft",
            ),
            AtmosFault::MissingSurroundRight => String::from_str(
                "decoded E-AC-3 layout is missing JOC channel SideRight/RearRight",
            ),
            AtmosFault::MissingRearLeft => String::from_str(
                "decoded E-AC-3 layout is missing JOC channel RearLeft",
            ),
            AtmosFault::MissingRearRight => String::from_str(
                "decoded E-AC-3 layout is missing JOC channel RearRight",
            ),
            AtmosFault::MissingTopLeft => String::from_str(
                "decoded E-AC-3 layout is missing JOC channel TopFrontLeft",
            ),
            AtmosFault::MissingTopRight => String::from_str(
                "decoded E-AC-3 layout is missing JOC channel TopFrontRight",
            ),
            AtmosFault::IndistinctChannels => String::from_str(
                "decoded E-AC-3 layout cannot provide distinct JOC input channels",
            ),
        }
    }
}

/// How many timeslots of silence are added at a time to bring out the last
/// samples.
pub const FLUSH_TIMESLOTS: usize = 24;

/// A failure to render.
pub open spec fn failed<T>(fault: AtmosFault) -> Result<T, AppError> {
    Err(AppError::Render(Reason::Atmos(fault)))
}

/// An input that is not supported.
pub open spec fn unsupported<T>(fault: AtmosFault) -> Result<T, AppError> {
    Err(AppError::UnsupportedInput(Reason::Atmos(fault)))
}

fn fail<T>(fault: AtmosFault) -> (r: Result<T, AppError>)
    ensures
        r == failed::<T>(fault),
{
    Err(AppError::Render(Reason::Atmos(fault)))
}

fn refuse<T>(fault: AtmosFault) -> (r: Result<T, AppError>)
    ensures
        r == unsupported::<T>(fault),
{
    Err(AppError::UnsupportedInput(Reason::Atmos(fault)))
}

/// Whether every payload of a list is a proper one.
pub open spec fn proper_payloads(payloads: Seq<MetadataPayload>) -> bool {
    forall|i: int| 0 <= i < payloads.len() ==> (#[trigger] payloads[i])@.wf()
}

/// One program of a stream: its primary frame with the payloads of all
/// substreams.
pub struct ProgramFrame {
    pub header: SyncFrameHeader,
    pub sample_start: u64,
    pub payloads: Vec<MetadataPayload>,
}

impl ProgramFrame {
    pub fn new(frame: Eac3Frame) -> (r: Self)
        ensures
            r.header == frame.header,
            r.sample_start == frame.sample_start,
            r.payloads == frame.payloads,
    {
        ProgramFrame {
            header: frame.header,
            sample_start: frame.sample_start,
            payloads: frame.payloads,
        }
    }

    /// What keeps a dependent frame from joining.
    pub open spec fn dependent_fault(self, frame: Eac3Frame) -> Option<AtmosFault> {
        if frame.sample_start != self.sample_start {
            Some(AtmosFault::Misaligned)
        } else if frame.header.sample_rate != self.header.sample_rate || frame.header.blocks
            != self.header.blocks {
            Some(AtmosFault::DifferentTiming)
        } else {
            None
        }
    }

    /// Adds the payloads of a dependent frame of the same time.
    pub fn add_dependent(&mut self, frame: Eac3Frame) -> (r: Result<(), AppError>)
        ensures
            final(self).header == old(self).header,
            final(self).sample_start == old(self).sample_start,
            match old(self).dependent_fault(frame) {
                Some(fault) => r == failed::<()>(fault) && final(self).payloads == old(
                    self,
                ).payloads,
                None => r is Ok && final(self).payloads@ == old(self).payloads@ + frame.payloads@,
            },
    {
        if frame.sample_start != self.sample_start {
            return fail(AtmosFault::Misaligned);
        }
        if frame.header.sample_rate != self.header.sample_rate || frame.header.blocks
            != self.header.blocks {
            return fail(AtmosFault::DifferentTiming);
        }
        let mut added = frame.payloads;
        self.payloads.append(&mut added);
        Ok(())
    }
}

/// Puts the frames of a stream together into programs.
pub struct ProgramAssembler {
    pub pending: Option<ProgramFrame>,
}

/// Whether a frame begins a new program.
pub open spec fn primary(header: SyncFrameHeader) -> bool {
    header.stream_type is Independent && header.substream_id == 0
}

impl ProgramAssembler {
    pub fn new() -> (r: Self)
        ensures
            r.pending is None,
    {
        ProgramAssembler { pending: None }
    }

    /// Takes the next frame. A primary frame brings out the program before it;
    /// a dependent one joins the program at hand.
    pub fn accept(&mut self, frame: Eac3Frame) -> (r: Result<Option<ProgramFrame>, AppError>)
        ensures
            primary(frame.header) ==> {
                &&& r == Ok::<Option<ProgramFrame>, AppError>(old(self).pending)
                &&& final(self).pending is Some
                &&& final(self).pending->0.header == frame.header
                &&& final(self).pending->0.sample_start == frame.sample_start
                &&& final(self).pending->0.payloads == frame.payloads
            },
            !primary(frame.header) && !(frame.header.stream_type is Dependent) ==> r == failed::<
                Option<ProgramFrame>,
            >(AtmosFault::SecondProgram) && *final(self) == *old(self),
            frame.header.stream_type is Dependent && old(self).pending is None ==> r == failed::<
                Option<ProgramFrame>,
            >(AtmosFault::StartsDependent) && *final(self) == *old(self),
            frame.header.stream_type is Dependent && old(self).pending is Some ==> {
                let program = old(self).pending->0;
                match program.dependent_fault(frame) {
                    Some(fault) => r == failed::<Option<ProgramFrame>>(fault) && *final(self)
                        == *old(self),
                    None => {
                        &&& r == Ok::<Option<ProgramFrame>, AppError>(None)
                        &&& final(self).pending is Some
                        &&& final(self).pending->0.header == program.header
                        &&& final(self).pending->0.sample_start == program.sample_start
                        &&& final(self).pending->0.payloads@ == program.payloads@ + frame.payloads@
                    },
                }
            },
    {
        if matches!(frame.header.stream_type, StreamType::Independent)
            && frame.header.substream_id == 0 {
            let finished = self.pending.take();
            self.pending = Some(ProgramFrame::new(frame));
            return Ok(finished);
        }
        if !matches!(frame.header.stream_type, StreamType::Dependent) {
            return fail(AtmosFault::SecondProgram);
        }
        match self.pending.take() {
            None => fail(AtmosFault::StartsDependent),
            Some(program) => {
                let mut grown = program;
                let outcome = grown.add_dependent(frame);
                self.pending = Some(grown);
                match outcome {
                    Err(e) => Err(e),
                    Ok(_) => Ok(None),
                }
            },
        }
    }

    /// Brings out the last program.
    pub fn finish(self) -> (r: Option<ProgramFrame>)
        ensures
            r == self.pending,
    {
        self.pending
    }
}

/// The first payload with an identifier, from a place on.
pub open spec fn payload_place(payloads: Seq<MetadataPayload>, id: u32, start: nat) -> Option<nat>
    decreases payloads.len() - start,
{
    if start >= payloads.len() {
        None
    } else if payloads[start as int].id == id {
        Some(start)
    } else {
        payload_place(payloads, id, start + 1)
    }
}

/// The place of the only payload with an identifier.
pub open spec fn only_payload(
    payloads: Seq<MetadataPayload>,
    id: u32,
    none: AtmosFault,
    many: AtmosFault,
) -> Result<usize, AppError> {
    match payload_place(payloads, id, 0) {
        None => failed(none),
        Some(place) => if payload_place(payloads, id, place + 1) is Some {
            failed(many)
        } else {
            Ok(place as usize)
        },
    }
}

fn find_payload(payloads: &[MetadataPayload], id: u32, start: usize) -> (r: Option<usize>)
    ensures
        match payload_place(payloads@, id, start as nat) {
            None => r is None,
            Some(place) => r is Some && r->0 == place && r->0 < payloads@.len(),
        },
{
    let mut i: usize = start;
    while i < payloads.len()
        invariant
            start <= i,
            payload_place(payloads@, id, start as nat) == payload_place(payloads@, id, i as nat),
        decreases payloads@.len() - i,
    {
        if payloads[i].id == id {
            return Some(i);
        }
        i = i + 1;
    }
    None
}

/// Finds the only payload with an identifier.
pub fn exactly_one_payload(
    payloads: &[MetadataPayload],
    id: u32,
    none: AtmosFault,
    many: AtmosFault,
) -> (r: Result<usize, AppError>)
    ensures
        r == only_payload(payloads@, id, none, many),
        r is Ok ==> r->Ok_0 < payloads@.len() && payloads@[r->Ok_0 as int].id == id,
{
    match find_payload(payloads, id, 0) {
        None => fail(none),
        Some(place) => {
            assert(payloads.len() <= usize::MAX);
            proof {
                lemma_payload_found(payloads@, id, 0);
            }
            if find_payload(payloads, id, place + 1).is_some() {
                return fail(many);
            }
            Ok(place)
        },
    }
}

proof fn lemma_payload_found(payloads: Seq<MetadataPayload>, id: u32, start: nat)
    requires
        payload_place(payloads, id, start) is Some,
    ensures
        payloads[payload_place(payloads, id, start)->0 as int].id == id,
    decreases payloads.len() - start,
{
    if payloads[start as int].id != id {
        lemma_payload_found(payloads, id, start + 1);
    }
}

/// The place of the first of two speakers that is there.
pub open spec fn either_place(
    speakers: Seq<Speaker>,
    first: Speaker,
    second: Speaker,
    fault: AtmosFault,
) -> Result<usize, AppError> {
    match speaker_place(speakers, first, 0) {
        Some(place) => Ok(place as usize),
        None => match speaker_place(speakers, second, 0) {
            Some(place) => Ok(place as usize),
            None => unsupported(fault),
        },
    }
}

fn find_either(speakers: &[Speaker], first: Speaker, second: Speaker, fault: AtmosFault) -> (r:
    Result<usize, AppError>)
    ensures
        r == either_place(speakers@, first, second, fault),
        r is Ok ==> r->Ok_0 < speakers@.len(),
{
    match find_speaker(speakers, first) {
        Some(place) => Ok(place),
        None => match find_speaker(speakers, second) {
            Some(place) => Ok(place),
            None => refuse(fault),
        },
    }
}

/// The places of two more input channels, behind five others.
pub open spec fn two_more(
    speakers: Seq<Speaker>,
    base: Seq<usize>,
    left: Speaker,
    right: Speaker,
    no_left: AtmosFault,
    no_right: AtmosFault,
) -> Result<Seq<usize>, AppError> {
    match either_place(speakers, left, left, no_left) {
        Err(e) => Err(e),
        Ok(first) => match either_place(speakers, right, right, no_right) {
            Err(e) => Err(e),
            Ok(second) => Ok(base.push(first).push(second)),
        },
    }
}

/// The places of the five input channels that every configuration has.
pub open spec fn five_places(speakers: Seq<Speaker>) -> Result<Seq<usize>, AppError> {
    match either_place(
        speakers,
        Speaker::SideLeft,
        Speaker::RearLeft,
        AtmosFault::MissingSurroundLeft,
    ) {
        Err(e) => Err(e),
        Ok(surround_left) => match either_place(
            speakers,
            Speaker::SideRight,
            Speaker::RearRight,
            AtmosFault::MissingSurroundRight,
        ) {
            Err(e) => Err(e),
            Ok(surround_right) => match either_place(
                speakers,
                Speaker::FrontLeft,
                Speaker::FrontLeft,
                AtmosFault::MissingLeft,
            ) {
                Err(e) => Err(e),
                Ok(left) => match either_place(
                    speakers,
                    Speaker::FrontRight,
                    Speaker::FrontRight,
                    AtmosFault::MissingRight,
                ) {
                    Err(e) => Err(e),
                    Ok(right) => match either_place(
                        speakers,
                        Speaker::FrontCenter,
                        Speaker::FrontCenter,
                        AtmosFault::MissingCenter,
                    ) {
                        Err(e) => Err(e),
                        Ok(center) => Ok(
                            seq![left, right, center, surround_left, surround_right],
                        ),
                    },
                },
            },
        },
    }
}

/// Whether no place occurs twice.
pub open spec fn distinct(list: Seq<usize>) -> bool {
    forall|i: int, j: int| 0 <= i < j < list.len() ==> list[i] != list[j]
}

/// The places of the input channels of a configuration.
pub open spec fn input_places(downmix: DownmixConfiguration, speakers: Seq<Speaker>) -> Result<
    Seq<usize>,
    AppError,
> {
    let found = match five_places(speakers) {
        Err(e) => Err(e),
        Ok(base) => match downmix {
            DownmixConfiguration::FiveChannel
            | DownmixConfiguration::FiveChannelPhaseShifted => Ok(base),
            DownmixConfiguration::SevenChannel => two_more(
                speakers,
                base,
                Speaker::RearLeft,
                Speaker::RearRight,
                AtmosFault::MissingRearLeft,
                AtmosFault::MissingRearRight,
            ),
            DownmixConfiguration::FiveChannelHeight
            | DownmixConfiguration::FiveChannelHeightPhaseShifted => two_more(
                speakers,
                base,
                Speaker::TopFrontLeft,
                Speaker::TopFrontRight,
                AtmosFault::MissingTopLeft,
                AtmosFault::MissingTopRight,
            ),
        },
    };
    match found {
        Err(e) => Err(e),
        Ok(list) => if distinct(list) {
            Ok(list)
        } else {
            unsupported(AtmosFault::IndistinctChannels)
        },
    }
}

fn is_distinct(list: &Vec<usize>) -> (r: bool)
    ensures
        r == distinct(list@),
{
    let mut i: usize = 0;
    while i < list.len()
        invariant
            i <= list@.len(),
            forall|a: int, b: int| 0 <= a < i && a < b < list@.len() ==> list@[a] != list@[b],
        decreases list@.len() - i,
    {
        let mut k: usize = i + 1;
        while k < list.len()
            invariant
                i < k <= list@.len(),
                forall|b: int| i < b < k ==> list@[i as int] != list@[b],
            decreases list@.len() - k,
        {
            if list[i] == list[k] {
                assert(list@[i as int] == list@[k as int]);
                return false;
            }
            k = k + 1;
        }
        i = i + 1;
    }
    true
}

fn find_five(speakers: &[Speaker]) -> (r: Result<Vec<usize>, AppError>)
    ensures
        match five_places(speakers@) {
            Err(e) => r == Err::<Vec<usize>, AppError>(e),
            Ok(list) => r is Ok && r->Ok_0@ == list && (forall|i: int|
                0 <= i < list.len() ==> (#[trigger] list[i]) < speakers@.len()),
        },
{
    let surround_left = find_either(
        speakers,
        Speaker::SideLeft,
        Speaker::RearLeft,
        AtmosFault::MissingSurroundLeft,
    )?;
    let surround_right = find_either(
        speakers,
        Speaker::SideRight,
        Speaker::RearRight,
        AtmosFault::MissingSurroundRight,
    )?;
    let left = find_either(
        speakers,
        Speaker::FrontLeft,
        Speaker::FrontLeft,
        AtmosFault::MissingLeft,
    )?;
    let right = find_either(
        speakers,
        Speaker::FrontRight,
        Speaker::FrontRight,
        AtmosFault::MissingRight,
    )?;
    let center = find_either(
        speakers,
        Speaker::FrontCenter,
        Speaker::FrontCenter,
        AtmosFault::MissingCenter,
    )?;
    let mut list: Vec<usize> = Vec::new();
    list.push(left);
    list.push(right);
    list.push(center);
    list.push(surround_left);
    list.push(surround_right);
    assert(list@ =~= seq![left, right, center, surround_left, surround_right]);
    Ok(list)
}

fn push_two(
    speakers: &[Speaker],
    base: Vec<usize>,
    left: Speaker,
    right: Speaker,
    no_left: AtmosFault,
    no_right: AtmosFault,
) -> (r: Result<Vec<usize>, AppError>)
    requires
        forall|i: int| 0 <= i < base@.len() ==> (#[trigger] base@[i]) < speakers@.len(),
    ensures
        match two_more(speakers@, base@, left, right, no_left, no_right) {
            Err(e) => r == Err::<Vec<usize>, AppError>(e),
            Ok(list) => r is Ok && r->Ok_0@ == list && (forall|i: int|
                0 <= i < list.len() ==> (#[trigger] list[i]) < speakers@.len()),
        },
{
    let first = find_either(speakers, left, left, no_left)?;
    let second = find_either(speakers, right, right, no_right)?;
    let mut list = base;
    list.push(first);
    list.push(second);
    Ok(list)
}

/// Finds the decoded channels that the reconstruction of objects takes, in its
/// order.
pub fn joc_channel_indices(downmix: DownmixConfiguration, speakers: &[Speaker]) -> (r: Result<
    Vec<usize>,
    AppError,
>)
    ensures
        match input_places(downmix, speakers@) {
            Err(e) => r == Err::<Vec<usize>, AppError>(e),
            Ok(list) => r is Ok && r->Ok_0@ == list && (forall|i: int|
                0 <= i < list.len() ==> (#[trigger] list[i]) < speakers@.len()),
        },
{
    let base = find_five(speakers)?;
    let list = match downmix {
        DownmixConfiguration::FiveChannel | DownmixConfiguration::FiveChannelPhaseShifted => base,
        DownmixConfiguration::SevenChannel => push_two(
            speakers,
            base,
            Speaker::RearLeft,
            Speaker::RearRight,
            AtmosFault::MissingRearLeft,
            AtmosFault::MissingRearRight,
        )?,
        DownmixConfiguration::FiveChannelHeight
        | DownmixConfiguration::FiveChannelHeightPhaseShifted => push_two(
            speakers,
            base,
            Speaker::TopFrontLeft,
            Speaker::TopFrontRight,
            AtmosFault::MissingTopLeft,
            AtmosFault::MissingTopRight,
        )?,
    };
    if !is_distinct(&list) {
        return refuse(AtmosFault::IndistinctChannels);
    }
    Ok(list)
}

/// What must not change within a stream.
#[derive(Clone, Copy, Debug, PartialEq, Eq)]
pub struct StreamShape {
    pub objects: Option<usize>,
    pub isf: Option<Option<IsfConfig>>,
    pub lfe: Option<bool>,
}

/// The shape of a program.
pub open spec fn program_shape(program: Program) -> (usize, Option<IsfConfig>, bool) {
    let lfe = lfe_indices(program.beds);
    let isf = if program.isf == 0 {
        None
    } else {
        Some(
            IsfConfig {
                start_channel: (program.beds.len() - lfe.len()) as usize,
                channel_count: program.isf as usize,
            },
        )
    };
    (program.object_count as usize, isf, lfe.len() > 0)
}

/// The shape that a program leaves a stream with.
pub open spec fn agreed_shape(program: Program) -> StreamShape {
    let shape = program_shape(program);
    StreamShape { objects: Some(shape.0), isf: Some(shape.1), lfe: Some(shape.2) }
}

impl StreamShape {
    /// What of a program differs from those before it.
    pub open spec fn change(self, objects: usize, isf: Option<IsfConfig>, lfe: bool) -> Option<
        AtmosFault,
    > {
        if self.objects is Some && self.objects->0 != objects {
            Some(AtmosFault::ObjectCountChanges)
        } else if self.isf is Some && self.isf->0 != isf {
            Some(AtmosFault::IsfChanges)
        } else if self.lfe is Some && self.lfe->0 != lfe {
            Some(AtmosFault::LfeChanges)
        } else {
            None
        }
    }

    /// The shape that a program leaves. The number of objects and the low-frequency
    /// channel are taken over even where they differ.
    pub open spec fn left_by(self, objects: usize, isf: Option<IsfConfig>, lfe: bool) -> StreamShape {
        if (self.objects is Some && self.objects->0 != objects) || (self.isf is Some && self.isf->0
            != isf) {
            StreamShape { objects: Some(objects), ..self }
        } else {
            StreamShape { objects: Some(objects), isf: Some(isf), lfe: Some(lfe) }
        }
    }

    /// Holds a program against those before it.
    pub fn agree(&mut self, objects: usize, isf: Option<IsfConfig>, lfe: bool) -> (r: Result<
        (),
        AppError,
    >)
        ensures
            *final(self) == old(self).left_by(objects, isf, lfe),
            match old(self).change(objects, isf, lfe) {
                Some(fault) => r == unsupported::<()>(fault),
                None => r is Ok,
            },
    {
        let known_objects = self.objects;
        self.objects = Some(objects);
        if let Some(known) = known_objects {
            if known != objects {
                return refuse(AtmosFault::ObjectCountChanges);
            }
        }
        if let Some(known) = self.isf {
            if known != isf {
                return refuse(AtmosFault::IsfChanges);
            }
        }
        self.isf = Some(isf);
        let known_lfe = self.lfe;
        self.lfe = Some(lfe);
        if let Some(known) = known_lfe {
            if known != lfe {
                return refuse(AtmosFault::LfeChanges);
            }
        }
        Ok(())
    }
}

/// Brings reconstructed objects back in step with the source: it drops the delay
/// of the reconstruction and lets the low-frequency channel wait.
pub struct Alignment {
    /// Samples of delay still to be dropped.
    pub delay_remaining: usize,
    pub source_samples: usize,
    pub emitted_samples: usize,
    /// Low-frequency samples that wait for their objects.
    pub lfe_queue: VecDeque<u32>,
}

/// Samples of objects, frame by frame, with the low-frequency channel last.
#[derive(Clone, Debug)]
pub struct AlignedBlock {
    pub frames: usize,
    pub channels: usize,
    pub samples: Vec<u32>,
    pub speakers: Vec<Option<Speaker>>,
}

/// One sample of every object.
pub open spec fn column(objects: Seq<Seq<u32>>, sample: nat) -> Seq<u32> {
    Seq::new(objects.len(), |object: int| objects[object][sample as int])
}

/// The first frames from a sample on.
pub open spec fn aligned_samples(
    objects: Seq<Seq<u32>>,
    lfe: Seq<u32>,
    has_lfe: bool,
    first: nat,
    count: nat,
) -> Seq<u32>
    decreases count,
{
    if count == 0 {
        seq![]
    } else {
        let index = (count - 1) as nat;
        let before = aligned_samples(objects, lfe, has_lfe, first, index);
        let row = column(objects, first + index);
        if has_lfe {
            before + row.push(lfe[index as int])
        } else {
            before + row
        }
    }
}

/// The smaller of two numbers.
pub open spec fn smaller(a: int, b: int) -> int {
    if a < b {
        a
    } else {
        b
    }
}

/// Whether all objects have the same number of samples.
pub open spec fn even(objects: Seq<Seq<u32>>) -> bool {
    forall|i: int| 0 <= i < objects.len() ==> (#[trigger] objects[i]).len() == objects[0].len()
}

impl Alignment {
    /// The samples that wait are those of the source that have not been emitted.
    pub open spec fn wf(self, has_lfe: bool) -> bool {
        &&& self.emitted_samples <= self.source_samples
        &&& has_lfe ==> self.lfe_queue@.len() == self.source_samples - self.emitted_samples
        &&& !has_lfe ==> self.lfe_queue@.len() == 0
    }

    pub fn new() -> (r: Self)
        ensures
            r.delay_remaining == RECONSTRUCTION_DELAY,
            r.source_samples == 0,
            r.emitted_samples == 0,
            r.lfe_queue@ == Seq::<u32>::empty(),
            forall|has_lfe: bool| #[trigger] r.wf(has_lfe),
    {
        Alignment {
            delay_remaining: RECONSTRUCTION_DELAY,
            source_samples: 0,
            emitted_samples: 0,
            lfe_queue: VecDeque::new(),
        }
    }

    /// How many of a number of samples are dropped.
    pub open spec fn dropped(self, available: nat) -> nat {
        smaller(self.delay_remaining as int, available as int) as nat
    }

    /// How many of a number of samples are emitted.
    pub open spec fn emitted(self, available: nat) -> nat {
        smaller(
            available - self.dropped(available),
            self.source_samples - self.emitted_samples,
        ) as nat
    }

    /// Takes reconstructed samples, and gives those that are due.
    pub fn emit_aligned(&mut self, objects: &Vec<Vec<u32>>, has_lfe: bool) -> (r: Result<
        Option<AlignedBlock>,
        AppError,
    >)
        requires
            old(self).wf(has_lfe),
            objects@.len() < usize::MAX,
        ensures
            final(self).wf(has_lfe),
            final(self).source_samples == old(self).source_samples,
            ({
                let views = channel_views(objects@);
                let available = if views.len() == 0 {
                    0
                } else {
                    views[0].len()
                };
                let drop = old(self).dropped(available);
                let emit = old(self).emitted(available);
                if !even(views) {
                    r == failed::<Option<AlignedBlock>>(AtmosFault::UnequalObjects) && *final(self)
                        == *old(self)
                } else {
                    &&& final(self).delay_remaining == old(self).delay_remaining - drop
                    &&& final(self).emitted_samples == old(self).emitted_samples + emit
                    &&& emit == 0 ==> r == Ok::<Option<AlignedBlock>, AppError>(None)
                        && final(self).lfe_queue@ == old(self).lfe_queue@
                    &&& emit > 0 ==> {
                        &&& r is Ok && r->Ok_0 is Some
                        &&& (r->Ok_0)->0.frames == emit
                        &&& (r->Ok_0)->0.channels == views.len() + (if has_lfe {
                            1int
                        } else {
                            0int
                        })
                        &&& (r->Ok_0)->0.samples@ == aligned_samples(
                            views,
                            old(self).lfe_queue@,
                            has_lfe,
                            drop,
                            emit,
                        )
                        &&& (r->Ok_0)->0.speakers@ == object_speakers(views.len(), has_lfe)
                        &&& final(self).lfe_queue@ == (if has_lfe {
                            old(self).lfe_queue@.skip(emit as int)
                        } else {
                            old(self).lfe_queue@
                        })
                    }
                }
            }),
    {
        let ghost views = channel_views(objects@);
        let ghost start = *self;
        let available: usize = if objects.len() == 0 {
            0
        } else {
            assert(views[0] == objects@[0]@);
            objects[0].len()
        };
        if !is_even(objects) {
            return fail(AtmosFault::UnequalObjects);
        }
        let drop: usize = if self.delay_remaining < available {
            self.delay_remaining
        } else {
            available
        };
        self.delay_remaining = self.delay_remaining - drop;
        let remaining: usize = self.source_samples - self.emitted_samples;
        let emit: usize = if available - drop < remaining {
            available - drop
        } else {
            remaining
        };
        if emit == 0 {
            return Ok(None);
        }
        let channels: usize = if has_lfe {
            objects.len() + 1
        } else {
            objects.len()
        };
        let mut samples: Vec<u32> = Vec::new();
        let mut i: usize = 0;
        while i < emit
            invariant
                i <= emit,
                drop + emit <= available,
                views == channel_views(objects@),
                even(views),
                views.len() > 0 ==> views[0].len() == available,
                has_lfe ==> start.lfe_queue@.len() >= emit,
                self.lfe_queue@ == (if has_lfe {
                    start.lfe_queue@.skip(i as int)
                } else {
                    start.lfe_queue@
                }),
                self.delay_remaining == start.delay_remaining - drop,
                self.source_samples == start.source_samples,
                self.emitted_samples == start.emitted_samples,
                samples@ == aligned_samples(
                    views,
                    start.lfe_queue@,
                    has_lfe,
                    drop as nat,
                    i as nat,
                ),
            decreases emit - i,
        {
            let ghost known = samples@;
            push_column(&mut samples, objects, drop + i);
            if has_lfe {
                let ghost waiting = self.lfe_queue@;
                match self.lfe_queue.pop_front() {
                    None => {
                        assert(false);
                    },
                    Some(sample) => {
                        samples.push(sample);
                    },
                }
                assert(self.lfe_queue@ =~= start.lfe_queue@.skip(i + 1));
            }
            assert(samples@ =~= aligned_samples(
                views,
                start.lfe_queue@,
                has_lfe,
                drop as nat,
                (i + 1) as nat,
            ));
            i = i + 1;
        }
        self.emitted_samples = self.emitted_samples + emit;
        Ok(
            Some(
                AlignedBlock {
                    frames: emit,
                    channels,
                    samples,
                    speakers: name_objects(objects.len(), has_lfe),
                },
            ),
        )
    }
}

/// The speakers of an aligned block: objects have none, and the low-frequency
/// channel stands last.
pub open spec fn object_speakers(objects: nat, has_lfe: bool) -> Seq<Option<Speaker>> {
    let bare = Seq::new(objects, |i: int| None::<Speaker>);
    if has_lfe {
        bare.push(Some(Speaker::Lfe))
    } else {
        bare
    }
}

fn name_objects(objects: usize, has_lfe: bool) -> (r: Vec<Option<Speaker>>)
    ensures
        r@ == object_speakers(objects as nat, has_lfe),
{
    let mut speakers: Vec<Option<Speaker>> = Vec::new();
    let mut i: usize = 0;
    while i < objects
        invariant
            i <= objects,
            speakers@ =~= Seq::new(i as nat, |i: int| None::<Speaker>),
        decreases objects - i,
    {
        speakers.push(None);
        i = i + 1;
    }
    if has_lfe {
        speakers.push(Some(Speaker::Lfe));
    }
    speakers
}

fn is_even(objects: &Vec<Vec<u32>>) -> (r: bool)
    ensures
        r == even(channel_views(objects@)),
{
    let ghost views = channel_views(objects@);
    if objects.len() == 0 {
        return true;
    }
    let wanted: usize = objects[0].len();
    assert(views[0] == objects@[0]@);
    let mut i: usize = 0;
    while i < objects.len()
        invariant
            i <= objects@.len(),
            views == channel_views(objects@),
            views.len() > 0,
            wanted == views[0].len(),
            forall|k: int| 0 <= k < i ==> (#[trigger] views[k]).len() == views[0].len(),
        decreases objects@.len() - i,
    {
        assert(views[i as int] == objects@[i as int]@);
        if objects[i].len() != wanted {
            return false;
        }
        i = i + 1;
    }
    true
}

fn push_column(list: &mut Vec<u32>, objects: &Vec<Vec<u32>>, sample: usize)
    requires
        forall|i: int|
            0 <= i < objects@.len() ==> sample < (#[trigger] channel_views(objects@)[i]).len(),
    ensures
        final(list)@ == old(list)@ + column(channel_views(objects@), sample as nat),
{
    let ghost before = list@;
    let ghost views = channel_views(objects@);
    let ghost whole = column(views, sample as nat);
    let mut i: usize = 0;
    while i < objects.len()
        invariant
            i <= objects@.len(),
            views == channel_views(objects@),
            whole == column(views, sample as nat),
            forall|k: int| 0 <= k < objects@.len() ==> sample < (#[trigger] views[k]).len(),
            list@ =~= before + whole.take(i as int),
        decreases objects@.len() - i,
    {
        assert(views[i as int] == objects@[i as int]@);
        list.push(objects[i][sample]);
        i = i + 1;
    }
    assert(whole.take(i as int) =~= whole);
}

/// Once everything of the source has been emitted, no low-frequency sample
/// waits.
pub proof fn law_no_low_frequency_sample_is_left(alignment: Alignment, has_lfe: bool)
    requires
        alignment.wf(has_lfe),
        alignment.emitted_samples == alignment.source_samples,
    ensures
        alignment.lfe_queue@.len() == 0,
{
}

/// Every sample that comes in is dropped, emitted, or beyond the end of the
/// source; and no more than the delay is ever dropped.
pub proof fn law_samples_are_dropped_or_emitted(alignment: Alignment, has_lfe: bool, available: nat)
    requires
        alignment.wf(has_lfe),
    ensures
        alignment.dropped(available) <= alignment.delay_remaining,
        alignment.dropped(available) + alignment.emitted(available) <= available,
        alignment.dropped(available) + alignment.emitted(available) < available
            ==> alignment.emitted_samples + alignment.emitted(available)
            == alignment.source_samples,
        alignment.emitted(available) > 0 ==> alignment.dropped(available)
            == alignment.delay_remaining,
{
}

/// The number of channels and the rate that a stream must report.
pub fn check_stream(channels: Option<u16>, sample_rate: Option<u32>, hrir_rate: u32) -> (r: Result<
    usize,
    AppError,
>)
    ensures
        r == (if channels is None {
            unsupported(AtmosFault::NoChannelCount)
        } else if sample_rate is None {
            unsupported(AtmosFault::UnknownRate { hrir: hrir_rate })
        } else if sample_rate->0 != hrir_rate {
            unsupported(AtmosFault::StreamRate { rate: sample_rate->0, hrir: hrir_rate })
        } else {
            Ok(channels->0 as usize)
        }),
{
    let count: u16 = match channels {
        None => return refuse(AtmosFault::NoChannelCount),
        Some(count) => count,
    };
    match sample_rate {
        None => refuse(AtmosFault::UnknownRate { hrir: hrir_rate }),
        Some(rate) => if rate != hrir_rate {
            refuse(AtmosFault::StreamRate { rate, hrir: hrir_rate })
        } else {
            Ok(count as usize)
        },
    }
}

/// A program whose metadata has been decoded.
pub struct PreparedProgram {
    pub oamd: OamdFrame,
    pub joc: JocFrame,
    pub sample_start: u64,
    pub sample_count: usize,
    /// How many bytes of decoded samples belong to it.
    pub pcm_bytes: usize,
}

/// Where the two payloads of a program are.
pub open spec fn payload_places(program: ProgramFrame, hrir_rate: u32) -> Result<
    (usize, usize),
    AppError,
> {
    if program.header.sample_rate != hrir_rate {
        unsupported(
            AtmosFault::FrameRate { rate: program.header.sample_rate, hrir: hrir_rate },
        )
    } else {
        match only_payload(
            program.payloads@,
            11,
            AtmosFault::NoOamd,
            AtmosFault::MultipleOamd,
        ) {
            Err(e) => Err(e),
            Ok(oamd) => match only_payload(
                program.payloads@,
                14,
                AtmosFault::NoJoc,
                AtmosFault::MultipleJoc,
            ) {
                Err(e) => Err(e),
                Ok(joc) => Ok((oamd, joc)),
            },
        }
    }
}

fn find_payloads(program: &ProgramFrame, hrir_rate: u32) -> (r: Result<(usize, usize), AppError>)
    ensures
        r == payload_places(*program, hrir_rate),
        r is Ok ==> (r->Ok_0).0 < program.payloads@.len() && (r->Ok_0).1
            < program.payloads@.len(),
{
    if program.header.sample_rate != hrir_rate {
        return refuse(
            AtmosFault::FrameRate { rate: program.header.sample_rate, hrir: hrir_rate },
        );
    }
    let oamd = exactly_one_payload(
        program.payloads.as_slice(),
        11,
        AtmosFault::NoOamd,
        AtmosFault::MultipleOamd,
    )?;
    let joc = exactly_one_payload(
        program.payloads.as_slice(),
        14,
        AtmosFault::NoJoc,
        AtmosFault::MultipleJoc,
    )?;
    Ok((oamd, joc))
}

/// The bytes of the decoded samples of a frame.
pub open spec fn pcm_size(samples: nat, channels: nat) -> Result<usize, AppError> {
    if samples * channels > usize::MAX {
        failed(AtmosFault::DecodedSamples)
    } else if 4 * (samples * channels) > usize::MAX {
        failed(AtmosFault::DecodedBytes)
    } else {
        Ok((4 * (samples * channels)) as usize)
    }
}

fn size_of_pcm(samples: usize, channels: usize) -> (r: Result<usize, AppError>)
    ensures
        r == pcm_size(samples as nat, channels as nat),
{
    match samples.checked_mul(channels) {
        None => fail(AtmosFault::DecodedSamples),
        Some(count) => match count.checked_mul(4) {
            None => fail(AtmosFault::DecodedBytes),
            Some(bytes) => Ok(bytes),
        },
    }
}

/// The state of a stream of object programs.
pub struct Eac3ObjectPipeline {
    pub hrir_rate: u32,
    pub source_channels: usize,
    pub source_speakers: Vec<Speaker>,
    pub oamd: OamdDecoder,
    pub joc: JocDecoder,
    pub shape: StreamShape,
    pub alignment: Alignment,
    pub last_joc: Option<JocFrame>,
}

/// Whether a matrix frame is one that can be held.
pub open spec fn holdable(frame: JocFrame) -> bool {
    frame.wf() && frame.object_count <= 64 && frame.input_channels <= 7
}

impl Eac3ObjectPipeline {
    pub open spec fn has_lfe(self) -> bool {
        self.shape.lfe == Some(true)
    }

    pub open spec fn wf(self) -> bool {
        &&& self.oamd.wf()
        &&& self.joc.wf()
        &&& self.source_channels > 0
        &&& self.source_speakers@.len() == self.source_channels
        &&& self.alignment.wf(self.has_lfe())
        &&& self.shape.lfe is None ==> self.alignment.source_samples == 0
        &&& self.last_joc is Some ==> holdable(self.last_joc->0)
    }

    pub fn new(hrir_rate: u32, source_speakers: Vec<Speaker>) -> (r: Self)
        requires
            source_speakers@.len() > 0,
        ensures
            r.wf(),
            r.hrir_rate == hrir_rate,
            r.source_speakers == source_speakers,
            r.source_channels == source_speakers@.len(),
            r.shape == (StreamShape { objects: None, isf: None, lfe: None }),
            r.oamd.properties@ == Seq::<ObjectProperties>::empty(),
            r.joc.previous@.len() == 0 && r.joc.previous_objects == 0 && r.joc.previous_channels
                == 0 && r.joc.last_sequence is None,
            r.alignment.delay_remaining == RECONSTRUCTION_DELAY,
            r.alignment.source_samples == 0,
            r.alignment.emitted_samples == 0,
            r.alignment.lfe_queue@ == Seq::<u32>::empty(),
            r.last_joc is None,
    {
        Eac3ObjectPipeline {
            hrir_rate,
            source_channels: source_speakers.len(),
            source_speakers,
            oamd: OamdDecoder::new(),
            joc: JocDecoder::new(),
            shape: StreamShape { objects: None, isf: None, lfe: None },
            alignment: Alignment::new(),
            last_joc: None,
        }
    }

    /// Whether two values have everything but the decoders and the shape in
    /// common.
    pub open spec fn same_signal(self, other: Self) -> bool {
        &&& self.hrir_rate == other.hrir_rate
        &&& self.source_channels == other.source_channels
        &&& self.source_speakers == other.source_speakers
        &&& self.alignment == other.alignment
        &&& self.last_joc == other.last_joc
    }

    /// Whether two values have everything but the alignment in common.
    pub open spec fn same_decoding(self, other: Self) -> bool {
        &&& self.hrir_rate == other.hrir_rate
        &&& self.source_channels == other.source_channels
        &&& self.source_speakers == other.source_speakers
        &&& self.oamd == other.oamd
        &&& self.joc == other.joc
        &&& self.shape == other.shape
        &&& self.last_joc == other.last_joc
    }

    /// What keeps the metadata of a program from being used: object counts that
    /// disagree, or a shape that is not that of the programs before.
    pub open spec fn program_fault(self, described: Program, side: SideInfo) -> Option<AppError> {
        let essences = described.object_count - lfe_indices(described.beds).len();
        let shape = program_shape(described);
        if essences != side.objects.len() {
            Some(
                AppError::Render(
                    Reason::Atmos(
                        AtmosFault::Essences {
                            oamd: essences as usize,
                            joc: side.objects.len() as usize,
                        },
                    ),
                ),
            )
        } else {
            match self.shape.change(shape.0, shape.1, shape.2) {
                Some(fault) => Some(AppError::UnsupportedInput(Reason::Atmos(fault))),
                None => None,
            }
        }
    }

    /// The shape that the metadata of a program leaves the stream with.
    pub open spec fn program_leaves(self, described: Program, side: SideInfo) -> StreamShape {
        let shape = program_shape(described);
        if described.object_count - lfe_indices(described.beds).len() != side.objects.len() {
            self.shape
        } else {
            self.shape.left_by(shape.0, shape.1, shape.2)
        }
    }

    /// Decodes the metadata of a program and holds it against the programs
    /// before it. Behind an error a stream is at its end.
    pub fn prepare(&mut self, program: &ProgramFrame, tables: &JocTables) -> (r: Result<
        PreparedProgram,
        AppError,
    >)
        requires
            old(self).wf(),
            proper_payloads(program.payloads@),
        ensures
            r is Ok ==> final(self).wf(),
            final(self).same_signal(*old(self)),
            match payload_places(*program, old(self).hrir_rate) {
                Err(e) => r == Err::<PreparedProgram, AppError>(e) && *final(self) == *old(self),
                Ok((first, second)) => match crate::oamd::decoded(
                    old(self).oamd.properties@,
                    program.payloads@[first as int]@,
                ) {
                    (kept, Err(e)) => {
                        &&& r == Err::<PreparedProgram, AppError>(e)
                        &&& final(self).oamd.properties@ == kept
                        &&& final(self).joc == old(self).joc
                        &&& final(self).shape == old(self).shape
                    },
                    (kept, Ok((described, progress))) => {
                        &&& final(self).oamd.properties@ == kept
                        &&& match JocDecoder::decoded(
                            program.payloads@[second as int]@,
                            program.header.samples(),
                            *tables,
                        ) {
                            Err(e) => {
                                &&& r == Err::<PreparedProgram, AppError>(e)
                                &&& final(self).joc == old(self).joc
                                &&& final(self).shape == old(self).shape
                            },
                            Ok(side) => {
                                let timeslots = program.header.samples() / 64;
                                &&& old(self).joc.leaves(side, timeslots, final(self).joc)
                                &&& final(self).shape == old(self).program_leaves(described, side)
                                &&& match old(self).program_fault(described, side) {
                                    Some(e) => r == Err::<PreparedProgram, AppError>(e),
                                    None => {
                                        &&& final(self).shape == agreed_shape(described)
                                        &&& match pcm_size(
                                            program.header.samples(),
                                            old(self).source_channels as nat,
                                        ) {
                                            Err(e) => r == Err::<PreparedProgram, AppError>(e),
                                            Ok(bytes) => {
                                                &&& r is Ok
                                                &&& r->Ok_0.oamd.describes(described, progress)
                                                &&& old(self).joc.gives(
                                                    side,
                                                    timeslots,
                                                    r->Ok_0.joc,
                                                )
                                                &&& holdable(r->Ok_0.joc)
                                                &&& r->Ok_0.sample_start == program.sample_start
                                                &&& r->Ok_0.sample_count
                                                    == program.header.samples()
                                                &&& r->Ok_0.pcm_bytes == bytes
                                                &&& bytes == 4 * (r->Ok_0.sample_count * old(self).source_channels)
                                            },
                                        }
                                    },
                                }
                            },
                        }
                    },
                },
            },
    {
        let (first, second) = find_payloads(program, self.hrir_rate)?;
        assert(program.payloads@[first as int]@.wf());
        assert(program.payloads@[second as int]@.wf());
        let oamd = self.oamd.decode(&program.payloads[first])?;
        let sample_count: usize = program.header.sample_count();
        let joc = self.joc.decode(&program.payloads[second], sample_count, tables)?;
        if oamd.joc_object_count != joc.object_count {
            return fail(
                AtmosFault::Essences { oamd: oamd.joc_object_count, joc: joc.object_count },
            );
        }
        let has_lfe: bool = oamd.lfe_object_indices.len() > 0;
        self.shape.agree(oamd.object_count, oamd.isf, has_lfe)?;
        let pcm_bytes = size_of_pcm(sample_count, self.source_channels)?;
        Ok(
            PreparedProgram {
                oamd,
                joc,
                sample_start: program.sample_start,
                sample_count,
                pcm_bytes,
            },
        )
    }

    /// What keeps the decoded samples of a program from being used.
    pub open spec fn pcm_fault(self, prepared: PreparedProgram, bytes: Seq<u8>) -> Option<AppError> {
        let samples = sample_words(bytes);
        if !(forall|i: int| 0 <= i < samples.len() ==> finite_sample(#[trigger] samples[i])) {
            Some(AppError::Render(Reason::Atmos(AtmosFault::NonFinite)))
        } else if self.alignment.source_samples + prepared.sample_count > usize::MAX {
            Some(AppError::Render(Reason::Atmos(AtmosFault::SampleCount)))
        } else {
            match input_places(prepared.joc.downmix, self.source_speakers@) {
                Err(e) => Some(e),
                Ok(list) => if list.len() != prepared.joc.input_channels {
                    Some(AppError::Render(Reason::Atmos(AtmosFault::MappingSize)))
                } else if self.has_lfe() != (speaker_place(
                    self.source_speakers@,
                    Speaker::Lfe,
                    0,
                ) is Some) {
                    Some(AppError::Render(Reason::Atmos(AtmosFault::LfeDisagreement)))
                } else {
                    None
                },
            }
        }
    }

    /// How many samples of the source have come once the decoded samples of a
    /// program were taken, whether they can be used or not.
    pub open spec fn counted(self, prepared: PreparedProgram, bytes: Seq<u8>) -> int {
        let samples = sample_words(bytes);
        let total = self.alignment.source_samples + prepared.sample_count;
        if total <= usize::MAX && forall|i: int|
            0 <= i < samples.len() ==> finite_sample(#[trigger] samples[i]) {
            total
        } else {
            self.alignment.source_samples as int
        }
    }

    /// Takes the decoded samples of a program. Gives the channels that the
    /// objects are reconstructed from, in their order, and keeps the
    /// low-frequency channel until its objects are due. Behind an error a stream
    /// is at its end.
    pub fn take_pcm(&mut self, prepared: &PreparedProgram, bytes: &[u8]) -> (r: Result<
        Vec<Vec<u32>>,
        AppError,
    >)
        requires
            old(self).wf(),
            old(self).shape.lfe is Some,
            bytes@.len() == 4 * (prepared.sample_count * old(self).source_channels),
        ensures
            r is Ok ==> final(self).wf(),
            final(self).same_decoding(*old(self)),
            final(self).alignment.delay_remaining == old(self).alignment.delay_remaining,
            final(self).alignment.emitted_samples == old(self).alignment.emitted_samples,
            final(self).alignment.source_samples == old(self).counted(*prepared, bytes@),
            match old(self).pcm_fault(*prepared, bytes@) {
                Some(e) => r == Err::<Vec<Vec<u32>>, AppError>(e)
                    && final(self).alignment.lfe_queue@ == old(self).alignment.lfe_queue@,
                None => {
                    let channels = planar(
                        sample_words(bytes@),
                        old(self).source_channels as nat,
                    );
                    let list = input_places(
                        prepared.joc.downmix,
                        old(self).source_speakers@,
                    )->Ok_0;
                    let lfe = speaker_place(old(self).source_speakers@, Speaker::Lfe, 0);
                    &&& r is Ok
                    &&& channel_views(r->Ok_0@) == Seq::new(
                        list.len(),
                        |i: int| channels[list[i] as int],
                    )
                    &&& final(self).alignment.source_samples == old(self).alignment.source_samples
                        + prepared.sample_count
                    &&& final(self).alignment.lfe_queue@ == (if lfe is Some {
                        old(self).alignment.lfe_queue@ + channels[lfe->0 as int]
                    } else {
                        old(self).alignment.lfe_queue@
                    })
                },
            },
    {
        let samples = pcm_words(bytes);
        if !all_finite(samples.as_slice()) {
            return fail(AtmosFault::NonFinite);
        }
        let total: usize = match self.alignment.source_samples.checked_add(
            prepared.sample_count,
        ) {
            None => return fail(AtmosFault::SampleCount),
            Some(total) => total,
        };
        self.alignment.source_samples = total;
        let channels: usize = self.source_channels;
        let apart = deinterleave(samples.as_slice(), channels);
        let ghost views = planar(samples@, channels as nat);
        let list = joc_channel_indices(
            prepared.joc.downmix,
            self.source_speakers.as_slice(),
        )?;
        if list.len() != prepared.joc.input_channels {
            return fail(AtmosFault::MappingSize);
        }
        let has_lfe: bool = match self.shape.lfe {
            Some(lfe) => lfe,
            None => false,
        };
        let lfe = find_speaker(self.source_speakers.as_slice(), Speaker::Lfe);
        if has_lfe != lfe.is_some() {
            return fail(AtmosFault::LfeDisagreement);
        }
        proof {
            lemma_planar_length(
                samples@,
                prepared.sample_count as nat,
                channels as nat,
            );
            assert(channel_views(apart@).len() == apart@.len());
        }
        let chosen = choose_channels(&apart, list.as_slice());
        match lfe {
            None => {},
            Some(place) => {
                assert(views[place as int] == apart@[place as int]@);
                extend_queue(&mut self.alignment.lfe_queue, apart[place].as_slice());
            },
        }
        Ok(chosen)
    }

    /// Gives the reconstructed samples that are due.
    pub fn emit(&mut self, objects: &Vec<Vec<u32>>) -> (r: Result<Option<AlignedBlock>, AppError>)
        requires
            old(self).wf(),
            objects@.len() < usize::MAX,
        ensures
            final(self).wf(),
            final(self).same_decoding(*old(self)),
            final(self).alignment.source_samples == old(self).alignment.source_samples,
            ({
                let views = channel_views(objects@);
                let available = if views.len() == 0 {
                    0
                } else {
                    views[0].len()
                };
                let drop = old(self).alignment.dropped(available);
                let emit = old(self).alignment.emitted(available);
                let has_lfe = old(self).has_lfe();
                if !even(views) {
                    r == failed::<Option<AlignedBlock>>(AtmosFault::UnequalObjects)
                        && final(self).alignment == old(self).alignment
                } else {
                    &&& final(self).alignment.delay_remaining == old(self).alignment.delay_remaining - drop
                    &&& final(self).alignment.emitted_samples == old(self).alignment.emitted_samples + emit
                    &&& final(self).alignment.lfe_queue@ == (if has_lfe {
                        old(self).alignment.lfe_queue@.skip(emit as int)
                    } else {
                        old(self).alignment.lfe_queue@
                    })
                    &&& emit == 0 ==> r == Ok::<Option<AlignedBlock>, AppError>(None)
                    &&& emit > 0 ==> {
                        &&& r is Ok && r->Ok_0 is Some
                        &&& (r->Ok_0)->0.frames == emit
                        &&& (r->Ok_0)->0.channels == views.len() + (if has_lfe {
                            1int
                        } else {
                            0int
                        })
                        &&& (r->Ok_0)->0.samples@ == aligned_samples(
                            views,
                            old(self).alignment.lfe_queue@,
                            has_lfe,
                            drop,
                            emit,
                        )
                        &&& (r->Ok_0)->0.speakers@ == object_speakers(views.len(), has_lfe)
                    }
                }
            }),
    {
        let has_lfe: bool = match self.shape.lfe {
            Some(lfe) => lfe,
            None => false,
        };
        self.alignment.emit_aligned(objects, has_lfe)
    }

    /// Remembers the last matrices of a stream.
    pub fn remember(&mut self, frame: JocFrame)
        requires
            old(self).wf(),
            holdable(frame),
        ensures
            final(self).wf(),
            final(self).last_joc == Some(frame),
            final(self).oamd == old(self).oamd,
            final(self).joc == old(self).joc,
            final(self).shape == old(self).shape,
            final(self).alignment == old(self).alignment,
            final(self).hrir_rate == old(self).hrir_rate,
            final(self).source_channels == old(self).source_channels,
            final(self).source_speakers == old(self).source_speakers,
    {
        self.last_joc = Some(frame);
    }

    /// The matrices with which silence is reconstructed while samples are still
    /// due, or nothing once all have been emitted.
    pub fn flush_frame(&self) -> (r: Result<Option<JocFrame>, AppError>)
        requires
            self.wf(),
        ensures
            self.last_joc is None ==> r == failed::<Option<JocFrame>>(AtmosFault::NoFrames),
            self.last_joc is Some ==> {
                &&& r is Ok
                &&& r->Ok_0 is Some <==> self.alignment.emitted_samples
                    < self.alignment.source_samples
                &&& r->Ok_0 is Some ==> {
                    let held = (r->Ok_0)->0;
                    &&& held.wf()
                    &&& held.downmix == self.last_joc->0.downmix
                    &&& held.sequence == self.last_joc->0.sequence
                    &&& !held.splice
                    &&& held.timeslots == FLUSH_TIMESLOTS
                    &&& held.object_count == self.last_joc->0.object_count
                    &&& held.input_channels == self.last_joc->0.input_channels
                    &&& held.clip_gain == self.last_joc->0.clip_gain
                    &&& held.coefficients@ == self.last_joc->0.held_rows(
                        FLUSH_TIMESLOTS as nat,
                        self.last_joc->0.object_count as nat,
                    )
                }
            },
    {
        match &self.last_joc {
            None => fail(AtmosFault::NoFrames),
            Some(last) => {
                if self.alignment.emitted_samples >= self.alignment.source_samples {
                    return Ok(None);
                }
                proof {
                    lemma_held_size(last.object_count as nat, last.input_channels as nat);
                }
                Ok(Some(last.hold_last(FLUSH_TIMESLOTS)))
            },
        }
    }

    /// Checks that nothing is left over at the end: no low-frequency sample, and
    /// no decoded sample behind the last frame.
    pub fn check_end(&self, extra_pcm: bool) -> (r: Result<(), AppError>)
        requires
            self.wf(),
        ensures
            ({
                let left = self.alignment.lfe_queue@.len();
                if left > 0 {
                    r == failed::<()>(AtmosFault::LfeLeft { count: left as usize })
                } else if extra_pcm {
                    r == failed::<()>(AtmosFault::ExtraPcm)
                } else {
                    r is Ok
                }
            }),
            self.alignment.emitted_samples == self.alignment.source_samples && !extra_pcm
                ==> r is Ok,
    {
        let left: usize = self.alignment.lfe_queue.len();
        if left > 0 {
            return fail(AtmosFault::LfeLeft { count: left });
        }
        if extra_pcm {
            return fail(AtmosFault::ExtraPcm);
        }
        Ok(())
    }
}

/// What is said of decoded samples that end too early.
pub fn pcm_ended() -> (r: AppError)
    ensures
        r == AppError::Render(Reason::Atmos(AtmosFault::PcmEnded)),
{
    AppError::Render(Reason::Atmos(AtmosFault::PcmEnded))
}

proof fn lemma_held_size(objects: nat, channels: nat)
    requires
        objects <= 64,
        channels <= 7,
    ensures
        objects * (FLUSH_TIMESLOTS * (channels * 64)) <= usize::MAX,
{
    assert(objects * (24 * (channels * 64)) <= 64 * (24 * (7 * 64))) by (nonlinear_arith)
        requires
            objects <= 64,
            channels <= 7,
    ;
}

proof fn lemma_planar_length(samples: Seq<u32>, frames: nat, channels: nat)
    requires
        channels > 0,
        samples.len() == frames * channels,
    ensures
        planar(samples, channels).len() == channels,
        forall|i: int|
            0 <= i < channels ==> (#[trigger] planar(samples, channels)[i]).len() == frames,
{
    assert(samples.len() / channels == frames) by {
        vstd::arithmetic::div_mod::lemma_div_by_multiple(frames as int, channels as int);
    }
}

fn choose_channels(apart: &Vec<Vec<u32>>, list: &[usize]) -> (r: Vec<Vec<u32>>)
    requires
        forall|i: int| 0 <= i < list@.len() ==> (#[trigger] list@[i]) < apart@.len(),
    ensures
        channel_views(r@) == Seq::new(
            list@.len(),
            |i: int| channel_views(apart@)[list@[i] as int],
        ),
{
    let ghost wanted = Seq::new(list@.len(), |i: int| channel_views(apart@)[list@[i] as int]);
    let mut chosen: Vec<Vec<u32>> = Vec::new();
    let mut i: usize = 0;
    while i < list.len()
        invariant
            i <= list@.len(),
            forall|k: int| 0 <= k < list@.len() ==> (#[trigger] list@[k]) < apart@.len(),
            wanted == Seq::new(list@.len(), |i: int| channel_views(apart@)[list@[i] as int]),
            channel_views(chosen@) =~= wanted.take(i as int),
        decreases list@.len() - i,
    {
        let ghost known = chosen@;
        let place: usize = list[i];
        let copy = copy_words(apart[place].as_slice());
        chosen.push(copy);
        assert(channel_views(chosen@) =~= channel_views(known).push(copy@));
        i = i + 1;
    }
    assert(wanted.take(i as int) =~= wanted);
    chosen
}

fn copy_words(list: &[u32]) -> (r: Vec<u32>)
    ensures
        r@ == list@,
{
    let mut copy: Vec<u32> = Vec::new();
    let mut i: usize = 0;
    while i < list.len()
        invariant
            i <= list@.len(),
            copy@ =~= list@.take(i as int),
        decreases list@.len() - i,
    {
        copy.push(list[i]);
        i = i + 1;
    }
    assert(list@.take(i as int) =~= list@);
    copy
}

fn extend_queue(queue: &mut VecDeque<u32>, list: &[u32])
    ensures
        final(queue)@ == old(queue)@ + list@,
{
    let ghost before = queue@;
    let mut i: usize = 0;
    while i < list.len()
        invariant
            i <= list@.len(),
            queue@ =~= before + list@.take(i as int),
        decreases list@.len() - i,
    {
        queue.push_back(list[i]);
        i = i + 1;
    }
    assert(list@.take(i as int) =~= list@);
}

/// A dependent frame belongs to its primary frame exactly where it begins with it and has
/// its rate and its blocks.
pub proof fn law_dependents_share_the_time_of_their_primary(program: ProgramFrame, frame: Eac3Frame)
    ensures
        program.dependent_fault(frame) is None <==> frame.sample_start == program.sample_start
            && frame.header.sample_rate == program.header.sample_rate && frame.header.blocks
            == program.header.blocks,
        program.dependent_fault(frame) == Some(AtmosFault::Misaligned) <==> frame.sample_start
            != program.sample_start,
{
}

proof fn lemma_payload_place(payloads: Seq<MetadataPayload>, id: u32, start: nat)
    ensures
        match payload_place(payloads, id, start) {
            None => forall|i: int|
                start <= i < payloads.len() ==> (#[trigger] payloads[i]).id != id,
            Some(place) => {
                &&& start <= place < payloads.len()
                &&& payloads[place as int].id == id
                &&& forall|i: int| start <= i < place ==> (#[trigger] payloads[i]).id != id
            },
        },
    decreases payloads.len() - start,
{
    if start < payloads.len() && payloads[start as int].id != id {
        lemma_payload_place(payloads, id, start + 1);
    }
}

/// A payload is taken exactly where it is the only one with its identifier; where there is
/// none, or where there are two, it is said which.
pub proof fn law_only_a_single_payload_is_taken(
    payloads: Seq<MetadataPayload>,
    id: u32,
    none: AtmosFault,
    many: AtmosFault,
    place: int,
    other: int,
)
    requires
        payloads.len() <= usize::MAX,
        0 <= place < payloads.len(),
        0 <= other < payloads.len(),
        none != many,
    ensures
        ({
            let taken = only_payload(payloads, id, none, many);
            &&& taken == Ok::<usize, AppError>(place as usize) <==> payloads[place].id == id
                && forall|i: int|
                0 <= i < payloads.len() && i != place ==> (#[trigger] payloads[i]).id != id
            &&& taken == failed::<usize>(none) <==> forall|i: int|
                0 <= i < payloads.len() ==> (#[trigger] payloads[i]).id != id
            &&& place != other && payloads[place].id == id && payloads[other].id == id ==> taken
                == failed::<usize>(many)
        }),
{
    lemma_payload_place(payloads, id, 0);
    match payload_place(payloads, id, 0) {
        None => {},
        Some(first) => {
            lemma_payload_place(payloads, id, first + 1);
            match payload_place(payloads, id, first + 1) {
                None => {
                    assert forall|i: int| 0 <= i < payloads.len() && i != first implies (
                    #[trigger] payloads[i]).id != id by {
                        if i > first {
                            assert(first + 1 <= i);
                        }
                    }
                },
                Some(second) => {
                    assert(payloads[second as int].id == id && second != first);
                },
            }
        },
    }
}

/// The metadata of a program is its only payload with the identifier of object metadata
/// and its only one with that of object coding, at the rate of the profile.
pub proof fn law_programs_have_both_payloads(program: ProgramFrame, hrir_rate: u32)
    requires
        program.payloads@.len() <= usize::MAX,
        payload_places(program, hrir_rate) is Ok,
    ensures
        ({
            let (oamd, joc) = payload_places(program, hrir_rate)->Ok_0;
            &&& program.header.sample_rate == hrir_rate
            &&& oamd < program.payloads@.len() && joc < program.payloads@.len()
            &&& program.payloads@[oamd as int].id == OAMD_PAYLOAD_ID
            &&& program.payloads@[joc as int].id == JOC_PAYLOAD_ID
            &&& forall|i: int|
                0 <= i < program.payloads@.len() && i != oamd && i != joc ==> (
                #[trigger] program.payloads@[i]).id != OAMD_PAYLOAD_ID && program.payloads@[i].id
                    != JOC_PAYLOAD_ID
        }),
{
    let payloads = program.payloads@;
    let (oamd, joc) = payload_places(program, hrir_rate)->Ok_0;
    lemma_payload_place(payloads, 11, 0);
    lemma_payload_place(payloads, 14, 0);
    lemma_payload_place(payloads, 11, payload_place(payloads, 11, 0)->0 + 1);
    lemma_payload_place(payloads, 14, payload_place(payloads, 14, 0)->0 + 1);
}

/// Whether a place is that of the first of two speakers, or of the second where the first is
/// missing.
pub open spec fn stands_for(
    speakers: Seq<Speaker>,
    place: usize,
    first: Speaker,
    second: Speaker,
) -> bool {
    &&& place < speakers.len()
    &&& speakers[place as int] == first || (speakers[place as int] == second && !speakers.contains(
        first,
    ))
}

proof fn lemma_either_place(
    speakers: Seq<Speaker>,
    first: Speaker,
    second: Speaker,
    fault: AtmosFault,
)
    requires
        speakers.len() <= usize::MAX,
    ensures
        match either_place(speakers, first, second, fault) {
            Ok(place) => stands_for(speakers, place, first, second),
            Err(e) => {
                &&& !speakers.contains(first) && !speakers.contains(second)
                &&& e == AppError::UnsupportedInput(Reason::Atmos(fault))
            },
        },
{
    lemma_speaker_found(speakers, first, 0);
    lemma_speaker_found(speakers, second, 0);
}

proof fn lemma_speaker_found(speakers: Seq<Speaker>, wanted: Speaker, start: nat)
    ensures
        match speaker_place(speakers, wanted, start) {
            Some(place) => start <= place < speakers.len() && speakers[place as int] == wanted,
            None => forall|i: int| start <= i < speakers.len() ==> #[trigger] speakers[i] != wanted,
        },
    decreases speakers.len() - start,
{
    if start < speakers.len() && speakers[start as int] != wanted {
        lemma_speaker_found(speakers, wanted, start + 1);
    }
}

/// Objects are reconstructed from the front left, right and centre and the surrounds, in
/// this order, and with seven channels from the rears or the front heights behind them; the
/// rears stand for surrounds that are missing, and no channel serves twice.
pub proof fn law_objects_come_from_the_channels_of_their_downmix(
    downmix: DownmixConfiguration,
    speakers: Seq<Speaker>,
)
    requires
        speakers.len() <= usize::MAX,
        input_places(downmix, speakers) is Ok,
    ensures
        ({
            let list = input_places(downmix, speakers)->Ok_0;
            &&& list.len() == downmix.channels()
            &&& list.len() == 5 || list.len() == 7
            &&& forall|i: int| 0 <= i < list.len() ==> #[trigger] list[i] < speakers.len()
            &&& speakers[list[0] as int] == Speaker::FrontLeft
            &&& speakers[list[1] as int] == Speaker::FrontRight
            &&& speakers[list[2] as int] == Speaker::FrontCenter
            &&& stands_for(speakers, list[3], Speaker::SideLeft, Speaker::RearLeft)
            &&& stands_for(speakers, list[4], Speaker::SideRight, Speaker::RearRight)
            &&& downmix is SevenChannel ==> speakers[list[5] as int] == Speaker::RearLeft
                && speakers[list[6] as int] == Speaker::RearRight && speakers[list[3] as int]
                == Speaker::SideLeft && speakers[list[4] as int] == Speaker::SideRight
            &&& downmix is FiveChannelHeight || downmix is FiveChannelHeightPhaseShifted
                ==> speakers[list[5] as int] == Speaker::TopFrontLeft && speakers[list[6] as int]
                == Speaker::TopFrontRight
            &&& list.no_duplicates()
        }),
{
    lemma_downmix_places(speakers);
    let list = input_places(downmix, speakers)->Ok_0;
    if downmix is SevenChannel {
        lemma_one_rear(speakers, list[3], list[5], Speaker::SideLeft, Speaker::RearLeft);
        lemma_one_rear(speakers, list[4], list[6], Speaker::SideRight, Speaker::RearRight);
    }
}

/// A speaker that stands for another and for itself stands at one place.
proof fn lemma_one_rear(
    speakers: Seq<Speaker>,
    place: usize,
    other: usize,
    side: Speaker,
    rear: Speaker,
)
    requires
        either_place(speakers, side, rear, AtmosFault::NoJoc) == Ok::<usize, AppError>(place),
        either_place(speakers, rear, rear, AtmosFault::NoJoc) == Ok::<usize, AppError>(other),
        place != other,
        speakers.len() <= usize::MAX,
    ensures
        speakers[place as int] == side,
{
    lemma_speaker_found(speakers, side, 0);
}

proof fn lemma_downmix_places(speakers: Seq<Speaker>)
    requires
        speakers.len() <= usize::MAX,
    ensures
        forall|first: Speaker, second: Speaker, fault: AtmosFault|
            match #[trigger] either_place(speakers, first, second, fault) {
                Ok(place) => {
                    &&& stands_for(speakers, place, first, second)
                    &&& either_place(speakers, first, second, AtmosFault::NoJoc) == Ok::<
                        usize,
                        AppError,
                    >(place)
                },
                Err(e) => {
                    &&& !speakers.contains(first) && !speakers.contains(second)
                    &&& e == AppError::UnsupportedInput(Reason::Atmos(fault))
                },
            },
{
    assert forall|first: Speaker, second: Speaker, fault: AtmosFault|
        match #[trigger] either_place(speakers, first, second, fault) {
            Ok(place) => {
                &&& stands_for(speakers, place, first, second)
                &&& either_place(speakers, first, second, AtmosFault::NoJoc) == Ok::<
                    usize,
                    AppError,
                >(place)
            },
            Err(e) => {
                &&& !speakers.contains(first) && !speakers.contains(second)
                &&& e == AppError::UnsupportedInput(Reason::Atmos(fault))
            },
        } by {
        lemma_either_place(speakers, first, second, fault);
    }
}

/// The channels of a downmix are found wherever its speakers are there: the three in front,
/// the sides, and with seven channels the rears or the front heights; with five the rears do
/// for the sides.
pub proof fn law_complete_layouts_have_the_channels_of_their_downmix(
    downmix: DownmixConfiguration,
    speakers: Seq<Speaker>,
)
    requires
        speakers.len() <= usize::MAX,
        speakers.contains(Speaker::FrontLeft),
        speakers.contains(Speaker::FrontRight),
        speakers.contains(Speaker::FrontCenter),
        speakers.contains(Speaker::SideLeft) || (speakers.contains(Speaker::RearLeft) && !(
        downmix is SevenChannel)),
        speakers.contains(Speaker::SideRight) || (speakers.contains(Speaker::RearRight) && !(
        downmix is SevenChannel)),
        downmix is SevenChannel ==> speakers.contains(Speaker::RearLeft) && speakers.contains(
            Speaker::RearRight,
        ),
        downmix is FiveChannelHeight || downmix is FiveChannelHeightPhaseShifted
            ==> speakers.contains(Speaker::TopFrontLeft) && speakers.contains(
            Speaker::TopFrontRight,
        ),
    ensures
        input_places(downmix, speakers) is Ok,
{
    lemma_downmix_places(speakers);
    let base = five_places(speakers)->Ok_0;
    assert(five_places(speakers) is Ok);
    assert(base.len() == 5);
}

/// The shape of a program: it has as many objects as it describes, a low-frequency channel
/// exactly where one of its beds is one, and an intermediate format exactly where it
/// describes channels of one, which then stand behind the beds that are not low-frequency.
pub proof fn law_programs_have_the_shape_they_describe(program: Program)
    requires
        program.beds.len() <= usize::MAX,
        program.object_count <= usize::MAX,
        program.isf <= usize::MAX,
    ensures
        ({
            let (objects, isf, lfe) = program_shape(program);
            &&& objects == program.object_count
            &&& lfe <==> program.beds.contains(Speaker::Lfe)
            &&& isf is Some <==> program.isf > 0
            &&& isf matches Some(config) ==> {
                &&& config.channel_count == program.isf
                &&& config.start_channel + lfe_indices(program.beds).len() == program.beds.len()
                &&& !lfe ==> config.start_channel == program.beds.len()
            }
        }),
{
    lemma_low_beds(program.beds);
}

proof fn lemma_low_beds(beds: Seq<Speaker>)
    ensures
        lfe_indices(beds).len() <= beds.len(),
        lfe_indices(beds).len() > 0 <==> beds.contains(Speaker::Lfe),
    decreases beds.len(),
{
    if beds.len() > 0 {
        let before = beds.drop_last();
        lemma_low_beds(before);
        if beds.last() == Speaker::Lfe {
            assert(beds[beds.len() - 1] == Speaker::Lfe);
        } else if before.contains(Speaker::Lfe) {
            let k = choose|k: int| 0 <= k < before.len() && before[k] == Speaker::Lfe;
            assert(beds[k] == Speaker::Lfe);
        } else if beds.contains(Speaker::Lfe) {
            let k = choose|k: int| 0 <= k < beds.len() && beds[k] == Speaker::Lfe;
            assert(before[k] == Speaker::Lfe);
        }
    }
}

/// A stream that has taken a program over agrees with exactly those programs that have the
/// same shape; one that has taken none over agrees with all.
pub proof fn law_streams_keep_their_shape(
    shape: StreamShape,
    objects: usize,
    isf: Option<IsfConfig>,
    lfe: bool,
    other_objects: usize,
    other_isf: Option<IsfConfig>,
    other_lfe: bool,
)
    ensures
        shape.objects is None && shape.isf is None && shape.lfe is None ==> shape.change(
            objects,
            isf,
            lfe,
        ) is None,
        shape.change(objects, isf, lfe) is None ==> (shape.left_by(objects, isf, lfe).change(
            other_objects,
            other_isf,
            other_lfe,
        ) is None <==> other_objects == objects && other_isf == isf && other_lfe == lfe),
        shape.left_by(objects, isf, lfe).objects == Some(objects),
{
}

/// Aligned samples stand frame by frame: the objects in their order, each at the frame's
/// place behind what was dropped, and behind them the low-frequency sample, where there is
/// one.
pub proof fn law_aligned_samples_stand_frame_by_frame(
    objects: Seq<Seq<u32>>,
    lfe: Seq<u32>,
    has_lfe: bool,
    first: nat,
    count: nat,
    frame: nat,
    channel: nat,
)
    requires
        frame < count,
        channel < objects.len() || (has_lfe && channel == objects.len()),
    ensures
        ({
            let width = objects.len() + if has_lfe {
                1nat
            } else {
                0nat
            };
            let all = aligned_samples(objects, lfe, has_lfe, first, count);
            &&& all.len() == count * width
            &&& 0 <= frame * width + channel < all.len()
            &&& all[(frame * width + channel) as int] == if channel < objects.len() {
                objects[channel as int][(first + frame) as int]
            } else {
                lfe[frame as int]
            }
        }),
    decreases count,
{
    let width = objects.len() + if has_lfe {
        1nat
    } else {
        0nat
    };
    let last = (count - 1) as nat;
    let before = aligned_samples(objects, lfe, has_lfe, first, last);
    lemma_aligned_length(objects, lfe, has_lfe, first, last);
    lemma_aligned_length(objects, lfe, has_lfe, first, count);
    assert(frame * width + channel < count * width) by (nonlinear_arith)
        requires
            frame < count,
            channel < width,
    ;
    if frame < last {
        law_aligned_samples_stand_frame_by_frame(
            objects,
            lfe,
            has_lfe,
            first,
            last,
            frame,
            channel,
        );
    } else {
        assert(before.len() == frame * width);
    }
}

proof fn lemma_aligned_length(
    objects: Seq<Seq<u32>>,
    lfe: Seq<u32>,
    has_lfe: bool,
    first: nat,
    count: nat,
)
    ensures
        aligned_samples(objects, lfe, has_lfe, first, count).len() == count * (objects.len()
            + if has_lfe {
            1nat
        } else {
            0nat
        }),
    decreases count,
{
    let width = objects.len() + if has_lfe {
        1nat
    } else {
        0nat
    };
    if count > 0 {
        lemma_aligned_length(objects, lfe, has_lfe, first, (count - 1) as nat);
        assert(count * width == (count - 1) * width + width) by (nonlinear_arith);
    } else {
        assert(count * width == 0) by (nonlinear_arith)
            requires
                count == 0,
        ;
    }
}

/// The channels of an aligned block are objects, which have no speaker, and behind them the
/// low-frequency channel alone, where there is one.
pub proof fn law_objects_have_no_speaker(objects: nat, has_lfe: bool, channel: int)
    requires
        0 <= channel < object_speakers(objects, has_lfe).len(),
    ensures
        object_speakers(objects, has_lfe)[channel] is None <==> channel < objects,
        object_speakers(objects, has_lfe)[channel] is Some ==> has_lfe && object_speakers(
            objects,
            has_lfe,
        )[channel] == Some(Speaker::Lfe),
        object_speakers(objects, has_lfe).len() > objects <==> has_lfe,
{
}

/// The decoded samples of a frame take four bytes each; they are refused exactly where their
/// bytes cannot be counted.
pub proof fn law_decoded_samples_take_four_bytes(samples: nat, channels: nat)
    ensures
        match pcm_size(samples, channels) {
            Ok(bytes) => bytes == channels * samples + channels * samples + channels * samples
                + channels * samples,
            Err(_) => channels * samples + channels * samples + channels * samples + channels
                * samples > usize::MAX,
        },
{
    assert(samples * channels == channels * samples) by (nonlinear_arith);
}

/// The metadata of a program can be used exactly where object coding reconstructs all its
/// objects but the low-frequency ones, and where it has the shape of the programs before.
pub proof fn law_programs_describe_what_is_coded(
    pipeline: Eac3ObjectPipeline,
    described: Program,
    side: SideInfo,
)
    ensures
        ({
            let (objects, isf, lfe) = program_shape(described);
            pipeline.program_fault(described, side) is None <==> described.object_count
                == side.objects.len() + lfe_indices(described.beds).len()
                && pipeline.shape.change(objects, isf, lfe) is None
        }),
{
}

/// Decoded samples can be used exactly where all are finite and countable, where the layout
/// has the channels that the matrices mix, and where it has a low-frequency channel if and
/// only if the programs do.
pub proof fn law_usable_samples_fit_their_program(
    pipeline: Eac3ObjectPipeline,
    prepared: PreparedProgram,
    bytes: Seq<u8>,
)
    ensures
        ({
            let samples = sample_words(bytes);
            let speakers = pipeline.source_speakers@;
            let places = input_places(prepared.joc.downmix, speakers);
            pipeline.pcm_fault(prepared, bytes) is None <==> (forall|i: int|
                0 <= i < samples.len() ==> finite_sample(#[trigger] samples[i]))
                && pipeline.alignment.source_samples + prepared.sample_count <= usize::MAX && (
            places matches Ok(list) && list.len() == prepared.joc.input_channels) && (
            pipeline.has_lfe() <==> speakers.contains(Speaker::Lfe))
        }),
{
    lemma_speaker_found(pipeline.source_speakers@, Speaker::Lfe, 0);
}

} // verus!
