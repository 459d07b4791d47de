//! Profiles of head-related impulse responses.
//!
//! Samples stand as the bit patterns of IEEE 754 singles, whose order without
//! the sign is that of the integers.

use crate::error::{AppError, Reason};
use crate::render::{
    all_finite, channel_views, default_layout, default_source_layout, deinterleave, finite_sample,
    planar,
};
use crate::spatial::{direct_route, mid, screen};
use crate::speaker::{copy_speakers, Speaker};
use crate::text::{decimal, digits, equals_ignoring_case, same_letters, text_pair};
use vstd::prelude::*;

verus! {

/// A head-related impulse response or a room correction that cannot be used.
#[derive(Clone, Copy, Debug, PartialEq, Eq, Structural)]
pub enum HrirFault {
    WaveChannels { count: usize },
    Silent,
    Boundaries,
    OddLayout,
    ChannelCount { count: usize },
    TargetRate,
    SofaRate,
    MonoCorrection,
    CorrectionRates,
    CorrectionRate { rate: u32, hrir: u32 },
}

impl HrirFault {
    pub open spec fn text(self) -> Seq<char> {
        match self {
            HrirFault::WaveChannels { count } => "HRIR must contain exactly two WAV channels; found "@
                + digits(count as nat),
            HrirFault::Silent => "HRIR is silent"@,
            HrirFault::Boundaries => "could not identify two concatenated HRIR boundaries"@,
            HrirFault::OddLayout => "odd HRIR layouts require at least three positions"@,
            HrirFault::ChannelCount { count } => "HRIR contains "@
                + digits(count as nat)
                + " virtual channels; supported concatenated layouts contain 1 through 16"@,
            HrirFault::TargetRate => "HRIR target sample rate must be non-zero"@,
            HrirFault::SofaRate => "SOFA target sample rate must be non-zero"@,
            HrirFault::MonoCorrection => "room-correction impulses must be mono WAV files"@,
            HrirFault::CorrectionRates => "room-correction WAV sample rates do not match"@,
            HrirFault::CorrectionRate { rate, hrir } => "room-correction sample rate "@
                + digits(rate as nat)
                + " does not match HRIR sample rate "@
                + digits(hrir as nat),
        }
    }

    pub fn message(&self) -> (r: String)
        ensures
            r@ == self.text(),
    {
        match self {
            HrirFault::WaveChannels { count } => {
                let mut text = String::from_str("HRIR must contain exactly two WAV channels; found ");
                text.append(decimal(*count as u64).as_str());
                text
            },
            HrirFault::Silent => String::from_str("HRIR is silent"),
            HrirFault::Boundaries => String::from_str(
                "could not identify two concatenated HRIR boundaries",
            ),
            HrirFault::OddLayout => String::from_str(
                "odd HRIR layouts require at least three positions",
            ),
            HrirFault::ChannelCount { count } => {
                let mut text = String::from_str("HRIR contains ");
                text.append(decimal(*count as u64).as_str());
                text.append(" virtual channels; supported concatenated layouts contain 1 through 16");
                text
            },
            HrirFault::TargetRate => String::from_str("HRIR target sample rate must be non-zero"),
            HrirFault::SofaRate => String::from_str("SOFA target sample rate must be non-zero"),
            HrirFault::MonoCorrection => String::from_str(
                "room-correction impulses must be mono WAV files",
            ),
            HrirFault::CorrectionRates => String::from_str(
                "room-correction WAV sample rates do not match",
            ),
            HrirFault::CorrectionRate { rate, hrir } => {
                let mut text = String::from_str("room-correction sample rate ");
                text.append(decimal(*rate as u64).as_str());
                text.append(" does not match HRIR sample rate ");
                text.append(decimal(*hrir as u64).as_str());
                text
            },
        }
    }
}

/// The loudest sample that counts as silence: a billionth, as a bit pattern.
pub const SILENCE: u32 = 0x3089_705f;

/// How far apart two impulses are at least.
pub const MINIMUM_IMPULSE_SPACING: usize = 64;

fn invalid<T>(fault: HrirFault) -> (r: Result<T, AppError>)
    ensures
        r == invalid_hrir::<T>(fault),
{
    Err(AppError::InvalidHrir(Reason::Hrir(fault)))
}

/// A profile that cannot be used.
pub open spec fn invalid_hrir<T>(fault: HrirFault) -> Result<T, AppError> {
    Err(AppError::InvalidHrir(Reason::Hrir(fault)))
}

/// The samples of a wave file, channel by channel.
#[derive(Clone, Debug)]
pub struct WaveData {
    pub sample_rate: u32,
    pub channels: Vec<Vec<u32>>,
}

/// What is wrong with the samples of a wave file, if anything.
pub open spec fn wave_fault(
    channels: u16,
    sample_rate: u32,
    samples: Seq<u32>,
    description: Seq<char>,
) -> Option<Seq<char>> {
    if channels == 0 || sample_rate == 0 {
        Some(description + " has an invalid channel count or sample rate"@)
    } else if samples.len() == 0 || samples.len() % channels as nat != 0 {
        Some(description + " contains no complete audio frames"@)
    } else if !(forall|i: int| 0 <= i < samples.len() ==> finite_sample(#[trigger] samples[i])) {
        Some(description + " contains NaN or infinite samples"@)
    } else {
        None
    }
}

fn invalid_wave<T>(description: &str, rest: &str) -> (r: Result<T, AppError>)
    ensures
        r is Err,
        r->Err_0 is InvalidHrir,
        r->Err_0.text() == description@ + rest@,
{
    Err(AppError::InvalidHrir(Reason::Note(text_pair(description, rest))))
}

/// Takes the samples of a wave file apart.
pub fn wave_from_samples(
    channels: u16,
    sample_rate: u32,
    samples: &[u32],
    description: &str,
) -> (r: Result<WaveData, AppError>)
    ensures
        match wave_fault(channels, sample_rate, samples@, description@) {
            Some(text) => r is Err && r->Err_0 is InvalidHrir && r->Err_0.text() == text,
            None => r is Ok && r->Ok_0.sample_rate == sample_rate && channel_views(
                r->Ok_0.channels@,
            ) == planar(samples@, channels as nat),
        },
{
    if channels == 0 || sample_rate == 0 {
        return invalid_wave(description, " has an invalid channel count or sample rate");
    }
    if samples.len() == 0 || samples.len() % channels as usize != 0 {
        return invalid_wave(description, " contains no complete audio frames");
    }
    if !all_finite(samples) {
        return invalid_wave(description, " contains NaN or infinite samples");
    }
    Ok(WaveData { sample_rate, channels: deinterleave(samples, channels as usize) })
}

/// Impulse responses from one speaker to both ears.
#[derive(Clone, Debug)]
pub struct HrirChannel {
    pub speaker: Speaker,
    pub left: Vec<u32>,
    pub right: Vec<u32>,
}

/// What a channel holds.
pub struct HrirView {
    pub speaker: Speaker,
    pub left: Seq<u32>,
    pub right: Seq<u32>,
}

impl View for HrirChannel {
    type V = HrirView;

    open spec fn view(&self) -> HrirView {
        HrirView { speaker: self.speaker, left: self.left@, right: self.right@ }
    }
}

/// The views of a list of channels.
pub open spec fn hrir_views(channels: Seq<HrirChannel>) -> Seq<HrirView> {
    channels.map_values(|channel: HrirChannel| channel@)
}

/// A measured direction besides those of the speakers: right, forward, up.
#[derive(Clone, Debug)]
pub struct DirectionalHrir {
    pub direction: [u32; 3],
    pub left: Vec<u32>,
    pub right: Vec<u32>,
}

/// A profile of impulse responses.
#[derive(Clone, Debug)]
pub struct HrirSet {
    pub sample_rate: u32,
    pub channels: Vec<HrirChannel>,
    /// Further directions for moving objects.
    pub directional: Vec<DirectionalHrir>,
}

/// The size of a sample without its sign.
pub open spec fn magnitude(bits: u32) -> nat {
    bits as nat % 0x8000_0000
}

/// Whether a sample is more than silence.
pub open spec fn loud(bits: u32) -> bool {
    magnitude(bits) > SILENCE
}

/// The first place at or behind `start` that is louder than a threshold in
/// either channel, or the end.
pub open spec fn louder_place(left: Seq<u32>, right: Seq<u32>, threshold: nat, start: nat) -> nat
    decreases left.len() - start,
{
    if start >= left.len() {
        left.len()
    } else if magnitude(left[start as int]) > threshold || magnitude(right[start as int])
        > threshold {
        start
    } else {
        louder_place(left, right, threshold, start + 1)
    }
}

fn find_louder(left: &[u32], right: &[u32], threshold: u32, start: usize) -> (r: usize)
    requires
        left@.len() == right@.len(),
        start <= left@.len(),
    ensures
        r == louder_place(left@, right@, threshold as nat, start as nat),
        start <= r <= left@.len(),
{
    let mut i: usize = start;
    while i < left.len()
        invariant
            left@.len() == right@.len(),
            start <= i <= left@.len(),
            louder_place(left@, right@, threshold as nat, start as nat) == louder_place(
                left@,
                right@,
                threshold as nat,
                i as nat,
            ),
        decreases left@.len() - i,
    {
        if left[i] % 0x8000_0000 > threshold || right[i] % 0x8000_0000 > threshold {
            return i;
        }
        i = i + 1;
    }
    i
}

/// The largest magnitude among the first samples.
pub open spec fn largest(samples: Seq<u32>, count: nat) -> nat
    decreases count,
{
    if count == 0 {
        0
    } else {
        let before = largest(samples, (count - 1) as nat);
        let last = magnitude(samples[count - 1]);
        if last > before {
            last
        } else {
            before
        }
    }
}

/// The largest magnitude in both channels.
pub open spec fn peak_of(left: Seq<u32>, right: Seq<u32>) -> nat {
    let first = largest(left, left.len());
    let second = largest(right, right.len());
    if second > first {
        second
    } else {
        first
    }
}

fn find_largest(samples: &[u32]) -> (r: u32)
    ensures
        r == largest(samples@, samples@.len()),
        r < 0x8000_0000,
{
    let mut peak: u32 = 0;
    let mut i: usize = 0;
    while i < samples.len()
        invariant
            i <= samples@.len(),
            peak == largest(samples@, i as nat),
            peak < 0x8000_0000,
        decreases samples@.len() - i,
    {
        let size: u32 = samples[i] % 0x8000_0000;
        if size > peak {
            peak = size;
        }
        i = i + 1;
    }
    peak
}

/// The largest magnitude in both channels, which must be more than silence.
pub fn signal_peak(left: &[u32], right: &[u32]) -> (r: Result<u32, AppError>)
    ensures
        peak_of(left@, right@) <= SILENCE ==> r == invalid_hrir::<u32>(HrirFault::Silent),
        peak_of(left@, right@) > SILENCE ==> r is Ok && r->Ok_0 == peak_of(left@, right@),
        r is Ok ==> r->Ok_0 < 0x8000_0000,
{
    let first: u32 = find_largest(left);
    let second: u32 = find_largest(right);
    let peak: u32 = if second > first {
        second
    } else {
        first
    };
    if peak <= SILENCE {
        return invalid(HrirFault::Silent);
    }
    Ok(peak)
}

/// Half of a number whose bit pattern is given, where that has no fewer than the
/// smallest exponent.
pub open spec fn halved(bits: nat) -> nat {
    (bits - 0x0080_0000) as nat
}

/// The distance between the first two impulses.
pub open spec fn segment_length(left: Seq<u32>, right: Seq<u32>, threshold: nat) -> Result<
    usize,
    AppError,
> {
    let first = louder_place(left, right, threshold, 0);
    let second = louder_place(left, right, threshold, first + 65);
    if first < left.len() && second < left.len() {
        Ok((second - first) as usize)
    } else {
        invalid_hrir(HrirFault::Boundaries)
    }
}

/// Finds the distance between the first two impulses: the second is the first
/// loud place far enough behind the first.
pub fn detect_segment_length(left: &[u32], right: &[u32], threshold: u32) -> (r: Result<
    usize,
    AppError,
>)
    requires
        left@.len() == right@.len(),
    ensures
        r == segment_length(left@, right@, threshold as nat),
        r is Ok ==> r->Ok_0 > MINIMUM_IMPULSE_SPACING,
{
    let first: usize = find_louder(left, right, threshold, 0);
    if first >= left.len() {
        return invalid(HrirFault::Boundaries);
    }
    if left.len() - first <= 65 {
        assert(louder_place(left@, right@, threshold as nat, (first + 65) as nat) == left@.len());
        return invalid(HrirFault::Boundaries);
    }
    let second: usize = find_louder(left, right, threshold, first + 65);
    if second >= left.len() {
        return invalid(HrirFault::Boundaries);
    }
    Ok(second - first)
}

/// The part of a channel that belongs to one segment.
pub open spec fn segment(samples: Seq<u32>, length: nat, index: nat) -> Seq<u32> {
    let start = (index * length) as int;
    let end = start + length;
    samples.subrange(
        start,
        if end < samples.len() {
            end
        } else {
            samples.len() as int
        },
    )
}

/// How many segments a number of samples makes.
pub open spec fn segment_count(samples: nat, length: nat) -> nat {
    ((samples + length - 1) / length as int) as nat
}

/// The segments of both channels.
pub open spec fn segments_of(left: Seq<u32>, right: Seq<u32>, length: nat) -> Seq<
    (Seq<u32>, Seq<u32>),
> {
    Seq::new(
        segment_count(left.len(), length),
        |i: int| (segment(left, length, i as nat), segment(right, length, i as nat)),
    )
}

/// Whether nothing in a channel is more than silence.
pub open spec fn silent(samples: Seq<u32>) -> bool {
    forall|i: int| 0 <= i < samples.len() ==> !loud(#[trigger] samples[i])
}

/// The segments without the silent ones at the end.
pub open spec fn without_silence(list: Seq<(Seq<u32>, Seq<u32>)>) -> Seq<(Seq<u32>, Seq<u32>)>
    decreases list.len(),
{
    if list.len() > 0 && silent(list.last().0) && silent(list.last().1) {
        without_silence(list.drop_last())
    } else {
        list
    }
}

/// The segments of a profile, even in number: the third of an odd number stands
/// twice.
pub open spec fn positions(list: Seq<(Seq<u32>, Seq<u32>)>) -> Result<
    Seq<(Seq<u32>, Seq<u32>)>,
    AppError,
> {
    if list.len() % 2 == 0 {
        Ok(list)
    } else if list.len() < 3 {
        invalid_hrir(HrirFault::OddLayout)
    } else {
        Ok(list.insert(3, list[2]))
    }
}

/// The length of a segment without silence at its end, and at least one sample.
pub open spec fn solid_length(left: Seq<u32>, right: Seq<u32>, count: nat) -> nat
    decreases count,
{
    if count == 0 {
        1
    } else if loud(left[count - 1]) || loud(right[count - 1]) {
        count
    } else {
        solid_length(left, right, (count - 1) as nat)
    }
}

/// The first samples of a channel, or all of them.
pub open spec fn shortened(samples: Seq<u32>, length: nat) -> Seq<u32> {
    if length < samples.len() {
        samples.take(length as int)
    } else {
        samples
    }
}

/// The channel of a speaker. The low-frequency channel takes the segment before
/// its own.
pub open spec fn profile_channel(
    speakers: Seq<Speaker>,
    list: Seq<(Seq<u32>, Seq<u32>)>,
    index: nat,
) -> HrirView {
    let speaker = speakers[index as int];
    let place = if speaker == Speaker::Lfe && index > 0 {
        index - 1
    } else {
        index as int
    };
    let left = list[place].0;
    let right = list[place].1;
    let length = solid_length(left, right, left.len());
    HrirView { speaker, left: shortened(left, length), right: shortened(right, length) }
}

/// The channels of a profile of this many positions.
pub open spec fn profile(list: Seq<(Seq<u32>, Seq<u32>)>) -> Result<Seq<HrirView>, AppError> {
    match default_layout(list.len()) {
        None => invalid_hrir(HrirFault::ChannelCount { count: list.len() as usize }),
        Some(speakers) => Ok(
            Seq::new(speakers.len(), |i: int| profile_channel(speakers, list, i as nat)),
        ),
    }
}

/// The channels of a profile from two channels of concatenated impulses.
pub open spec fn concatenated(left: Seq<u32>, right: Seq<u32>) -> Result<Seq<HrirView>, AppError> {
    let start = louder_place(left, right, SILENCE as nat, 0) as int;
    let first = left.skip(start);
    let second = right.skip(start);
    let peak = peak_of(first, second);
    if peak <= SILENCE {
        invalid_hrir(HrirFault::Silent)
    } else {
        match segment_length(first, second, halved(peak)) {
            Err(e) => Err(e),
            Ok(length) => match positions(
                without_silence(segments_of(first, second, length as nat)),
            ) {
                Err(e) => Err(e),
                Ok(list) => profile(list),
            },
        }
    }
}

/// The contents of a list of segments.
pub open spec fn segment_views(list: Seq<(Vec<u32>, Vec<u32>)>) -> Seq<(Seq<u32>, Seq<u32>)> {
    list.map_values(|pair: (Vec<u32>, Vec<u32>)| (pair.0@, pair.1@))
}

fn copy_part(samples: &[u32], start: usize, end: usize) -> (r: Vec<u32>)
    requires
        start <= end <= samples@.len(),
    ensures
        r@ == samples@.subrange(start as int, end as int),
{
    let mut copy: Vec<u32> = Vec::new();
    let mut i: usize = start;
    while i < end
        invariant
            start <= i <= end <= samples@.len(),
            copy@ =~= samples@.subrange(start as int, i as int),
        decreases end - i,
    {
        copy.push(samples[i]);
        i = i + 1;
    }
    copy
}

/// Cuts both channels into segments.
pub fn split_segments(left: &[u32], right: &[u32], length: usize) -> (r: Vec<(Vec<u32>, Vec<u32>)>)
    requires
        left@.len() == right@.len(),
        length > 0,
    ensures
        segment_views(r@) == segments_of(left@, right@, length as nat),
{
    let ghost wanted = segments_of(left@, right@, length as nat);
    let mut list: Vec<(Vec<u32>, Vec<u32>)> = Vec::new();
    let mut start: usize = 0;
    let total: usize = left.len();
    proof {
        assert(0 * length == 0) by (nonlinear_arith);
        if total == 0 {
            assert((length - 1) / length as int == 0) by (nonlinear_arith)
                requires
                    length > 0,
            ;
        }
    }
    while start < total
        invariant
            left@.len() == right@.len(),
            total == left@.len(),
            length > 0,
            start <= left@.len(),
            wanted == segments_of(left@, right@, length as nat),
            start == list@.len() * length || start == left@.len(),
            start == left@.len() ==> list@.len() == wanted.len(),
            list@.len() <= wanted.len(),
            segment_views(list@) =~= wanted.take(list@.len() as int),
        decreases left@.len() - start,
    {
        let ghost known = list@;
        let ghost index = list@.len();
        let end: usize = if total - start > length {
            start + length
        } else {
            total
        };
        proof {
            lemma_segment_step(left@.len(), length as nat, index);
            assert((index + 1) * length == index * length + length) by (nonlinear_arith);
        }
        let first = copy_part(left, start, end);
        let second = copy_part(right, start, end);
        assert(first@ =~= segment(left@, length as nat, index));
        assert(second@ =~= segment(right@, length as nat, index));
        list.push((first, second));
        assert(segment_views(list@) =~= segment_views(known).push((first@, second@)));
        assert(segment_views(list@) =~= wanted.take(list@.len() as int));
        start = end;
    }
    assert(wanted.take(list@.len() as int) =~= wanted);
    list
}

proof fn lemma_segment_step(samples: nat, length: nat, index: nat)
    requires
        length > 0,
        index * length < samples,
    ensures
        index < segment_count(samples, length),
        index * length + length >= samples ==> segment_count(samples, length) == index + 1,
{
    let total = samples + length - 1;
    assert(total >= (index + 1) * length) by (nonlinear_arith)
        requires
            index * length < samples,
            total == samples + length - 1,
    ;
    assert(total / length as int >= index + 1) by (nonlinear_arith)
        requires
            total >= (index + 1) * length,
            length > 0,
    ;
    if index * length + length >= samples {
        assert(total < (index + 2) * length) by (nonlinear_arith)
            requires
                index * length + length >= samples,
                total == samples + length - 1,
                length > 0,
        ;
        assert(total / length as int <= index + 1) by (nonlinear_arith)
            requires
                total < (index + 2) * length,
                length > 0,
        ;
    }
}

fn is_silent(samples: &[u32]) -> (r: bool)
    ensures
        r == silent(samples@),
{
    let mut i: usize = 0;
    while i < samples.len()
        invariant
            i <= samples@.len(),
            forall|k: int| 0 <= k < i ==> !loud(#[trigger] samples@[k]),
        decreases samples@.len() - i,
    {
        if samples[i] % 0x8000_0000 > SILENCE {
            assert(loud(samples@[i as int]));
            return false;
        }
        i = i + 1;
    }
    true
}

fn drop_silence(list: Vec<(Vec<u32>, Vec<u32>)>) -> (r: Vec<(Vec<u32>, Vec<u32>)>)
    ensures
        segment_views(r@) == without_silence(segment_views(list@)),
        r@.len() <= list@.len(),
        r@ == list@.take(r@.len() as int),
{
    let ghost all = list@;
    let ghost views = segment_views(list@);
    let mut kept = list;
    assert(views.take(kept@.len() as int) =~= views);
    while kept.len() > 0
        invariant
            views == segment_views(all),
            kept@.len() <= all.len(),
            kept@ =~= all.take(kept@.len() as int),
            without_silence(views) == without_silence(views.take(kept@.len() as int)),
        ensures
            kept@.len() <= all.len(),
            kept@ =~= all.take(kept@.len() as int),
            without_silence(views) == views.take(kept@.len() as int),
        decreases kept@.len(),
    {
        let last: usize = kept.len() - 1;
        let ghost part = views.take(kept@.len() as int);
        assert(part.last() == (kept@[last as int].0@, kept@[last as int].1@));
        if !is_silent(kept[last].0.as_slice()) || !is_silent(kept[last].1.as_slice()) {
            break;
        }
        assert(part.drop_last() =~= views.take(last as int));
        let _ = kept.pop();
    }
    assert(segment_views(kept@) =~= views.take(kept@.len() as int));
    kept
}

fn copy_pair(pair: &(Vec<u32>, Vec<u32>)) -> (r: (Vec<u32>, Vec<u32>))
    ensures
        r.0@ == pair.0@,
        r.1@ == pair.1@,
{
    let first = copy_part(pair.0.as_slice(), 0, pair.0.len());
    let second = copy_part(pair.1.as_slice(), 0, pair.1.len());
    assert(first@ =~= pair.0@);
    assert(second@ =~= pair.1@);
    (first, second)
}

fn even_positions(list: Vec<(Vec<u32>, Vec<u32>)>) -> (r: Result<Vec<(Vec<u32>, Vec<u32>)>, AppError>)
    ensures
        match positions(segment_views(list@)) {
            Err(e) => r == Err::<Vec<(Vec<u32>, Vec<u32>)>, AppError>(e),
            Ok(views) => r is Ok && segment_views(r->Ok_0@) == views,
        },
{
    if list.len() % 2 == 0 {
        return Ok(list);
    }
    if list.len() < 3 {
        return invalid(HrirFault::OddLayout);
    }
    let ghost views = segment_views(list@);
    let copy = copy_pair(&list[2]);
    assert(views[2] == (copy.0@, copy.1@));
    let mut grown = list;
    grown.insert(3, copy);
    assert(segment_views(grown@) =~= views.insert(3, views[2]));
    Ok(grown)
}

fn find_solid_length(left: &[u32], right: &[u32]) -> (r: usize)
    requires
        left@.len() == right@.len(),
    ensures
        r == solid_length(left@, right@, left@.len()),
{
    let mut count: usize = left.len();
    while count > 0
        invariant
            left@.len() == right@.len(),
            count <= left@.len(),
            solid_length(left@, right@, left@.len()) == solid_length(left@, right@, count as nat),
        decreases count,
    {
        if left[count - 1] % 0x8000_0000 > SILENCE || right[count - 1] % 0x8000_0000 > SILENCE {
            return count;
        }
        count = count - 1;
    }
    1
}

fn shorten(samples: &[u32], length: usize) -> (r: Vec<u32>)
    ensures
        r@ == shortened(samples@, length as nat),
{
    if length < samples.len() {
        let part = copy_part(samples, 0, length);
        assert(part@ =~= samples@.take(length as int));
        part
    } else {
        let part = copy_part(samples, 0, samples.len());
        assert(part@ =~= samples@);
        part
    }
}

/// Cuts the silence at the end of an impulse response off, the same for both
/// ears.
pub fn trim_trailing_silence(left: &[u32], right: &[u32]) -> (r: (Vec<u32>, Vec<u32>))
    requires
        left@.len() == right@.len(),
    ensures
        r.0@ == shortened(left@, solid_length(left@, right@, left@.len())),
        r.1@ == shortened(right@, solid_length(left@, right@, left@.len())),
{
    let length: usize = find_solid_length(left, right);
    (shorten(left, length), shorten(right, length))
}

/// Samples with silence behind them up to a length.
pub open spec fn extended(samples: Seq<u32>, length: nat) -> Seq<u32> {
    Seq::new(
        length,
        |i: int|
            if i < samples.len() {
                samples[i]
            } else {
                0
            },
    )
}

fn extend(samples: &[u32], length: usize) -> (r: Vec<u32>)
    requires
        samples@.len() <= length,
    ensures
        r@ == extended(samples@, length as nat),
{
    let mut list: Vec<u32> = Vec::new();
    let mut i: usize = 0;
    while i < length
        invariant
            i <= length,
            samples@.len() <= length,
            list@ =~= extended(samples@, length as nat).take(i as int),
        decreases length - i,
    {
        if i < samples.len() {
            list.push(samples[i]);
        } else {
            list.push(0);
        }
        i = i + 1;
    }
    assert(extended(samples@, length as nat).take(length as int) =~= extended(
        samples@,
        length as nat,
    ));
    list
}

/// Whether all samples of a channel are finite.
pub open spec fn finite_samples(samples: Seq<u32>) -> bool {
    forall|i: int| 0 <= i < samples.len() ==> finite_sample(#[trigger] samples[i])
}

/// What keeps a measured response from being used.
pub open spec fn response_fault(left: Seq<u32>, right: Seq<u32>, label: Seq<char>) -> Option<Seq<char>> {
    if !finite_samples(left) || !finite_samples(right) {
        Some("SOFA HRIR contains NaN or infinite samples at "@ + label)
    } else if peak_of(left, right) <= SILENCE {
        Some("SOFA HRIR has no usable response at "@ + label)
    } else {
        None
    }
}

/// Brings the two ears of a measured response to one length and cuts the silence
/// at their end off.
pub fn measured_response(left: &[u32], right: &[u32], label: &str) -> (r: Result<
    (Vec<u32>, Vec<u32>),
    AppError,
>)
    ensures
        match response_fault(left@, right@, label@) {
            Some(text) => r is Err && r->Err_0 is InvalidHrir && r->Err_0.text() == text,
            None => {
                let length = if left@.len() < right@.len() {
                    right@.len()
                } else {
                    left@.len()
                };
                let first = extended(left@, length);
                let second = extended(right@, length);
                &&& r is Ok
                &&& (r->Ok_0).0@ == shortened(first, solid_length(first, second, length))
                &&& (r->Ok_0).1@ == shortened(second, solid_length(first, second, length))
            },
        },
{
    if !all_finite(left) || !all_finite(right) {
        return Err(
            AppError::InvalidHrir(
                Reason::Note(text_pair("SOFA HRIR contains NaN or infinite samples at ", label)),
            ),
        );
    }
    if signal_peak(left, right).is_err() {
        return Err(
            AppError::InvalidHrir(
                Reason::Note(text_pair("SOFA HRIR has no usable response at ", label)),
            ),
        );
    }
    let length: usize = if left.len() < right.len() {
        right.len()
    } else {
        left.len()
    };
    let first = extend(left, length);
    let second = extend(right, length);
    Ok(trim_trailing_silence(first.as_slice(), second.as_slice()))
}

fn name_segments(list: &Vec<(Vec<u32>, Vec<u32>)>) -> (r: Result<Vec<HrirChannel>, AppError>)
    requires
        forall|i: int|
            0 <= i < list@.len() ==> (#[trigger] list@[i]).0@.len() == list@[i].1@.len(),
    ensures
        match profile(segment_views(list@)) {
            Err(e) => r == Err::<Vec<HrirChannel>, AppError>(e),
            Ok(channels) => r is Ok && hrir_views(r->Ok_0@) == channels,
        },
{
    let ghost views = segment_views(list@);
    let speakers = match default_source_layout(list.len()) {
        None => return invalid(HrirFault::ChannelCount { count: list.len() }),
        Some(speakers) => speakers,
    };
    let ghost wanted = Seq::new(
        speakers@.len(),
        |i: int| profile_channel(speakers@, views, i as nat),
    );
    proof {
        lemma_layout_length(list@.len());
    }
    let mut channels: Vec<HrirChannel> = Vec::new();
    let mut i: usize = 0;
    while i < speakers.len()
        invariant
            i <= speakers@.len() == list@.len(),
            views == segment_views(list@),
            forall|k: int|
                0 <= k < list@.len() ==> (#[trigger] list@[k]).0@.len() == list@[k].1@.len(),
            wanted == Seq::new(
                speakers@.len(),
                |i: int| profile_channel(speakers@, views, i as nat),
            ),
            hrir_views(channels@) =~= wanted.take(i as int),
        decreases speakers@.len() - i,
    {
        let speaker: Speaker = speakers[i];
        let place: usize = if speaker == Speaker::Lfe && i > 0 {
            i - 1
        } else {
            i
        };
        assert(views[place as int] == (list@[place as int].0@, list@[place as int].1@));
        let ghost known = channels@;
        let (left, right) = trim_trailing_silence(
            list[place].0.as_slice(),
            list[place].1.as_slice(),
        );
        let channel = HrirChannel { speaker, left, right };
        channels.push(channel);
        assert(hrir_views(channels@) =~= hrir_views(known).push(channel@));
        i = i + 1;
    }
    assert(wanted.take(i as int) =~= wanted);
    Ok(channels)
}

proof fn lemma_layout_length(count: nat)
    ensures
        default_layout(count) is Some ==> default_layout(count)->0.len() == count,
{
}

proof fn lemma_equal_segments(left: Seq<u32>, right: Seq<u32>, length: nat, index: nat)
    requires
        left.len() == right.len(),
        length > 0,
        index < segment_count(left.len(), length),
    ensures
        segment(left, length, index).len() == segment(right, length, index).len(),
{
    let total = left.len() + length - 1;
    assert(index * length < left.len()) by (nonlinear_arith)
        requires
            index < total / length as int,
            total == left.len() + length - 1,
            length > 0,
    ;
    assert(index * length >= 0) by (nonlinear_arith);
}

impl HrirSet {
    /// Reads a profile of concatenated impulses from a wave of two channels.
    pub fn from_wave(wave: &WaveData) -> (r: Result<Self, AppError>)
        requires
            wave.channels@.len() == 2 ==> wave.channels@[0]@.len() == wave.channels@[1]@.len(),
        ensures
            wave.channels@.len() != 2 ==> r == invalid_hrir::<HrirSet>(
                HrirFault::WaveChannels { count: wave.channels@.len() as usize },
            ),
            wave.channels@.len() == 2 ==> (match concatenated(
                wave.channels@[0]@,
                wave.channels@[1]@,
            ) {
                Err(e) => r == Err::<HrirSet, AppError>(e),
                Ok(channels) => {
                    &&& r is Ok
                    &&& r->Ok_0.sample_rate == wave.sample_rate
                    &&& hrir_views(r->Ok_0.channels@) == channels
                    &&& r->Ok_0.directional@.len() == 0
                },
            }),
    {
        if wave.channels.len() != 2 {
            return invalid(HrirFault::WaveChannels { count: wave.channels.len() });
        }
        let start: usize = find_louder(
            wave.channels[0].as_slice(),
            wave.channels[1].as_slice(),
            SILENCE,
            0,
        );
        let left = copy_part(wave.channels[0].as_slice(), start, wave.channels[0].len());
        let right = copy_part(wave.channels[1].as_slice(), start, wave.channels[1].len());
        assert(left@ =~= wave.channels@[0]@.skip(start as int));
        assert(right@ =~= wave.channels@[1]@.skip(start as int));
        let peak = signal_peak(left.as_slice(), right.as_slice())?;
        let threshold: u32 = peak - 0x0080_0000;
        let length = detect_segment_length(left.as_slice(), right.as_slice(), threshold)?;
        let list = split_segments(left.as_slice(), right.as_slice(), length);
        let ghost views = segments_of(left@, right@, length as nat);
        proof {
            assert forall|i: int| 0 <= i < list@.len() implies (#[trigger] list@[i]).0@.len()
                == list@[i].1@.len() by {
                lemma_equal_segments(left@, right@, length as nat, i as nat);
                assert(segment_views(list@)[i] == (list@[i].0@, list@[i].1@));
            }
        }
        let kept = drop_silence(list);
        let ghost known = segment_views(kept@);
        proof {
            assert forall|i: int| 0 <= i < known.len() implies (#[trigger] known[i]).0.len()
                == known[i].1.len() by {
                assert(known[i] == (kept@[i].0@, kept@[i].1@));
                assert(kept@[i] == list@[i]);
            }
        }
        let even = even_positions(kept)?;
        proof {
            assert forall|i: int| 0 <= i < even@.len() implies (#[trigger] even@[i]).0@.len()
                == even@[i].1@.len() by {
                assert(segment_views(even@)[i] == (even@[i].0@, even@[i].1@));
            }
        }
        let channels = name_segments(&even)?;
        Ok(HrirSet { sample_rate: wave.sample_rate, channels, directional: Vec::new() })
    }
}

/// The place of the channel of a speaker, from a place on.
pub open spec fn channel_place(channels: Seq<HrirChannel>, speaker: Speaker, start: nat) -> Option<
    nat,
>
    decreases channels.len() - start,
{
    if start >= channels.len() {
        None
    } else if channels[start as int].speaker == speaker {
        Some(start)
    } else {
        channel_place(channels, speaker, start + 1)
    }
}

/// The speakers that can stand in for another, the best first.
pub open spec fn stand_ins(speaker: Speaker) -> Seq<Speaker> {
    match speaker {
        Speaker::Lfe | Speaker::FrontCenter => seq![
            Speaker::FrontCenter,
            Speaker::FrontLeft,
            Speaker::FrontRight,
        ],
        Speaker::RearLeft => seq![Speaker::RearLeft, Speaker::SideLeft, Speaker::FrontLeft],
        Speaker::RearRight => seq![Speaker::RearRight, Speaker::SideRight, Speaker::FrontRight],
        Speaker::RearCenter => seq![
            Speaker::RearCenter,
            Speaker::RearLeft,
            Speaker::RearRight,
            Speaker::FrontCenter,
        ],
        Speaker::SideLeft => seq![Speaker::SideLeft, Speaker::RearLeft, Speaker::FrontLeft],
        Speaker::SideRight => seq![Speaker::SideRight, Speaker::RearRight, Speaker::FrontRight],
        Speaker::TopFrontLeft | Speaker::TopSideLeft | Speaker::TopRearLeft => seq![
            Speaker::TopFrontLeft,
            Speaker::TopSideLeft,
            Speaker::TopRearLeft,
            Speaker::FrontLeft,
        ],
        Speaker::TopFrontRight | Speaker::TopSideRight | Speaker::TopRearRight => seq![
            Speaker::TopFrontRight,
            Speaker::TopSideRight,
            Speaker::TopRearRight,
            Speaker::FrontRight,
        ],
        Speaker::TopFrontCenter | Speaker::TopRearCenter => seq![
            Speaker::TopFrontCenter,
            Speaker::TopRearCenter,
            Speaker::FrontCenter,
        ],
        Speaker::WideLeft | Speaker::FrontLeft => seq![Speaker::WideLeft, Speaker::FrontLeft],
        Speaker::WideRight | Speaker::FrontRight => seq![Speaker::WideRight, Speaker::FrontRight],
    }
}

/// The place of the first of a list of speakers that has a channel.
pub open spec fn first_place(channels: Seq<HrirChannel>, list: Seq<Speaker>, start: nat) -> Option<
    nat,
>
    decreases list.len() - start,
{
    if start >= list.len() {
        None
    } else if channel_place(channels, list[start as int], 0) is Some {
        channel_place(channels, list[start as int], 0)
    } else {
        first_place(channels, list, start + 1)
    }
}

/// The place of the channel that serves a speaker.
pub open spec fn serving_place(channels: Seq<HrirChannel>, speaker: Speaker) -> Option<nat> {
    match channel_place(channels, speaker, 0) {
        Some(place) => Some(place),
        None => first_place(channels, stand_ins(speaker), 0),
    }
}

fn find_channel(channels: &[HrirChannel], speaker: Speaker) -> (r: Option<usize>)
    ensures
        match channel_place(channels@, speaker, 0) {
            None => r is None,
            Some(place) => r is Some && r->0 == place && r->0 < channels@.len(),
        },
{
    let mut i: usize = 0;
    while i < channels.len()
        invariant
            i <= channels@.len(),
            channel_place(channels@, speaker, 0) == channel_place(channels@, speaker, i as nat),
        decreases channels@.len() - i,
    {
        if channels[i].speaker == speaker {
            return Some(i);
        }
        i = i + 1;
    }
    None
}

fn list_stand_ins(speaker: Speaker) -> (r: Vec<Speaker>)
    ensures
        r@ == stand_ins(speaker),
{
    match speaker {
        Speaker::Lfe | Speaker::FrontCenter => copy_speakers(
            &[Speaker::FrontCenter, Speaker::FrontLeft, Speaker::FrontRight],
        ),
        Speaker::RearLeft => copy_speakers(
            &[Speaker::RearLeft, Speaker::SideLeft, Speaker::FrontLeft],
        ),
        Speaker::RearRight => copy_speakers(
            &[Speaker::RearRight, Speaker::SideRight, Speaker::FrontRight],
        ),
        Speaker::RearCenter => copy_speakers(
            &[
                Speaker::RearCenter,
                Speaker::RearLeft,
                Speaker::RearRight,
                Speaker::FrontCenter,
            ],
        ),
        Speaker::SideLeft => copy_speakers(
            &[Speaker::SideLeft, Speaker::RearLeft, Speaker::FrontLeft],
        ),
        Speaker::SideRight => copy_speakers(
            &[Speaker::SideRight, Speaker::RearRight, Speaker::FrontRight],
        ),
        Speaker::TopFrontLeft | Speaker::TopSideLeft | Speaker::TopRearLeft => copy_speakers(
            &[
                Speaker::TopFrontLeft,
                Speaker::TopSideLeft,
                Speaker::TopRearLeft,
                Speaker::FrontLeft,
            ],
        ),
        Speaker::TopFrontRight | Speaker::TopSideRight | Speaker::TopRearRight => copy_speakers(
            &[
                Speaker::TopFrontRight,
                Speaker::TopSideRight,
                Speaker::TopRearRight,
                Speaker::FrontRight,
            ],
        ),
        Speaker::TopFrontCenter | Speaker::TopRearCenter => copy_speakers(
            &[Speaker::TopFrontCenter, Speaker::TopRearCenter, Speaker::FrontCenter],
        ),
        Speaker::WideLeft | Speaker::FrontLeft => copy_speakers(
            &[Speaker::WideLeft, Speaker::FrontLeft],
        ),
        Speaker::WideRight | Speaker::FrontRight => copy_speakers(
            &[Speaker::WideRight, Speaker::FrontRight],
        ),
    }
}

fn find_first(channels: &[HrirChannel], list: &[Speaker]) -> (r: Option<usize>)
    ensures
        match first_place(channels@, list@, 0) {
            None => r is None,
            Some(place) => r is Some && r->0 == place && r->0 < channels@.len(),
        },
{
    let mut i: usize = 0;
    while i < list.len()
        invariant
            i <= list@.len(),
            first_place(channels@, list@, 0) == first_place(channels@, list@, i as nat),
        decreases list@.len() - i,
    {
        let found: Option<usize> = find_channel(channels, list[i]);
        if found.is_some() {
            return found;
        }
        i = i + 1;
    }
    None
}

proof fn lemma_place_has_speaker(channels: Seq<HrirChannel>, speaker: Speaker, start: nat)
    requires
        channel_place(channels, speaker, start) is Some,
    ensures
        ({
            let place = channel_place(channels, speaker, start)->0;
            start <= place < channels.len() && channels[place as int].speaker == speaker
        }),
    decreases channels.len() - start,
{
    if channels[start as int].speaker != speaker {
        lemma_place_has_speaker(channels, speaker, start + 1);
    }
}

impl HrirSet {
    /// The channel that serves a speaker: its own, or that of the best stand-in.
    pub fn channel(&self, speaker: Speaker) -> (r: Option<&HrirChannel>)
        ensures
            match serving_place(self.channels@, speaker) {
                None => r is None,
                Some(place) => r is Some && place < self.channels@.len() && *r->0
                    == self.channels@[place as int],
            },
    {
        let place: Option<usize> = match find_channel(self.channels.as_slice(), speaker) {
            Some(place) => Some(place),
            None => {
                let list = list_stand_ins(speaker);
                find_first(self.channels.as_slice(), list.as_slice())
            },
        };
        match place {
            None => None,
            Some(place) => Some(&self.channels[place]),
        }
    }

    /// Whether a speaker has a channel of its own.
    pub fn has_exact(&self, speaker: Speaker) -> (r: bool)
        ensures
            r == (exists|i: int|
                0 <= i < self.channels@.len() && (#[trigger] self.channels@[i]).speaker
                    == speaker),
    {
        let found: Option<usize> = find_channel(self.channels.as_slice(), speaker);
        proof {
            if channel_place(self.channels@, speaker, 0) is Some {
                lemma_place_has_speaker(self.channels@, speaker, 0);
            } else {
                lemma_no_place(self.channels@, speaker, 0);
            }
        }
        found.is_some()
    }

    /// The speaker whose channel serves another.
    pub fn resolved_speaker(&self, speaker: Speaker) -> (r: Option<Speaker>)
        ensures
            r == (match serving_place(self.channels@, speaker) {
                None => None,
                Some(place) => Some(self.channels@[place as int].speaker),
            }),
    {
        match self.channel(speaker) {
            None => None,
            Some(channel) => Some(channel.speaker),
        }
    }

    /// The speakers of the channels.
    pub fn speakers(&self) -> (r: Vec<Speaker>)
        ensures
            r@ == self.channels@.map_values(|channel: HrirChannel| channel.speaker),
    {
        let ghost wanted = self.channels@.map_values(|channel: HrirChannel| channel.speaker);
        let mut list: Vec<Speaker> = Vec::new();
        let mut i: usize = 0;
        while i < self.channels.len()
            invariant
                i <= self.channels@.len(),
                wanted == self.channels@.map_values(|channel: HrirChannel| channel.speaker),
                list@ =~= wanted.take(i as int),
            decreases self.channels@.len() - i,
        {
            list.push(self.channels[i].speaker);
            i = i + 1;
        }
        assert(wanted.take(i as int) =~= wanted);
        list
    }
}

proof fn lemma_no_place(channels: Seq<HrirChannel>, speaker: Speaker, start: nat)
    requires
        channel_place(channels, speaker, start) is None,
    ensures
        forall|i: int| start <= i < channels.len() ==> (#[trigger] channels[i]).speaker != speaker,
    decreases channels.len() - start,
{
    if start < channels.len() {
        lemma_no_place(channels, speaker, start + 1);
    }
}

/// A speaker with a channel of its own is served by it.
pub proof fn law_own_channel_serves_first(channels: Seq<HrirChannel>, index: nat)
    requires
        index < channels.len(),
    ensures
        ({
            let place = serving_place(channels, channels[index as int].speaker);
            place is Some && place->0 <= index && channels[place->0 as int].speaker
                == channels[index as int].speaker
        }),
{
    let speaker = channels[index as int].speaker;
    if channel_place(channels, speaker, 0) is None {
        lemma_no_place(channels, speaker, 0);
    } else {
        lemma_place_has_speaker(channels, speaker, 0);
        lemma_place_is_first(channels, speaker, 0, index);
    }
}

proof fn lemma_place_is_first(channels: Seq<HrirChannel>, speaker: Speaker, start: nat, index: nat)
    requires
        start <= index < channels.len(),
        channels[index as int].speaker == speaker,
    ensures
        channel_place(channels, speaker, start) is Some,
        channel_place(channels, speaker, start)->0 <= index,
    decreases index - start,
{
    if channels[start as int].speaker != speaker {
        lemma_place_is_first(channels, speaker, start + 1, index);
    }
}

/// Whether a profile must be resampled for a stream.
pub fn resampling_needed(profile_rate: u32, stream_rate: u32) -> (r: Result<bool, AppError>)
    ensures
        stream_rate == 0 ==> r == invalid_hrir::<bool>(HrirFault::TargetRate),
        stream_rate > 0 ==> r == Ok::<bool, AppError>(profile_rate != stream_rate),
{
    if stream_rate == 0 {
        return invalid(HrirFault::TargetRate);
    }
    Ok(profile_rate != stream_rate)
}

/// Whether a profile is a SOFA file, by the extension of its name.
pub fn is_sofa(extension: &Option<String>) -> (r: bool)
    ensures
        r == (extension is Some && same_letters(extension->0@, "sofa"@)),
{
    match extension {
        None => false,
        Some(extension) => equals_ignoring_case(extension.as_str(), "sofa"),
    }
}

proof fn lemma_first_place_in_range(channels: Seq<HrirChannel>, list: Seq<Speaker>, start: nat)
    ensures
        first_place(channels, list, start) matches Some(place) ==> place < channels.len(),
    decreases list.len() - start,
{
    if start < list.len() {
        if channel_place(channels, list[start as int], 0) is Some {
            lemma_place_has_speaker(channels, list[start as int], 0);
        }
        lemma_first_place_in_range(channels, list, start + 1);
    }
}

/// The channel that serves a speaker is one of the profile.
pub proof fn lemma_serving_place_in_range(channels: Seq<HrirChannel>, speaker: Speaker)
    ensures
        serving_place(channels, speaker) matches Some(place) ==> place < channels.len(),
{
    if channel_place(channels, speaker, 0) is Some {
        lemma_place_has_speaker(channels, speaker, 0);
    }
    lemma_first_place_in_range(channels, stand_ins(speaker), 0);
}

/// What stands in for a speaker keeps to its hand, and both hands are treated alike.
pub proof fn law_stand_ins_keep_to_their_hand(speaker: Speaker, i: int)
    requires
        0 <= i < stand_ins(speaker).len(),
    ensures
        stand_ins(speaker.mirrored()).len() == stand_ins(speaker).len(),
        speaker.mirrored() != speaker ==> stand_ins(speaker.mirrored())[i] == stand_ins(
            speaker,
        )[i].mirrored(),
        direct_route(speaker) is Left ==> direct_route(stand_ins(speaker)[i]) is Left,
{
}

/// A surround is served by its own kind, then by the other, and then by the front. An
/// overhead speaker is served by those overhead, from the front to the rear, before
/// the front speaker of its hand; those between the hands by their likes before the
/// centre; and the wides and the front serve each other, the wides first. The
/// low-frequency channel goes with the centre.
pub proof fn law_stand_ins_are_the_nearest(speaker: Speaker)
    ensures
        ({
            let list = stand_ins(speaker);
            &&& mid(speaker) && speaker.swapped() != speaker ==> list.len() == 3 && list[0]
                == speaker && list[1] == speaker.swapped() && (list[2] is FrontLeft
                || list[2] is FrontRight)
            &&& speaker.overhead() ==> forall|i: int|
                0 <= i < list.len() - 1 ==> (#[trigger] list[i]).overhead()
            &&& speaker.overhead() ==> list.contains(speaker) && !list.last().overhead() && screen(
                list.last(),
            )
            &&& speaker.overhead() && direct_route(speaker) is Left ==> list.len() == 4
                && list[0] is TopFrontLeft && list[1] is TopSideLeft && list[2] is TopRearLeft
            &&& speaker.overhead() && direct_route(speaker) is Center ==> list.len() == 3
                && list[0] is TopFrontCenter && list[1] is TopRearCenter && list[2] is FrontCenter
            &&& speaker is FrontLeft || speaker is WideLeft ==> list.len() == 2
                && list[0] is WideLeft && list[1] is FrontLeft
            &&& speaker is FrontCenter || speaker is Lfe ==> list.len() == 3
                && list[0] is FrontCenter && list[1] is FrontLeft && list[2] is FrontRight
            &&& speaker is RearCenter ==> list.len() == 4 && list[0] is RearCenter
                && list[1] is RearLeft && list[2] is RearRight && list[3] is FrontCenter
        }),
{
    let list = stand_ins(speaker);
    if speaker.overhead() {
        assert(list[0] == list[0] && list[1] == list[1] && list[2] == list[2]);
    }
}

/// A speaker without a channel of its own is served by the first of its stand-ins
/// that has one, and by none only where none has.
pub proof fn law_the_first_stand_in_serves(channels: Seq<HrirChannel>, speaker: Speaker, i: int)
    requires
        channel_place(channels, speaker, 0) is None,
        0 <= i < stand_ins(speaker).len(),
        channel_place(channels, stand_ins(speaker)[i], 0) is Some,
        forall|k: int|
            0 <= k < i ==> channel_place(channels, #[trigger] stand_ins(speaker)[k], 0) is None,
    ensures
        serving_place(channels, speaker) == channel_place(channels, stand_ins(speaker)[i], 0),
        serving_place(channels, speaker) matches Some(place) && place < channels.len()
            && channels[place as int].speaker == stand_ins(speaker)[i],
{
    lemma_first_serves(channels, stand_ins(speaker), 0, i);
    lemma_channel_has_speaker(channels, stand_ins(speaker)[i], 0);
}

proof fn lemma_channel_has_speaker(channels: Seq<HrirChannel>, speaker: Speaker, start: nat)
    ensures
        channel_place(channels, speaker, start) matches Some(place) ==> start <= place
            < channels.len() && channels[place as int].speaker == speaker && (forall|k: int|
            start <= k < place ==> (#[trigger] channels[k]).speaker != speaker),
    decreases channels.len() - start,
{
    if start < channels.len() && channels[start as int].speaker != speaker {
        lemma_channel_has_speaker(channels, speaker, start + 1);
    }
}

proof fn lemma_first_serves(channels: Seq<HrirChannel>, list: Seq<Speaker>, start: nat, i: int)
    requires
        start <= i < list.len(),
        channel_place(channels, list[i], 0) is Some,
        forall|k: int| start <= k < i ==> channel_place(channels, #[trigger] list[k], 0) is None,
    ensures
        first_place(channels, list, start) == channel_place(channels, list[i], 0),
    decreases i - start,
{
    if start < i {
        assert(channel_place(channels, list[start as int], 0) is None);
        lemma_first_serves(channels, list, start + 1, i);
    }
}

/// The first loud place is loud in one ear, and nothing before it is in either.
pub proof fn law_the_first_loud_place_is_found(
    left: Seq<u32>,
    right: Seq<u32>,
    threshold: nat,
    start: nat,
)
    requires
        left.len() == right.len(),
        start <= left.len(),
    ensures
        ({
            let place = louder_place(left, right, threshold, start);
            &&& start <= place <= left.len()
            &&& place < left.len() ==> left[place as int] as nat % 0x8000_0000 > threshold
                || right[place as int] as nat % 0x8000_0000 > threshold
            &&& forall|i: int|
                #![trigger left[i]]
                #![trigger right[i]]
                start <= i < place ==> left[i] as nat % 0x8000_0000 <= threshold && right[i] as nat
                    % 0x8000_0000 <= threshold
        }),
    decreases left.len() - start,
{
    if start < left.len() {
        law_the_first_loud_place_is_found(left, right, threshold, start + 1);
    }
}

/// No sample of either ear is beyond the peak, and where there are any the peak is
/// the size of one.
pub proof fn law_nothing_is_louder_than_the_peak(left: Seq<u32>, right: Seq<u32>, i: int)
    ensures
        0 <= i < left.len() ==> left[i] as nat % 0x8000_0000 <= peak_of(left, right),
        0 <= i < right.len() ==> right[i] as nat % 0x8000_0000 <= peak_of(left, right),
        peak_of(left, right) > 0 ==> (exists|k: int|
            0 <= k < left.len() && magnitude(#[trigger] left[k]) == peak_of(left, right)) || (
        exists|k: int|
            0 <= k < right.len() && magnitude(#[trigger] right[k]) == peak_of(left, right)),
{
    lemma_largest(left, left.len(), i);
    lemma_largest(right, right.len(), i);
}

proof fn lemma_largest(samples: Seq<u32>, count: nat, i: int)
    requires
        count <= samples.len(),
    ensures
        0 <= i < count ==> magnitude(samples[i]) <= largest(samples, count),
        largest(samples, count) > 0 ==> exists|k: int|
            0 <= k < count && magnitude(#[trigger] samples[k]) == largest(samples, count),
    decreases count,
{
    if count > 0 {
        lemma_largest(samples, (count - 1) as nat, i);
        let before = largest(samples, (count - 1) as nat);
        if magnitude(samples[count - 1]) <= before && before > 0 {
            let k = choose|k: int|
                0 <= k < count - 1 && magnitude(#[trigger] samples[k]) == before;
            assert(magnitude(samples[k]) == largest(samples, count));
        }
    }
}

/// Half of a sample has the same digits and an exponent of one less.
pub proof fn law_half_has_one_exponent_less(bits: nat)
    requires
        0x0080_0000 <= bits < 0x8000_0000,
    ensures
        halved(bits) % 0x0080_0000 == bits % 0x0080_0000,
        halved(bits) / 0x0080_0000 + 1 == bits / 0x0080_0000,
{
}

/// Two impulses are at least 65 samples apart: the segment is the distance from the
/// first loud place to the next loud one so far behind it.
pub proof fn law_segments_span_two_impulses(left: Seq<u32>, right: Seq<u32>, threshold: nat)
    requires
        left.len() == right.len() <= usize::MAX,
        segment_length(left, right, threshold) is Ok,
    ensures
        ({
            let length = segment_length(left, right, threshold)->Ok_0;
            let first = louder_place(left, right, threshold, 0);
            &&& length >= 65
            &&& first + length < left.len()
            &&& magnitude(left[(first + length) as int]) > threshold || magnitude(
                right[(first + length) as int],
            ) > threshold
            &&& forall|i: int|
                #![trigger left[i]]
                #![trigger right[i]]
                first + 65 <= i < first + length ==> magnitude(left[i]) <= threshold && magnitude(
                    right[i],
                ) <= threshold
        }),
{
    let first = louder_place(left, right, threshold, 0);
    law_the_first_loud_place_is_found(left, right, threshold, 0);
    if first + 65 <= left.len() {
        law_the_first_loud_place_is_found(left, right, threshold, first + 65);
    }
}

/// Cutting into segments loses nothing: every sample stands in its segment at its
/// place, in both ears.
pub proof fn law_segments_keep_every_sample(left: Seq<u32>, right: Seq<u32>, length: nat, i: nat)
    requires
        left.len() == right.len(),
        length > 0,
        i < left.len(),
    ensures
        ({
            let list = segments_of(left, right, length);
            let part = (i / length) as int;
            let place = (i % length) as int;
            &&& part < list.len()
            &&& place < list[part].0.len() && place < list[part].1.len()
            &&& list[part].0[place] == left[i as int]
            &&& list[part].1[place] == right[i as int]
            &&& list[part].0.len() <= length
        }),
{
    let part = i / length;
    let place = i % length;
    vstd::arithmetic::div_mod::lemma_fundamental_div_mod(i as int, length as int);
    assert(part * length + place == i) by (nonlinear_arith)
        requires
            i as int == (length as int) * (i as int / length as int) + i as int % length as int,
            part == i / length,
            place == i % length,
    ;
    assert(part < (left.len() + length - 1) / length as int) by (nonlinear_arith)
        requires
            length > 0,
            part * length <= i,
            i < left.len(),
    ;
}

/// Silence at the end is cut off and nothing else: behind the length that is kept
/// nothing is loud, and its last sample is, unless all is silent and one is left.
pub proof fn law_only_silence_is_cut_off(left: Seq<u32>, right: Seq<u32>, count: nat)
    requires
        count <= left.len(),
        left.len() == right.len(),
    ensures
        ({
            let length = solid_length(left, right, count);
            &&& 1 <= length
            &&& length <= count || length == 1
            &&& forall|i: int|
                #![trigger left[i]]
                #![trigger right[i]]
                length <= i < count ==> !loud(left[i]) && !loud(right[i])
            &&& length > 1 ==> loud(left[length - 1]) || loud(right[length - 1])
        }),
    decreases count,
{
    if count > 0 {
        law_only_silence_is_cut_off(left, right, (count - 1) as nat);
    }
}

/// Silent segments at the end are dropped, the others stay, and the last that stays
/// is not silent.
pub proof fn law_only_silent_segments_are_dropped(list: Seq<(Seq<u32>, Seq<u32>)>)
    ensures
        ({
            let kept = without_silence(list);
            &&& kept.len() <= list.len()
            &&& kept == list.take(kept.len() as int)
            &&& kept.len() > 0 ==> !(silent(kept.last().0) && silent(kept.last().1))
            &&& forall|i: int|
                kept.len() <= i < list.len() ==> silent((#[trigger] list[i]).0) && silent(
                    list[i].1,
                )
        }),
    decreases list.len(),
{
    let kept = without_silence(list);
    if list.len() > 0 && silent(list.last().0) && silent(list.last().1) {
        law_only_silent_segments_are_dropped(list.drop_last());
        assert(list.drop_last().take(kept.len() as int) =~= list.take(kept.len() as int));
        assert forall|i: int| kept.len() <= i < list.len() implies silent((#[trigger] list[i]).0)
            && silent(list[i].1) by {
            if i < list.len() - 1 {
                assert(list.drop_last()[i] == list[i]);
            }
        }
    } else {
        assert(list.take(list.len() as int) =~= list);
    }
}

/// An odd number of positions gets its third, the centre, a second time behind it, for
/// the low-frequency channel; an even one stays.
pub proof fn law_the_centre_fills_an_odd_profile(list: Seq<(Seq<u32>, Seq<u32>)>)
    ensures
        list.len() % 2 == 0 ==> positions(list) == Ok::<_, AppError>(list),
        list.len() == 1 ==> positions(list) is Err,
        list.len() % 2 == 1 && list.len() >= 3 ==> {
            &&& positions(list) is Ok
            &&& positions(list)->Ok_0.len() == list.len() + 1
            &&& positions(list)->Ok_0[2] == list[2] && positions(list)->Ok_0[3] == list[2]
            &&& forall|i: int| 3 <= i < list.len() ==> positions(list)->Ok_0[i + 1] == #[trigger] list[i]
            &&& positions(list)->Ok_0[0] == list[0] && positions(list)->Ok_0[1] == list[1]
        },
{
}

/// The positions of a profile belong to the speakers of the layout with as many
/// channels, in its order. Each has the impulses of its own position, without the
/// silence at their end; the low-frequency channel has those of the position before.
pub proof fn law_positions_belong_to_their_speakers(list: Seq<(Seq<u32>, Seq<u32>)>, i: int)
    requires
        profile(list) is Ok,
        0 <= i < list.len(),
        list[i].0.len() == list[i].1.len(),
        i > 0 ==> list[i - 1].0.len() == list[i - 1].1.len(),
    ensures
        ({
            let channel = profile(list)->Ok_0[i];
            let speakers = default_layout(list.len())->0;
            let own = if channel.speaker is Lfe && i > 0 { list[i - 1] } else { list[i] };
            &&& profile(list)->Ok_0.len() == list.len()
            &&& channel.speaker == speakers[i]
            &&& channel.left.len() == channel.right.len()
            &&& channel.left == own.0.take(channel.left.len() as int)
            &&& channel.right == own.1.take(channel.right.len() as int)
            &&& forall|k: int|
                #![trigger own.0[k]]
                #![trigger own.1[k]]
                channel.left.len() <= k < own.0.len() ==> !loud(own.0[k]) && !loud(own.1[k])
        }),
{
    lemma_layout_length(list.len());
    let channel = profile(list)->Ok_0[i];
    let own = if channel.speaker is Lfe && i > 0 { list[i - 1] } else { list[i] };
    law_only_silence_is_cut_off(own.0, own.1, own.0.len());
    assert(own.0.take(own.0.len() as int) =~= own.0);
    assert(own.1.take(own.1.len() as int) =~= own.1);
}

/// A wave can be used exactly where it has channels and a rate, whole frames and at
/// least one, and no sample that is no number.
pub proof fn law_waves_are_refused_for_a_reason(
    channels: u16,
    sample_rate: u32,
    samples: Seq<u32>,
    description: Seq<char>,
)
    ensures
        wave_fault(channels, sample_rate, samples, description) is None <==> channels > 0
            && sample_rate > 0 && samples.len() > 0 && samples.len() % channels as nat == 0 && (
        forall|i: int| 0 <= i < samples.len() ==> finite_sample(#[trigger] samples[i])),
{
}

/// A response can be used exactly where all its samples are finite and one of them is louder
/// than silence.
pub proof fn law_usable_responses_are_finite_and_loud(
    left: Seq<u32>,
    right: Seq<u32>,
    label: Seq<char>,
)
    ensures
        response_fault(left, right, label) is None <==> (forall|i: int|
            0 <= i < left.len() ==> finite_sample(#[trigger] left[i])) && (forall|i: int|
            0 <= i < right.len() ==> finite_sample(#[trigger] right[i])) && peak_of(left, right)
            > SILENCE,
{
}

/// A sample is more than silence exactly where it is larger than a billionth, whatever its
/// sign; and the bit pattern of that billionth is the single nearest to it, a mantissa over
/// 2^53.
pub proof fn law_silence_is_a_billionth_at_most(bits: u32)
    ensures
        loud(bits) <==> magnitude(bits) >= SILENCE + 1,
        loud(bits) == loud(bits ^ 0x8000_0000),
        SILENCE / 0x80_0000 == 150 - 53,
        ({
            let mantissa = SILENCE % 0x80_0000 + 0x80_0000;
            let distance = mantissa * 1_000_000_000 - 0x20_0000_0000_0000;
            -500_000_000 <= distance <= 500_000_000
        }),
{
    assert((bits ^ 0x8000_0000) % 0x8000_0000 == bits % 0x8000_0000) by (bit_vector);
}

} // verus!
