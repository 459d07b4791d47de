//! The arguments that append rendered tracks to a container and keep everything
//! else.

use crate::cli::OutputCodec;
use crate::dictionary::{Dictionary, Entry};
use crate::error::{AppError, Reason};
use crate::finishing::{AAC_BITRATE, AAC_CODER, FLAC_COMPRESSION_LEVEL};
use crate::media::{
    stream_views, tag_texts, ContainerManifest, ContainerView, StreamManifest, StreamView, Tags,
};
use crate::text::{
    all_blank, begins, blank, characters, decimal, digit, digits, gathered, is_blank, join, joined,
    lower, lowercase, lowered, same_text, starts_with, text_pair, texts,
};
use vstd::prelude::*;

verus! {

pub const BINAURAL_TITLE: &'static str = "SurroundFold binaural";

/// Whether a stream is a track that an earlier run appended.
pub open spec fn previous_output(stream: StreamView) -> bool {
    stream.audio() && (stream.tag("title"@) matches Some(title) && begins(
        lowered(title),
        "surroundfold binaural"@,
    ))
}

/// The first `count` streams without the tracks of earlier runs.
pub open spec fn kept_streams(streams: Seq<StreamView>, count: nat) -> Seq<StreamView>
    decreases count,
{
    if count == 0 {
        seq![]
    } else {
        let before = kept_streams(streams, (count - 1) as nat);
        if previous_output(streams[count - 1]) {
            before
        } else {
            before.push(streams[count - 1])
        }
    }
}

fn is_previous_output(stream: &StreamManifest) -> (r: bool)
    ensures
        r == previous_output(stream@),
{
    if !same_text(stream.codec_type.as_str(), "audio") {
        return false;
    }
    match stream.tag("title") {
        None => false,
        Some(title) => starts_with(lowercase(title).as_str(), "surroundfold binaural"),
    }
}

/// The manifest without the tracks that earlier runs appended.
pub fn source_without_previous_outputs(source: &ContainerManifest) -> (r: ContainerManifest)
    ensures
        r@ == (ContainerView {
            streams: kept_streams(source@.streams, source@.streams.len()),
            ..source@
        }),
{
    let ghost views = stream_views(source.streams@);
    let mut streams: Vec<StreamManifest> = Vec::new();
    let mut i: usize = 0;
    while i < source.streams.len()
        invariant
            i <= source.streams@.len(),
            views == stream_views(source.streams@),
            stream_views(streams@) =~= kept_streams(views, i as nat),
        decreases source.streams@.len() - i,
    {
        let stream: &StreamManifest = &source.streams[i];
        assert(views[i as int] == stream@);
        if !is_previous_output(stream) {
            let ghost before = streams@;
            let copy = stream.copied();
            streams.push(copy);
            assert(stream_views(streams@) =~= stream_views(before).push(copy@));
        }
        i = i + 1;
    }
    source.with_streams(streams)
}

/// A stream is kept unless an earlier run appended it.
pub proof fn law_only_previous_outputs_are_dropped(streams: Seq<StreamView>, count: nat, stream: StreamView)
    requires
        count <= streams.len(),
    ensures
        kept_streams(streams, count).contains(stream) <==> (streams.take(count as int).contains(
            stream,
        ) && !previous_output(stream)),
    decreases count,
{
    if count > 0 {
        law_only_previous_outputs_are_dropped(streams, (count - 1) as nat, stream);
        let before = kept_streams(streams, (count - 1) as nat);
        let last = streams[count - 1];
        let shorter = streams.take(count - 1);
        let longer = streams.take(count as int);
        assert(longer =~= shorter.push(last));
        assert(longer.contains(stream) <==> shorter.contains(stream) || stream == last) by {
            if shorter.contains(stream) {
                let i = choose|i: int| 0 <= i < shorter.len() && shorter[i] == stream;
                assert(longer[i] == stream);
            }
            if stream == last {
                assert(longer[count - 1] == stream);
            }
        }
        if !previous_output(last) {
            let after = before.push(last);
            assert(after.contains(stream) <==> before.contains(stream) || stream == last) by {
                if before.contains(stream) {
                    let i = choose|i: int| 0 <= i < before.len() && before[i] == stream;
                    assert(after[i] == stream);
                }
                if stream == last {
                    assert(after[before.len() as int] == stream);
                }
            }
        }
    }
}

/// The options that advanced arguments may not name.
pub open spec fn reserved_options() -> Seq<Seq<char>> {
    seq![
        "-i"@,
        "-map"@,
        "-map_metadata"@,
        "-map_chapters"@,
        "-c"@,
        "-codec"@,
        "-acodec"@,
        "-vcodec"@,
        "-scodec"@,
        "-dcodec"@,
        "-strict"@,
        "-f"@,
        "-y"@,
        "-n"@,
        "-shortest"@,
        "-copyts"@,
        "-start_at_zero"@,
        "-avoid_negative_ts"@,
        "-itsoffset"@,
        "-isync"@,
        "-itsscale"@,
        "-output_ts_offset"@,
        "-ss"@,
        "-sseof"@,
        "-t"@,
        "-to"@,
        "-fs"@,
        "-frames"@,
        "-vn"@,
        "-an"@,
        "-sn"@,
        "-dn"@,
        "-af"@,
        "-vf"@,
        "-lavfi"@,
        "-filter"@,
        "-filter_script"@,
        "-filter_complex"@,
        "-filter_complex_script"@,
        "-absf"@,
        "-vbsf"@,
        "-attach"@,
        "-dump_attachment"@,
        "-progress"@,
        "-report"@,
        "-stats"@,
        "-nostats"@,
        "-benchmark"@,
        "-benchmark_all"@,
        "-pass"@,
        "-passlogfile"@,
        "-copy_unknown"@,
        "-ignore_unknown"@,
    ]
}

/// The beginnings that advanced arguments may not have: those of mappings, and of
/// codecs, timing and filters that are given for single streams.
pub open spec fn protected_prefixes() -> Seq<Seq<char>> {
    seq![
        "-map"@,
        "-c:"@,
        "-codec:"@,
        "-acodec:"@,
        "-vcodec:"@,
        "-scodec:"@,
        "-dcodec:"@,
        "-frames:"@,
        "-itsscale:"@,
        "-filter:"@,
        "-filter_script:"@,
        "-af:"@,
        "-vf:"@,
        "-bsf"@,
    ]
}

/// The part of an option before its first equals sign, from a place on.
pub open spec fn before_equals(key: Seq<char>, start: nat) -> nat
    decreases key.len() - start,
{
    if start >= key.len() {
        key.len()
    } else if key[start as int] == '=' {
        start
    } else {
        before_equals(key, start + 1)
    }
}

/// The name of an option in small letters.
pub open spec fn option_name(key: Seq<char>) -> Seq<char> {
    lowered(key.take(before_equals(key, 0) as int))
}

/// Whether an option would change what the preservation rests on: one with a
/// protected beginning, or a reserved one.
pub open spec fn protected_option(key: Seq<char>) -> bool {
    ||| exists|i: int|
        0 <= i < protected_prefixes().len() && begins(
            option_name(key),
            #[trigger] protected_prefixes()[i],
        )
    ||| reserved_options().contains(option_name(key))
}

/// What is wrong with an advanced option, if anything.
pub open spec fn option_fault(key: Seq<char>) -> Option<Seq<char>> {
    if all_blank(key) || !begins(key, "-"@) {
        Some("--ffmpeg-arg OPTION must begin with '-'"@)
    } else if protected_option(key) {
        Some("advanced ffmpeg option '"@ + key + "' would override a protected mux setting"@)
    } else {
        None
    }
}

/// The first fault of a list of options, from a place on.
pub open spec fn first_option_fault(pairs: Seq<(Seq<char>, Seq<char>)>, start: nat) -> Option<Seq<char>>
    decreases pairs.len() - start,
{
    if start >= pairs.len() {
        None
    } else if option_fault(pairs[start as int].0) is Some {
        option_fault(pairs[start as int].0)
    } else {
        first_option_fault(pairs, start + 1)
    }
}

/// The texts of a list of pairs.
pub open spec fn pair_texts(pairs: Seq<(String, String)>) -> Seq<(Seq<char>, Seq<char>)> {
    pairs.map_values(|pair: (String, String)| (pair.0@, pair.1@))
}

/// No accepted list of options holds one that is malformed or protected.
pub proof fn law_accepted_options_are_unprotected(
    pairs: Seq<(Seq<char>, Seq<char>)>,
    start: nat,
    index: nat,
)
    requires
        first_option_fault(pairs, start) is None,
        start <= index < pairs.len(),
    ensures
        begins(pairs[index as int].0, "-"@),
        !protected_option(pairs[index as int].0),
    decreases index - start,
{
    if start < index {
        law_accepted_options_are_unprotected(pairs, start + 1, index);
    }
}

/// The first fault of two lists of options joined is that of the first list, or
/// else that of the second. So the joined list is accepted exactly where both are,
/// and a list without options always is.
pub proof fn law_joined_options_fail_like_their_parts(
    first: Seq<(Seq<char>, Seq<char>)>,
    second: Seq<(Seq<char>, Seq<char>)>,
)
    ensures
        first_option_fault(first + second, 0) == (if first_option_fault(first, 0) is Some {
            first_option_fault(first, 0)
        } else {
            first_option_fault(second, 0)
        }),
        first_option_fault(first + second, 0) is None <==> first_option_fault(first, 0) is None
            && first_option_fault(second, 0) is None,
        first_option_fault(seq![], 0) is None,
{
    lemma_first_part(first, second, 0);
    lemma_second_part(first, second, 0);
}

proof fn lemma_first_part(
    first: Seq<(Seq<char>, Seq<char>)>,
    second: Seq<(Seq<char>, Seq<char>)>,
    start: nat,
)
    requires
        start <= first.len(),
    ensures
        first_option_fault(first + second, start) == (if first_option_fault(first, start) is Some {
            first_option_fault(first, start)
        } else {
            first_option_fault(first + second, first.len())
        }),
    decreases first.len() - start,
{
    if start < first.len() {
        assert((first + second)[start as int] == first[start as int]);
        lemma_first_part(first, second, start + 1);
    }
}

proof fn lemma_second_part(
    first: Seq<(Seq<char>, Seq<char>)>,
    second: Seq<(Seq<char>, Seq<char>)>,
    start: nat,
)
    requires
        start <= second.len(),
    ensures
        first_option_fault(first + second, first.len() + start) == first_option_fault(second, start),
    decreases second.len() - start,
{
    if start < second.len() {
        assert((first + second)[first.len() as int + start] == second[start as int]);
        lemma_second_part(first, second, start + 1);
    }
}

/// Characters that differ at most in case are both white space or neither, and
/// both the same mark or neither.
proof fn lemma_same_letter(c: char, d: char)
    requires
        lower(c) == lower(d),
    ensures
        blank(c) == blank(d),
        c == '=' <==> d == '=',
        c == '-' <==> d == '-',
{
}

proof fn lemma_same_letters_at(key: Seq<char>, other: Seq<char>, i: int)
    requires
        lowered(key) == lowered(other),
        0 <= i < key.len(),
    ensures
        key.len() == other.len(),
        lower(key[i]) == lower(other[i]),
        blank(key[i]) == blank(other[i]),
        key[i] == '=' <==> other[i] == '=',
        key[i] == '-' <==> other[i] == '-',
{
    assert(lowered(key).len() == key.len() && lowered(other).len() == other.len());
    assert(lowered(key)[i] == lower(key[i]));
    assert(lowered(other)[i] == lower(other[i]));
    lemma_same_letter(key[i], other[i]);
}

proof fn lemma_same_name_end(key: Seq<char>, other: Seq<char>, start: nat)
    requires
        lowered(key) == lowered(other),
    ensures
        before_equals(key, start) == before_equals(other, start),
    decreases key.len() - start,
{
    assert(lowered(key).len() == key.len() && lowered(other).len() == other.len());
    if start < key.len() {
        lemma_same_letters_at(key, other, start as int);
        lemma_same_name_end(key, other, start + 1);
    }
}

proof fn lemma_name_end(key: Seq<char>, start: nat)
    requires
        start <= key.len(),
    ensures
        before_equals(key, start) <= key.len(),
    decreases key.len() - start,
{
    if start < key.len() {
        lemma_name_end(key, start + 1);
    }
}

/// Whether an option is accepted does not depend on the case of its letters.
pub proof fn law_options_are_judged_without_case(key: Seq<char>, other: Seq<char>)
    requires
        lowered(key) == lowered(other),
    ensures
        option_fault(key) is None <==> option_fault(other) is None,
{
    assert(lowered(key).len() == key.len() && lowered(other).len() == other.len());
    reveal_strlit("-");
    assert forall|i: int| 0 <= i < key.len() implies blank(#[trigger] key[i]) == blank(other[i])
        by {
        lemma_same_letters_at(key, other, i);
    }
    if all_blank(key) {
        assert forall|i: int| 0 <= i < other.len() implies blank(#[trigger] other[i]) by {
            assert(blank(key[i]));
        }
    }
    if key.len() > 0 {
        lemma_same_letters_at(key, other, 0);
        if begins(key, "-"@) {
            assert(key.take(1)[0] == "-"@[0]);
            assert(other.take(1) =~= "-"@);
        }
        if begins(other, "-"@) {
            assert(other.take(1)[0] == "-"@[0]);
            assert(key.take(1) =~= "-"@);
        }
    }
    lemma_same_name_end(key, other, 0);
    lemma_name_end(key, 0);
    let end = before_equals(key, 0) as int;
    assert(option_name(key) =~= option_name(other)) by {
        assert forall|i: int| 0 <= i < end implies lower(#[trigger] key[i]) == lower(other[i]) by {
            lemma_same_letters_at(key, other, i);
        }
    }
}

/// Whether a list of options is accepted depends neither on their values nor on
/// the case of their letters.
pub proof fn law_lists_are_judged_by_their_options(
    pairs: Seq<(Seq<char>, Seq<char>)>,
    others: Seq<(Seq<char>, Seq<char>)>,
    start: nat,
)
    requires
        pairs.len() == others.len(),
        forall|i: int|
            0 <= i < pairs.len() ==> lowered((#[trigger] pairs[i]).0) == lowered(others[i].0),
    ensures
        first_option_fault(pairs, start) is None <==> first_option_fault(others, start) is None,
    decreases pairs.len() - start,
{
    if start < pairs.len() {
        law_options_are_judged_without_case(pairs[start as int].0, others[start as int].0);
        law_lists_are_judged_by_their_options(pairs, others, start + 1);
    }
}

fn name_of_option(key: &str) -> (r: String)
    ensures
        r@ == option_name(key@),
{
    let list = characters(key);
    let mut end: usize = 0;
    while end < list.len() && list[end] != '='
        invariant
            end <= list@.len(),
            list@ == key@,
            before_equals(key@, 0) == before_equals(key@, end as nat),
        decreases list@.len() - end,
    {
        end = end + 1;
    }
    let part = vstd::slice::slice_subrange(list.as_slice(), 0, end);
    assert(part@ =~= key@.take(end as int));
    lowercase(gathered(part).as_str())
}

fn is_reserved(name: &str) -> (r: bool)
    ensures
        r == reserved_options().contains(name@),
{
    let reserved: [&str; 53] = [
        "-i",
        "-map",
        "-map_metadata",
        "-map_chapters",
        "-c",
        "-codec",
        "-acodec",
        "-vcodec",
        "-scodec",
        "-dcodec",
        "-strict",
        "-f",
        "-y",
        "-n",
        "-shortest",
        "-copyts",
        "-start_at_zero",
        "-avoid_negative_ts",
        "-itsoffset",
        "-isync",
        "-itsscale",
        "-output_ts_offset",
        "-ss",
        "-sseof",
        "-t",
        "-to",
        "-fs",
        "-frames",
        "-vn",
        "-an",
        "-sn",
        "-dn",
        "-af",
        "-vf",
        "-lavfi",
        "-filter",
        "-filter_script",
        "-filter_complex",
        "-filter_complex_script",
        "-absf",
        "-vbsf",
        "-attach",
        "-dump_attachment",
        "-progress",
        "-report",
        "-stats",
        "-nostats",
        "-benchmark",
        "-benchmark_all",
        "-pass",
        "-passlogfile",
        "-copy_unknown",
        "-ignore_unknown",
    ];
    let ghost wanted = reserved_options();
    assert(reserved@.map_values(|s: &str| s@) =~= wanted);
    let mut i: usize = 0;
    while i < 53
        invariant
            i <= 53,
            reserved@.len() == 53,
            wanted.len() == 53,
            wanted == reserved_options(),
            reserved@.map_values(|s: &str| s@) == wanted,
            forall|k: int| 0 <= k < i ==> wanted[k] != name@,
        decreases 53 - i,
    {
        assert(reserved@.map_values(|s: &str| s@)[i as int] == reserved@[i as int]@);
        if same_text(reserved[i], name) {
            assert(wanted[i as int] == name@);
            return true;
        }
        i = i + 1;
    }
    false
}

fn has_protected_prefix(name: &str) -> (r: bool)
    ensures
        r == (exists|i: int|
            0 <= i < protected_prefixes().len() && begins(
                name@,
                #[trigger] protected_prefixes()[i],
            )),
{
    let prefixes: [&str; 14] = [
        "-map",
        "-c:",
        "-codec:",
        "-acodec:",
        "-vcodec:",
        "-scodec:",
        "-dcodec:",
        "-frames:",
        "-itsscale:",
        "-filter:",
        "-filter_script:",
        "-af:",
        "-vf:",
        "-bsf",
    ];
    let ghost wanted = protected_prefixes();
    assert(prefixes@.map_values(|s: &str| s@) =~= wanted);
    let mut i: usize = 0;
    while i < 14
        invariant
            i <= 14,
            prefixes@.len() == 14,
            wanted.len() == 14,
            wanted == protected_prefixes(),
            prefixes@.map_values(|s: &str| s@) == wanted,
            forall|k: int| 0 <= k < i ==> !begins(name@, #[trigger] wanted[k]),
        decreases 14 - i,
    {
        assert(prefixes@.map_values(|s: &str| s@)[i as int] == prefixes@[i as int]@);
        if starts_with(name, prefixes[i]) {
            assert(begins(name@, wanted[i as int]));
            return true;
        }
        i = i + 1;
    }
    false
}

/// What is wrong with an advanced option, if anything.
fn find_option_fault(key: &str) -> (r: Option<String>)
    ensures
        match option_fault(key@) {
            None => r is None,
            Some(text) => r is Some && r->0@ == text,
        },
{
    if is_blank(key) || !starts_with(key, "-") {
        return Some(String::from_str("--ffmpeg-arg OPTION must begin with '-'"));
    }
    let name = name_of_option(key);
    if has_protected_prefix(name.as_str()) || is_reserved(name.as_str()) {
        let mut message = text_pair("advanced ffmpeg option '", key);
        message.append("' would override a protected mux setting");
        return Some(message);
    }
    None
}

/// Refuses advanced options that are malformed or that would replace inputs,
/// mappings, codecs, timing, filters, reports or the destination.
pub fn validate_advanced_arguments(arguments: &[(String, String)]) -> (r: Result<(), AppError>)
    ensures
        match first_option_fault(pair_texts(arguments@), 0) {
            None => r is Ok,
            Some(text) => r is Err && r->Err_0 is Usage && r->Err_0.text() == text,
        },
{
    let ghost pairs = pair_texts(arguments@);
    let mut i: usize = 0;
    while i < arguments.len()
        invariant
            i <= arguments@.len(),
            pairs == pair_texts(arguments@),
            first_option_fault(pairs, 0) == first_option_fault(pairs, i as nat),
        decreases arguments@.len() - i,
    {
        assert(pairs[i as int].0 == arguments@[i as int].0@);
        match find_option_fault(arguments[i].0.as_str()) {
            None => {},
            Some(message) => return Err(AppError::Usage(Reason::Note(message))),
        }
        i = i + 1;
    }
    Ok(())
}

/// The pairs of a flat list of options and values.
pub open spec fn paired(values: Seq<Seq<char>>) -> Seq<(Seq<char>, Seq<char>)> {
    Seq::new(values.len() / 2, |i: int| (values[2 * i], values[2 * i + 1]))
}

/// Makes pairs of a flat list of options and values, and validates them.
pub fn advanced_argument_pairs(values: &[String]) -> (r: Result<Vec<(String, String)>, AppError>)
    ensures
        ({
            let list = texts(values@);
            if list.len() % 2 != 0 {
                r is Err && r->Err_0 is Usage && r->Err_0.text()
                    == "--ffmpeg-arg requires an option and value"@
            } else {
                match first_option_fault(paired(list), 0) {
                    None => r is Ok && pair_texts(r->Ok_0@) == paired(list),
                    Some(text) => r is Err && r->Err_0 is Usage && r->Err_0.text() == text,
                }
            }
        }),
{
    if values.len() % 2 != 0 {
        return Err(
            AppError::Usage(
                Reason::Note(String::from_str("--ffmpeg-arg requires an option and value")),
            ),
        );
    }
    let ghost list = texts(values@);
    let count: usize = values.len() / 2;
    let mut pairs: Vec<(String, String)> = Vec::new();
    let mut i: usize = 0;
    while i < count
        invariant
            i <= count,
            count == values@.len() / 2,
            values@.len() <= usize::MAX,
            list == texts(values@),
            pairs@.len() == i,
            pair_texts(pairs@) =~= paired(list).take(i as int),
        decreases count - i,
    {
        let ghost before = pairs@;
        let option = values[2 * i].clone();
        let value = values[2 * i + 1].clone();
        assert(list[2 * i] == option@);
        assert(list[2 * i + 1] == value@);
        pairs.push((option, value));
        assert(pair_texts(pairs@) =~= pair_texts(before).push((option@, value@)));
        i = i + 1;
    }
    assert(pair_texts(pairs@) =~= paired(list));
    validate_advanced_arguments(pairs.as_slice())?;
    Ok(pairs)
}


/// A rendered track that joins the container.
#[derive(Clone, Debug)]
pub struct AppendedTrack {
    pub title: String,
    pub codec: OutputCodec,
    pub sample_rate: u32,
    pub frames: u64,
}

/// What is said of a rendered track.
pub struct AppendedView {
    pub title: Seq<char>,
    pub codec: OutputCodec,
    pub sample_rate: u32,
    pub frames: u64,
}

impl View for AppendedTrack {
    type V = AppendedView;

    open spec fn view(&self) -> AppendedView {
        AppendedView {
            title: self.title@,
            codec: self.codec,
            sample_rate: self.sample_rate,
            frames: self.frames,
        }
    }
}

/// The views of a list of tracks.
pub open spec fn appended_views(tracks: Seq<AppendedTrack>) -> Seq<AppendedView> {
    tracks.map_values(|t: AppendedTrack| t@)
}

/// One argument of a muxing stage. Paths stand as places, so that the caller
/// can fill in names that are not text.
#[derive(Clone, Debug, PartialEq, Eq)]
pub enum Argument {
    Text(String),
    /// The path of the source container.
    Source,
    /// The path of a rendered track.
    Track { index: usize },
    /// The path of the unfinished output.
    Destination,
}

/// What an argument says.
pub enum ArgumentView {
    Text(Seq<char>),
    Source,
    Track { index: int },
    Destination,
}

impl View for Argument {
    type V = ArgumentView;

    open spec fn view(&self) -> ArgumentView {
        match self {
            Argument::Text(text) => ArgumentView::Text(text@),
            Argument::Source => ArgumentView::Source,
            Argument::Track { index } => ArgumentView::Track { index: *index as int },
            Argument::Destination => ArgumentView::Destination,
        }
    }
}

/// The views of a list of arguments.
pub open spec fn argument_views(list: Seq<Argument>) -> Seq<ArgumentView> {
    list.map_values(|a: Argument| a@)
}

/// The arguments of the two stages: the first copies and encodes media, the
/// second adds everything else.
#[derive(Debug)]
pub struct MuxArguments {
    pub media_stage: Vec<Argument>,
    pub preservation_stage: Vec<Argument>,
}

/// Texts as arguments.
pub open spec fn words(parts: Seq<Seq<char>>) -> Seq<ArgumentView> {
    parts.map_values(|part: Seq<char>| ArgumentView::Text(part))
}

/// Whether a stream goes through the first stage.
pub open spec fn media_stream(stream: StreamView) -> bool {
    stream.codec_type == "video"@ || stream.codec_type == "audio"@
}

/// How many of the first streams go through the first stage.
pub open spec fn media_count(streams: Seq<StreamView>, count: nat) -> nat
    decreases count,
{
    if count == 0 {
        0
    } else {
        media_count(streams, (count - 1) as nat) + if media_stream(streams[count - 1]) {
            1nat
        } else {
            0nat
        }
    }
}

/// How many of the first streams are audio.
pub open spec fn audio_count(streams: Seq<StreamView>, count: nat) -> nat
    decreases count,
{
    if count == 0 {
        0
    } else {
        audio_count(streams, (count - 1) as nat) + if streams[count - 1].audio() {
            1nat
        } else {
            0nat
        }
    }
}

/// Where a source stream stands in the output: media first, then the appended
/// tracks, then the rest.
pub open spec fn output_position(streams: Seq<StreamView>, appended: nat, index: nat) -> nat {
    if media_stream(streams[index as int]) {
        media_count(streams, index)
    } else {
        (media_count(streams, streams.len()) + appended + (index - media_count(streams, index)))
            as nat
    }
}

/// The digits behind the point of a decimal fraction, without the zeros at its
/// end.
pub open spec fn fraction(part: nat, unit: nat) -> Seq<char>
    decreases unit,
{
    if part == 0 || unit == 0 {
        seq![]
    } else {
        seq![digit(part / unit)] + fraction(part % unit, unit / 10)
    }
}

/// A time in seconds as text.
pub open spec fn timestamp(nanoseconds: int) -> Seq<char> {
    let size = (if nanoseconds < 0 { -nanoseconds } else { nanoseconds }) as nat;
    let sign = if nanoseconds < 0 { "-"@ } else { ""@ };
    let rest = size % 1_000_000_000;
    sign + digits(size / 1_000_000_000) + (if rest == 0 {
        seq![]
    } else {
        "."@ + fraction(rest, 100_000_000)
    })
}

/// The inputs of the first stage behind the source.
pub open spec fn track_inputs(start: int, count: nat) -> Seq<ArgumentView>
    decreases count,
{
    if count == 0 {
        seq![]
    } else {
        track_inputs(start, (count - 1) as nat) + (if start != 0 {
            words(seq!["-itsoffset"@, timestamp(start)])
        } else {
            seq![]
        }) + seq![ArgumentView::Text("-i"@), ArgumentView::Track { index: count - 1 }]
    }
}

/// The mappings of the first streams of one kind.
pub open spec fn stream_maps(
    streams: Seq<StreamView>,
    media: bool,
    input: Seq<char>,
    count: nat,
) -> Seq<ArgumentView>
    decreases count,
{
    if count == 0 {
        seq![]
    } else {
        let before = stream_maps(streams, media, input, (count - 1) as nat);
        let stream = streams[count - 1];
        if media_stream(stream) == media {
            before + words(seq!["-map"@, input + digits(stream.index as nat)])
        } else {
            before
        }
    }
}

/// The mappings of the appended tracks.
pub open spec fn track_maps(count: nat) -> Seq<ArgumentView>
    decreases count,
{
    if count == 0 {
        seq![]
    } else {
        track_maps((count - 1) as nat) + words(seq!["-map"@, digits(count) + ":a:0"@])
    }
}

/// The encoder settings of one appended track.
pub open spec fn codec_words(codec: OutputCodec, place: nat) -> Seq<Seq<char>> {
    match codec {
        OutputCodec::Flac => seq![
            "-c:a:"@ + digits(place),
            "flac"@,
            "-compression_level:a:"@ + digits(place),
            FLAC_COMPRESSION_LEVEL@,
        ],
        OutputCodec::Aac => seq![
            "-c:a:"@ + digits(place),
            "aac"@,
            "-b:a:"@ + digits(place),
            AAC_BITRATE@,
            "-aac_coder:a:"@ + digits(place),
            AAC_CODER@,
        ],
    }
}

/// The encoder settings of the first appended tracks.
pub open spec fn codec_settings(tracks: Seq<AppendedView>, first: nat, count: nat) -> Seq<
    ArgumentView,
>
    decreases count,
{
    if count == 0 {
        seq![]
    } else {
        codec_settings(tracks, first, (count - 1) as nat) + words(
            codec_words(tracks[count - 1].codec, (first + count - 1) as nat),
        )
    }
}

/// The beginning of both stages.
pub open spec fn stage_lead() -> Seq<Seq<char>> {
    seq![
        "-nostdin"@,
        "-hide_banner"@,
        "-loglevel"@,
        "warning"@,
        "-copyts"@,
        "-avoid_negative_ts"@,
        "disabled"@,
        "-i"@,
    ]
}

/// The arguments of the first stage.
pub open spec fn media_arguments(
    source: ContainerView,
    tracks: Seq<AppendedView>,
    start: int,
) -> Seq<ArgumentView> {
    let streams = source.streams;
    words(stage_lead()) + seq![ArgumentView::Source] + track_inputs(start, tracks.len())
        + stream_maps(streams, true, "0:"@, streams.len()) + track_maps(tracks.len()) + words(
        seq!["-map_metadata"@, "-1"@, "-map_chapters"@, "-1"@, "-c"@, "copy"@],
    ) + codec_settings(tracks, audio_count(streams, streams.len()), tracks.len()) + words(
        seq!["-f"@, "matroska"@, "pipe:1"@],
    )
}

/// The metadata settings of the first tags.
pub open spec fn tag_settings(
    option: Seq<char>,
    tags: Seq<(Seq<char>, Seq<char>)>,
    count: nat,
) -> Seq<ArgumentView>
    decreases count,
{
    if count == 0 {
        seq![]
    } else {
        tag_settings(option, tags, (count - 1) as nat) + words(
            seq![option, tags[count - 1].0 + "="@ + tags[count - 1].1],
        )
    }
}

/// The names of the flags among the first that are set.
pub open spec fn set_flags(flags: Seq<(Seq<char>, i32)>, count: nat) -> Seq<Seq<char>>
    decreases count,
{
    if count == 0 {
        seq![]
    } else {
        let before = set_flags(flags, (count - 1) as nat);
        if flags[count - 1].1 != 0 {
            before.push(flags[count - 1].0)
        } else {
            before
        }
    }
}

/// The flags of a stream as one text.
pub open spec fn disposition_text(flags: Seq<(Seq<char>, i32)>) -> Seq<char> {
    let list = set_flags(flags, flags.len());
    if list.len() == 0 {
        "0"@
    } else {
        joined(list, "+"@)
    }
}

/// The settings that keep the tags and flags of the first streams.
pub open spec fn stream_settings(streams: Seq<StreamView>, appended: nat, count: nat) -> Seq<
    ArgumentView,
>
    decreases count,
{
    if count == 0 {
        seq![]
    } else {
        let index = (count - 1) as nat;
        let stream = streams[count - 1];
        let place = digits(output_position(streams, appended, index));
        stream_settings(streams, appended, index) + tag_settings(
            "-metadata:s:"@ + place,
            stream.tags,
            stream.tags.len(),
        ) + words(seq!["-disposition:"@ + place, disposition_text(stream.disposition)])
    }
}

/// The language that appended tracks take from the selected stream.
pub open spec fn inherited_language(selected: StreamView) -> Option<Seq<char>> {
    match selected.tag("language"@) {
        None => None,
        Some(language) => if all_blank(language) {
            None
        } else {
            Some(language)
        },
    }
}

/// The settings of one appended track.
pub open spec fn track_words(title: Seq<char>, language: Option<Seq<char>>, place: nat) -> Seq<
    Seq<char>,
> {
    seq!["-metadata:s:a:"@ + digits(place), "title="@ + title] + (match language {
        None => seq![],
        Some(language) => seq!["-metadata:s:a:"@ + digits(place), "language="@ + language],
    }) + seq!["-disposition:a:"@ + digits(place), "0"@]
}

/// The settings of the first appended tracks.
pub open spec fn track_settings(
    tracks: Seq<AppendedView>,
    language: Option<Seq<char>>,
    first: nat,
    count: nat,
) -> Seq<ArgumentView>
    decreases count,
{
    if count == 0 {
        seq![]
    } else {
        track_settings(tracks, language, first, (count - 1) as nat) + words(
            track_words(tracks[count - 1].title, language, (first + count - 1) as nat),
        )
    }
}

/// The first advanced options with their values.
pub open spec fn advanced_words(pairs: Seq<(Seq<char>, Seq<char>)>, count: nat) -> Seq<Seq<char>>
    decreases count,
{
    if count == 0 {
        seq![]
    } else {
        advanced_words(pairs, (count - 1) as nat) + seq![pairs[count - 1].0, pairs[count - 1].1]
    }
}

/// Whether the first streams hold one of a kind that is copied unread.
pub open spec fn has_unread(streams: Seq<StreamView>, count: nat) -> bool
    decreases count,
{
    if count == 0 {
        false
    } else {
        has_unread(streams, (count - 1) as nat) || streams[count - 1].codec_type == "data"@
            || streams[count - 1].codec_type == "unknown"@
    }
}

/// The arguments of the second stage.
pub open spec fn preservation_arguments(
    source: ContainerView,
    tracks: Seq<AppendedView>,
    selected: StreamView,
    advanced: Seq<(Seq<char>, Seq<char>)>,
) -> Seq<ArgumentView> {
    let streams = source.streams;
    words(stage_lead()) + words(seq!["pipe:0"@, "-i"@]) + seq![ArgumentView::Source] + words(
        seq!["-map"@, "0"@],
    ) + stream_maps(streams, false, "1:"@, streams.len()) + words(
        seq!["-map_metadata"@, "1"@, "-map_chapters"@, "1"@],
    ) + words(
        if has_unread(streams, streams.len()) {
            seq!["-copy_unknown"@]
        } else {
            seq![]
        },
    ) + words(seq!["-c"@, "copy"@]) + tag_settings(
        "-metadata"@,
        source.format.tags,
        source.format.tags.len(),
    ) + stream_settings(streams, tracks.len(), streams.len()) + track_settings(
        tracks,
        inherited_language(selected),
        audio_count(streams, streams.len()),
        tracks.len(),
    ) + words(advanced_words(advanced, advanced.len())) + seq![ArgumentView::Destination]
}

proof fn lemma_counts(streams: Seq<StreamView>, count: nat)
    ensures
        media_count(streams, count) <= count,
        audio_count(streams, count) <= count,
    decreases count,
{
    if count > 0 {
        lemma_counts(streams, (count - 1) as nat);
    }
}

proof fn lemma_media_count_grows(streams: Seq<StreamView>, low: nat, high: nat)
    requires
        low <= high,
    ensures
        media_count(streams, low) <= media_count(streams, high),
        media_count(streams, high) - media_count(streams, low) <= high - low,
    decreases high - low,
{
    if low < high {
        lemma_media_count_grows(streams, low, (high - 1) as nat);
    }
}

/// No two source streams take the same place in the output, and none takes the
/// place of an appended track.
pub proof fn law_output_positions_are_distinct(
    streams: Seq<StreamView>,
    appended: nat,
    first: nat,
    second: nat,
)
    requires
        first < second < streams.len(),
    ensures
        output_position(streams, appended, first) != output_position(streams, appended, second),
        output_position(streams, appended, first) < streams.len() + appended,
        output_position(streams, appended, second) < streams.len() + appended,
        !(media_count(streams, streams.len()) <= output_position(streams, appended, first)
            < media_count(streams, streams.len()) + appended),
        !(media_count(streams, streams.len()) <= output_position(streams, appended, second)
            < media_count(streams, streams.len()) + appended),
{
    lemma_media_count_grows(streams, first + 1, second);
    lemma_media_count_grows(streams, second + 1, streams.len());
    lemma_counts(streams, first);
    lemma_counts(streams, second);
}

/// Adds words to a list of arguments.
pub fn push_words(list: &mut Vec<Argument>, parts: &[&str])
    ensures
        argument_views(final(list)@) == argument_views(old(list)@) + words(
            parts@.map_values(|part: &str| part@),
        ),
{
    let ghost before = list@;
    let ghost wanted = words(parts@.map_values(|part: &str| part@));
    let mut i: usize = 0;
    while i < parts.len()
        invariant
            i <= parts@.len(),
            wanted == words(parts@.map_values(|part: &str| part@)),
            argument_views(list@) =~= argument_views(before) + wanted.take(i as int),
        decreases parts@.len() - i,
    {
        let ghost known = list@;
        let word = Argument::Text(String::from_str(parts[i]));
        list.push(word);
        assert(argument_views(list@) =~= argument_views(known).push(word@));
        i = i + 1;
    }
    assert(wanted.take(i as int) =~= wanted);
}

/// Adds a place to a list of arguments.
pub fn push_place(list: &mut Vec<Argument>, place: Argument)
    ensures
        argument_views(final(list)@) == argument_views(old(list)@) + seq![place@],
{
    let ghost before = list@;
    list.push(place);
    assert(argument_views(list@) =~= argument_views(before) + seq![place@]);
}

/// Adds two words to a list of arguments.
pub fn push_pair(list: &mut Vec<Argument>, first: &str, second: &str)
    ensures
        argument_views(final(list)@) == argument_views(old(list)@) + words(
            seq![first@, second@],
        ),
{
    let parts: [&str; 2] = [first, second];
    assert(parts@.map_values(|part: &str| part@) =~= seq![first@, second@]);
    push_words(list, &parts);
}

fn is_media(stream: &StreamManifest) -> (r: bool)
    ensures
        r == media_stream(stream@),
{
    same_text(stream.codec_type.as_str(), "video") || same_text(stream.codec_type.as_str(), "audio")
}

/// Counts the audio streams.
pub fn count_audio(streams: &[StreamManifest]) -> (r: usize)
    ensures
        r == audio_count(stream_views(streams@), streams@.len()),
        r <= streams@.len(),
{
    let ghost views = stream_views(streams@);
    let mut count: usize = 0;
    let mut i: usize = 0;
    while i < streams.len()
        invariant
            i <= streams@.len(),
            views == stream_views(streams@),
            count == audio_count(views, i as nat),
            count <= i,
        decreases streams@.len() - i,
    {
        assert(views[i as int] == streams@[i as int]@);
        if same_text(streams[i].codec_type.as_str(), "audio") {
            count = count + 1;
        }
        i = i + 1;
    }
    count
}

fn count_media(streams: &[StreamManifest]) -> (r: usize)
    ensures
        r == media_count(stream_views(streams@), streams@.len()),
        r <= streams@.len(),
{
    let ghost views = stream_views(streams@);
    let mut count: usize = 0;
    let mut i: usize = 0;
    while i < streams.len()
        invariant
            i <= streams@.len(),
            views == stream_views(streams@),
            count == media_count(views, i as nat),
            count <= i,
        decreases streams@.len() - i,
    {
        assert(views[i as int] == streams@[i as int]@);
        if is_media(&streams[i]) {
            count = count + 1;
        }
        i = i + 1;
    }
    count
}

/// The digits of a decimal fraction of nine places.
fn fraction_text(part: u64) -> (r: String)
    requires
        part < 1_000_000_000,
    ensures
        r@ == fraction(part as nat, 100_000_000),
{
    let mut text = String::from_str("");
    proof {
        reveal_strlit("");
    }
    let mut rest: u64 = part;
    let mut unit: u64 = 100_000_000;
    while rest != 0 && unit != 0
        invariant
            unit != 0 ==> rest < 10 * unit,
            text@ + fraction(rest as nat, unit as nat) =~= fraction(part as nat, 100_000_000),
            unit == 0 || unit == 1 || unit == 10 || unit == 100 || unit == 1000 || unit == 10_000
                || unit == 100_000 || unit == 1_000_000 || unit == 10_000_000
                || unit == 100_000_000,
        decreases unit,
    {
        let ghost known = text@;
        let ghost whole = fraction(rest as nat, unit as nat);
        let figure: u64 = rest / unit;
        assert(figure < 10 && rest % unit < unit) by (nonlinear_arith)
            requires
                figure == rest / unit,
                0 < unit,
                rest < 10 * unit,
        ;
        text.append(decimal(figure).as_str());
        proof {
            assert(digits(figure as nat) =~= seq![digit(figure as nat)]);
            assert(whole == seq![digit((rest as nat) / (unit as nat))] + fraction(
                (rest as nat) % (unit as nat),
                (unit as nat) / 10,
            ));
        }
        rest = rest % unit;
        unit = unit / 10;
        assert(text@ + fraction(rest as nat, unit as nat) =~= known + whole);
    }
    text
}

/// A time in seconds as text.
pub fn format_timestamp(nanoseconds: i128) -> (r: String)
    requires
        -18_446_744_073_709_551_615_000_000_000 <= nanoseconds
            <= 18_446_744_073_709_551_615_000_000_000,
    ensures
        r@ == timestamp(nanoseconds as int),
{
    let negative: bool = nanoseconds < 0;
    let size: u128 = if negative {
        (-nanoseconds) as u128
    } else {
        nanoseconds as u128
    };
    let mut text = if negative {
        String::from_str("-")
    } else {
        String::from_str("")
    };
    let whole: u128 = size / 1_000_000_000;
    let rest: u128 = size % 1_000_000_000;
    text.append(decimal(whole as u64).as_str());
    if rest != 0 {
        text.append(".");
        text.append(fraction_text(rest as u64).as_str());
    }
    assert(text@ == timestamp(nanoseconds as int)) by {
        let sign = if nanoseconds < 0 { "-"@ } else { ""@ };
        let head = sign + digits(whole as nat);
        if rest == 0 {
            assert(head =~= head + Seq::<char>::empty());
        } else {
            assert(head + "."@ + fraction(rest as nat, 100_000_000) =~= head + ("."@ + fraction(
                rest as nat,
                100_000_000,
            )));
        }
    }
    text
}

fn push_track_inputs(list: &mut Vec<Argument>, start: i64, count: usize)
    ensures
        argument_views(final(list)@) == argument_views(old(list)@) + track_inputs(
            start as int,
            count as nat,
        ),
{
    let ghost before = argument_views(list@);
    let mut i: usize = 0;
    assert(before =~= before + track_inputs(start as int, 0));
    while i < count
        invariant
            i <= count,
            argument_views(list@) =~= before + track_inputs(start as int, i as nat),
        decreases count - i,
    {
        if start != 0 {
            push_pair(list, "-itsoffset", format_timestamp(start as i128).as_str());
        }
        let flag: [&str; 1] = ["-i"];
        assert(flag@.map_values(|part: &str| part@) =~= seq!["-i"@]);
        push_words(list, &flag);
        push_place(list, Argument::Track { index: i });
        i = i + 1;
    }
}

fn push_stream_maps(list: &mut Vec<Argument>, streams: &[StreamManifest], media: bool, input: &str)
    ensures
        argument_views(final(list)@) == argument_views(old(list)@) + stream_maps(
            stream_views(streams@),
            media,
            input@,
            streams@.len(),
        ),
{
    let ghost before = argument_views(list@);
    let ghost views = stream_views(streams@);
    let mut i: usize = 0;
    assert(before =~= before + stream_maps(views, media, input@, 0));
    while i < streams.len()
        invariant
            i <= streams@.len(),
            views == stream_views(streams@),
            argument_views(list@) =~= before + stream_maps(views, media, input@, i as nat),
        decreases streams@.len() - i,
    {
        let stream: &StreamManifest = &streams[i];
        assert(views[i as int] == stream@);
        if is_media(stream) == media {
            let place = text_pair(input, decimal(stream.index as u64).as_str());
            push_pair(list, "-map", place.as_str());
        }
        i = i + 1;
    }
}

fn push_track_maps(list: &mut Vec<Argument>, count: usize)
    ensures
        argument_views(final(list)@) == argument_views(old(list)@) + track_maps(count as nat),
{
    let ghost before = argument_views(list@);
    let mut i: usize = 0;
    assert(before =~= before + track_maps(0));
    while i < count
        invariant
            i <= count,
            argument_views(list@) =~= before + track_maps(i as nat),
        decreases count - i,
    {
        i = i + 1;
        let place = text_pair(decimal(i as u64).as_str(), ":a:0");
        push_pair(list, "-map", place.as_str());
    }
}

fn push_codec(list: &mut Vec<Argument>, codec: OutputCodec, place: usize)
    ensures
        argument_views(final(list)@) == argument_views(old(list)@) + words(
            codec_words(codec, place as nat),
        ),
{
    let number = decimal(place as u64);
    let chosen = text_pair("-c:a:", number.as_str());
    match codec {
        OutputCodec::Flac => {
            let level = text_pair("-compression_level:a:", number.as_str());
            let parts: [&str; 4] = [
                chosen.as_str(),
                "flac",
                level.as_str(),
                FLAC_COMPRESSION_LEVEL,
            ];
            assert(parts@.map_values(|part: &str| part@) =~= codec_words(codec, place as nat));
            push_words(list, &parts);
        },
        OutputCodec::Aac => {
            let rate = text_pair("-b:a:", number.as_str());
            let coder = text_pair("-aac_coder:a:", number.as_str());
            let parts: [&str; 6] = [
                chosen.as_str(),
                "aac",
                rate.as_str(),
                AAC_BITRATE,
                coder.as_str(),
                AAC_CODER,
            ];
            assert(parts@.map_values(|part: &str| part@) =~= codec_words(codec, place as nat));
            push_words(list, &parts);
        },
    }
}

fn push_codecs(list: &mut Vec<Argument>, tracks: &[AppendedTrack], first: usize)
    requires
        first + tracks@.len() <= usize::MAX,
    ensures
        argument_views(final(list)@) == argument_views(old(list)@) + codec_settings(
            appended_views(tracks@),
            first as nat,
            tracks@.len(),
        ),
{
    let ghost before = argument_views(list@);
    let ghost views = appended_views(tracks@);
    let mut i: usize = 0;
    assert(before =~= before + codec_settings(views, first as nat, 0));
    while i < tracks.len()
        invariant
            i <= tracks@.len(),
            first + tracks@.len() <= usize::MAX,
            views == appended_views(tracks@),
            argument_views(list@) =~= before + codec_settings(views, first as nat, i as nat),
        decreases tracks@.len() - i,
    {
        assert(views[i as int] == tracks@[i as int]@);
        push_codec(list, tracks[i].codec, first + i);
        i = i + 1;
    }
}

fn push_lead(list: &mut Vec<Argument>)
    ensures
        argument_views(final(list)@) == argument_views(old(list)@) + words(stage_lead()),
{
    let lead: [&str; 8] = [
        "-nostdin",
        "-hide_banner",
        "-loglevel",
        "warning",
        "-copyts",
        "-avoid_negative_ts",
        "disabled",
        "-i",
    ];
    assert(lead@.map_values(|part: &str| part@) =~= stage_lead());
    push_words(list, &lead);
}

fn media_stage(source: &ContainerManifest, tracks: &[AppendedTrack], start: i64) -> (r: Vec<
    Argument,
>)
    requires
        source.streams@.len() + tracks@.len() <= usize::MAX,
    ensures
        argument_views(r@) == media_arguments(source@, appended_views(tracks@), start as int),
{
    let mut list: Vec<Argument> = Vec::new();
    let ghost nothing = argument_views(list@);
    push_lead(&mut list);
    push_place(&mut list, Argument::Source);
    push_track_inputs(&mut list, start, tracks.len());
    push_stream_maps(&mut list, source.streams.as_slice(), true, "0:");
    push_track_maps(&mut list, tracks.len());
    let plain: [&str; 6] = ["-map_metadata", "-1", "-map_chapters", "-1", "-c", "copy"];
    assert(plain@.map_values(|part: &str| part@) =~= seq![
        "-map_metadata"@,
        "-1"@,
        "-map_chapters"@,
        "-1"@,
        "-c"@,
        "copy"@,
    ]);
    push_words(&mut list, &plain);
    let first: usize = count_audio(source.streams.as_slice());
    push_codecs(&mut list, tracks, first);
    let form: [&str; 3] = ["-f", "matroska", "pipe:1"];
    assert(form@.map_values(|part: &str| part@) =~= seq!["-f"@, "matroska"@, "pipe:1"@]);
    push_words(&mut list, &form);
    assert(nothing + words(stage_lead()) =~= words(stage_lead()));
    list
}

fn push_tags(list: &mut Vec<Argument>, option: &str, tags: &Tags)
    ensures
        argument_views(final(list)@) == argument_views(old(list)@) + tag_settings(
            option@,
            tag_texts(*tags),
            tag_texts(*tags).len(),
        ),
{
    let ghost before = argument_views(list@);
    let ghost pairs = tag_texts(*tags);
    let mut i: usize = 0;
    assert(before =~= before + tag_settings(option@, pairs, 0));
    while i < tags.entries.len()
        invariant
            i <= tags.entries@.len(),
            pairs == tag_texts(*tags),
            argument_views(list@) =~= before + tag_settings(option@, pairs, i as nat),
        decreases tags.entries@.len() - i,
    {
        let entry: &Entry<String> = &tags.entries[i];
        assert(pairs[i as int] == (entry.key@, entry.value@));
        let mut setting = text_pair(entry.key.as_str(), "=");
        setting.append(entry.value.as_str());
        push_pair(list, option, setting.as_str());
        i = i + 1;
    }
}

/// The flags of a stream as one text.
pub fn disposition_value(disposition: &Dictionary<i32>) -> (r: String)
    ensures
        r@ == disposition_text(disposition@),
{
    let ghost flags = disposition@;
    let mut names: Vec<String> = Vec::new();
    let mut i: usize = 0;
    while i < disposition.entries.len()
        invariant
            i <= disposition.entries@.len(),
            flags == disposition@,
            texts(names@) =~= set_flags(flags, i as nat),
        decreases disposition.entries@.len() - i,
    {
        let entry: &Entry<i32> = &disposition.entries[i];
        assert(flags[i as int] == (entry.key@, entry.value));
        if entry.value != 0 {
            let ghost known = names@;
            let name = entry.key.clone();
            names.push(name);
            assert(texts(names@) =~= texts(known).push(name@));
        }
        i = i + 1;
    }
    if names.len() == 0 {
        String::from_str("0")
    } else {
        join(&names, "+")
    }
}

fn push_stream_settings(list: &mut Vec<Argument>, streams: &[StreamManifest], appended: usize)
    requires
        streams@.len() + appended <= usize::MAX,
    ensures
        argument_views(final(list)@) == argument_views(old(list)@) + stream_settings(
            stream_views(streams@),
            appended as nat,
            streams@.len(),
        ),
{
    let ghost before = argument_views(list@);
    let ghost views = stream_views(streams@);
    let media: usize = count_media(streams);
    let mut seen: usize = 0;
    let mut i: usize = 0;
    assert(before =~= before + stream_settings(views, appended as nat, 0));
    while i < streams.len()
        invariant
            i <= streams@.len(),
            views == stream_views(streams@),
            streams@.len() + appended <= usize::MAX,
            media == media_count(views, views.len()),
            media <= streams@.len(),
            seen == media_count(views, i as nat),
            seen <= i,
            argument_views(list@) =~= before + stream_settings(views, appended as nat, i as nat),
        decreases streams@.len() - i,
    {
        let stream: &StreamManifest = &streams[i];
        assert(views[i as int] == stream@);
        let ghost known = argument_views(list@);
        proof {
            lemma_media_count_grows(views, i as nat, views.len());
        }
        let position: usize = if is_media(stream) {
            seen
        } else {
            media + appended + (i - seen)
        };
        let place = decimal(position as u64);
        let option = text_pair("-metadata:s:", place.as_str());
        push_tags(list, option.as_str(), &stream.tags);
        let flag = text_pair("-disposition:", place.as_str());
        let value = disposition_value(&stream.disposition);
        push_pair(list, flag.as_str(), value.as_str());
        if is_media(stream) {
            seen = seen + 1;
        }
        i = i + 1;
    }
}

fn push_track_settings(
    list: &mut Vec<Argument>,
    tracks: &[AppendedTrack],
    language: Option<&str>,
    first: usize,
)
    requires
        first + tracks@.len() <= usize::MAX,
    ensures
        argument_views(final(list)@) == argument_views(old(list)@) + track_settings(
            appended_views(tracks@),
            (match language {
                None => None,
                Some(language) => Some(language@),
            }),
            first as nat,
            tracks@.len(),
        ),
{
    let ghost before = argument_views(list@);
    let ghost views = appended_views(tracks@);
    let ghost spoken = match language {
        None => None,
        Some(language) => Some(language@),
    };
    let mut i: usize = 0;
    assert(before =~= before + track_settings(views, spoken, first as nat, 0));
    while i < tracks.len()
        invariant
            i <= tracks@.len(),
            first + tracks@.len() <= usize::MAX,
            views == appended_views(tracks@),
            spoken == (match language {
                None => None,
                Some(language) => Some(language@),
            }),
            argument_views(list@) =~= before + track_settings(
                views,
                spoken,
                first as nat,
                i as nat,
            ),
        decreases tracks@.len() - i,
    {
        assert(views[i as int] == tracks@[i as int]@);
        push_track_setting(list, tracks[i].title.as_str(), language, first + i);
        i = i + 1;
    }
}

fn push_track_setting(list: &mut Vec<Argument>, title: &str, language: Option<&str>, place: usize)
    ensures
        argument_views(final(list)@) == argument_views(old(list)@) + words(
            track_words(
                title@,
                (match language {
                    None => None,
                    Some(language) => Some(language@),
                }),
                place as nat,
            ),
        ),
{
    let ghost before = argument_views(list@);
    let number = decimal(place as u64);
    let option = text_pair("-metadata:s:a:", number.as_str());
    let name = text_pair("title=", title);
    push_pair(list, option.as_str(), name.as_str());
    match language {
        None => {},
        Some(language) => {
            let spoken = text_pair("language=", language);
            push_pair(list, option.as_str(), spoken.as_str());
        },
    }
    let flag = text_pair("-disposition:a:", number.as_str());
    push_pair(list, flag.as_str(), "0");
    assert(argument_views(list@) =~= before + words(
        track_words(
            title@,
            (match language {
                None => None,
                Some(language) => Some(language@),
            }),
            place as nat,
        ),
    ));
}

fn push_advanced(list: &mut Vec<Argument>, pairs: &[(String, String)])
    ensures
        argument_views(final(list)@) == argument_views(old(list)@) + words(
            advanced_words(pair_texts(pairs@), pairs@.len()),
        ),
{
    let ghost before = argument_views(list@);
    let ghost views = pair_texts(pairs@);
    let mut i: usize = 0;
    assert(before =~= before + words(advanced_words(views, 0)));
    while i < pairs.len()
        invariant
            i <= pairs@.len(),
            views == pair_texts(pairs@),
            argument_views(list@) =~= before + words(advanced_words(views, i as nat)),
        decreases pairs@.len() - i,
    {
        assert(views[i as int] == (pairs@[i as int].0@, pairs@[i as int].1@));
        push_pair(list, pairs[i].0.as_str(), pairs[i].1.as_str());
        assert(words(advanced_words(views, (i + 1) as nat)) =~= words(
            advanced_words(views, i as nat),
        ) + words(seq![views[i as int].0, views[i as int].1]));
        i = i + 1;
    }
}

fn holds_unread(streams: &[StreamManifest]) -> (r: bool)
    ensures
        r == has_unread(stream_views(streams@), streams@.len()),
{
    let ghost views = stream_views(streams@);
    let mut found: bool = false;
    let mut i: usize = 0;
    while i < streams.len()
        invariant
            i <= streams@.len(),
            views == stream_views(streams@),
            found == has_unread(views, i as nat),
        decreases streams@.len() - i,
    {
        assert(views[i as int] == streams@[i as int]@);
        found = found || same_text(streams[i].codec_type.as_str(), "data") || same_text(
            streams[i].codec_type.as_str(),
            "unknown",
        );
        i = i + 1;
    }
    found
}

fn language_of(selected: &StreamManifest) -> (r: Option<&str>)
    ensures
        match inherited_language(selected@) {
            None => r is None,
            Some(language) => r is Some && r->0@ == language,
        },
{
    match selected.tag("language") {
        None => None,
        Some(language) => if is_blank(language) {
            None
        } else {
            Some(language)
        },
    }
}

fn preservation_stage(
    source: &ContainerManifest,
    tracks: &[AppendedTrack],
    selected: &StreamManifest,
    advanced: &[(String, String)],
) -> (r: Vec<Argument>)
    requires
        source.streams@.len() + tracks@.len() <= usize::MAX,
    ensures
        argument_views(r@) == preservation_arguments(
            source@,
            appended_views(tracks@),
            selected@,
            pair_texts(advanced@),
        ),
{
    let mut list: Vec<Argument> = Vec::new();
    let ghost nothing = argument_views(list@);
    push_lead(&mut list);
    assert(nothing + words(stage_lead()) =~= words(stage_lead()));
    push_pair(&mut list, "pipe:0", "-i");
    push_place(&mut list, Argument::Source);
    push_pair(&mut list, "-map", "0");
    push_stream_maps(&mut list, source.streams.as_slice(), false, "1:");
    let kept: [&str; 4] = ["-map_metadata", "1", "-map_chapters", "1"];
    assert(kept@.map_values(|part: &str| part@) =~= seq![
        "-map_metadata"@,
        "1"@,
        "-map_chapters"@,
        "1"@,
    ]);
    push_words(&mut list, &kept);
    push_unread(&mut list, source.streams.as_slice());
    push_pair(&mut list, "-c", "copy");
    push_tags(&mut list, "-metadata", &source.format.tags);
    push_stream_settings(&mut list, source.streams.as_slice(), tracks.len());
    let first: usize = count_audio(source.streams.as_slice());
    push_track_settings(&mut list, tracks, language_of(selected), first);
    push_advanced(&mut list, advanced);
    push_place(&mut list, Argument::Destination);
    list
}

fn push_unread(list: &mut Vec<Argument>, streams: &[StreamManifest])
    ensures
        argument_views(final(list)@) == argument_views(old(list)@) + words(
            if has_unread(stream_views(streams@), streams@.len()) {
                seq!["-copy_unknown"@]
            } else {
                seq![]
            },
        ),
{
    let ghost before = argument_views(list@);
    if holds_unread(streams) {
        let flag: [&str; 1] = ["-copy_unknown"];
        assert(flag@.map_values(|part: &str| part@) =~= seq!["-copy_unknown"@]);
        push_words(list, &flag);
    } else {
        assert(before + words(seq![]) =~= before);
    }
}

/// Builds the arguments of the two muxing stages.
///
/// `selected_start` is the time at which the selected stream starts.
pub fn build_mux_arguments(
    appended_tracks: &[AppendedTrack],
    source: &ContainerManifest,
    selected_source: &StreamManifest,
    selected_start: i64,
    advanced: &[(String, String)],
) -> (r: Result<MuxArguments, AppError>)
    requires
        source.streams@.len() + appended_tracks@.len() <= usize::MAX,
    ensures
        match first_option_fault(pair_texts(advanced@), 0) {
            Some(text) => r is Err && r->Err_0 is Usage && r->Err_0.text() == text,
            None => if appended_tracks@.len() == 0 {
                r is Err && r->Err_0 is Usage && r->Err_0.text()
                    == "at least one rendered track is required for muxing"@
            } else {
                r is Ok && argument_views(r->Ok_0.media_stage@) == media_arguments(
                    source@,
                    appended_views(appended_tracks@),
                    selected_start as int,
                ) && argument_views(r->Ok_0.preservation_stage@) == preservation_arguments(
                    source@,
                    appended_views(appended_tracks@),
                    selected_source@,
                    pair_texts(advanced@),
                )
            },
        },
{
    validate_advanced_arguments(advanced)?;
    if appended_tracks.len() == 0 {
        return Err(
            AppError::Usage(
                Reason::Note(
                    String::from_str("at least one rendered track is required for muxing"),
                ),
            ),
        );
    }
    Ok(
        MuxArguments {
            media_stage: media_stage(source, appended_tracks, selected_start),
            preservation_stage: preservation_stage(
                source,
                appended_tracks,
                selected_source,
                advanced,
            ),
        },
    )
}

/// Whether a name is one of an option for inputs and outputs.
pub open spec fn names_files(name: Seq<char>) -> bool {
    ||| name == "-i"@
    ||| name == "-f"@
    ||| name == "-y"@
    ||| name == "-n"@
    ||| name == "-attach"@
    ||| name == "-dump_attachment"@
    ||| name == "-fs"@
}

/// Whether a name is one of an option for mappings.
pub open spec fn names_mappings(name: Seq<char>) -> bool {
    ||| name == "-map"@
    ||| name == "-map_metadata"@
    ||| name == "-map_chapters"@
    ||| name == "-vn"@
    ||| name == "-an"@
    ||| name == "-sn"@
    ||| name == "-dn"@
    ||| name == "-copy_unknown"@
    ||| name == "-ignore_unknown"@
}

/// Whether a name is one of an option for codecs.
pub open spec fn names_codecs(name: Seq<char>) -> bool {
    ||| name == "-c"@
    ||| name == "-codec"@
    ||| name == "-acodec"@
    ||| name == "-vcodec"@
    ||| name == "-scodec"@
    ||| name == "-dcodec"@
    ||| name == "-strict"@
    ||| name == "-absf"@
    ||| name == "-vbsf"@
    ||| name == "-pass"@
    ||| name == "-passlogfile"@
}

/// Whether a name is one of an option for timing.
pub open spec fn names_timing(name: Seq<char>) -> bool {
    ||| name == "-shortest"@
    ||| name == "-copyts"@
    ||| name == "-start_at_zero"@
    ||| name == "-avoid_negative_ts"@
    ||| name == "-itsoffset"@
    ||| name == "-isync"@
    ||| name == "-itsscale"@
    ||| name == "-output_ts_offset"@
    ||| name == "-ss"@
    ||| name == "-sseof"@
    ||| name == "-t"@
    ||| name == "-to"@
    ||| name == "-frames"@
}

/// Whether a name is one of an option for filters.
pub open spec fn names_filters(name: Seq<char>) -> bool {
    ||| name == "-af"@
    ||| name == "-vf"@
    ||| name == "-lavfi"@
    ||| name == "-filter"@
    ||| name == "-filter_script"@
    ||| name == "-filter_complex"@
    ||| name == "-filter_complex_script"@
}

/// Whether a name is one of an option for reports.
pub open spec fn names_reports(name: Seq<char>) -> bool {
    ||| name == "-progress"@
    ||| name == "-report"@
    ||| name == "-stats"@
    ||| name == "-nostats"@
    ||| name == "-benchmark"@
    ||| name == "-benchmark_all"@
}

/// No advanced option replaces inputs, outputs, mappings, codecs, timing, filters or
/// reports, however its letters are written and whatever follows an equals sign; nor
/// does one that gives such a setting for single streams.
pub proof fn law_protected_settings_cannot_be_replaced(key: Seq<char>)
    ensures
        ({
            let name = lowered(key.take(before_equals(key, 0) as int));
            let fixed = names_files(name) || names_mappings(name) || names_codecs(name)
                || names_timing(name) || names_filters(name) || names_reports(name);
            let single = begins(name, "-map"@) || begins(name, "-c:"@) || begins(name, "-codec:"@) || begins(name, "-acodec:"@) || begins(name, "-vcodec:"@) || begins(name, "-scodec:"@) || begins(name, "-dcodec:"@) || begins(name, "-frames:"@) || begins(name, "-itsscale:"@) || begins(name, "-filter:"@) || begins(name, "-filter_script:"@) || begins(name, "-af:"@) || begins(name, "-vf:"@) || begins(name, "-bsf"@);
            &&& fixed || single ==> option_fault(key) is Some
            &&& !fixed && !single && !all_blank(key) && begins(key, "-"@) ==> option_fault(key) is None
            &&& all_blank(key) || !begins(key, "-"@) ==> option_fault(key) is Some
        }),
{
    let name = option_name(key);
    let reserved = reserved_options();
    let prefixes = protected_prefixes();
    assert(reserved[0] == "-i"@);
    assert(reserved[1] == "-map"@);
    assert(reserved[2] == "-map_metadata"@);
    assert(reserved[3] == "-map_chapters"@);
    assert(reserved[4] == "-c"@);
    assert(reserved[5] == "-codec"@);
    assert(reserved[6] == "-acodec"@);
    assert(reserved[7] == "-vcodec"@);
    assert(reserved[8] == "-scodec"@);
    assert(reserved[9] == "-dcodec"@);
    assert(reserved[10] == "-strict"@);
    assert(reserved[11] == "-f"@);
    assert(reserved[12] == "-y"@);
    assert(reserved[13] == "-n"@);
    assert(reserved[14] == "-shortest"@);
    assert(reserved[15] == "-copyts"@);
    assert(reserved[16] == "-start_at_zero"@);
    assert(reserved[17] == "-avoid_negative_ts"@);
    assert(reserved[18] == "-itsoffset"@);
    assert(reserved[19] == "-isync"@);
    assert(reserved[20] == "-itsscale"@);
    assert(reserved[21] == "-output_ts_offset"@);
    assert(reserved[22] == "-ss"@);
    assert(reserved[23] == "-sseof"@);
    assert(reserved[24] == "-t"@);
    assert(reserved[25] == "-to"@);
    assert(reserved[26] == "-fs"@);
    assert(reserved[27] == "-frames"@);
    assert(reserved[28] == "-vn"@);
    assert(reserved[29] == "-an"@);
    assert(reserved[30] == "-sn"@);
    assert(reserved[31] == "-dn"@);
    assert(reserved[32] == "-af"@);
    assert(reserved[33] == "-vf"@);
    assert(reserved[34] == "-lavfi"@);
    assert(reserved[35] == "-filter"@);
    assert(reserved[36] == "-filter_script"@);
    assert(reserved[37] == "-filter_complex"@);
    assert(reserved[38] == "-filter_complex_script"@);
    assert(reserved[39] == "-absf"@);
    assert(reserved[40] == "-vbsf"@);
    assert(reserved[41] == "-attach"@);
    assert(reserved[42] == "-dump_attachment"@);
    assert(reserved[43] == "-progress"@);
    assert(reserved[44] == "-report"@);
    assert(reserved[45] == "-stats"@);
    assert(reserved[46] == "-nostats"@);
    assert(reserved[47] == "-benchmark"@);
    assert(reserved[48] == "-benchmark_all"@);
    assert(reserved[49] == "-pass"@);
    assert(reserved[50] == "-passlogfile"@);
    assert(reserved[51] == "-copy_unknown"@);
    assert(reserved[52] == "-ignore_unknown"@);
    assert(prefixes[0] == "-map"@);
    assert(prefixes[1] == "-c:"@);
    assert(prefixes[2] == "-codec:"@);
    assert(prefixes[3] == "-acodec:"@);
    assert(prefixes[4] == "-vcodec:"@);
    assert(prefixes[5] == "-scodec:"@);
    assert(prefixes[6] == "-dcodec:"@);
    assert(prefixes[7] == "-frames:"@);
    assert(prefixes[8] == "-itsscale:"@);
    assert(prefixes[9] == "-filter:"@);
    assert(prefixes[10] == "-filter_script:"@);
    assert(prefixes[11] == "-af:"@);
    assert(prefixes[12] == "-vf:"@);
    assert(prefixes[13] == "-bsf"@);
    assert(reserved.len() == 53 && prefixes.len() == 14);
}

/// The name of an option ends at its first equals sign.
pub proof fn law_values_are_no_part_of_the_name(name: Seq<char>, value: Seq<char>)
    requires
        !name.contains('='),
    ensures
        option_name(name + seq!['='] + value) == lowered(name),
        option_name(name) == lowered(name),
{
    lemma_equals_sign(name, name + seq!['='] + value, 0);
    assert((name + seq!['='] + value).take(name.len() as int) =~= name);
    lemma_no_equals_sign(name, 0);
    assert(name.take(name.len() as int) =~= name);
}

proof fn lemma_equals_sign(name: Seq<char>, key: Seq<char>, start: nat)
    requires
        !name.contains('='),
        start <= name.len() < key.len(),
        key[name.len() as int] == '=',
        forall|i: int| 0 <= i < name.len() ==> key[i] == name[i],
    ensures
        before_equals(key, start) == name.len(),
    decreases name.len() - start,
{
    if start < name.len() {
        assert(name.contains(name[start as int]));
        lemma_equals_sign(name, key, start + 1);
    }
}

proof fn lemma_no_equals_sign(name: Seq<char>, start: nat)
    requires
        !name.contains('='),
        start <= name.len(),
    ensures
        before_equals(name, start) == name.len(),
    decreases name.len() - start,
{
    if start < name.len() {
        assert(name.contains(name[start as int]));
        lemma_no_equals_sign(name, start + 1);
    }
}

/// A track that a run appended is recognised by the next one, whatever follows its
/// title and however its letters are written; a stream of another kind never is.
pub proof fn law_appended_tracks_are_recognised(stream: StreamView, suffix: Seq<char>, title: Seq<char>)
    requires
        stream.tag("title"@) == Some(title),
        lowered(title) == lowered(BINAURAL_TITLE@ + suffix),
    ensures
        previous_output(stream) == (stream.codec_type == "audio"@),
{
    reveal_strlit("SurroundFold binaural");
    assert("SurroundFold binaural"@.len() == 21);
    assert("SurroundFold binaural"@[0] == 'S');
    assert("SurroundFold binaural"@[1] == 'u');
    assert("SurroundFold binaural"@[2] == 'r');
    assert("SurroundFold binaural"@[3] == 'r');
    assert("SurroundFold binaural"@[4] == 'o');
    assert("SurroundFold binaural"@[5] == 'u');
    assert("SurroundFold binaural"@[6] == 'n');
    assert("SurroundFold binaural"@[7] == 'd');
    assert("SurroundFold binaural"@[8] == 'F');
    assert("SurroundFold binaural"@[9] == 'o');
    assert("SurroundFold binaural"@[10] == 'l');
    assert("SurroundFold binaural"@[11] == 'd');
    assert("SurroundFold binaural"@[12] == ' ');
    assert("SurroundFold binaural"@[13] == 'b');
    assert("SurroundFold binaural"@[14] == 'i');
    assert("SurroundFold binaural"@[15] == 'n');
    assert("SurroundFold binaural"@[16] == 'a');
    assert("SurroundFold binaural"@[17] == 'u');
    assert("SurroundFold binaural"@[18] == 'r');
    assert("SurroundFold binaural"@[19] == 'a');
    assert("SurroundFold binaural"@[20] == 'l');
    reveal_strlit("surroundfold binaural");
    assert("surroundfold binaural"@.len() == 21);
    assert("surroundfold binaural"@[0] == 's');
    assert("surroundfold binaural"@[1] == 'u');
    assert("surroundfold binaural"@[2] == 'r');
    assert("surroundfold binaural"@[3] == 'r');
    assert("surroundfold binaural"@[4] == 'o');
    assert("surroundfold binaural"@[5] == 'u');
    assert("surroundfold binaural"@[6] == 'n');
    assert("surroundfold binaural"@[7] == 'd');
    assert("surroundfold binaural"@[8] == 'f');
    assert("surroundfold binaural"@[9] == 'o');
    assert("surroundfold binaural"@[10] == 'l');
    assert("surroundfold binaural"@[11] == 'd');
    assert("surroundfold binaural"@[12] == ' ');
    assert("surroundfold binaural"@[13] == 'b');
    assert("surroundfold binaural"@[14] == 'i');
    assert("surroundfold binaural"@[15] == 'n');
    assert("surroundfold binaural"@[16] == 'a');
    assert("surroundfold binaural"@[17] == 'u');
    assert("surroundfold binaural"@[18] == 'r');
    assert("surroundfold binaural"@[19] == 'a');
    assert("surroundfold binaural"@[20] == 'l');
    let mark = "surroundfold binaural"@;
    let whole = BINAURAL_TITLE@ + suffix;
    assert(BINAURAL_TITLE@ == "SurroundFold binaural"@);
    assert(lowered(title).len() == title.len());
    assert(lowered(whole).len() == whole.len());
    assert forall|i: int| 0 <= i < mark.len() implies lowered(title)[i] == mark[i] by {
        assert(lowered(whole)[i] == lower(whole[i]));
        assert(whole[i] == BINAURAL_TITLE@[i]);
    }
    assert(lowered(title).take(mark.len() as int) =~= mark);
}

/// Whether two words follow one another somewhere in a list of arguments.
pub open spec fn says(list: Seq<ArgumentView>, first: Seq<char>, second: Seq<char>) -> bool {
    exists|k: int|
        0 <= k && k + 1 < list.len() && (#[trigger] list[k]) == ArgumentView::Text(first) && list[k
            + 1] == ArgumentView::Text(second)
}

proof fn lemma_says_in_part(
    before: Seq<ArgumentView>,
    part: Seq<ArgumentView>,
    behind: Seq<ArgumentView>,
    first: Seq<char>,
    second: Seq<char>,
)
    requires
        says(part, first, second),
    ensures
        says(before + part + behind, first, second),
{
    let k = choose|k: int|
        0 <= k && k + 1 < part.len() && (#[trigger] part[k]) == ArgumentView::Text(first) && part[k
            + 1] == ArgumentView::Text(second);
    let whole = before + part + behind;
    assert(whole[before.len() + k] == part[k]);
    assert(whole[before.len() + k + 1] == part[k + 1]);
}

/// Every stream of a kind is mapped from its own place in the source, and there are no
/// other mappings.
pub proof fn law_every_stream_is_mapped(
    streams: Seq<StreamView>,
    media: bool,
    input: Seq<char>,
    count: nat,
    i: int,
)
    requires
        0 <= i < count <= streams.len(),
    ensures
        (streams[i].codec_type == "video"@ || streams[i].codec_type == "audio"@) == media ==> says(
            stream_maps(streams, media, input, count),
            "-map"@,
            input + digits(streams[i].index as nat),
        ),
        stream_maps(streams, true, input, count).len() == 2 * media_count(streams, count),
        stream_maps(streams, false, input, count).len() == 2 * (count - media_count(streams, count)),
    decreases count,
{
    lemma_map_lengths(streams, input, count);
    let before = stream_maps(streams, media, input, (count - 1) as nat);
    let none = Seq::<ArgumentView>::empty();
    if media_stream(streams[i]) == media {
        if i < count - 1 {
            law_every_stream_is_mapped(streams, media, input, (count - 1) as nat, i);
            let added = if media_stream(streams[count - 1]) == media {
                words(seq!["-map"@, input + digits(streams[count - 1].index as nat)])
            } else {
                none
            };
            lemma_says_in_part(none, before, added, "-map"@, input + digits(streams[i].index as nat));
            assert(none + before + added =~= stream_maps(streams, media, input, count));
        } else {
            let all = stream_maps(streams, media, input, count);
            assert(all[before.len() as int] == ArgumentView::Text("-map"@));
            assert(all[before.len() as int + 1] == ArgumentView::Text(
                input + digits(streams[i].index as nat),
            ));
        }
    }
}

proof fn lemma_map_lengths(streams: Seq<StreamView>, input: Seq<char>, count: nat)
    ensures
        stream_maps(streams, true, input, count).len() == 2 * media_count(streams, count),
        stream_maps(streams, false, input, count).len() == 2 * (count - media_count(streams, count)),
    decreases count,
{
    if count > 0 {
        lemma_map_lengths(streams, input, (count - 1) as nat);
    }
}

/// The first stage reads the source, maps all of its video and audio with their own
/// indices, copies what it maps, and drops tags and chapters, which the second stage
/// takes from the source.
pub proof fn law_the_first_stage_copies_the_media(
    source: ContainerView,
    tracks: Seq<AppendedView>,
    start: int,
    i: int,
)
    requires
        0 <= i < source.streams.len(),
    ensures
        ({
            let list = media_arguments(source, tracks, start);
            &&& list[8] == ArgumentView::Source
            &&& list[7] == ArgumentView::Text("-i"@)
            &&& source.streams[i].codec_type == "video"@ || source.streams[i].codec_type == "audio"@
                ==> says(list, "-map"@, "0:"@ + digits(source.streams[i].index as nat))
            &&& says(list, "-c"@, "copy"@)
            &&& says(list, "-map_metadata"@, "-1"@)
            &&& says(list, "-map_chapters"@, "-1"@)
            &&& list.last() == ArgumentView::Text("pipe:1"@)
            &&& list[list.len() - 2] == ArgumentView::Text("matroska"@)
            &&& list[list.len() - 3] == ArgumentView::Text("-f"@)
        }),
{
    let streams = source.streams;
    let lead = words(stage_lead()) + seq![ArgumentView::Source] + track_inputs(start, tracks.len());
    let maps = stream_maps(streams, true, "0:"@, streams.len());
    let plain = words(seq!["-map_metadata"@, "-1"@, "-map_chapters"@, "-1"@, "-c"@, "copy"@]);
    let settings = codec_settings(tracks, audio_count(streams, streams.len()), tracks.len());
    let end = words(seq!["-f"@, "matroska"@, "pipe:1"@]);
    let more = track_maps(tracks.len());
    let list = media_arguments(source, tracks, start);
    assert(list =~= lead + maps + (more + plain + settings + end));
    assert(list =~= (lead + maps + more) + plain + (settings + end));
    assert(plain[0] == ArgumentView::Text("-map_metadata"@) && plain[1] == ArgumentView::Text(
        "-1"@,
    ));
    assert(plain[2] == ArgumentView::Text("-map_chapters"@) && plain[3] == ArgumentView::Text(
        "-1"@,
    ));
    assert(plain[4] == ArgumentView::Text("-c"@) && plain[5] == ArgumentView::Text("copy"@));
    lemma_says_in_part(lead + maps + more, plain, settings + end, "-map_metadata"@, "-1"@);
    lemma_says_in_part(lead + maps + more, plain, settings + end, "-map_chapters"@, "-1"@);
    lemma_says_in_part(lead + maps + more, plain, settings + end, "-c"@, "copy"@);
    law_every_stream_is_mapped(streams, true, "0:"@, streams.len(), i);
    if media_stream(streams[i]) {
        lemma_says_in_part(
            lead,
            maps,
            more + plain + settings + end,
            "-map"@,
            "0:"@ + digits(streams[i].index as nat),
        );
    }
    assert(words(stage_lead())[7] == ArgumentView::Text("-i"@));
    assert(end[2] == ArgumentView::Text("pipe:1"@));
}

/// The second stage takes what the first has made and everything else from the
/// source: all streams that are neither video nor audio, its tags and its chapters;
/// it copies all, and writes to the destination.
pub proof fn law_the_second_stage_keeps_the_rest(
    source: ContainerView,
    tracks: Seq<AppendedView>,
    selected: StreamView,
    advanced: Seq<(Seq<char>, Seq<char>)>,
    i: int,
)
    requires
        0 <= i < source.streams.len(),
    ensures
        ({
            let list = preservation_arguments(source, tracks, selected, advanced);
            &&& list[8] == ArgumentView::Text("pipe:0"@)
            &&& list[10] == ArgumentView::Source
            &&& says(list, "-map"@, "0"@)
            &&& !(source.streams[i].codec_type == "video"@ || source.streams[i].codec_type
                == "audio"@) ==> says(
                list,
                "-map"@,
                "1:"@ + digits(source.streams[i].index as nat),
            )
            &&& says(list, "-map_metadata"@, "1"@)
            &&& says(list, "-map_chapters"@, "1"@)
            &&& says(list, "-c"@, "copy"@)
            &&& source.streams[i].codec_type == "data"@ || source.streams[i].codec_type
                == "unknown"@ ==> list.contains(ArgumentView::Text("-copy_unknown"@))
            &&& list.last() == ArgumentView::Destination
        }),
{
    let streams = source.streams;
    let lead = words(stage_lead()) + words(seq!["pipe:0"@, "-i"@]) + seq![ArgumentView::Source];
    let first = words(seq!["-map"@, "0"@]);
    let maps = stream_maps(streams, false, "1:"@, streams.len());
    let plain = words(seq!["-map_metadata"@, "1"@, "-map_chapters"@, "1"@]);
    let unread = words(
        if has_unread(streams, streams.len()) {
            seq!["-copy_unknown"@]
        } else {
            seq![]
        },
    );
    let copy = words(seq!["-c"@, "copy"@]);
    let settings = tag_settings("-metadata"@, source.format.tags, source.format.tags.len())
        + stream_settings(streams, tracks.len(), streams.len()) + track_settings(
        tracks,
        inherited_language(selected),
        audio_count(streams, streams.len()),
        tracks.len(),
    ) + words(advanced_words(advanced, advanced.len())) + seq![ArgumentView::Destination];
    let list = preservation_arguments(source, tracks, selected, advanced);
    lemma_grouped(
        lead + first + maps + plain + unread + copy,
        tag_settings("-metadata"@, source.format.tags, source.format.tags.len()),
        stream_settings(streams, tracks.len(), streams.len()),
        track_settings(
            tracks,
            inherited_language(selected),
            audio_count(streams, streams.len()),
            tracks.len(),
        ),
        words(advanced_words(advanced, advanced.len())),
        seq![ArgumentView::Destination],
    );
    assert(list == lead + first + maps + plain + unread + copy + settings);
    law_every_stream_is_mapped(streams, false, "1:"@, streams.len(), i);
    if streams[i].codec_type == "data"@ || streams[i].codec_type == "unknown"@ {
        lemma_unread(streams, streams.len(), i);
        assert(unread[0] == ArgumentView::Text("-copy_unknown"@));
    }
    assert(words(seq!["pipe:0"@, "-i"@])[0] == ArgumentView::Text("pipe:0"@));
    assert(words(stage_lead()).len() == 8);
    assert(lead[8] == ArgumentView::Text("pipe:0"@) && lead[10] == ArgumentView::Source);
    lemma_second_stage_parts(
        lead,
        first,
        maps,
        plain,
        unread,
        copy,
        settings,
        "1:"@ + digits(streams[i].index as nat),
    );
    assert(settings.last() == ArgumentView::Destination);
}

/// What the parts of the second stage's arguments say, the whole says.
proof fn lemma_second_stage_parts(
    lead: Seq<ArgumentView>,
    first: Seq<ArgumentView>,
    maps: Seq<ArgumentView>,
    plain: Seq<ArgumentView>,
    unread: Seq<ArgumentView>,
    copy: Seq<ArgumentView>,
    settings: Seq<ArgumentView>,
    place: Seq<char>,
)
    requires
        lead.len() == 11,
        first == words(seq!["-map"@, "0"@]),
        plain == words(seq!["-map_metadata"@, "1"@, "-map_chapters"@, "1"@]),
        copy == words(seq!["-c"@, "copy"@]),
        settings.len() > 0,
    ensures
        ({
            let list = lead + first + maps + plain + unread + copy + settings;
            &&& list[8] == lead[8]
            &&& list[10] == lead[10]
            &&& list.last() == settings.last()
            &&& says(list, "-map"@, "0"@)
            &&& says(maps, "-map"@, place) ==> says(list, "-map"@, place)
            &&& says(list, "-map_metadata"@, "1"@)
            &&& says(list, "-map_chapters"@, "1"@)
            &&& says(list, "-c"@, "copy"@)
            &&& unread.len() > 0 ==> list.contains(unread[0])
        }),
{
    let list = lead + first + maps + plain + unread + copy + settings;
    lemma_regrouped(lead, first, maps, plain, unread, copy, settings);
    assert(says(list, "-map"@, "0"@)) by {
        assert(first[0] == ArgumentView::Text("-map"@) && first[1] == ArgumentView::Text("0"@));
        lemma_says_in_part(lead, first, maps + plain + unread + copy + settings, "-map"@, "0"@);
    }
    assert(says(list, "-map_metadata"@, "1"@) && says(list, "-map_chapters"@, "1"@)) by {
        assert(plain[0] == ArgumentView::Text("-map_metadata"@));
        assert(plain[1] == ArgumentView::Text("1"@));
        assert(plain[2] == ArgumentView::Text("-map_chapters"@));
        assert(plain[3] == ArgumentView::Text("1"@));
        let rest = unread + copy + settings;
        lemma_says_in_part(lead + first + maps, plain, rest, "-map_metadata"@, "1"@);
        lemma_says_in_part(lead + first + maps, plain, rest, "-map_chapters"@, "1"@);
    }
    assert(says(list, "-c"@, "copy"@)) by {
        assert(copy[0] == ArgumentView::Text("-c"@) && copy[1] == ArgumentView::Text("copy"@));
        lemma_says_in_part(lead + first + maps + plain + unread, copy, settings, "-c"@, "copy"@);
    }
    if says(maps, "-map"@, place) {
        lemma_says_in_part(lead + first, maps, plain + unread + copy + settings, "-map"@, place);
    }
    if unread.len() > 0 {
        let before = lead + first + maps + plain;
        assert((before + unread + (copy + settings))[before.len() as int] == unread[0]);
    }
}

/// Parts at the end of a list, taken together.
proof fn lemma_grouped(
    a: Seq<ArgumentView>,
    b: Seq<ArgumentView>,
    c: Seq<ArgumentView>,
    d: Seq<ArgumentView>,
    e: Seq<ArgumentView>,
    f: Seq<ArgumentView>,
)
    ensures
        a + b + c + d + e + f == a + (b + c + d + e + f),
{
    assert(a + b + c + d + e + f =~= a + (b + c + d + e + f));
}

/// The parts of a list around one of them.
proof fn lemma_regrouped(
    a: Seq<ArgumentView>,
    b: Seq<ArgumentView>,
    c: Seq<ArgumentView>,
    d: Seq<ArgumentView>,
    e: Seq<ArgumentView>,
    f: Seq<ArgumentView>,
    g: Seq<ArgumentView>,
)
    ensures
        a + b + c + d + e + f + g == a + b + (c + d + e + f + g),
        a + b + c + d + e + f + g == (a + b) + c + (d + e + f + g),
        a + b + c + d + e + f + g == (a + b + c) + d + (e + f + g),
        a + b + c + d + e + f + g == (a + b + c + d + e) + f + g,
        a + b + c + d + e + f + g == (a + b + c + d) + e + (f + g),
{
    assert(a + b + c + d + e + f + g =~= a + b + (c + d + e + f + g));
    assert(a + b + c + d + e + f + g =~= (a + b) + c + (d + e + f + g));
    assert(a + b + c + d + e + f + g =~= (a + b + c) + d + (e + f + g));
    assert(a + b + c + d + e + f + g =~= (a + b + c + d) + e + (f + g));
}

proof fn lemma_unread(streams: Seq<StreamView>, count: nat, i: int)
    requires
        0 <= i < count <= streams.len(),
        streams[i].codec_type == "data"@ || streams[i].codec_type == "unknown"@,
    ensures
        has_unread(streams, count),
    decreases count,
{
    if i < count - 1 {
        lemma_unread(streams, (count - 1) as nat, i);
    }
}

/// Every rendered track is mapped from its own input, the first behind the source.
pub proof fn law_every_track_is_mapped(count: nat, i: int)
    requires
        0 <= i < count,
    ensures
        track_maps(count).len() == 2 * count,
        track_maps(count)[2 * i] == ArgumentView::Text("-map"@),
        track_maps(count)[2 * i + 1] == ArgumentView::Text(digits((i + 1) as nat) + ":a:0"@),
    decreases count,
{
    if i < count - 1 {
        law_every_track_is_mapped((count - 1) as nat, i);
    } else {
        lemma_track_maps_length((count - 1) as nat);
    }
}

proof fn lemma_track_maps_length(count: nat)
    ensures
        track_maps(count).len() == 2 * count,
    decreases count,
{
    if count > 0 {
        lemma_track_maps_length((count - 1) as nat);
    }
}

/// Every rendered track is an input, delayed by the start of the selected stream where
/// that is not zero.
pub proof fn law_tracks_start_with_the_selected_stream(start: int, count: nat, i: int)
    requires
        0 <= i < count,
    ensures
        ({
            let list = track_inputs(start, count);
            let width = if start == 0 { 2int } else { 4 };
            &&& list.len() == width * count
            &&& list[width * i + width - 1] == (ArgumentView::Track { index: i })
            &&& list[width * i + width - 2] == ArgumentView::Text("-i"@)
            &&& start != 0 ==> list[4 * i] == ArgumentView::Text("-itsoffset"@) && list[4 * i + 1]
                == ArgumentView::Text(timestamp(start))
        }),
    decreases count,
{
    lemma_track_inputs_length(start, (count - 1) as nat);
    lemma_track_inputs_length(start, count);
    if i < count - 1 {
        law_tracks_start_with_the_selected_stream(start, (count - 1) as nat, i);
    }
}

proof fn lemma_track_inputs_length(start: int, count: nat)
    ensures
        start == 0 ==> track_inputs(start, count).len() == 2 * count,
        start != 0 ==> track_inputs(start, count).len() == 4 * count,
    decreases count,
{
    if count > 0 {
        lemma_track_inputs_length(start, (count - 1) as nat);
    }
}

/// A track is encoded as its codec says, and every setting names its own place.
pub proof fn law_tracks_are_encoded_as_asked(codec: OutputCodec, place: nat)
    ensures
        ({
            let list = codec_words(codec, place);
            &&& list[0] == "-c:a:"@ + digits(place)
            &&& codec is Flac ==> list.len() == 4 && list[1] == "flac"@ && list[2]
                == "-compression_level:a:"@ + digits(place) && list[3] == "0"@
            &&& codec is Aac ==> list.len() == 6 && list[1] == "aac"@ && list[2] == "-b:a:"@
                + digits(place) && list[3] == "320k"@ && list[4] == "-aac_coder:a:"@ + digits(place)
                && list[5] == "fast"@
        }),
{
}

/// An appended track carries its title and the language of the selected stream, where
/// that has one, and no flags.
pub proof fn law_tracks_carry_title_and_language(
    title: Seq<char>,
    selected: StreamView,
    place: nat,
)
    ensures
        ({
            let language = inherited_language(selected);
            let list = words(track_words(title, language, place));
            &&& says(list, "-metadata:s:a:"@ + digits(place), "title="@ + title)
            &&& language matches Some(text) ==> says(
                list,
                "-metadata:s:a:"@ + digits(place),
                "language="@ + text,
            )
            &&& says(list, "-disposition:a:"@ + digits(place), "0"@)
            &&& language is Some <==> (selected.tag("language"@) matches Some(text) && !all_blank(
                text,
            ))
            &&& language matches Some(text) ==> selected.tag("language"@) == Some(text)
            &&& language is None ==> list.len() == 4
        }),
{
    let language = inherited_language(selected);
    let list = words(track_words(title, language, place));
    assert(list[0] == ArgumentView::Text("-metadata:s:a:"@ + digits(place)));
    assert(list[1] == ArgumentView::Text("title="@ + title));
    if language is Some {
        assert(list[2] == ArgumentView::Text("-metadata:s:a:"@ + digits(place)));
        assert(list[3] == ArgumentView::Text("language="@ + language->0));
        assert(list[4] == ArgumentView::Text("-disposition:a:"@ + digits(place)));
        assert(list[5] == ArgumentView::Text("0"@));
    } else {
        assert(list[2] == ArgumentView::Text("-disposition:a:"@ + digits(place)));
        assert(list[3] == ArgumentView::Text("0"@));
    }
}

/// Every tag is set with its name and value, behind the option that it is for.
pub proof fn law_every_tag_is_set(
    option: Seq<char>,
    tags: Seq<(Seq<char>, Seq<char>)>,
    count: nat,
    i: int,
)
    requires
        0 <= i < count <= tags.len(),
    ensures
        tag_settings(option, tags, count).len() == 2 * count,
        tag_settings(option, tags, count)[2 * i] == ArgumentView::Text(option),
        tag_settings(option, tags, count)[2 * i + 1] == ArgumentView::Text(
            tags[i].0 + "="@ + tags[i].1,
        ),
    decreases count,
{
    if i < count - 1 {
        law_every_tag_is_set(option, tags, (count - 1) as nat, i);
    } else if count > 1 {
        law_every_tag_is_set(option, tags, (count - 1) as nat, 0);
    } else {
        reveal_with_fuel(tag_settings, 2);
    }
}

/// Whether one of the first flags has a name and is set.
pub open spec fn flag_set(flags: Seq<(Seq<char>, i32)>, count: nat, name: Seq<char>) -> bool {
    exists|j: int| 0 <= j < count && (#[trigger] flags[j]).1 != 0 && flags[j].0 == name
}

/// The flags of a stream that are set are named, in order and no others; a stream
/// without any is marked with zero.
pub proof fn law_set_flags_are_named(flags: Seq<(Seq<char>, i32)>, count: nat, i: int)
    requires
        0 <= i < count <= flags.len(),
    ensures
        flags[i].1 != 0 ==> set_flags(flags, count).contains(flags[i].0),
        forall|k: int|
            0 <= k < set_flags(flags, count).len() ==> flag_set(
                flags,
                count,
                #[trigger] set_flags(flags, count)[k],
            ),
        (forall|j: int| 0 <= j < flags.len() ==> (#[trigger] flags[j]).1 == 0) ==> disposition_text(
            flags,
        ) == "0"@,
    decreases count,
{
    lemma_flags_named(flags, count, i);
    if forall|j: int| 0 <= j < flags.len() ==> (#[trigger] flags[j]).1 == 0 {
        lemma_no_flags(flags, flags.len());
    }
}

proof fn lemma_no_flags(flags: Seq<(Seq<char>, i32)>, count: nat)
    requires
        count <= flags.len(),
        forall|j: int| 0 <= j < flags.len() ==> (#[trigger] flags[j]).1 == 0,
    ensures
        set_flags(flags, count).len() == 0,
    decreases count,
{
    if count > 0 {
        lemma_no_flags(flags, (count - 1) as nat);
    }
}

proof fn lemma_flags_named(flags: Seq<(Seq<char>, i32)>, count: nat, i: int)
    requires
        count <= flags.len(),
    ensures
        0 <= i < count && flags[i].1 != 0 ==> set_flags(flags, count).contains(flags[i].0),
        forall|k: int|
            0 <= k < set_flags(flags, count).len() ==> flag_set(
                flags,
                count,
                #[trigger] set_flags(flags, count)[k],
            ),
    decreases count,
{
    if count > 0 {
        let before = set_flags(flags, (count - 1) as nat);
        let all = set_flags(flags, count);
        lemma_flags_named(flags, (count - 1) as nat, i);
        if 0 <= i < count - 1 && flags[i].1 != 0 {
            let k = choose|k: int| 0 <= k < before.len() && before[k] == flags[i].0;
            assert(all[k] == flags[i].0);
        } else if i == count - 1 && flags[i].1 != 0 {
            assert(all.last() == flags[i].0);
        }
        assert forall|k: int| 0 <= k < all.len() implies flag_set(
            flags,
            count,
            #[trigger] all[k],
        ) by {
            if k < before.len() {
                assert(all[k] == before[k]);
                let j = choose|j: int|
                    0 <= j < count - 1 && (#[trigger] flags[j]).1 != 0 && flags[j].0 == before[k];
                assert(flags[j].1 != 0);
            } else {
                assert(flags[count - 1].1 != 0);
            }
        }
    }
}

/// Media keep their order in the output and come first; what is neither video nor audio
/// comes behind the appended tracks, in its order.
pub proof fn law_media_come_first(streams: Seq<StreamView>, appended: nat, first: nat, second: nat)
    requires
        first < second < streams.len(),
    ensures
        ({
            let one = output_position(streams, appended, first);
            let other = output_position(streams, appended, second);
            let media = media_count(streams, streams.len());
            &&& media_stream(streams[first as int]) <==> one < media
            &&& !media_stream(streams[first as int]) ==> one >= media + appended
            &&& media_stream(streams[first as int]) == media_stream(streams[second as int]) ==> one
                < other
        }),
{
    lemma_media_count_grows(streams, first + 1, second);
    lemma_media_count_grows(streams, first + 1, streams.len());
    lemma_media_count_grows(streams, second + 1, streams.len());
    lemma_counts(streams, first);
    lemma_counts(streams, second);
}

/// Whether a number is one, ten, a hundred and so on.
pub open spec fn power_of_ten(unit: nat) -> bool
    decreases unit,
{
    unit == 1 || (unit >= 10 && unit % 10 == 0 && power_of_ten(unit / 10))
}

/// What digits behind a point stand for, where the first counts some unit.
pub open spec fn fraction_value(spelled: Seq<char>, unit: nat) -> int
    decreases spelled.len(),
{
    if spelled.len() == 0 {
        0
    } else {
        (spelled[0] as int - 48) * unit + fraction_value(spelled.skip(1), unit / 10)
    }
}

/// A fraction is spelled in full, with figures alone and no zero at its end.
pub proof fn law_fractions_are_spelled_in_full(part: nat, unit: nat)
    requires
        power_of_ten(unit),
        part < 10 * unit,
    ensures
        fraction_value(fraction(part, unit), unit) == part,
        part > 0 ==> fraction(part, unit).len() > 0 && fraction(part, unit).last() != '0',
        forall|i: int|
            0 <= i < fraction(part, unit).len() ==> '0' <= #[trigger] fraction(part, unit)[i]
                <= '9',
    decreases unit,
{
    if part > 0 {
        let q = part / unit;
        let r = part % unit;
        vstd::arithmetic::div_mod::lemma_fundamental_div_mod(part as int, unit as int);
        assert(q < 10) by (nonlinear_arith)
            requires
                q == part / unit,
                part < 10 * unit,
                unit > 0,
        ;
        assert(q * unit + r == part) by (nonlinear_arith)
            requires
                part as int == (unit as int) * (part as int / unit as int) + part as int
                    % unit as int,
                q == part / unit,
                r == part % unit,
        ;
        let rest = fraction(r, unit / 10);
        let all = fraction(part, unit);
        assert(all =~= seq![digit(q)] + rest);
        assert(all.skip(1) =~= rest);
        assert(digit(q) as int == q + 48);
        if unit == 1 {
            assert(r == 0);
        } else {
            law_fractions_are_spelled_in_full(r, unit / 10);
        }
        assert(all[0] == digit(q));
        assert(all[0] as int - 48 == q);
        assert(fraction_value(all, unit) == (all[0] as int - 48) * unit + fraction_value(
            all.skip(1),
            unit / 10,
        ));
        assert((all[0] as int - 48) * unit == q * unit);
        assert(fraction_value(rest, unit / 10) == r);
        assert forall|i: int| 0 <= i < all.len() implies '0' <= #[trigger] all[i] <= '9' by {
            if i > 0 {
                assert(all[i] == rest[i - 1]);
            }
        }
        if r == 0 {
            assert(rest =~= seq![]);
            assert(q > 0) by (nonlinear_arith)
                requires
                    q * unit == part,
                    part > 0,
                    q >= 0,
            ;
        } else {
            assert(all.last() == rest.last());
        }
    }
}

/// A time is spelled in seconds: whole ones without a point, and behind it what is left
/// in billionths. One before zero has a sign before the same spelling.
pub proof fn law_times_are_spelled_in_seconds(seconds: nat, rest: nat)
    requires
        rest < 1_000_000_000,
    ensures
        rest == 0 ==> timestamp((1_000_000_000 * seconds) as int) == digits(seconds),
        rest > 0 ==> timestamp((1_000_000_000 * seconds + rest) as int) == digits(seconds) + "."@ + fraction(
            rest,
            100_000_000,
        ),
        rest > 0 ==> fraction_value(fraction(rest, 100_000_000), 100_000_000) == rest,
        1_000_000_000 * seconds + rest > 0 ==> timestamp(-(1_000_000_000 * seconds + rest)) == "-"@
            + timestamp((1_000_000_000 * seconds + rest) as int),
{
    reveal_strlit("");
    reveal_with_fuel(power_of_ten, 10);
    law_fractions_are_spelled_in_full(rest, 100_000_000);
    let size = (1_000_000_000 * seconds + rest) as nat;
    assert(size / 1_000_000_000 == seconds && size % 1_000_000_000 == rest);
    let tail = if rest == 0 {
        Seq::<char>::empty()
    } else {
        "."@ + fraction(rest, 100_000_000)
    };
    assert(""@.len() == 0);
    assert(timestamp(size as int) =~= digits(seconds) + tail);
    if size > 0 {
        assert(timestamp(-(size as int)) =~= "-"@ + (digits(seconds) + tail));
    }
    assert(digits(seconds) + Seq::<char>::empty() =~= digits(seconds));
    if rest > 0 {
        assert(digits(seconds) + tail =~= digits(seconds) + "."@ + fraction(rest, 100_000_000));
    }
}

/// Whether a list holds another as a part.
pub open spec fn holds(list: Seq<ArgumentView>, part: Seq<ArgumentView>) -> bool {
    exists|before: Seq<ArgumentView>, after: Seq<ArgumentView>|
        list == #[trigger] (before + part + after)
}

/// What a part of a list holds, the list holds.
proof fn lemma_part_holds(
    before: Seq<ArgumentView>,
    part: Seq<ArgumentView>,
    after: Seq<ArgumentView>,
    inner: Seq<ArgumentView>,
)
    requires
        holds(part, inner),
    ensures
        holds(before + part + after, inner),
{
    let (b, a) = choose|b: Seq<ArgumentView>, a: Seq<ArgumentView>|
        part == #[trigger] (b + inner + a);
    assert(before + part + after =~= (before + b) + inner + (a + after));
}

proof fn lemma_holds_itself(list: Seq<ArgumentView>)
    ensures
        holds(list, list),
{
    let none: Seq<ArgumentView> = seq![];
    assert(list =~= none + list + none);
}

/// The settings of the appended tracks hold those of each: its codec at its place behind the
/// audio of the source, and there its title, its language and its flags.
pub proof fn law_every_track_has_its_settings(
    tracks: Seq<AppendedView>,
    language: Option<Seq<char>>,
    first: nat,
    count: nat,
    i: nat,
)
    requires
        i < count <= tracks.len(),
    ensures
        holds(
            codec_settings(tracks, first, count),
            words(codec_words(tracks[i as int].codec, first + i)),
        ),
        holds(
            track_settings(tracks, language, first, count),
            words(track_words(tracks[i as int].title, language, first + i)),
        ),
    decreases count,
{
    let less = (count - 1) as nat;
    let none: Seq<ArgumentView> = seq![];
    let codecs = codec_settings(tracks, first, less);
    let codec = words(codec_words(tracks[less as int].codec, first + less));
    let settings = track_settings(tracks, language, first, less);
    let setting = words(track_words(tracks[less as int].title, language, first + less));
    assert(codec_settings(tracks, first, count) =~= none + codecs + codec);
    assert(track_settings(tracks, language, first, count) =~= none + settings + setting);
    if i < less {
        law_every_track_has_its_settings(tracks, language, first, less, i);
        lemma_part_holds(none, codecs, codec, words(codec_words(tracks[i as int].codec, first + i)));
        lemma_part_holds(
            none,
            settings,
            setting,
            words(track_words(tracks[i as int].title, language, first + i)),
        );
    } else {
        assert(codec_settings(tracks, first, count) =~= codecs + codec + none);
        assert(track_settings(tracks, language, first, count) =~= settings + setting + none);
    }
}

/// The settings of the streams of the source hold those of each: its tags and its flags, at
/// the place that it has in the output.
pub proof fn law_every_stream_keeps_its_settings(
    streams: Seq<StreamView>,
    appended: nat,
    count: nat,
    i: nat,
)
    requires
        i < count <= streams.len(),
    ensures
        ({
            let stream = streams[i as int];
            let place = digits(output_position(streams, appended, i));
            let all = stream_settings(streams, appended, count);
            &&& holds(all, tag_settings("-metadata:s:"@ + place, stream.tags, stream.tags.len()))
            &&& holds(all, words(seq!["-disposition:"@ + place, disposition_text(stream.disposition)]))
        }),
    decreases count,
{
    let less = (count - 1) as nat;
    let none: Seq<ArgumentView> = seq![];
    let before = stream_settings(streams, appended, less);
    let last = streams[less as int];
    let at = digits(output_position(streams, appended, less));
    let tags = tag_settings("-metadata:s:"@ + at, last.tags, last.tags.len());
    let flags = words(seq!["-disposition:"@ + at, disposition_text(last.disposition)]);
    let all = stream_settings(streams, appended, count);
    assert(all == before + tags + flags);
    if i < less {
        let stream = streams[i as int];
        let place = digits(output_position(streams, appended, i));
        law_every_stream_keeps_its_settings(streams, appended, less, i);
        assert(all =~= none + before + (tags + flags));
        lemma_part_holds(
            none,
            before,
            tags + flags,
            tag_settings("-metadata:s:"@ + place, stream.tags, stream.tags.len()),
        );
        lemma_part_holds(
            none,
            before,
            tags + flags,
            words(seq!["-disposition:"@ + place, disposition_text(stream.disposition)]),
        );
    } else {
        assert(all =~= before + tags + flags);
        assert(all =~= (before + tags) + flags + none);
    }
}

/// The first stage encodes every appended track as it is asked to, at its place behind the
/// audio of the source.
pub proof fn law_the_first_stage_encodes_every_track(
    source: ContainerView,
    tracks: Seq<AppendedView>,
    start: int,
    i: nat,
)
    requires
        i < tracks.len(),
    ensures
        holds(
            media_arguments(source, tracks, start),
            words(
                codec_words(
                    tracks[i as int].codec,
                    audio_count(source.streams, source.streams.len()) + i,
                ),
            ),
        ),
{
    let streams = source.streams;
    let first = audio_count(streams, streams.len());
    let lead = words(stage_lead()) + seq![ArgumentView::Source] + track_inputs(start, tracks.len())
        + stream_maps(streams, true, "0:"@, streams.len()) + track_maps(tracks.len()) + words(
        seq!["-map_metadata"@, "-1"@, "-map_chapters"@, "-1"@, "-c"@, "copy"@],
    );
    let end = words(seq!["-f"@, "matroska"@, "pipe:1"@]);
    law_every_track_has_its_settings(tracks, None, first, tracks.len(), i);
    lemma_part_holds(
        lead,
        codec_settings(tracks, first, tracks.len()),
        end,
        words(codec_words(tracks[i as int].codec, first + i)),
    );
}

/// The second stage sets every tag of the source, the tags and flags of its streams at their
/// places in the output, the title and language of every appended track, and the advanced
/// options behind them.
pub proof fn law_the_second_stage_sets_everything(
    source: ContainerView,
    tracks: Seq<AppendedView>,
    selected: StreamView,
    advanced: Seq<(Seq<char>, Seq<char>)>,
    stream: nat,
    track: nat,
)
    ensures
        ({
            let list = preservation_arguments(source, tracks, selected, advanced);
            let first = audio_count(source.streams, source.streams.len());
            &&& holds(
                list,
                tag_settings("-metadata"@, source.format.tags, source.format.tags.len()),
            )
            &&& stream < source.streams.len() ==> ({
                let kept = source.streams[stream as int];
                let place = digits(output_position(source.streams, tracks.len(), stream));
                &&& holds(list, tag_settings("-metadata:s:"@ + place, kept.tags, kept.tags.len()))
                &&& holds(
                    list,
                    words(seq!["-disposition:"@ + place, disposition_text(kept.disposition)]),
                )
            })
            &&& track < tracks.len() ==> holds(
                list,
                words(
                    track_words(
                        tracks[track as int].title,
                        inherited_language(selected),
                        first + track,
                    ),
                ),
            )
            &&& holds(list, words(advanced_words(advanced, advanced.len())))
        }),
{
    let streams = source.streams;
    let first = audio_count(streams, streams.len());
    let language = inherited_language(selected);
    let lead = words(stage_lead()) + words(seq!["pipe:0"@, "-i"@]) + seq![ArgumentView::Source]
        + words(seq!["-map"@, "0"@]) + stream_maps(streams, false, "1:"@, streams.len()) + words(
        seq!["-map_metadata"@, "1"@, "-map_chapters"@, "1"@],
    ) + words(
        if has_unread(streams, streams.len()) {
            seq!["-copy_unknown"@]
        } else {
            seq![]
        },
    ) + words(seq!["-c"@, "copy"@]);
    let tags = tag_settings("-metadata"@, source.format.tags, source.format.tags.len());
    let kept = stream_settings(streams, tracks.len(), streams.len());
    let added = track_settings(tracks, language, first, tracks.len());
    let more = words(advanced_words(advanced, advanced.len()));
    lemma_holds_itself(tags);
    lemma_holds_itself(more);
    lemma_settings_hold(lead, tags, kept, added, more, seq![ArgumentView::Destination], tags);
    lemma_settings_hold(lead, tags, kept, added, more, seq![ArgumentView::Destination], more);
    if stream < streams.len() {
        let one = streams[stream as int];
        let place = digits(output_position(streams, tracks.len(), stream));
        law_every_stream_keeps_its_settings(streams, tracks.len(), streams.len(), stream);
        lemma_settings_hold(
            lead,
            tags,
            kept,
            added,
            more,
            seq![ArgumentView::Destination],
            tag_settings("-metadata:s:"@ + place, one.tags, one.tags.len()),
        );
        lemma_settings_hold(
            lead,
            tags,
            kept,
            added,
            more,
            seq![ArgumentView::Destination],
            words(seq!["-disposition:"@ + place, disposition_text(one.disposition)]),
        );
    }
    if track < tracks.len() {
        law_every_track_has_its_settings(tracks, language, first, tracks.len(), track);
        lemma_settings_hold(
            lead,
            tags,
            kept,
            added,
            more,
            seq![ArgumentView::Destination],
            words(track_words(tracks[track as int].title, language, first + track)),
        );
    }
}

/// What one of the last parts of a list holds, the list holds.
proof fn lemma_settings_hold(
    a: Seq<ArgumentView>,
    b: Seq<ArgumentView>,
    c: Seq<ArgumentView>,
    d: Seq<ArgumentView>,
    e: Seq<ArgumentView>,
    f: Seq<ArgumentView>,
    inner: Seq<ArgumentView>,
)
    requires
        holds(b, inner) || holds(c, inner) || holds(d, inner) || holds(e, inner),
    ensures
        holds(a + b + c + d + e + f, inner),
{
    let list = a + b + c + d + e + f;
    if holds(b, inner) {
        assert(list =~= a + b + (c + d + e + f));
        lemma_part_holds(a, b, c + d + e + f, inner);
    } else if holds(c, inner) {
        assert(list =~= (a + b) + c + (d + e + f));
        lemma_part_holds(a + b, c, d + e + f, inner);
    } else if holds(d, inner) {
        assert(list =~= (a + b + c) + d + (e + f));
        lemma_part_holds(a + b + c, d, e + f, inner);
    } else {
        lemma_part_holds(a + b + c + d, e, f, inner);
    }
}

/// Advanced options are given as name and value, one behind the other, so that reading them
/// in pairs gives them back.
pub proof fn law_advanced_options_are_given_in_pairs(
    pairs: Seq<(Seq<char>, Seq<char>)>,
    count: nat,
)
    requires
        count <= pairs.len(),
    ensures
        advanced_words(pairs, count).len() == 2 * count,
        paired(advanced_words(pairs, count)) == pairs.take(count as int),
    decreases count,
{
    if count > 0 {
        let less = (count - 1) as nat;
        law_advanced_options_are_given_in_pairs(pairs, less);
        let all = advanced_words(pairs, count);
        let before = advanced_words(pairs, less);
        assert forall|i: int| 0 <= i < count implies paired(all)[i] == pairs.take(
            count as int,
        )[i] by {
            if i < less {
                assert(all[2 * i] == before[2 * i] && all[2 * i + 1] == before[2 * i + 1]);
                assert(paired(before)[i] == pairs.take(less as int)[i]);
            } else {
                assert(all[2 * i] == pairs[i].0 && all[2 * i + 1] == pairs[i].1);
            }
        }
        assert(paired(all) =~= pairs.take(count as int));
    } else {
        assert(paired(advanced_words(pairs, 0)) =~= pairs.take(0));
    }
}

} // verus!
