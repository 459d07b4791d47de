//! The order of a run, the choice of its track, and what it tells the user.

use crate::cli::{unimplemented_options, validate_implemented_options, ProgressMode, TrackOptions};
use crate::error::{AppError, Reason};
use crate::media::{stream_views, ContainerManifest, StreamView};
use crate::selection::{
    audio_tracks, best, first_with_index, select_track, selection_outcome, track_views,
    wish, AudioTrack, DecodeCapability, TrackView,
};
use crate::text::{decimal, digits, fill, joined, row, shortfall, texts};
use vstd::prelude::*;

verus! {

/// A step of a run.
#[derive(Clone, Copy, Debug, PartialEq, Eq, Structural)]
pub enum Step {
    ReadArguments,
    ResolvePaths,
    LocateProber,
    Probe,
    ListTracks,
    Select,
    LocateEncoder,
    LoadProfile,
    LoadCorrection,
    OpenWorkspace,
    RenderChannels,
    RenderTrueHd,
    RenderJoc,
    OpenOutput,
    Mux,
    ProbeOutput,
    Verify,
    Commit,
    Report,
    Done,
}

/// What decides the order of a run.
#[derive(Clone, Copy, Debug, PartialEq, Eq, Structural)]
pub struct RunFacts {
    pub list_tracks: bool,
    pub room_correction: bool,
    pub capability: DecodeCapability,
}

impl Step {
    /// How far a run has come.
    pub open spec fn rank(self) -> nat {
        match self {
            Step::ReadArguments => 0,
            Step::ResolvePaths => 1,
            Step::LocateProber => 2,
            Step::Probe => 3,
            Step::ListTracks => 4,
            Step::Select => 5,
            Step::LocateEncoder => 6,
            Step::LoadProfile => 7,
            Step::LoadCorrection => 8,
            Step::OpenWorkspace => 9,
            Step::RenderChannels => 10,
            Step::RenderTrueHd => 10,
            Step::RenderJoc => 10,
            Step::OpenOutput => 11,
            Step::Mux => 12,
            Step::ProbeOutput => 13,
            Step::Verify => 14,
            Step::Commit => 15,
            Step::Report => 16,
            Step::Done => 17,
        }
    }

    /// The step behind one that succeeded, or nothing where the selected track
    /// cannot be rendered.
    pub open spec fn following(self, facts: RunFacts) -> Option<Step> {
        match self {
            Step::ReadArguments => Some(Step::ResolvePaths),
            Step::ResolvePaths => Some(Step::LocateProber),
            Step::LocateProber => Some(Step::Probe),
            Step::Probe => if facts.list_tracks {
                Some(Step::ListTracks)
            } else {
                Some(Step::Select)
            },
            Step::ListTracks => Some(Step::Done),
            Step::Select => Some(Step::LocateEncoder),
            Step::LocateEncoder => Some(Step::LoadProfile),
            Step::LoadProfile => if facts.room_correction {
                Some(Step::LoadCorrection)
            } else {
                Some(Step::OpenWorkspace)
            },
            Step::LoadCorrection => Some(Step::OpenWorkspace),
            Step::OpenWorkspace => match facts.capability {
                DecodeCapability::Channels => Some(Step::RenderChannels),
                DecodeCapability::TrueHdObjects => Some(Step::RenderTrueHd),
                DecodeCapability::JocObjects => Some(Step::RenderJoc),
                DecodeCapability::Unsupported => None,
            },
            Step::RenderChannels => Some(Step::OpenOutput),
            Step::RenderTrueHd => Some(Step::OpenOutput),
            Step::RenderJoc => Some(Step::OpenOutput),
            Step::OpenOutput => Some(Step::Mux),
            Step::Mux => Some(Step::ProbeOutput),
            Step::ProbeOutput => Some(Step::Verify),
            Step::Verify => Some(Step::Commit),
            Step::Commit => Some(Step::Report),
            Step::Report => Some(Step::Done),
            Step::Done => Some(Step::Done),
        }
    }

    /// Goes on to the next step.
    pub fn next(self, facts: RunFacts) -> (r: Result<Step, AppError>)
        ensures
            match self.following(facts) {
                Some(step) => r == Ok::<Step, AppError>(step),
                None => r is Err && r->Err_0 is UnsupportedInput && r->Err_0.text()
                    == "selected audio codec is not renderable"@,
            },
    {
        match self {
            Step::ReadArguments => Ok(Step::ResolvePaths),
            Step::ResolvePaths => Ok(Step::LocateProber),
            Step::LocateProber => Ok(Step::Probe),
            Step::Probe => if facts.list_tracks {
                Ok(Step::ListTracks)
            } else {
                Ok(Step::Select)
            },
            Step::ListTracks => Ok(Step::Done),
            Step::Select => Ok(Step::LocateEncoder),
            Step::LocateEncoder => Ok(Step::LoadProfile),
            Step::LoadProfile => if facts.room_correction {
                Ok(Step::LoadCorrection)
            } else {
                Ok(Step::OpenWorkspace)
            },
            Step::LoadCorrection => Ok(Step::OpenWorkspace),
            Step::OpenWorkspace => match facts.capability {
                DecodeCapability::Channels => Ok(Step::RenderChannels),
                DecodeCapability::TrueHdObjects => Ok(Step::RenderTrueHd),
                DecodeCapability::JocObjects => Ok(Step::RenderJoc),
                DecodeCapability::Unsupported => Err(
                    AppError::UnsupportedInput(
                        Reason::Note(String::from_str("selected audio codec is not renderable")),
                    ),
                ),
            },
            Step::RenderChannels => Ok(Step::OpenOutput),
            Step::RenderTrueHd => Ok(Step::OpenOutput),
            Step::RenderJoc => Ok(Step::OpenOutput),
            Step::OpenOutput => Ok(Step::Mux),
            Step::Mux => Ok(Step::ProbeOutput),
            Step::ProbeOutput => Ok(Step::Verify),
            Step::Verify => Ok(Step::Commit),
            Step::Commit => Ok(Step::Report),
            Step::Report => Ok(Step::Done),
            Step::Done => Ok(Step::Done),
        }
    }

    /// The message that announces a step.
    pub fn announcement(self) -> (r: Option<&'static str>)
        ensures
            match self {
                Step::RenderChannels => r is Some && r->0@ == "rendering binaural track"@,
                Step::RenderTrueHd => r is Some && r->0@ == "rendering binaural track"@,
                Step::RenderJoc => r is Some && r->0@ == "rendering binaural track"@,
                Step::Mux => r is Some && r->0@ == "muxing preservation copy"@,
                Step::ProbeOutput => r is Some && r->0@
                    == "verifying preservation and synchronization"@,
                _ => r is None,
            },
    {
        match self {
            Step::RenderChannels => Some("rendering binaural track"),
            Step::RenderTrueHd => Some("rendering binaural track"),
            Step::RenderJoc => Some("rendering binaural track"),
            Step::Mux => Some("muxing preservation copy"),
            Step::ProbeOutput => Some("verifying preservation and synchronization"),
            _ => None,
        }
    }
}

/// Whether a run that only lists tracks goes through a step.
pub open spec fn listing_step(step: Step) -> bool {
    step.rank() <= 4 || step is Done
}

/// Every step that is not the last leads on, so a run ends.
pub proof fn law_a_run_moves_forward(step: Step, facts: RunFacts)
    requires
        !(step is Done),
        step.following(facts) is Some,
    ensures
        step.rank() < step.following(facts)->0.rank(),
{
}

/// An output is published only behind a verification that succeeded.
pub proof fn law_publication_follows_verification(step: Step, facts: RunFacts)
    ensures
        step.following(facts) == Some(Step::Commit) ==> step is Verify,
        step.following(facts) == Some(Step::Verify) ==> step is ProbeOutput,
        step.following(facts) == Some(Step::ProbeOutput) ==> step is Mux,
{
}

/// A run that lists tracks writes nothing.
pub proof fn law_listing_writes_nothing(step: Step, facts: RunFacts)
    requires
        facts.list_tracks,
        listing_step(step),
    ensures
        step.following(facts) is Some,
        listing_step(step.following(facts)->0),
{
}

/// The first stream from one on with an index.
pub open spec fn stream_with(streams: Seq<StreamView>, index: usize, start: nat) -> Option<nat>
    decreases streams.len() - start,
{
    if start >= streams.len() {
        None
    } else if streams[start as int].index == index {
        Some(start)
    } else {
        stream_with(streams, index, start + 1)
    }
}

proof fn lemma_stream_with(streams: Seq<StreamView>, index: usize, start: nat, place: int)
    requires
        start <= place < streams.len(),
        streams[place].index == index,
    ensures
        stream_with(streams, index, start) is Some,
        stream_with(streams, index, start)->0 < streams.len(),
    decreases streams.len() - start,
{
    if streams[start as int].index != index {
        lemma_stream_with(streams, index, start + 1, place);
    }
}

/// Every track of a container stands for one of its streams.
pub proof fn law_every_track_has_its_stream(streams: Seq<StreamView>, count: nat, track: int)
    requires
        count <= streams.len(),
        0 <= track < audio_tracks(streams, count).len(),
    ensures
        stream_with(streams, audio_tracks(streams, count)[track].stream_index, 0) is Some,
        stream_with(streams, audio_tracks(streams, count)[track].stream_index, 0)->0
            < streams.len(),
    decreases count,
{
    if count > 0 {
        let before = audio_tracks(streams, (count - 1) as nat);
        if track < before.len() {
            law_every_track_has_its_stream(streams, (count - 1) as nat, track);
        } else {
            lemma_stream_with(streams, streams[count - 1].index, 0, count - 1);
        }
    }
}

/// Selects a track of a container, refuses options that its kind does not
/// implement, and finds its stream.
pub fn choose_track<'a>(
    manifest: &ContainerManifest,
    tracks: &'a [AudioTrack],
    explicit_index: Option<usize>,
    language: Option<&str>,
    options: TrackOptions,
) -> (r: Result<(&'a AudioTrack, usize), AppError>)
    requires
        track_views(tracks@) == audio_tracks(manifest@.streams, manifest@.streams.len()),
    ensures
        match r {
            Ok(chosen) => {
                &&& selection_outcome(tracks@, explicit_index, wish(language), Ok(chosen.0))
                &&& unimplemented_options(options, chosen.0.capability).len() == 0
                &&& stream_with(manifest@.streams, chosen.0.stream_index, 0) == Some(
                    chosen.1 as nat,
                )
                &&& chosen.1 < manifest@.streams.len()
            },
            Err(e) => {
                ||| selection_outcome(tracks@, explicit_index, wish(language), Err(e))
                ||| exists|track: &AudioTrack| #[trigger]
                    selection_outcome(tracks@, explicit_index, wish(language), Ok(track)) && ({
                        let refused = unimplemented_options(options, track.capability);
                        &&& refused.len() > 0
                        &&& e is Usage
                        &&& e.text()
                            == "these options are not implemented by the Rust renderer yet: "@
                            + joined(refused, ", "@)
                    })
            },
        },
{
    let track = match select_track(tracks, explicit_index, language) {
        Err(e) => return Err(e),
        Ok(track) => track,
    };
    match validate_implemented_options(options, track.capability) {
        Err(e) => {
            assert(selection_outcome(tracks@, explicit_index, wish(language), Ok(track)));
            return Err(e);
        },
        Ok(_) => {},
    }
    let ghost streams = manifest@.streams;
    proof {
        let views = track_views(tracks@);
        let place: int = match explicit_index {
            Some(index) => choose|i: int| first_with_index(views, index as nat, i),
            None => choose|i: int| #[trigger] best(views, wish(language), i) && *track == tracks@[i],
        };
        assert(0 <= place < tracks@.len() && *track == tracks@[place]);
        assert(views[place] == track@);
        law_every_track_has_its_stream(streams, streams.len(), place);
    }
    let mut i: usize = 0;
    while i < manifest.streams.len()
        invariant
            i <= manifest.streams@.len(),
            streams == manifest@.streams,
            streams == stream_views(manifest.streams@),
            selection_outcome(tracks@, explicit_index, wish(language), Ok(track)),
            unimplemented_options(options, track.capability).len() == 0,
            stream_with(streams, track.stream_index, 0) is Some,
            stream_with(streams, track.stream_index, 0) == stream_with(
                streams,
                track.stream_index,
                i as nat,
            ),
        decreases manifest.streams@.len() - i,
    {
        assert(streams[i as int] == manifest.streams@[i as int]@);
        if manifest.streams[i].index == track.stream_index {
            return Ok((track, i));
        }
        i = i + 1;
    }
    assert(false);
    Ok((track, 0))
}

/// A text in a column, aligned to the right or to the left.
pub open spec fn cell(text: Seq<char>, width: nat, right: bool) -> Seq<char> {
    if right {
        row(' ', shortfall(text, width)) + text
    } else {
        text + row(' ', shortfall(text, width))
    }
}

/// The language of a track as listings spell it.
pub open spec fn spoken(language: Option<Seq<char>>) -> Seq<char> {
    match language {
        Some(text) => text,
        None => "und"@,
    }
}

/// The line of a listing for one track.
pub open spec fn track_line(track: TrackView) -> Seq<char> {
    cell(digits(track.audio_index), 5, true) + "  "@ + cell(
        digits(track.stream_index as nat),
        6,
        true,
    ) + "  "@ + cell(track.codec, 10, false) + "  "@ + cell(spoken(track.language), 8, false)
        + "  "@ + cell(
        match track.channels {
            Some(count) => digits(count as nat),
            None => "?"@,
        },
        8,
        true,
    ) + "  "@ + track.capability.name()
}

/// The lines of a listing.
pub open spec fn track_lines(tracks: Seq<TrackView>) -> Seq<Seq<char>> {
    if tracks.len() == 0 {
        seq!["No audio tracks."@]
    } else {
        seq!["audio  stream  codec       language  channels  capability"@] + tracks.map_values(
            |t: TrackView| track_line(t),
        )
    }
}

fn language_text(track: &AudioTrack) -> (r: &str)
    ensures
        r@ == spoken(track@.language),
{
    match &track.language {
        Some(text) => text.as_str(),
        None => "und",
    }
}

fn write_line(track: &AudioTrack) -> (r: String)
    ensures
        r@ == track_line(track@),
{
    let channels: String = match track.channels {
        Some(count) => decimal(count as u64),
        None => String::from_str("?"),
    };
    let mut line = fill(decimal(track.audio_index as u64).as_str(), 5, ' ', true);
    line.append("  ");
    line.append(fill(decimal(track.stream_index as u64).as_str(), 6, ' ', true).as_str());
    line.append("  ");
    line.append(fill(track.codec.as_str(), 10, ' ', false).as_str());
    line.append("  ");
    line.append(fill(language_text(track), 8, ' ', false).as_str());
    line.append("  ");
    line.append(fill(channels.as_str(), 8, ' ', true).as_str());
    line.append("  ");
    line.append(track.capability.label());
    line
}

/// Lists the tracks of a container in columns.
pub fn list_tracks(tracks: &[AudioTrack]) -> (r: Vec<String>)
    ensures
        texts(r@) == track_lines(track_views(tracks@)),
{
    let ghost views = track_views(tracks@);
    let mut lines: Vec<String> = Vec::new();
    if tracks.len() == 0 {
        lines.push(String::from_str("No audio tracks."));
        assert(texts(lines@) =~= track_lines(views));
        return lines;
    }
    lines.push(String::from_str("audio  stream  codec       language  channels  capability"));
    let mut i: usize = 0;
    while i < tracks.len()
        invariant
            i <= tracks@.len(),
            views == track_views(tracks@),
            tracks@.len() > 0,
            texts(lines@) =~= track_lines(views).take(i + 1),
        decreases tracks@.len() - i,
    {
        let ghost before = lines@;
        let line = write_line(&tracks[i]);
        assert(views[i as int] == tracks@[i as int]@);
        lines.push(line);
        assert(texts(lines@) =~= texts(before).push(line@));
        i = i + 1;
    }
    assert(track_lines(views).take(track_lines(views).len() as int) =~= track_lines(views));
    lines
}

/// What is said of the selected track.
pub open spec fn selected_text(track: TrackView) -> Seq<char> {
    "selected audio "@ + digits(track.audio_index) + " (stream "@ + digits(
        track.stream_index as nat,
    ) + ", "@ + track.codec + ", "@ + spoken(track.language) + ", "@ + track.capability.name()
        + ")"@
}

/// Says which track was selected.
pub fn selected_message(track: &AudioTrack) -> (r: String)
    ensures
        r@ == selected_text(track@),
{
    let mut message = String::from_str("selected audio ");
    message.append(decimal(track.audio_index as u64).as_str());
    message.append(" (stream ");
    message.append(decimal(track.stream_index as u64).as_str());
    message.append(", ");
    message.append(track.codec.as_str());
    message.append(", ");
    message.append(language_text(track));
    message.append(", ");
    message.append(track.capability.label());
    message.append(")");
    message
}

/// Whether messages are shown.
pub fn shows_messages(mode: ProgressMode) -> (r: bool)
    ensures
        r == (mode is Text),
{
    matches!(mode, ProgressMode::Text)
}

/// Each step is reached from one other, and only where the run calls for it: a listing
/// where one is asked for, a correction where there is one, and the renderer of the kind
/// of the selected track.
pub proof fn law_every_step_has_its_cause(step: Step, facts: RunFacts)
    requires
        !(step is Done),
    ensures
        ({
            let next = step.following(facts);
            &&& next != Some(Step::ReadArguments)
            &&& next == Some(Step::ResolvePaths) <==> step is ReadArguments
            &&& next == Some(Step::LocateProber) <==> step is ResolvePaths
            &&& next == Some(Step::Probe) <==> step is LocateProber
            &&& next == Some(Step::ListTracks) <==> step is Probe && facts.list_tracks
            &&& next == Some(Step::Select) <==> step is Probe && !facts.list_tracks
            &&& next == Some(Step::LocateEncoder) <==> step is Select
            &&& next == Some(Step::LoadProfile) <==> step is LocateEncoder
            &&& next == Some(Step::LoadCorrection) <==> step is LoadProfile
                && facts.room_correction
            &&& next == Some(Step::OpenWorkspace) <==> step is LoadCorrection || (
            step is LoadProfile && !facts.room_correction)
            &&& next == Some(Step::RenderChannels) <==> step is OpenWorkspace
                && facts.capability is Channels
            &&& next == Some(Step::RenderTrueHd) <==> step is OpenWorkspace
                && facts.capability is TrueHdObjects
            &&& next == Some(Step::RenderJoc) <==> step is OpenWorkspace
                && facts.capability is JocObjects
            &&& next is None <==> step is OpenWorkspace && facts.capability is Unsupported
            &&& next == Some(Step::OpenOutput) <==> step is RenderChannels || step is RenderTrueHd
                || step is RenderJoc
            &&& next == Some(Step::Mux) <==> step is OpenOutput
            &&& next == Some(Step::ProbeOutput) <==> step is Mux
            &&& next == Some(Step::Verify) <==> step is ProbeOutput
            &&& next == Some(Step::Commit) <==> step is Verify
            &&& next == Some(Step::Report) <==> step is Commit
            &&& next == Some(Step::Done) <==> step is Report || step is ListTracks
        }),
{
}

/// The stream of a track is the first that has its index; none is found exactly where no
/// stream has it.
pub proof fn law_a_track_has_the_first_stream_of_its_index(
    streams: Seq<StreamView>,
    index: usize,
    start: nat,
)
    ensures
        match stream_with(streams, index, start) {
            None => forall|i: int|
                start <= i < streams.len() ==> (#[trigger] streams[i]).index != index,
            Some(place) => {
                &&& start <= place < streams.len()
                &&& streams[place as int].index == index
                &&& forall|i: int| start <= i < place ==> (#[trigger] streams[i]).index != index
            },
        },
    decreases streams.len() - start,
{
    if start < streams.len() && streams[start as int].index != index {
        law_a_track_has_the_first_stream_of_its_index(streams, index, start + 1);
        match stream_with(streams, index, start) {
            None => {
                assert forall|i: int| start <= i < streams.len() implies (
                #[trigger] streams[i]).index != index by {
                    if i > start {
                        assert(start + 1 <= i);
                    }
                }
            },
            Some(place) => {
                assert forall|i: int| start <= i < place implies (#[trigger] streams[i]).index
                    != index by {
                    if i > start {
                        assert(start + 1 <= i);
                    }
                }
            },
        }
    }
}

/// Whether a column ends with a text and holds blanks before it.
pub open spec fn at_the_right(column: Seq<char>, text: Seq<char>) -> bool {
    exists|blanks: nat| column == #[trigger] row(' ', blanks) + text
}

/// Whether a column begins with a text and holds blanks behind it.
pub open spec fn at_the_left(column: Seq<char>, text: Seq<char>) -> bool {
    exists|blanks: nat| column == text + #[trigger] row(' ', blanks)
}

/// The columns of a listing stand under their heads: the numbers at the right of them and
/// the words at the left, where they are not too long.
pub proof fn law_listings_stand_in_columns(track: TrackView)
    requires
        digits(track.audio_index).len() <= 5,
        digits(track.stream_index as nat).len() <= 6,
        track.codec.len() <= 10,
        track.language is Some ==> track.language->0.len() <= 8,
        track.channels is Some ==> digits(track.channels->0 as nat).len() <= 8,
    ensures
        ({
            let line = track_line(track);
            let heads = track_lines(seq![track])[0];
            &&& track_lines(seq![track]) == seq![heads, line]
            &&& heads.subrange(0, 5) == "audio"@
            &&& at_the_right(line.subrange(0, 5), digits(track.audio_index))
            &&& heads.subrange(7, 13) == "stream"@
            &&& at_the_right(line.subrange(7, 13), digits(track.stream_index as nat))
            &&& heads.subrange(15, 20) == "codec"@
            &&& at_the_left(line.subrange(15, 25), track.codec)
            &&& heads.subrange(27, 35) == "language"@
            &&& at_the_left(
                line.subrange(27, 35),
                if track.language is Some {
                    track.language->0
                } else {
                    "und"@
                },
            )
            &&& heads.subrange(37, 45) == "channels"@
            &&& at_the_right(
                line.subrange(37, 45),
                if track.channels is Some {
                    digits(track.channels->0 as nat)
                } else {
                    "?"@
                },
            )
            &&& heads.skip(47) == "capability"@
            &&& line.skip(47) == track.capability.name()
        }),
{
    reveal_strlit("audio  stream  codec       language  channels  capability");
    reveal_strlit("audio");
    reveal_strlit("stream");
    reveal_strlit("codec");
    reveal_strlit("language");
    reveal_strlit("channels");
    reveal_strlit("capability");
    reveal_strlit("  ");
    reveal_strlit("und");
    reveal_strlit("?");
    let heads = "audio  stream  codec       language  channels  capability"@;
    assert(heads.subrange(0, 5) =~= "audio"@);
    assert(heads.subrange(7, 13) =~= "stream"@);
    assert(heads.subrange(15, 20) =~= "codec"@);
    assert(heads.subrange(27, 35) =~= "language"@);
    assert(heads.subrange(37, 45) =~= "channels"@);
    assert(heads.skip(47) =~= "capability"@);
    assert(track_lines(seq![track]) =~= seq![heads, track_line(track)]);
    let channels = match track.channels {
        Some(count) => digits(count as nat),
        None => "?"@,
    };
    lemma_cell(digits(track.audio_index), 5);
    lemma_cell(digits(track.stream_index as nat), 6);
    lemma_cell(track.codec, 10);
    lemma_cell(spoken(track.language), 8);
    lemma_cell(channels, 8);
    lemma_columns(
        cell(digits(track.audio_index), 5, true),
        cell(digits(track.stream_index as nat), 6, true),
        cell(track.codec, 10, false),
        cell(spoken(track.language), 8, false),
        cell(channels, 8, true),
        track.capability.name(),
        "  "@,
    );
}

proof fn lemma_cell(text: Seq<char>, width: nat)
    requires
        text.len() <= width,
    ensures
        cell(text, width, true).len() == width,
        cell(text, width, false).len() == width,
        at_the_right(cell(text, width, true), text),
        at_the_left(cell(text, width, false), text),
{
    let blanks = row(' ', shortfall(text, width));
    assert(cell(text, width, true) == blanks + text);
    assert(cell(text, width, false) == text + blanks);
}

proof fn lemma_columns(
    a: Seq<char>,
    b: Seq<char>,
    c: Seq<char>,
    d: Seq<char>,
    e: Seq<char>,
    f: Seq<char>,
    gap: Seq<char>,
)
    requires
        a.len() == 5,
        b.len() == 6,
        c.len() == 10,
        d.len() == 8,
        e.len() == 8,
        gap.len() == 2,
    ensures
        ({
            let line = a + gap + b + gap + c + gap + d + gap + e + gap + f;
            &&& line.subrange(0, 5) == a
            &&& line.subrange(7, 13) == b
            &&& line.subrange(15, 25) == c
            &&& line.subrange(27, 35) == d
            &&& line.subrange(37, 45) == e
            &&& line.skip(47) == f
        }),
{
    let line = a + gap + b + gap + c + gap + d + gap + e + gap + f;
    assert(line.subrange(0, 5) =~= a);
    assert(line.subrange(7, 13) =~= b);
    assert(line.subrange(15, 25) =~= c);
    assert(line.subrange(27, 35) =~= d);
    assert(line.subrange(37, 45) =~= e);
    assert(line.skip(47) =~= f);
}

} // verus!
