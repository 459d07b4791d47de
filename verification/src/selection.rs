//! Which audio track to render.

use crate::error::{AppError, Reason};
use crate::media::{stream_views, ContainerManifest, StreamManifest, StreamView};
use crate::text::{
    around, begins, characters, contains, copy_optional, decimal, digits, equals_ignoring_case,
    has_part, join, joined, lower, lower_char, lowered, optional_text, same_letters, same_text,
    starts_with, text_around, text_pair, texts,
};
use vstd::prelude::*;

verus! {

/// How a track can be decoded.
#[derive(Clone, Copy, Debug, PartialEq, Eq, Structural)]
pub enum DecodeCapability {
    TrueHdObjects,
    JocObjects,
    Channels,
    Unsupported,
}

impl DecodeCapability {
    pub open spec fn name(self) -> Seq<char> {
        match self {
            DecodeCapability::TrueHdObjects => "truehd-objects"@,
            DecodeCapability::JocObjects => "joc-objects"@,
            DecodeCapability::Channels => "channels"@,
            DecodeCapability::Unsupported => "unsupported"@,
        }
    }

    /// The capability as listings spell it.
    pub fn label(self) -> (r: &'static str)
        ensures
            r@ == self.name(),
    {
        match self {
            DecodeCapability::TrueHdObjects => "truehd-objects",
            DecodeCapability::JocObjects => "joc-objects",
            DecodeCapability::Channels => "channels",
            DecodeCapability::Unsupported => "unsupported",
        }
    }
}

/// A letter or digit of ASCII.
pub open spec fn alphanumeric(c: char) -> bool {
    let code = c as u32;
    (48 <= code <= 57) || (65 <= code <= 90) || (97 <= code <= 122)
}

/// Whether the word "atmos", in any case, starts at a place: neither the character
/// before it nor the one behind it is a letter or digit.
pub open spec fn atmos_at(profile: Seq<char>, place: int) -> bool {
    &&& 0 <= place && place + 5 <= profile.len()
    &&& lowered(profile.subrange(place, place + 5)) == "atmos"@
    &&& place > 0 ==> !alphanumeric(profile[place - 1])
    &&& place + 5 < profile.len() ==> !alphanumeric(profile[place + 5])
}

/// Whether a profile names an object mix.
pub open spec fn names_atmos(profile: Option<Seq<char>>) -> bool {
    profile matches Some(text) && holds_atmos(text)
}

/// How a codec and profile can be decoded, and the rank among candidates; a lower
/// rank is preferred.
pub open spec fn capability_of(codec: Seq<char>, profile: Option<Seq<char>>) -> (
    DecodeCapability,
    u16,
) {
    if codec == "truehd"@ {
        (DecodeCapability::TrueHdObjects, 30)
    } else if codec == "eac3"@ {
        if names_atmos(profile) {
            (DecodeCapability::JocObjects, 35)
        } else {
            (DecodeCapability::Channels, 40)
        }
    } else if begins(codec, "pcm_f"@) {
        (DecodeCapability::Channels, 60)
    } else if begins(codec, "pcm_"@) {
        (DecodeCapability::Channels, 70)
    } else if codec == "dts"@ {
        if profile matches Some(text) && contains(text, "DTS-HD"@) {
            (DecodeCapability::Channels, 80)
        } else {
            (DecodeCapability::Channels, 110)
        }
    } else if codec == "flac"@ {
        (DecodeCapability::Channels, 90)
    } else if codec == "opus"@ {
        (DecodeCapability::Channels, 100)
    } else if codec == "ac3"@ {
        (DecodeCapability::Channels, 120)
    } else if codec == "aac"@ || codec == "alac"@ || codec == "vorbis"@ || codec == "mp3"@ {
        (DecodeCapability::Channels, 130)
    } else {
        (DecodeCapability::Unsupported, u16::MAX)
    }
}

fn is_alphanumeric(c: char) -> (r: bool)
    ensures
        r == alphanumeric(c),
{
    let code: u32 = c as u32;
    (48 <= code && code <= 57) || (65 <= code && code <= 90) || (97 <= code && code <= 122)
}

fn atmos_starts_at(list: &Vec<char>, place: usize) -> (r: bool)
    ensures
        r == atmos_at(list@, place as int),
{
    if place > list.len() || list.len() - place < 5 {
        return false;
    }
    if place > 0 && is_alphanumeric(list[place - 1]) {
        return false;
    }
    if list.len() - place > 5 && is_alphanumeric(list[place + 5]) {
        return false;
    }
    proof {
        reveal_strlit("atmos");
        let word = lowered(list@.subrange(place as int, place + 5));
        if lower(list@[place as int]) == 'a' && lower(list@[place + 1]) == 't' && lower(
            list@[place + 2],
        ) == 'm' && lower(list@[place + 3]) == 'o' && lower(list@[place + 4]) == 's' {
            assert(word =~= "atmos"@);
        } else {
            assert(word[0] == lower(list@[place as int]));
            assert(word[1] == lower(list@[place + 1]));
            assert(word[2] == lower(list@[place + 2]));
            assert(word[3] == lower(list@[place + 3]));
            assert(word[4] == lower(list@[place + 4]));
        }
    }
    lower_char(list[place]) == 'a' && lower_char(list[place + 1]) == 't' && lower_char(
        list[place + 2],
    ) == 'm' && lower_char(list[place + 3]) == 'o' && lower_char(list[place + 4]) == 's'
}

/// Whether a text holds the word "atmos".
pub open spec fn holds_atmos(text: Seq<char>) -> bool {
    exists|place: int| atmos_at(text, place)
}

fn mentions_atmos(text: &str) -> (r: bool)
    ensures
        r == holds_atmos(text@),
{
    let list = characters(text);
    let mut place: usize = 0;
    while place < list.len()
        invariant
            place <= list@.len(),
            list@ == text@,
            forall|k: int| 0 <= k < place ==> !atmos_at(text@, k),
        decreases list@.len() - place,
    {
        if atmos_starts_at(&list, place) {
            assert(atmos_at(text@, place as int));
            return true;
        }
        place = place + 1;
    }
    false
}

/// How a codec and profile can be decoded, and the rank among candidates.
pub fn codec_capability(codec: &str, profile: &Option<String>) -> (r: (DecodeCapability, u16))
    ensures
        r == capability_of(codec@, optional_text(*profile)),
{
    if same_text(codec, "truehd") {
        (DecodeCapability::TrueHdObjects, 30)
    } else if same_text(codec, "eac3") {
        let objects: bool = match profile {
            None => false,
            Some(text) => mentions_atmos(text.as_str()),
        };
        if objects {
            (DecodeCapability::JocObjects, 35)
        } else {
            (DecodeCapability::Channels, 40)
        }
    } else if starts_with(codec, "pcm_f") {
        (DecodeCapability::Channels, 60)
    } else if starts_with(codec, "pcm_") {
        (DecodeCapability::Channels, 70)
    } else if same_text(codec, "dts") {
        let lossless: bool = match profile {
            None => false,
            Some(text) => has_part(text.as_str(), "DTS-HD"),
        };
        if lossless {
            (DecodeCapability::Channels, 80)
        } else {
            (DecodeCapability::Channels, 110)
        }
    } else if same_text(codec, "flac") {
        (DecodeCapability::Channels, 90)
    } else if same_text(codec, "opus") {
        (DecodeCapability::Channels, 100)
    } else if same_text(codec, "ac3") {
        (DecodeCapability::Channels, 120)
    } else if same_text(codec, "aac") || same_text(codec, "alac") || same_text(codec, "vorbis")
        || same_text(codec, "mp3") {
        (DecodeCapability::Channels, 130)
    } else {
        (DecodeCapability::Unsupported, u16::MAX)
    }
}

/// One audio track of a container.
#[derive(Clone, Debug, PartialEq, Eq)]
pub struct AudioTrack {
    pub audio_index: usize,
    pub stream_index: usize,
    pub codec: String,
    pub profile: Option<String>,
    pub language: Option<String>,
    pub channels: Option<u16>,
    pub sample_rate: Option<u32>,
    pub capability: DecodeCapability,
    pub selection_rank: u16,
}

/// What a track says.
pub struct TrackView {
    pub audio_index: nat,
    pub stream_index: usize,
    pub codec: Seq<char>,
    pub profile: Option<Seq<char>>,
    pub language: Option<Seq<char>>,
    pub channels: Option<u16>,
    pub sample_rate: Option<u32>,
    pub capability: DecodeCapability,
    pub selection_rank: u16,
}

impl View for AudioTrack {
    type V = TrackView;

    open spec fn view(&self) -> TrackView {
        TrackView {
            audio_index: self.audio_index as nat,
            stream_index: self.stream_index,
            codec: self.codec@,
            profile: optional_text(self.profile),
            language: optional_text(self.language),
            channels: self.channels,
            sample_rate: self.sample_rate,
            capability: self.capability,
            selection_rank: self.selection_rank,
        }
    }
}

/// The track of a stream that is the `audio_index`th of the audio streams.
pub open spec fn track_of(stream: StreamView, audio_index: nat) -> TrackView {
    TrackView {
        audio_index,
        stream_index: stream.index,
        codec: stream.codec_name,
        profile: stream.profile,
        language: stream.tag("language"@),
        channels: stream.channels,
        sample_rate: stream.sample_rate,
        capability: capability_of(stream.codec_name, stream.profile).0,
        selection_rank: capability_of(stream.codec_name, stream.profile).1,
    }
}

/// The tracks of the first `count` streams: the audio streams, numbered in order.
pub open spec fn audio_tracks(streams: Seq<StreamView>, count: nat) -> Seq<TrackView>
    decreases count,
{
    if count == 0 {
        seq![]
    } else {
        let before = audio_tracks(streams, (count - 1) as nat);
        let stream = streams[count - 1];
        if stream.audio() {
            before.push(track_of(stream, before.len()))
        } else {
            before
        }
    }
}

/// The views of a list of tracks.
pub open spec fn track_views(tracks: Seq<AudioTrack>) -> Seq<TrackView> {
    tracks.map_values(|t: AudioTrack| t@)
}

impl AudioTrack {
    /// Lists the audio tracks of a container.
    pub fn from_manifest(manifest: &ContainerManifest) -> (r: Vec<AudioTrack>)
        ensures
            track_views(r@) == audio_tracks(manifest@.streams, manifest@.streams.len()),
    {
        let ghost streams = stream_views(manifest.streams@);
        let mut tracks: Vec<AudioTrack> = Vec::new();
        let mut i: usize = 0;
        while i < manifest.streams.len()
            invariant
                i <= manifest.streams@.len(),
                streams == stream_views(manifest.streams@),
                track_views(tracks@) =~= audio_tracks(streams, i as nat),
                tracks@.len() <= i,
            decreases manifest.streams@.len() - i,
        {
            let stream: &StreamManifest = &manifest.streams[i];
            assert(streams[i as int] == stream@);
            if same_text(stream.codec_type.as_str(), "audio") {
                let (capability, selection_rank) = codec_capability(
                    stream.codec_name.as_str(),
                    &stream.profile,
                );
                let language: Option<String> = match stream.tag("language") {
                    None => None,
                    Some(language) => Some(String::from_str(language)),
                };
                let ghost before = tracks@;
                let track = AudioTrack {
                    audio_index: tracks.len(),
                    stream_index: stream.index,
                    codec: stream.codec_name.clone(),
                    profile: copy_optional(&stream.profile),
                    language,
                    channels: stream.channels,
                    sample_rate: stream.sample_rate,
                    capability,
                    selection_rank,
                };
                assert(track@ == track_of(streams[i as int], before.len()));
                tracks.push(track);
                assert(track_views(tracks@) =~= track_views(before).push(track@));
            }
            i = i + 1;
        }
        tracks
    }
}

/// A track that automatic selection may take: it can be rendered and, where a
/// language is wanted, has it.
pub open spec fn candidate(track: TrackView, language: Option<Seq<char>>) -> bool {
    &&& track.capability != DecodeCapability::Unsupported
    &&& language matches Some(wanted) ==> track.language matches Some(actual) && same_letters(
        actual,
        wanted,
    )
}

/// Whether the track at one place is preferred to the track at another: by rank,
/// then by audio index, then by place.
pub open spec fn preferred(tracks: Seq<TrackView>, i: int, j: int) -> bool {
    let a = tracks[i];
    let b = tracks[j];
    ||| a.selection_rank < b.selection_rank
    ||| a.selection_rank == b.selection_rank && a.audio_index < b.audio_index
    ||| a.selection_rank == b.selection_rank && a.audio_index == b.audio_index && i <= j
}

/// Whether the track at a place is the best candidate.
pub open spec fn best(tracks: Seq<TrackView>, language: Option<Seq<char>>, i: int) -> bool {
    &&& 0 <= i < tracks.len()
    &&& candidate(tracks[i], language)
    &&& forall|j: int|
        0 <= j < tracks.len() && candidate(#[trigger] tracks[j], language) ==> preferred(
            tracks,
            i,
            j,
        )
}

/// Whether the track at a place is the first with an audio index.
pub open spec fn first_with_index(tracks: Seq<TrackView>, index: nat, i: int) -> bool {
    &&& 0 <= i < tracks.len()
    &&& tracks[i].audio_index == index
    &&& forall|j: int| 0 <= j < i ==> (#[trigger] tracks[j]).audio_index != index
}

/// The audio indexes of a list of tracks, in decimal.
pub open spec fn index_texts(tracks: Seq<TrackView>) -> Seq<Seq<char>> {
    tracks.map_values(|t: TrackView| digits(t.audio_index))
}

/// What is said of a missing track.
pub open spec fn missing_track_text(tracks: Seq<TrackView>, index: nat) -> Seq<char> {
    around("audio track "@, index, " does not exist; available indices: "@) + (if tracks.len() == 0 {
        "none"@
    } else {
        joined(index_texts(tracks), ", "@)
    })
}

fn missing_track(tracks: &[AudioTrack], index: usize) -> (r: AppError)
    ensures
        r is UnsupportedInput,
        r.text() == missing_track_text(track_views(tracks@), index as nat),
{
    let mut names: Vec<String> = Vec::new();
    let mut i: usize = 0;
    while i < tracks.len()
        invariant
            i <= tracks@.len(),
            texts(names@) =~= index_texts(track_views(tracks@)).take(i as int),
        decreases tracks@.len() - i,
    {
        let ghost before = names@;
        let name = decimal(tracks[i].audio_index as u64);
        names.push(name);
        assert(texts(names@) =~= texts(before).push(name@));
        assert(index_texts(track_views(tracks@)).take(i + 1) =~= index_texts(
            track_views(tracks@),
        ).take(i as int).push(digits(tracks@[i as int].audio_index as nat)));
        i = i + 1;
    }
    assert(texts(names@) =~= index_texts(track_views(tracks@)));
    let mut message = text_around(
        "audio track ",
        index as u64,
        " does not exist; available indices: ",
    );
    if names.len() == 0 {
        message.append("none");
    } else {
        message.append(join(&names, ", ").as_str());
    }
    AppError::UnsupportedInput(Reason::Note(message))
}

fn is_candidate(track: &AudioTrack, language: Option<&str>) -> (r: bool)
    ensures
        r == candidate(
            track@,
            match language {
                None => None,
                Some(wanted) => Some(wanted@),
            },
        ),
{
    match track.capability {
        DecodeCapability::Unsupported => false,
        _ => match language {
            None => true,
            Some(wanted) => match &track.language {
                None => false,
                Some(actual) => equals_ignoring_case(actual.as_str(), wanted),
            },
        },
    }
}

/// Finds the first track with an audio index.
fn find_track(tracks: &[AudioTrack], index: usize) -> (r: Option<usize>)
    ensures
        match r {
            Some(i) => first_with_index(track_views(tracks@), index as nat, i as int),
            None => forall|i: int| !first_with_index(track_views(tracks@), index as nat, i),
        },
{
    let ghost views = track_views(tracks@);
    let mut i: usize = 0;
    while i < tracks.len()
        invariant
            i <= tracks@.len(),
            views == track_views(tracks@),
            forall|j: int| 0 <= j < i ==> (#[trigger] views[j]).audio_index != index,
        decreases tracks@.len() - i,
    {
        assert(views[i as int] == tracks@[i as int]@);
        if tracks[i].audio_index == index {
            return Some(i);
        }
        i = i + 1;
    }
    None
}

/// What an optional wish holds.
pub open spec fn wish(language: Option<&str>) -> Option<Seq<char>> {
    match language {
        None => None,
        Some(text) => Some(text@),
    }
}

/// Finds the best candidate.
fn best_candidate(tracks: &[AudioTrack], language: Option<&str>) -> (r: Option<usize>)
    ensures
        match r {
            Some(i) => best(track_views(tracks@), wish(language), i as int),
            None => forall|j: int|
                0 <= j < tracks@.len() ==> !candidate(
                    #[trigger] track_views(tracks@)[j],
                    wish(language),
                ),
        },
{
    let ghost views = track_views(tracks@);
    let ghost wanted = wish(language);
    let mut chosen: Option<usize> = None;
    let mut i: usize = 0;
    while i < tracks.len()
        invariant
            i <= tracks@.len(),
            views == track_views(tracks@),
            wanted == wish(language),
            chosen is None ==> forall|j: int| 0 <= j < i ==> !candidate(#[trigger] views[j], wanted),
            chosen matches Some(k) ==> k < i && candidate(views[k as int], wanted) && forall|j: int|
                0 <= j < i && candidate(#[trigger] views[j], wanted) ==> preferred(
                    views,
                    k as int,
                    j,
                ),
        decreases tracks@.len() - i,
    {
        let track: &AudioTrack = &tracks[i];
        assert(views[i as int] == track@);
        if is_candidate(track, language) {
            match chosen {
                None => {
                    chosen = Some(i);
                },
                Some(k) => {
                    let leader: &AudioTrack = &tracks[k];
                    assert(views[k as int] == leader@);
                    if track.selection_rank < leader.selection_rank || (track.selection_rank
                        == leader.selection_rank && track.audio_index < leader.audio_index) {
                        chosen = Some(i);
                    }
                },
            }
        }
        i = i + 1;
    }
    chosen
}

/// What comes of a selection: the track with a wanted index, or else the best
/// candidate.
pub open spec fn selection_outcome(
    tracks: Seq<AudioTrack>,
    explicit_index: Option<usize>,
    language: Option<Seq<char>>,
    r: Result<&AudioTrack, AppError>,
) -> bool {
    let views = track_views(tracks);
    match explicit_index {
        Some(index) => {
            &&& (forall|i: int| !first_with_index(views, index as nat, i)) ==> r is Err
                && r->Err_0 is UnsupportedInput && r->Err_0.text() == missing_track_text(
                views,
                index as nat,
            )
            &&& forall|i: int|
                #[trigger] first_with_index(views, index as nat, i) ==> {
                    &&& views[i].capability != DecodeCapability::Unsupported ==> r is Ok
                        && *r->Ok_0 == tracks[i]
                    &&& views[i].capability == DecodeCapability::Unsupported ==> r is Err
                        && r->Err_0 is UnsupportedInput && r->Err_0.text() == around(
                        "audio track "@,
                        index as nat,
                        " uses unsupported codec "@,
                    ) + views[i].codec
                }
        },
        None => {
            &&& forall|i: int|
                #[trigger] best(views, language, i) ==> r is Ok && *r->Ok_0 == tracks[i]
            &&& r is Ok ==> exists|i: int|
                #[trigger] best(views, language, i) && *r->Ok_0 == tracks[i]
            &&& r is Err ==> r->Err_0 is UnsupportedInput && r->Err_0.text() == (match language {
                Some(text) => "no renderable audio track has language '"@ + text + "'"@,
                None => "the input has no renderable audio track"@,
            }) && forall|j: int|
                0 <= j < views.len() ==> !candidate(#[trigger] views[j], language)
        },
    }
}

/// Takes the track with a wanted index, or else the best candidate.
pub fn select_track<'a>(
    tracks: &'a [AudioTrack],
    explicit_index: Option<usize>,
    language: Option<&str>,
) -> (r: Result<&'a AudioTrack, AppError>)
    ensures
        selection_outcome(tracks@, explicit_index, wish(language), r),
{
    let ghost views = track_views(tracks@);
    match explicit_index {
        Some(index) => match find_track(tracks, index) {
            None => Err(missing_track(tracks, index)),
            Some(i) => {
                let track: &AudioTrack = &tracks[i];
                proof {
                    assert(views[i as int] == track@);
                    assert forall|k: int| #[trigger]
                        first_with_index(views, index as nat, k) implies k == i by {
                        if k > i {
                            assert(views[i as int].audio_index == index);
                        }
                    }
                }
                match track.capability {
                    DecodeCapability::Unsupported => {
                        let mut message = text_around(
                            "audio track ",
                            index as u64,
                            " uses unsupported codec ",
                        );
                        message.append(track.codec.as_str());
                        Err(AppError::UnsupportedInput(Reason::Note(message)))
                    },
                    _ => Ok(track),
                }
            },
        },
        None => match best_candidate(tracks, language) {
            Some(k) => {
                assert forall|m: int| #[trigger] best(views, wish(language), m) implies m == k by {
                    law_best_candidate_is_unique(views, wish(language), m, k as int);
                }
                Ok(&tracks[k])
            },
            None => {
                let message: String = match language {
                    Some(text) => {
                        let mut r = text_pair("no renderable audio track has language '", text);
                        r.append("'");
                        r
                    },
                    None => String::from_str("the input has no renderable audio track"),
                };
                Err(AppError::UnsupportedInput(Reason::Note(message)))
            },
        },
    }
}

/// There is at most one best candidate, so a selection never depends on chance.
pub proof fn law_best_candidate_is_unique(
    tracks: Seq<TrackView>,
    language: Option<Seq<char>>,
    i: int,
    j: int,
)
    requires
        best(tracks, language, i),
        best(tracks, language, j),
    ensures
        i == j,
{
    assert(preferred(tracks, i, j));
    assert(preferred(tracks, j, i));
}

/// The tracks of a container are numbered in order from zero.
pub proof fn law_tracks_are_numbered_in_order(streams: Seq<StreamView>, count: nat, i: int)
    requires
        count <= streams.len(),
        0 <= i < audio_tracks(streams, count).len(),
    ensures
        audio_tracks(streams, count)[i].audio_index == i,
    decreases count,
{
    if count > 0 {
        let before = audio_tracks(streams, (count - 1) as nat);
        if i < before.len() {
            law_tracks_are_numbered_in_order(streams, (count - 1) as nat, i);
        }
    }
}

/// Only a track that can be rendered is ever selected, and a required language is
/// kept.
pub proof fn law_a_selected_track_fits(
    tracks: Seq<AudioTrack>,
    explicit_index: Option<usize>,
    language: Option<Seq<char>>,
    r: Result<&AudioTrack, AppError>,
)
    requires
        selection_outcome(tracks, explicit_index, language, r),
        r is Ok,
    ensures
        r->Ok_0@.capability != DecodeCapability::Unsupported,
        explicit_index is None ==> candidate(r->Ok_0@, language),
        explicit_index matches Some(index) ==> r->Ok_0@.audio_index == index,
{
    let views = track_views(tracks);
    match explicit_index {
        Some(index) => {
            let i = choose|i: int| first_with_index(views, index as nat, i);
            assert(first_with_index(views, index as nat, i));
            assert(views[i] == tracks[i]@);
        },
        None => {
            let i = choose|i: int| #[trigger] best(views, language, i) && *r->Ok_0 == tracks[i];
            assert(views[i] == tracks[i]@);
        },
    }
}

/// An explicit index bypasses the automatic selection: a language changes
/// nothing.
pub proof fn law_an_explicit_index_ignores_the_language(
    tracks: Seq<AudioTrack>,
    index: usize,
    first_language: Option<Seq<char>>,
    second_language: Option<Seq<char>>,
    first: Result<&AudioTrack, AppError>,
    second: Result<&AudioTrack, AppError>,
)
    requires
        selection_outcome(tracks, Some(index), first_language, first),
        selection_outcome(tracks, Some(index), second_language, second),
    ensures
        first is Ok <==> second is Ok,
        first is Ok ==> *first->Ok_0 == *second->Ok_0,
        first is Err ==> first->Err_0.text() == second->Err_0.text(),
{
    let views = track_views(tracks);
    if exists|i: int| first_with_index(views, index as nat, i) {
        let i = choose|i: int| first_with_index(views, index as nat, i);
        assert(first_with_index(views, index as nat, i));
    }
}

/// The codecs differ from one another, and none of these is raw samples.
proof fn lemma_codecs_differ()
    ensures
        "eac3"@ != "truehd"@,
        "dts"@ != "truehd"@,
        "dts"@ != "eac3"@,
        "flac"@ != "truehd"@,
        "flac"@ != "eac3"@,
        "flac"@ != "dts"@,
        "opus"@ != "truehd"@,
        "opus"@ != "eac3"@,
        "opus"@ != "dts"@,
        "opus"@ != "flac"@,
        "ac3"@ != "truehd"@,
        "ac3"@ != "eac3"@,
        "ac3"@ != "dts"@,
        "ac3"@ != "flac"@,
        "ac3"@ != "opus"@,
        "aac"@ != "truehd"@,
        "aac"@ != "eac3"@,
        "aac"@ != "dts"@,
        "aac"@ != "flac"@,
        "aac"@ != "opus"@,
        "aac"@ != "ac3"@,
        "alac"@ != "truehd"@,
        "alac"@ != "eac3"@,
        "alac"@ != "dts"@,
        "alac"@ != "flac"@,
        "alac"@ != "opus"@,
        "alac"@ != "ac3"@,
        "alac"@ != "aac"@,
        "vorbis"@ != "truehd"@,
        "vorbis"@ != "eac3"@,
        "vorbis"@ != "dts"@,
        "vorbis"@ != "flac"@,
        "vorbis"@ != "opus"@,
        "vorbis"@ != "ac3"@,
        "vorbis"@ != "aac"@,
        "vorbis"@ != "alac"@,
        "mp3"@ != "truehd"@,
        "mp3"@ != "eac3"@,
        "mp3"@ != "dts"@,
        "mp3"@ != "flac"@,
        "mp3"@ != "opus"@,
        "mp3"@ != "ac3"@,
        "mp3"@ != "aac"@,
        "mp3"@ != "alac"@,
        "mp3"@ != "vorbis"@,
        !begins("truehd"@, "pcm_"@),
        !begins("truehd"@, "pcm_f"@),
        !begins("eac3"@, "pcm_"@),
        !begins("eac3"@, "pcm_f"@),
        !begins("dts"@, "pcm_"@),
        !begins("dts"@, "pcm_f"@),
        !begins("flac"@, "pcm_"@),
        !begins("flac"@, "pcm_f"@),
        !begins("opus"@, "pcm_"@),
        !begins("opus"@, "pcm_f"@),
        !begins("ac3"@, "pcm_"@),
        !begins("ac3"@, "pcm_f"@),
        !begins("aac"@, "pcm_"@),
        !begins("aac"@, "pcm_f"@),
        !begins("alac"@, "pcm_"@),
        !begins("alac"@, "pcm_f"@),
        !begins("vorbis"@, "pcm_"@),
        !begins("vorbis"@, "pcm_f"@),
        !begins("mp3"@, "pcm_"@),
        !begins("mp3"@, "pcm_f"@),
{
    reveal_strlit("truehd");
    assert("truehd"@.len() == 6);
    assert("truehd"@[0] == 't');
    assert("truehd"@[1] == 'r');
    assert("truehd"@[2] == 'u');
    assert("truehd"@[3] == 'e');
    assert("truehd"@[4] == 'h');
    assert("truehd"@[5] == 'd');
    reveal_strlit("eac3");
    assert("eac3"@.len() == 4);
    assert("eac3"@[0] == 'e');
    assert("eac3"@[1] == 'a');
    assert("eac3"@[2] == 'c');
    assert("eac3"@[3] == '3');
    reveal_strlit("dts");
    assert("dts"@.len() == 3);
    assert("dts"@[0] == 'd');
    assert("dts"@[1] == 't');
    assert("dts"@[2] == 's');
    reveal_strlit("flac");
    assert("flac"@.len() == 4);
    assert("flac"@[0] == 'f');
    assert("flac"@[1] == 'l');
    assert("flac"@[2] == 'a');
    assert("flac"@[3] == 'c');
    reveal_strlit("opus");
    assert("opus"@.len() == 4);
    assert("opus"@[0] == 'o');
    assert("opus"@[1] == 'p');
    assert("opus"@[2] == 'u');
    assert("opus"@[3] == 's');
    reveal_strlit("ac3");
    assert("ac3"@.len() == 3);
    assert("ac3"@[0] == 'a');
    assert("ac3"@[1] == 'c');
    assert("ac3"@[2] == '3');
    reveal_strlit("aac");
    assert("aac"@.len() == 3);
    assert("aac"@[0] == 'a');
    assert("aac"@[1] == 'a');
    assert("aac"@[2] == 'c');
    reveal_strlit("alac");
    assert("alac"@.len() == 4);
    assert("alac"@[0] == 'a');
    assert("alac"@[1] == 'l');
    assert("alac"@[2] == 'a');
    assert("alac"@[3] == 'c');
    reveal_strlit("vorbis");
    assert("vorbis"@.len() == 6);
    assert("vorbis"@[0] == 'v');
    assert("vorbis"@[1] == 'o');
    assert("vorbis"@[2] == 'r');
    assert("vorbis"@[3] == 'b');
    assert("vorbis"@[4] == 'i');
    assert("vorbis"@[5] == 's');
    reveal_strlit("mp3");
    assert("mp3"@.len() == 3);
    assert("mp3"@[0] == 'm');
    assert("mp3"@[1] == 'p');
    assert("mp3"@[2] == '3');
    reveal_strlit("pcm_");
    assert("pcm_"@.len() == 4);
    assert("pcm_"@[0] == 'p');
    assert("pcm_"@[1] == 'c');
    assert("pcm_"@[2] == 'm');
    assert("pcm_"@[3] == '_');
    reveal_strlit("pcm_f");
    assert("pcm_f"@.len() == 5);
    assert("pcm_f"@[0] == 'p');
    assert("pcm_f"@[1] == 'c');
    assert("pcm_f"@[2] == 'm');
    assert("pcm_f"@[3] == '_');
    assert("pcm_f"@[4] == 'f');
    assert("truehd"@.take(4)[0] == 't');
    assert("truehd"@.take(5)[0] == 't');
    assert("eac3"@.take(4)[0] == 'e');
    assert("flac"@.take(4)[0] == 'f');
    assert("opus"@.take(4)[0] == 'o');
    assert("alac"@.take(4)[0] == 'a');
    assert("vorbis"@.take(4)[0] == 'v');
    assert("vorbis"@.take(5)[0] == 'v');
}

/// Raw samples are neither of these codecs, and those that begin as floating ones are
/// raw samples.
proof fn lemma_raw_codecs(codec: Seq<char>)
    ensures
        begins(codec, "pcm_f"@) ==> begins(codec, "pcm_"@),
        begins(codec, "pcm_"@) ==> codec != "truehd"@ && codec != "eac3"@,
{
    lemma_codecs_differ();
    reveal_strlit("pcm_");
    assert("pcm_"@.len() == 4);
    assert("pcm_"@[0] == 'p');
    assert("pcm_"@[1] == 'c');
    assert("pcm_"@[2] == 'm');
    assert("pcm_"@[3] == '_');
    reveal_strlit("pcm_f");
    assert("pcm_f"@.len() == 5);
    assert("pcm_f"@[0] == 'p');
    assert("pcm_f"@[1] == 'c');
    assert("pcm_f"@[2] == 'm');
    assert("pcm_f"@[3] == '_');
    assert("pcm_f"@[4] == 'f');
    if begins(codec, "pcm_f"@) {
        assert(codec.take(5)[0] == 'p');
        assert(codec.take(5)[1] == 'c');
        assert(codec.take(5)[2] == 'm');
        assert(codec.take(5)[3] == '_');
        assert(codec.take(4) =~= "pcm_"@);
    }
}

/// A codec can be rendered exactly where it is one of these. TrueHD brings objects,
/// E-AC-3 does where its profile names them, and all others bring channels.
pub proof fn law_known_codecs_can_be_rendered(codec: Seq<char>, profile: Option<Seq<char>>)
    ensures
        ({
            let capability = capability_of(codec, profile).0;
            &&& capability != DecodeCapability::Unsupported <==> begins(codec, "pcm_"@) || codec == "truehd"@ || codec == "eac3"@ || codec == "dts"@ || codec == "flac"@ || codec == "opus"@ || codec == "ac3"@ || codec == "aac"@ || codec == "alac"@ || codec == "vorbis"@ || codec == "mp3"@
            &&& capability == DecodeCapability::TrueHdObjects <==> codec == "truehd"@
            &&& capability == DecodeCapability::JocObjects <==> codec == "eac3"@ && (profile
                matches Some(text) && holds_atmos(text))
        }),
{
    lemma_codecs_differ();
    lemma_raw_codecs(codec);
}

/// The rank of a codec with some profile, by which automatic selection goes.
pub open spec fn rank_of(codec: Seq<char>, profile: Option<Seq<char>>) -> int {
    capability_of(codec, profile).1 as int
}

/// Of two tracks the one that keeps more of the mix is preferred, whatever else their
/// profiles say: TrueHD, then E-AC-3 with objects, plain E-AC-3, raw samples with a
/// floating point, other raw samples, DTS-HD, FLAC, Opus, plain DTS, AC-3, and then
/// the other codecs, which are equal; what cannot be rendered comes last.
pub proof fn law_better_codecs_rank_first(
    objects: Option<Seq<char>>,
    plain: Option<Seq<char>>,
    lossless: Option<Seq<char>>,
    lossy: Option<Seq<char>>,
    any: Option<Seq<char>>,
    other: Option<Seq<char>>,
    floating: Seq<char>,
    raw: Seq<char>,
    unknown: Seq<char>,
)
    requires
        objects matches Some(text) && holds_atmos(text),
        !(plain matches Some(text) && holds_atmos(text)),
        lossless matches Some(text) && contains(text, "DTS-HD"@),
        !(lossy matches Some(text) && contains(text, "DTS-HD"@)),
        begins(floating, "pcm_f"@),
        begins(raw, "pcm_"@) && !begins(raw, "pcm_f"@),
        capability_of(unknown, any).0 == DecodeCapability::Unsupported,
    ensures
        rank_of("truehd"@, any) < rank_of("eac3"@, objects),
        rank_of("eac3"@, objects) < rank_of("eac3"@, plain),
        rank_of("eac3"@, plain) < rank_of(floating, any),
        rank_of(floating, any) < rank_of(raw, other),
        rank_of(raw, any) < rank_of("dts"@, lossless),
        rank_of("dts"@, lossless) < rank_of("flac"@, any),
        rank_of("flac"@, any) < rank_of("opus"@, other),
        rank_of("opus"@, any) < rank_of("dts"@, lossy),
        rank_of("dts"@, lossy) < rank_of("ac3"@, any),
        rank_of("ac3"@, any) < rank_of("aac"@, other),
        rank_of("aac"@, any) == rank_of("alac"@, other),
        rank_of("aac"@, any) == rank_of("vorbis"@, other),
        rank_of("aac"@, any) == rank_of("mp3"@, other),
        rank_of("mp3"@, other) < rank_of(unknown, any),
        rank_of("truehd"@, any) == rank_of("truehd"@, other),
        rank_of("flac"@, any) == rank_of("flac"@, other),
        rank_of("ac3"@, any) == rank_of("ac3"@, other),
{
    lemma_codecs_differ();
    lemma_raw_codecs(floating);
    lemma_raw_codecs(raw);
}

/// A track says of its stream what the stream says of itself, and its capability and
/// rank are those of its codec and profile.
pub proof fn law_tracks_describe_their_stream(stream: StreamView, audio_index: nat)
    ensures
        ({
            let track = track_of(stream, audio_index);
            &&& track.audio_index == audio_index
            &&& track.stream_index == stream.index
            &&& track.codec == stream.codec_name
            &&& track.profile == stream.profile
            &&& track.language == stream.tag("language"@)
            &&& track.channels == stream.channels
            &&& track.sample_rate == stream.sample_rate
            &&& (track.capability, track.selection_rank) == capability_of(
                track.codec,
                track.profile,
            )
        }),
{
}

/// Every audio stream has a track, and nothing else has.
pub proof fn law_every_audio_stream_has_a_track(streams: Seq<StreamView>, count: nat, i: int)
    requires
        count <= streams.len(),
    ensures
        0 <= i < count && streams[i].audio() ==> exists|k: int|
            0 <= k < audio_tracks(streams, count).len() && (#[trigger] audio_tracks(
                streams,
                count,
            )[k]) == track_of(streams[i], k as nat),
        forall|k: int|
            0 <= k < audio_tracks(streams, count).len() ==> exists|j: int|
                0 <= j < count && (#[trigger] streams[j]).audio() && (#[trigger] audio_tracks(
                    streams,
                    count,
                )[k]) == track_of(streams[j], k as nat),
    decreases count,
{
    if count > 0 {
        let before = audio_tracks(streams, (count - 1) as nat);
        let all = audio_tracks(streams, count);
        law_every_audio_stream_has_a_track(streams, (count - 1) as nat, i);
        if 0 <= i < count - 1 && streams[i].audio() {
            let k = choose|k: int|
                0 <= k < before.len() && (#[trigger] before[k]) == track_of(streams[i], k as nat);
            assert(all[k] == before[k]);
        }
        if streams[count - 1].audio() {
            assert(all[before.len() as int] == track_of(streams[count - 1], before.len()));
        }
        assert forall|k: int| 0 <= k < all.len() implies exists|j: int|
            0 <= j < count && (#[trigger] streams[j]).audio() && (#[trigger] all[k]) == track_of(
                streams[j],
                k as nat,
            ) by {
            if k < before.len() {
                assert(all[k] == before[k]);
                let j = choose|j: int|
                    0 <= j < count - 1 && (#[trigger] streams[j]).audio() && before[k] == track_of(
                        streams[j],
                        k as nat,
                    );
                assert(streams[j].audio());
            } else {
                assert(streams[count - 1].audio());
            }
        }
    }
}

/// Automatic selection takes the lowest rank of all tracks that can be rendered in
/// the wanted language, and of equal ranks the first track. It fails only where there
/// is none.
pub proof fn law_the_lowest_rank_is_selected(
    tracks: Seq<AudioTrack>,
    language: Option<Seq<char>>,
    r: Result<&AudioTrack, AppError>,
    j: int,
)
    requires
        selection_outcome(tracks, None, language, r),
        0 <= j < tracks.len(),
        tracks[j].capability != DecodeCapability::Unsupported,
        language matches Some(wanted) ==> (tracks[j].language matches Some(actual) && lowered(
            actual@,
        ) == lowered(wanted)),
    ensures
        r is Ok,
        r->Ok_0.selection_rank <= tracks[j].selection_rank,
        r->Ok_0.selection_rank == tracks[j].selection_rank ==> r->Ok_0.audio_index
            <= tracks[j].audio_index,
        r->Ok_0.capability != DecodeCapability::Unsupported,
        language matches Some(wanted) ==> (r->Ok_0.language matches Some(actual) && lowered(
            actual@,
        ) == lowered(wanted)),
{
    let views = track_views(tracks);
    assert(views[j] == tracks[j]@);
    assert(candidate(views[j], language));
    if r is Ok {
        let i = choose|i: int| #[trigger] best(views, language, i) && *r->Ok_0 == tracks[i];
        assert(views[i] == tracks[i]@);
        assert(preferred(views, i, j));
    }
}

/// A profile names an object mix where the word stands alone in it, in capitals or
/// not: what comes before and behind it must not end or begin with a letter or digit.
pub proof fn law_a_word_of_its_own_names_an_object_mix(
    before: Seq<char>,
    word: Seq<char>,
    behind: Seq<char>,
)
    requires
        lowered(word) == "atmos"@,
        before.len() == 0 || !alphanumeric(before.last()),
        behind.len() == 0 || !alphanumeric(behind[0]),
    ensures
        holds_atmos(before + word + behind),
{
    let text = before + word + behind;
    let place = before.len() as int;
    reveal_strlit("atmos");
    assert("atmos"@.len() == 5);
    assert(lowered(word).len() == word.len());
    assert(text.subrange(place, place + 5) =~= word);
    assert(atmos_at(text, place));
}

/// The letters and digits of ASCII, and no others, are parts of a word.
pub proof fn law_words_are_made_of_letters_and_digits(c: char)
    ensures
        alphanumeric(c) <==> ('0' <= c <= '9') || ('a' <= lower(c) <= 'z'),
{
}

/// Preference is an order: every track is preferred to itself, of two tracks one is
/// preferred to the other and both only where they are one, and what is preferred to a
/// preferred track is preferred.
pub proof fn law_preference_is_an_order(tracks: Seq<TrackView>, i: int, j: int, k: int)
    ensures
        preferred(tracks, i, i),
        preferred(tracks, i, j) || preferred(tracks, j, i),
        preferred(tracks, i, j) && preferred(tracks, j, i) ==> i == j,
        preferred(tracks, i, j) && preferred(tracks, j, k) ==> preferred(tracks, i, k),
        tracks[i].selection_rank < tracks[j].selection_rank ==> preferred(tracks, i, j),
        tracks[i].selection_rank == tracks[j].selection_rank && tracks[i].audio_index
            < tracks[j].audio_index ==> preferred(tracks, i, j),
{
}

} // verus!
