use surroundfold::cli::{OutputCodec, ProgressMode, Toggle, TrackOptions};
use surroundfold::dictionary::Dictionary;
use surroundfold::finishing::{AAC_BITRATE, AAC_CODER, FLAC_COMPRESSION_LEVEL};
use surroundfold::media::{
    duration_parts, tag, ChapterManifest, ContainerManifest, FormatManifest, StreamManifest, Tags,
};
use surroundfold::mux::{
    advanced_argument_pairs, build_mux_arguments, disposition_value, format_timestamp,
    source_without_previous_outputs, validate_advanced_arguments, AppendedTrack, Argument,
    BINAURAL_TITLE,
};
use surroundfold::preservation::{verify_output, verify_tags};
use surroundfold::selection::{select_track, AudioTrack, DecodeCapability};
use surroundfold::session::{
    choose_track, list_tracks, selected_message, shows_messages, RunFacts, Step,
};
use surroundfold::text::split;

const SECOND: i64 = 1_000_000_000;
const LEGACY_CLEAN_TITLE: &str = "SurroundFold binaural - clean";
const LEGACY_TONAL_TITLE: &str = "SurroundFold binaural - sub lift + low-mid dip (no dynamics)";
const SECOND_FIXTURE_TITLE: &str = "SurroundFold binaural - second fixture";

fn tags(pairs: &[(&str, &str)]) -> Tags {
    let mut list = Dictionary::new();
    for (key, value) in pairs {
        list.insert((*key).to_owned(), (*value).to_owned());
    }
    list
}

fn set_tag(stream: &mut StreamManifest, key: &str, value: &str) {
    stream.tags.insert(key.to_owned(), value.to_owned());
}

fn stream(index: usize, kind: &str, codec: &str) -> StreamManifest {
    let mut disposition = Dictionary::new();
    disposition.insert("default".to_owned(), i32::from(index == 1));
    StreamManifest {
        index,
        codec_type: kind.into(),
        codec_name: codec.into(),
        profile: codec.eq_ignore_ascii_case("aac").then(|| "LC".into()),
        channels: None,
        sample_rate: None,
        bits_per_raw_sample: codec.eq_ignore_ascii_case("flac").then_some(24),
        initial_padding: None,
        start_time: Some(SECOND),
        duration: Some(2 * SECOND),
        tagged_end: None,
        channel_layout: matches!(codec.to_ascii_lowercase().as_str(), "aac" | "flac")
            .then(|| "stereo".into()),
        tags: Dictionary::new(),
        disposition,
    }
}

fn source_manifest() -> ContainerManifest {
    let mut video = stream(0, "video", "h264");
    set_tag(&mut video, "title", "Picture");
    let mut audio = stream(1, "audio", "flac");
    audio.channels = Some(6);
    audio.sample_rate = Some(48_000);
    set_tag(&mut audio, "language", "eng");
    ContainerManifest {
        streams: vec![video, audio],
        chapters: vec![],
        format: FormatManifest {
            format_name: "matroska,webm".into(),
            start_time: Some(SECOND),
            duration: Some(2 * SECOND),
            tags: tags(&[("title", "Fixture")]),
        },
    }
}

fn appended_stream(index: usize, codec: &str, title: &str) -> StreamManifest {
    let mut appended = stream(index, "audio", codec);
    appended.channels = Some(2);
    appended.sample_rate = Some(48_000);
    appended.duration = Some(2 * SECOND);
    set_tag(&mut appended, "title", title);
    set_tag(&mut appended, "language", "eng");
    appended.disposition.insert("default".to_owned(), 0);
    appended
}

fn rendered(codec: OutputCodec, title: &str) -> AppendedTrack {
    AppendedTrack {
        title: title.to_owned(),
        codec,
        sample_rate: 48_000,
        frames: 96_000,
    }
}

#[test]
fn aac_compatibility_mode_uses_the_high_bitrate_fast_search() {
    assert_eq!(AAC_BITRATE, "320k");
    assert_eq!(AAC_CODER, "fast");
}

#[test]
fn protected_advanced_arguments_are_rejected() {
    assert!(advanced_argument_pairs(&["-map".into(), "0".into()]).is_err());
    assert!(advanced_argument_pairs(&["-c:a:0".into(), "aac".into()]).is_err());
    assert!(advanced_argument_pairs(&["movflags".into(), "faststart".into()]).is_err());
}

#[test]
fn free_advanced_arguments_come_in_pairs() {
    let pairs =
        advanced_argument_pairs(&["-cluster_time_limit".into(), "5000".into()]).unwrap();
    assert_eq!(pairs, [("-cluster_time_limit".to_owned(), "5000".to_owned())]);
    assert!(validate_advanced_arguments(&pairs).is_ok());
    assert!(advanced_argument_pairs(&["-cluster_time_limit".into()]).is_err());
}

#[test]
fn replacement_manifest_removes_only_previous_surroundfold_audio() {
    let mut source = source_manifest();
    let mut clean = stream(2, "audio", "pcm_s24le");
    set_tag(&mut clean, "title", LEGACY_CLEAN_TITLE);
    let mut tonal = stream(3, "audio", "aac");
    set_tag(&mut tonal, "title", LEGACY_TONAL_TITLE);
    let mut unrelated = stream(4, "audio", "aac");
    set_tag(&mut unrelated, "title", "Other binaural mix");
    let mut subtitle = stream(5, "subtitle", "subrip");
    set_tag(&mut subtitle, "title", BINAURAL_TITLE);
    source.streams.extend([clean, tonal, unrelated, subtitle]);

    let replacement = source_without_previous_outputs(&source);

    assert_eq!(
        replacement
            .streams
            .iter()
            .map(|stream| stream.index)
            .collect::<Vec<_>>(),
        [0, 1, 4, 5]
    );
    assert_eq!(replacement.format, source.format);
    assert_eq!(replacement.chapters, source.chapters);
}

fn words(arguments: &[Argument]) -> Vec<String> {
    arguments
        .iter()
        .map(|argument| match argument {
            Argument::Text(text) => text.clone(),
            Argument::Source => "source.mkv".to_owned(),
            Argument::Track { .. } => "render.wav".to_owned(),
            Argument::Destination => "partial.mkv".to_owned(),
        })
        .collect()
}

#[test]
fn mux_interleaves_media_before_adding_sparse_streams() {
    let mut source = source_manifest();
    source.streams.push(stream(2, "subtitle", "subrip"));
    let tracks = [rendered(OutputCodec::Flac, BINAURAL_TITLE)];
    let args = build_mux_arguments(
        &tracks,
        &source,
        &source.streams[1],
        SECOND + SECOND / 4,
        &[("-cluster_time_limit".into(), "5000".into())],
    )
    .unwrap();
    let media = words(&args.media_stage);
    let preservation = words(&args.preservation_stage);
    let expected_tail = [
        "-metadata:s:a:1".to_owned(),
        format!("title={BINAURAL_TITLE}"),
        "-metadata:s:a:1".to_owned(),
        "language=eng".to_owned(),
        "-disposition:a:1".to_owned(),
        "0".to_owned(),
        "-cluster_time_limit".to_owned(),
        "5000".to_owned(),
        "partial.mkv".to_owned(),
    ];
    assert!(media
        .windows(4)
        .any(|window| window == ["-map", "0:1", "-map", "1:a:0"]));
    assert!(
        media.windows(4).any(|window| {
            window
                == [
                    "-c:a:1",
                    "flac",
                    "-compression_level:a:1",
                    FLAC_COMPRESSION_LEVEL,
                ]
        }),
        "media stage did not request the fast lossless FLAC delivery encode"
    );
    assert!(
        !media.iter().any(|argument| argument.starts_with("-filter")),
        "finishing must happen in the renderer before lossless delivery"
    );
    assert!(!media.windows(2).any(|window| window == ["-map", "0:2"]));
    assert!(preservation
        .windows(4)
        .any(|window| window == ["-map", "0", "-map", "1:2"]));
    assert!(
        preservation.windows(2).any(|window| window == ["-c", "copy"]),
        "preservation stage must remain copy-only"
    );
    assert!(preservation.ends_with(&expected_tail));
}

#[test]
fn muxing_needs_a_track() {
    let source = source_manifest();
    let error = build_mux_arguments(&[], &source, &source.streams[1], 0, &[]).unwrap_err();
    assert_eq!(
        error.message(),
        "at least one rendered track is required for muxing"
    );
    assert_eq!(error.exit_code(), 2);
}

#[test]
fn verifier_accepts_preserved_streams_and_appended_flac() {
    let source = source_manifest();
    let mut output = source.clone();
    output
        .format
        .tags
        .insert("ENCODER".into(), "Lavf62.3.100".into());
    output.streams.push(appended_stream(2, "flac", BINAURAL_TITLE));
    let expected = [rendered(OutputCodec::Flac, BINAURAL_TITLE)];
    verify_output(&source, &output, &source.streams[1], &expected, SECOND).unwrap();
}

#[test]
fn verifier_rejects_experimental_truehd_and_pcm_delivery() {
    let source = source_manifest();
    let expected = [rendered(OutputCodec::Flac, BINAURAL_TITLE)];
    for codec in ["truehd", "pcm_s24le"] {
        let mut output = source.clone();
        output.streams.push(appended_stream(2, codec, BINAURAL_TITLE));
        assert!(
            verify_output(&source, &output, &source.streams[1], &expected, SECOND).is_err(),
            "{codec} delivery was accepted"
        );
    }
}

#[test]
fn verifier_rejects_aac_without_a_confirmed_lc_profile() {
    let source = source_manifest();
    let expected = [rendered(OutputCodec::Aac, BINAURAL_TITLE)];
    let mut output = source.clone();
    let mut appended = appended_stream(2, "aac", BINAURAL_TITLE);
    appended.profile = Some("unknown".into());
    output.streams.push(appended);

    assert!(
        verify_output(&source, &output, &source.streams[1], &expected, SECOND).is_err(),
        "AAC with an unidentified profile was accepted"
    );
}

#[test]
fn verifier_accounts_for_aac_priming_in_presentation_start() {
    let source = source_manifest();
    let expected = [rendered(OutputCodec::Aac, BINAURAL_TITLE)];
    let mut output = source.clone();
    let mut appended = appended_stream(2, "aac", BINAURAL_TITLE);
    let priming = 1024 * SECOND / 48_000;
    appended.initial_padding = Some(1024);
    appended.start_time = Some(SECOND - priming);
    appended.duration = Some(2 * SECOND + priming);
    output.streams.push(appended);
    verify_output(&source, &output, &source.streams[1], &expected, SECOND).unwrap();

    output.streams[2].start_time = Some(SECOND);
    assert!(
        verify_output(&source, &output, &source.streams[1], &expected, SECOND).is_err(),
        "AAC whose priming delays presentation start was accepted"
    );
}

#[test]
fn only_declared_container_generated_tags_may_change() {
    let expected = tags(&[("ENCODER", "Lavf58.76.100"), ("title", "Original title")]);
    let mut actual = tags(&[("ENCODER", "Lavf62.3.100"), ("title", "Original title")]);
    verify_tags(&expected, &actual, "global metadata", &["ENCODER"], &[]).unwrap();

    actual.insert("title".into(), "Changed title".into());
    assert!(verify_tags(&expected, &actual, "global metadata", &["ENCODER"], &[]).is_err());
}

#[test]
fn verifier_only_allows_declared_unrepresentable_tags_to_be_absent() {
    let expected = tags(&[
        ("creation_time", "2016-12-06T07:08:34.000000Z"),
        ("language", "und"),
        ("title", "Picture"),
    ]);
    let actual = tags(&[("title", "Picture")]);

    verify_tags(&expected, &actual, "stream metadata", &[], &["creation_time"]).unwrap();
    assert!(verify_tags(
        &expected,
        &Dictionary::new(),
        "stream metadata",
        &[],
        &["creation_time"]
    )
    .is_err());
}

#[test]
fn verifier_allows_matroska_to_place_attachments_after_appended_audio() {
    let mut source = source_manifest();
    let mut attachment = stream(2, "attachment", "unknown");
    set_tag(&mut attachment, "filename", "font.ttf");
    source.streams.push(attachment.clone());

    let appended = appended_stream(2, "flac", BINAURAL_TITLE);
    attachment.index = 3;
    let output = ContainerManifest {
        streams: vec![
            source.streams[0].clone(),
            source.streams[1].clone(),
            appended,
            attachment,
        ],
        chapters: source.chapters.clone(),
        format: source.format.clone(),
    };

    let expected = [rendered(OutputCodec::Flac, BINAURAL_TITLE)];
    verify_output(&source, &output, &source.streams[1], &expected, SECOND).unwrap();
}

#[test]
fn verifier_accepts_two_distinct_non_default_tracks() {
    let source = source_manifest();
    let mut output = source.clone();
    for (index, title) in [BINAURAL_TITLE, SECOND_FIXTURE_TITLE].into_iter().enumerate() {
        output.streams.push(appended_stream(index + 2, "aac", title));
    }
    let expected = [
        rendered(OutputCodec::Aac, BINAURAL_TITLE),
        rendered(OutputCodec::Aac, SECOND_FIXTURE_TITLE),
    ];

    verify_output(&source, &output, &source.streams[1], &expected, SECOND).unwrap();
}

#[test]
fn verifier_notices_lost_streams_chapters_and_tags() {
    let mut source = source_manifest();
    source.chapters.push(ChapterManifest {
        start_time: Some(0),
        end_time: Some(SECOND),
        tags: tags(&[("title", "Opening")]),
    });
    let expected = [rendered(OutputCodec::Flac, BINAURAL_TITLE)];
    let mut good = source.clone();
    good.streams.push(appended_stream(2, "flac", BINAURAL_TITLE));
    verify_output(&source, &good, &source.streams[1], &expected, SECOND).unwrap();

    let mut fewer = good.clone();
    fewer.streams.remove(0);
    assert!(verify_output(&source, &fewer, &source.streams[1], &expected, SECOND).is_err());

    let mut chapterless = good.clone();
    chapterless.chapters.clear();
    assert!(verify_output(&source, &chapterless, &source.streams[1], &expected, SECOND).is_err());

    let mut renamed = good.clone();
    set_tag(&mut renamed.streams[0], "title", "Other picture");
    let error =
        verify_output(&source, &renamed, &source.streams[1], &expected, SECOND).unwrap_err();
    assert_eq!(error.exit_code(), 7);

    let mut late = good.clone();
    late.streams[2].start_time = Some(2 * SECOND);
    assert!(verify_output(&source, &late, &source.streams[1], &expected, SECOND).is_err());
}

#[test]
fn timestamps_are_spelled_in_seconds() {
    assert_eq!(format_timestamp(1_250_000_000), "1.25");
    assert_eq!(format_timestamp(0), "0");
    assert_eq!(format_timestamp(-500_000_000), "-0.5");
}

#[test]
fn dispositions_list_what_is_set() {
    let mut disposition = Dictionary::new();
    assert_eq!(disposition_value(&disposition), "0");
    disposition.insert("forced".to_owned(), 1);
    disposition.insert("default".to_owned(), 1);
    disposition.insert("dub".to_owned(), 0);
    assert_eq!(disposition_value(&disposition), "default+forced");
}

#[test]
fn entries_are_kept_in_order_and_replaced() {
    let mut list: Dictionary<i32> = Dictionary::new();
    list.insert("b".to_owned(), 1);
    list.insert("a".to_owned(), 2);
    list.insert("b".to_owned(), 3);
    let keys: Vec<&str> = list.entries.iter().map(|entry| entry.key.as_str()).collect();
    assert_eq!(keys, ["a", "b"]);
    assert_eq!(list.get("b"), Some(&3));
    assert_eq!(list.get("c"), None);
}

#[test]
fn tags_are_found_in_any_case() {
    let list = tags(&[("LANGUAGE", "eng")]);
    assert_eq!(tag(&list, "language"), Some("eng"));
    assert_eq!(tag(&list, "title"), None);
}

fn track(index: usize, rank: u16, language: Option<&str>) -> AudioTrack {
    AudioTrack {
        audio_index: index,
        stream_index: index + 3,
        codec: "fixture".into(),
        profile: None,
        language: language.map(str::to_owned),
        channels: Some(2),
        sample_rate: Some(48_000),
        capability: DecodeCapability::Channels,
        selection_rank: rank,
    }
}

#[test]
fn automatic_selection_uses_rank_then_original_order() {
    let tracks = [track(0, 90, None), track(1, 30, None), track(2, 30, None)];
    assert_eq!(select_track(&tracks, None, None).unwrap().audio_index, 1);
}

#[test]
fn language_filter_is_required_not_advisory() {
    let tracks = [track(0, 30, Some("eng")), track(1, 40, Some("jpn"))];
    assert_eq!(
        select_track(&tracks, None, Some("JPN"))
            .unwrap()
            .audio_index,
        1
    );
    assert!(select_track(&tracks, None, Some("fra")).is_err());
}

#[test]
fn explicit_selection_bypasses_ranking() {
    let tracks = [track(0, 10, None), track(1, 100, None)];
    assert_eq!(select_track(&tracks, Some(1), None).unwrap().audio_index, 1);
}

#[test]
fn missing_tracks_are_answered_with_what_there_is() {
    let tracks = [track(0, 10, None), track(1, 100, None)];
    assert_eq!(
        select_track(&tracks, Some(7), None).unwrap_err().message(),
        "audio track 7 does not exist; available indices: 0, 1"
    );
    assert_eq!(
        select_track(&[], None, Some("deu")).unwrap_err().message(),
        "no renderable audio track has language 'deu'"
    );
}

fn atmos_manifest() -> ContainerManifest {
    let mut audio = stream(2, "audio", "eac3");
    audio.profile = Some("Dolby Digital Plus + Dolby Atmos".into());
    audio.channels = Some(6);
    audio.channel_layout = Some("5.1(side)".into());
    audio.sample_rate = Some(48_000);
    audio.bits_per_raw_sample = Some(24);
    audio.start_time = None;
    audio.duration = None;
    audio.disposition = Dictionary::new();
    ContainerManifest {
        format: FormatManifest {
            format_name: "matroska".into(),
            start_time: None,
            duration: None,
            tags: Dictionary::new(),
        },
        streams: vec![audio],
        chapters: Vec::new(),
    }
}

#[test]
fn atmos_profile_selects_joc_object_reconstruction() {
    assert_eq!(
        AudioTrack::from_manifest(&atmos_manifest())[0].capability,
        DecodeCapability::JocObjects
    );
}

fn no_options() -> TrackOptions {
    TrackOptions {
        upconvert: Toggle::Off,
        matrix: Toggle::Off,
        mlp_presentation: None,
    }
}

#[test]
fn a_chosen_track_comes_with_its_stream() {
    let mut manifest = source_manifest();
    manifest.streams.push(stream(4, "audio", "truehd"));
    let tracks = AudioTrack::from_manifest(&manifest);
    let (best, place) = choose_track(&manifest, &tracks, None, None, no_options()).unwrap();
    assert_eq!(best.capability, DecodeCapability::TrueHdObjects);
    assert_eq!(place, 2);
    assert_eq!(
        selected_message(best),
        "selected audio 1 (stream 4, truehd, und, truehd-objects)"
    );
    let (explicit, place) =
        choose_track(&manifest, &tracks, Some(0), None, no_options()).unwrap();
    assert_eq!(explicit.stream_index, 1);
    assert_eq!(place, 1);
}

#[test]
fn options_of_other_tracks_are_refused() {
    let manifest = atmos_manifest();
    let tracks = AudioTrack::from_manifest(&manifest);
    let options = TrackOptions {
        upconvert: Toggle::On,
        matrix: Toggle::On,
        mlp_presentation: Some(2),
    };
    let error = choose_track(&manifest, &tracks, None, None, options).unwrap_err();
    assert_eq!(
        error.message(),
        "these options are not implemented by the Rust renderer yet: --upconvert, --matrix, --mlp-presentation"
    );
}

#[test]
fn listings_are_aligned() {
    assert_eq!(list_tracks(&[]), ["No audio tracks."]);
    let mut listed = track(1, 30, Some("eng"));
    listed.channels = None;
    assert_eq!(
        list_tracks(&[track(0, 30, None), listed]),
        [
            "audio  stream  codec       language  channels  capability",
            "    0       3  fixture     und              2  channels",
            "    1       4  fixture     eng              ?  channels",
        ]
    );
    assert!(shows_messages(ProgressMode::Text));
    assert!(!shows_messages(ProgressMode::Quiet));
}

#[test]
fn runs_publish_only_what_was_verified() {
    let facts = RunFacts {
        list_tracks: false,
        room_correction: false,
        capability: DecodeCapability::JocObjects,
    };
    let mut step = Step::ReadArguments;
    let mut order = vec![step];
    while step != Step::Done {
        step = step.next(facts).unwrap();
        order.push(step);
    }
    assert_eq!(order.len(), 16);
    let verify = order.iter().position(|step| *step == Step::Verify).unwrap();
    assert_eq!(order[verify + 1], Step::Commit);
    assert!(order.contains(&Step::RenderJoc));
    assert!(!order.contains(&Step::LoadCorrection));
    assert_eq!(Step::Mux.announcement(), Some("muxing preservation copy"));
}

#[test]
fn listing_ends_a_run() {
    let facts = RunFacts {
        list_tracks: true,
        room_correction: true,
        capability: DecodeCapability::Unsupported,
    };
    assert_eq!(Step::Probe.next(facts).unwrap(), Step::ListTracks);
    assert_eq!(Step::ListTracks.next(facts).unwrap(), Step::Done);
    assert_eq!(Step::LoadProfile.next(facts).unwrap(), Step::LoadCorrection);
    assert_eq!(
        Step::OpenWorkspace.next(facts).unwrap_err().message(),
        "selected audio codec is not renderable"
    );
}

#[test]
fn duration_tags_have_three_parts() {
    assert_eq!(
        duration_parts("00:01:05.500").unwrap(),
        ["00", "01", "05.500"]
    );
    assert_eq!(duration_parts("::").unwrap(), ["", "", ""]);
    assert!(duration_parts("01:05").is_none());
    assert!(duration_parts("0:0:0:0").is_none());
    for text in ["", ":", "a:b", "a::b:", "no separator"] {
        assert_eq!(split(text, ':').join(":"), text);
        assert!(split(text, ':').iter().all(|part| !part.contains(':')));
    }
}

#[test]
fn filters_and_limited_options_are_protected() {
    for option in [
        "-filter",
        "-filter:a",
        "-filter_script",
        "-filter_script:v",
        "-filter_complex",
        "-FILTER",
        "-filter=volume",
        "-af",
        "-vf:0",
        "-frames:v",
        "-itsscale:0",
        "-scodec:s:0",
    ] {
        let arguments = [(option.to_owned(), "volume=2".to_owned())];
        assert_eq!(
            validate_advanced_arguments(&arguments).unwrap_err().message(),
            format!("advanced ffmpeg option '{option}' would override a protected mux setting")
        );
    }
    for option in ["-filter_threads", "-strict:v", "-passlogfile:v", "-metadata"] {
        let arguments = [(option.to_owned(), "2".to_owned())];
        assert!(validate_advanced_arguments(&arguments).is_ok());
    }
    assert!(validate_advanced_arguments(&[("-strict".to_owned(), "2".to_owned())]).is_err());
}

#[test]
fn joined_options_are_accepted_like_their_parts() {
    let list = |options: &[&str]| {
        options
            .iter()
            .map(|option| ((*option).to_owned(), String::new()))
            .collect::<Vec<_>>()
    };
    let lists = [
        list(&[]),
        list(&["-metadata"]),
        list(&["-crf", "-MAP"]),
        list(&["plain"]),
    ];
    for first in &lists {
        for second in &lists {
            let joined = [first.clone(), second.clone()].concat();
            let accepted = validate_advanced_arguments(&joined).is_ok();
            assert_eq!(
                accepted,
                validate_advanced_arguments(first).is_ok()
                    && validate_advanced_arguments(second).is_ok()
            );
            let louder = joined
                .iter()
                .map(|(option, _)| (option.to_ascii_uppercase(), "other".to_owned()))
                .collect::<Vec<_>>();
            assert_eq!(validate_advanced_arguments(&louder).is_ok(), accepted);
        }
    }
    assert!(validate_advanced_arguments(&[]).is_ok());
}
