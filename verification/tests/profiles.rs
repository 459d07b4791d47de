use surroundfold::hrir::{
    detect_segment_length, is_sofa, measured_response, resampling_needed, signal_peak,
    split_segments, trim_trailing_silence, wave_from_samples, DirectionalHrir, HrirChannel,
    HrirSet, WaveData,
};
use surroundfold::paths::{check_output_path, default_output_name};
use surroundfold::render::{
    channel_count, check_whole_frames, decode_arguments, frame_bytes, pcm_words, source_layout,
};
use surroundfold::room::{check_block, choose_correction, correction_suffix, RoomCorrection};
use surroundfold::speaker::Speaker;
use surroundfold::spatial::DirectRoute;
use surroundfold::upmix::{
    ground_route, route_channel, AnalysisClock, ChannelSwitches, GroundRoute, MatrixPlan,
    HEIGHT_ANALYSIS_FRAMES,
};
use surroundfold::workspace::{check_file_name, check_publication};

fn bits(value: f32) -> u32 {
    value.to_bits()
}

fn fixture(channels: usize, impulse_length: usize, gain: f32) -> WaveData {
    let mut samples = Vec::new();
    for channel in 0..channels {
        for sample in 0..impulse_length {
            let left = if sample == 0 { gain } else { 0.0 };
            let right = if sample == 1 {
                gain * (0.8 - f32::from(u16::try_from(channel).unwrap()) * 0.01)
            } else {
                0.0
            };
            samples.push(bits(left));
            samples.push(bits(right));
        }
    }
    wave_from_samples(2, 48_000, &samples, "fixture").unwrap()
}

#[test]
fn parses_concatenated_stereo_impulses() {
    let hrir = HrirSet::from_wave(&fixture(6, 128, 1.0)).unwrap();
    assert_eq!(hrir.sample_rate, 48_000);
    assert_eq!(hrir.channels.len(), 6);
    assert_eq!(hrir.channels[0].speaker, Speaker::FrontLeft);
    assert_eq!(hrir.channels[3].speaker, Speaker::Lfe);
    assert_eq!(
        hrir.channels[3].left,
        hrir.channel(Speaker::FrontCenter).unwrap().left
    );
}

#[test]
fn preserves_the_profile_gain() {
    let hrir = HrirSet::from_wave(&fixture(2, 128, 0.25)).unwrap();
    assert!((f32::from_bits(hrir.channels[0].left[0]) - 0.25).abs() < f32::EPSILON);
}

#[test]
fn odd_layout_duplicates_center_for_symmetry() {
    let hrir = HrirSet::from_wave(&fixture(5, 128, 1.0)).unwrap();
    assert_eq!(hrir.channels.len(), 6);
}

#[test]
fn silent_and_broken_waves_are_refused() {
    let silent = wave_from_samples(2, 48_000, &[0; 512], "silence").unwrap();
    assert_eq!(HrirSet::from_wave(&silent).unwrap_err().exit_code(), 5);
    assert!(wave_from_samples(2, 48_000, &[f32::NAN.to_bits(), 0], "noise").is_err());
    let mono = wave_from_samples(1, 48_000, &[bits(1.0); 256], "mono").unwrap();
    assert!(HrirSet::from_wave(&mono).is_err());
}

#[test]
fn segments_are_found_by_their_impulses() {
    let mut left = vec![0; 256];
    left[0] = bits(1.0);
    left[128] = bits(-1.0);
    let right = vec![0; 256];
    let peak = signal_peak(&left, &right).unwrap();
    assert_eq!(peak, bits(1.0));
    assert_eq!(
        detect_segment_length(&left, &right, bits(0.5)).unwrap(),
        128
    );
    let parts = split_segments(&left, &right, 128);
    assert_eq!(parts.len(), 2);
    assert_eq!(parts[1].0[0], bits(-1.0));
    let (short, also_short) = trim_trailing_silence(&parts[0].0, &parts[0].1);
    assert_eq!(short, [bits(1.0)]);
    assert_eq!(also_short.len(), 1);
}

#[test]
fn measured_responses_have_one_length() {
    let (left, right) =
        measured_response(&[bits(1.0)], &[0, bits(0.5), 0, 0], "FrontLeft").unwrap();
    assert_eq!(left, [bits(1.0), 0]);
    assert_eq!(right, [0, bits(0.5)]);
    assert_eq!(
        measured_response(&[bits(f32::INFINITY)], &[0], "FrontLeft")
            .unwrap_err()
            .message(),
        "SOFA HRIR contains NaN or infinite samples at FrontLeft"
    );
    assert_eq!(
        measured_response(&[0], &[0], "FrontLeft")
            .unwrap_err()
            .message(),
        "SOFA HRIR has no usable response at FrontLeft"
    );
}

fn impulse(speaker: Speaker) -> HrirChannel {
    HrirChannel {
        speaker,
        left: vec![bits(1.0)],
        right: vec![bits(1.0)],
    }
}

fn profile(speakers: &[Speaker]) -> HrirSet {
    HrirSet {
        sample_rate: 48_000,
        channels: speakers.iter().copied().map(impulse).collect(),
        directional: Vec::new(),
    }
}

#[test]
fn stand_ins_serve_missing_speakers() {
    let hrir = profile(&[Speaker::FrontLeft, Speaker::FrontRight, Speaker::SideLeft]);
    assert_eq!(
        hrir.resolved_speaker(Speaker::SideLeft),
        Some(Speaker::SideLeft)
    );
    assert_eq!(
        hrir.resolved_speaker(Speaker::RearLeft),
        Some(Speaker::SideLeft)
    );
    assert!(!hrir.has_exact(Speaker::RearLeft));
    assert_eq!(hrir.speakers().len(), 3);
    assert!(profile(&[]).channel(Speaker::FrontLeft).is_none());
}

#[test]
fn rates_decide_on_resampling() {
    assert!(resampling_needed(48_000, 96_000).unwrap());
    assert!(!resampling_needed(48_000, 48_000).unwrap());
    assert_eq!(
        resampling_needed(48_000, 0).unwrap_err().message(),
        "HRIR target sample rate must be non-zero"
    );
    assert!(is_sofa(&Some("SOFA".to_owned())));
    assert!(!is_sofa(&Some("wav".to_owned())));
    assert!(!is_sofa(&None));
}

#[test]
fn ffmpeg_side_layout_maps_to_side_speakers() {
    assert_eq!(
        source_layout(Some("5.1(side)"), 6).unwrap(),
        [
            Speaker::FrontLeft,
            Speaker::FrontRight,
            Speaker::FrontCenter,
            Speaker::Lfe,
            Speaker::SideLeft,
            Speaker::SideRight,
        ]
    );
}

#[test]
fn mismatched_layout_is_rejected() {
    assert!(source_layout(Some("stereo"), 6).is_err());
}

#[test]
fn unknown_layouts_fall_back_on_the_channel_count() {
    assert_eq!(
        source_layout(None, 1).unwrap(),
        [Speaker::FrontCenter]
    );
    assert_eq!(source_layout(Some("fancy"), 8).unwrap().len(), 8);
    assert!(source_layout(None, 17).is_err());
}

#[test]
fn decoded_bytes_are_little_endian() {
    let mut bytes = Vec::new();
    bytes.extend(1.5_f32.to_le_bytes());
    bytes.extend((-2.0_f32).to_le_bytes());
    assert_eq!(pcm_words(&bytes), [bits(1.5), bits(-2.0)]);
    assert_eq!(frame_bytes(6).unwrap(), 24);
    assert!(frame_bytes(usize::MAX).is_err());
    check_whole_frames(48, 24).unwrap();
    assert_eq!(
        check_whole_frames(50, 24).unwrap_err().message(),
        "decoded PCM ended with 2 incomplete bytes"
    );
    assert_eq!(channel_count(Some(6)).unwrap(), 6);
    assert!(channel_count(Some(0)).is_err());
    assert!(channel_count(None).is_err());
    assert!(!decode_arguments(3, 48_000).is_empty());
}

#[test]
fn stereo_matrix_creates_center_and_opposite_phase_sides() {
    let hrir = profile(&[]);
    let plan = MatrixPlan::new(&[Speaker::FrontLeft, Speaker::FrontRight], &hrir, true).unwrap();
    let center = plan
        .channels
        .iter()
        .find(|channel| channel.speaker == Speaker::FrontCenter)
        .unwrap();
    assert_eq!(center.terms.len(), 2);
    let left_side = plan
        .channels
        .iter()
        .find(|channel| channel.speaker == Speaker::SideLeft)
        .unwrap();
    assert!((f32::from(left_side.terms[0].quarters) / 4.0 - 0.5).abs() < f32::EPSILON);
    assert!((f32::from(left_side.terms[1].quarters) / 4.0 + 0.5).abs() < f32::EPSILON);
}

#[test]
fn rear_matrix_is_only_added_for_a_real_rear_hrir_pair() {
    let hrir = profile(&[Speaker::RearLeft, Speaker::RearRight]);
    let plan = MatrixPlan::new(&[Speaker::FrontLeft, Speaker::FrontRight], &hrir, true).unwrap();
    assert!(plan
        .channels
        .iter()
        .any(|channel| channel.speaker == Speaker::RearLeft));
    assert!(plan
        .channels
        .iter()
        .any(|channel| channel.speaker == Speaker::RearRight));
}

#[test]
fn channels_stay_as_they_are_without_the_matrix() {
    let plan = MatrixPlan::new(
        &[Speaker::FrontLeft, Speaker::FrontRight],
        &profile(&[]),
        false,
    )
    .unwrap();
    assert_eq!(plan.channels.len(), 2);
    assert_eq!(plan.channels[1].terms[0].source, 1);
    assert_eq!(plan.channels[1].terms[0].quarters, 4);
    let hrir = profile(&[Speaker::FrontLeft]);
    let route =
        route_channel(Speaker::FrontLeft, &hrir, &[Speaker::FrontLeft], false, false).unwrap();
    assert_eq!(route.bus, 0);
    assert!(route_channel(Speaker::FrontLeft, &hrir, &[], false, false).is_err());
}

fn mono(rate: u32, samples: &[f32]) -> WaveData {
    WaveData {
        sample_rate: rate,
        channels: vec![samples.iter().copied().map(bits).collect()],
    }
}

#[test]
fn corrections_are_made_of_two_mono_waves() {
    let correction =
        RoomCorrection::from_waves(mono(48_000, &[0.5]), mono(48_000, &[0.25]), 48_000).unwrap();
    assert_eq!(correction.left, [bits(0.5)]);
    assert_eq!(correction.right, [bits(0.25)]);
    assert!(
        RoomCorrection::from_waves(mono(48_000, &[0.5]), mono(44_100, &[0.5]), 48_000).is_err()
    );
    assert!(
        RoomCorrection::from_waves(mono(44_100, &[0.5]), mono(44_100, &[0.5]), 48_000).is_err()
    );
    let stereo = fixture(1, 4, 1.0);
    assert!(RoomCorrection::from_waves(stereo, mono(48_000, &[0.5]), 48_000).is_err());
    assert_eq!(correction_suffix("SL", "1", true), " SL.wav");
    assert_eq!(correction_suffix("SL", "1", false), " 1.wav");
    assert!(choose_correction(true, true, "SL", "Cinema.txt").unwrap());
    assert!(!choose_correction(false, true, "SL", "Cinema.txt").unwrap());
    assert_eq!(
        choose_correction(false, false, "SL", "Cinema.txt")
            .unwrap_err()
            .message(),
        "room-correction impulse for SL was not found beside Cinema.txt"
    );
    assert_eq!(check_block(8, 4).unwrap(), 4);
    assert!(check_block(7, 4).is_err());
    assert!(check_block(10, 4).is_err());
}

#[test]
fn default_output_is_beside_input() {
    assert_eq!(default_output_name(Some("Movie")), "Movie.surroundfold.mkv");
    assert_eq!(default_output_name(None), "output.surroundfold.mkv");
}

#[test]
fn outputs_replace_nothing_without_leave() {
    let mkv = Some("MKV".to_owned());
    check_output_path(&mkv, false, false, false, "out.mkv").unwrap();
    check_output_path(&mkv, false, true, true, "out.mkv").unwrap();
    assert!(check_output_path(&mkv, true, true, true, "out.mkv").is_err());
    assert!(check_output_path(&None, false, false, false, "out").is_err());
    assert_eq!(
        check_output_path(&mkv, false, true, false, "out.mkv")
            .unwrap_err()
            .message(),
        "the output already exists: out.mkv; use --overwrite to replace it"
    );
}

#[test]
fn workspace_rejects_path_traversal() {
    assert!(check_file_name("audio.wav").is_ok());
    assert!(check_file_name("../audio.wav").is_err());
    assert!(check_file_name("nested/audio.wav").is_err());
}

#[test]
fn only_written_outputs_are_published() {
    check_publication(true, false, false, "part", "out.mkv").unwrap();
    check_publication(true, true, true, "part", "out.mkv").unwrap();
    assert!(check_publication(false, false, false, "part", "out.mkv").is_err());
    assert!(check_publication(true, true, false, "part", "out.mkv").is_err());
}

#[test]
fn further_directions_are_kept_apart() {
    let mut hrir = profile(&[Speaker::FrontLeft]);
    hrir.directional.push(DirectionalHrir {
        direction: [0; 3],
        left: vec![bits(1.0); 3],
        right: vec![bits(1.0); 2],
    });
    assert_eq!(hrir.speakers(), [Speaker::FrontLeft]);
}

#[test]
fn every_share_comes_from_a_decoded_channel() {
    let hrir = profile(&[Speaker::RearLeft, Speaker::RearRight]);
    let sources = [
        vec![Speaker::FrontLeft, Speaker::FrontRight],
        vec![Speaker::FrontLeft, Speaker::FrontRight, Speaker::FrontCenter],
        vec![
            Speaker::FrontLeft,
            Speaker::FrontRight,
            Speaker::SideLeft,
            Speaker::SideRight,
        ],
    ];
    for source in &sources {
        let plan = MatrixPlan::new(source, &hrir, true).unwrap();
        assert!(plan.channels.len() > source.len());
        for (place, speaker) in source.iter().enumerate() {
            assert_eq!(plan.channels[place].speaker, *speaker);
        }
        for channel in &plan.channels {
            assert!(channel.terms.iter().all(|term| term.source < source.len()));
        }
    }
}

#[test]
fn grounds_are_routed_by_the_switches() {
    let plain = ChannelSwitches {
        mute_bed: false,
        mute_ground: false,
        speaker_virtualizer: false,
    };
    let virtualizer = ChannelSwitches {
        speaker_virtualizer: true,
        ..plain
    };
    let bus = GroundRoute::Bus { bus: 4 };
    assert_eq!(ground_route(Speaker::FrontLeft, 4, plain), bus);
    assert_eq!(
        ground_route(Speaker::FrontLeft, 4, virtualizer),
        GroundRoute::Direct {
            route: DirectRoute::Left
        }
    );
    assert_eq!(ground_route(Speaker::Lfe, 4, virtualizer), bus);
    assert_eq!(ground_route(Speaker::TopFrontLeft, 4, virtualizer), bus);
    let muted = ChannelSwitches {
        mute_bed: true,
        ..virtualizer
    };
    assert_eq!(ground_route(Speaker::Lfe, 4, muted), GroundRoute::Muted);
    assert_eq!(ground_route(Speaker::TopFrontLeft, 4, muted), GroundRoute::Muted);
    let muted = ChannelSwitches {
        mute_ground: true,
        ..plain
    };
    assert_eq!(ground_route(Speaker::Lfe, 4, muted), GroundRoute::Muted);
    assert_eq!(ground_route(Speaker::SideLeft, 4, muted), GroundRoute::Muted);
    assert_eq!(ground_route(Speaker::TopFrontLeft, 4, muted), bus);
}

#[test]
fn heights_are_estimated_at_intervals() {
    let mut clock = AnalysisClock::new();
    let due = (1..=130)
        .filter(|_| clock.advance())
        .collect::<Vec<usize>>();
    assert_eq!(due, [HEIGHT_ANALYSIS_FRAMES, 2 * HEIGHT_ANALYSIS_FRAMES]);
}

#[test]
fn layouts_list_every_speaker_once() {
    let names = [
        "mono", "stereo", "2.1", "3.0", "3.0(back)", "4.0", "quad", "quad(side)", "5.0",
        "5.0(side)", "5.1", "5.1(side)", "6.1", "7.1", "", "fancy",
    ];
    for channels in 0..20 {
        for name in names.map(Some).into_iter().chain([None]) {
            match source_layout(name, channels) {
                Ok(speakers) => {
                    assert_eq!(speakers.len(), channels);
                    for (place, speaker) in speakers.iter().enumerate() {
                        assert!(!speakers[..place].contains(speaker));
                    }
                    assert!(channels <= 16);
                }
                Err(error) => assert_eq!(error.exit_code(), 4),
            }
        }
        assert_eq!(
            source_layout(Some("fancy"), channels).ok(),
            source_layout(None, channels).ok()
        );
    }
}
