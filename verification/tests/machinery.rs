use surroundfold::binaural::{
    convolution_tail_blocks, reflection_tail, virtual_speakers, BusActivity, BusLayout,
    FrameAccount, ReflectionActivity, RouteSource,
};
use surroundfold::cancel::{outcome, Cancellation};
use surroundfold::cli::ProgressMode;
use surroundfold::continuous::{
    filter_place, maximum_tail_frames, previous_cursor, tap_place, GridCell,
};
use surroundfold::dsp::{
    lookahead_frames, next_head, ring_place, BankShape, FilterShape, Lookahead, PeakWindow,
    TpdfDither,
};
use surroundfold::hrir::{DirectionalHrir, HrirChannel, HrirSet};
use surroundfold::parametric::{peak_index, profile_delay, ModelShape};
use surroundfold::process::{
    concise, concise_ffmpeg_error, pipeline_outcome, version_line, ProcessRunner,
};
use surroundfold::progress::{
    completed_microseconds, format_duration, frame_duration, frames_in, reports,
};
use surroundfold::room::RoomCorrection;
use surroundfold::speaker::Speaker;

#[test]
fn explicit_cancellation_is_observed() {
    let cancellation = Cancellation::new();
    cancellation.cancel();
    assert!(cancellation.check().is_err());
}

#[test]
fn cancellation_reaches_copies_and_runners() {
    let cancellation = Cancellation::new();
    let runner = ProcessRunner::new(cancellation.clone());
    assert!(!cancellation.is_cancelled());
    runner.check_cancelled().unwrap();
    cancellation.cancel();
    assert_eq!(runner.check_cancelled().unwrap_err().exit_code(), 130);
    assert!(outcome(false).is_ok());
}

#[test]
fn parses_the_latest_complete_ffmpeg_timestamp() {
    let report =
        "out_time_us=1250000\nprogress=continue\nout_time_us=2750000\nprogress=continue\n";
    assert_eq!(completed_microseconds(report), Some(2_750_000));
}

#[test]
fn durations_are_spelled_as_clocks() {
    assert_eq!(format_duration(66), "01:06");
    assert_eq!(format_duration(3_661), "1:01:01");
    assert_eq!(format_duration(900), "15:00");
    assert_eq!(frame_duration(96_001, 48_000), (2, 1));
    assert_eq!(frames_in(13), 2);
    assert!(reports(ProgressMode::Text, true));
    assert!(!reports(ProgressMode::Text, false));
    assert!(!reports(ProgressMode::Json, true));
}

#[test]
fn reports_of_programs_are_shortened() {
    assert_eq!(
        version_line("ffmpeg", "  ffmpeg version 8.0 \nbuilt").unwrap(),
        "ffmpeg version 8.0"
    );
    assert_eq!(
        version_line("ffmpeg", "\nffmpeg version 6.0\n").unwrap(),
        "ffmpeg version 6.0"
    );
    assert_eq!(
        version_line("ffmpeg", " \n\t\r\n first \nsecond").unwrap(),
        "first"
    );
    assert!(version_line("ffmpeg", " \n \n").is_err());
    assert_eq!(
        version_line("ffmpeg", "").unwrap_err().message(),
        "ffmpeg -version returned no version information"
    );
    assert_eq!(concise("short").unwrap(), "short");
    let cut = concise(&"x".repeat(600)).unwrap();
    assert_eq!(cut.chars().count(), 501);
    assert!(concise(&"é".repeat(260)).is_some());
    assert!(concise(&"€".repeat(200)).is_none());
    let errors = (0..12)
        .map(|line| format!("line {line}\n\n"))
        .collect::<String>();
    let last = concise_ffmpeg_error(&errors);
    assert_eq!(last.lines().count(), 8);
    assert!(last.starts_with("line 4"));
    assert_eq!(concise_ffmpeg_error(" \n"), "no error output");
    pipeline_outcome(true, true, "0", "0", "", "").unwrap();
    assert!(pipeline_outcome(false, true, "1", "0", "boom", "").is_err());
    assert!(pipeline_outcome(true, false, "0", "1", "", "boom").is_err());
}

#[test]
fn filters_are_partitioned() {
    let shape = FilterShape::new(1025, 3, 1024).unwrap();
    assert_eq!(shape.partitions, 2);
    assert_eq!(shape.fft_size, 2048);
    assert_eq!(shape.bins, 1025);
    assert_eq!(
        FilterShape::new(0, 3, 1024).unwrap_err().message(),
        "HRIR impulses must not be empty"
    );
    assert_eq!(
        FilterShape::new(1, 1, 1000).unwrap_err().message(),
        "convolution block size must be a non-zero power of two"
    );
    assert!(FilterShape::new(1, 1, 0).is_err());
    shape.check_sizes(1024, 1024, 1024).unwrap();
    assert_eq!(
        shape.check_sizes(1025, 1024, 1024).unwrap_err().message(),
        "convolution input has 1025 samples; block size is 1024"
    );
    assert!(shape.check_sizes(5, 1024, 1000).is_err());
    let bank = BankShape::new(&[(1, 2), (2048, 1)], 1024).unwrap();
    assert_eq!(bank.partitions, [1, 2]);
    bank.check_sizes(&[1024, 1024], 2, 1024, 1024).unwrap();
    assert!(bank.check_sizes(&[1024, 1023], 2, 1024, 1024).is_err());
    assert_eq!(
        BankShape::new(&[], 1024).err().unwrap().message(),
        "binaural convolver bank has no filters"
    );
    assert!(BankShape::new(&[(1, 0)], 1024).is_err());
}

#[test]
fn rings_are_read_backwards() {
    assert_eq!(ring_place(2, 4, 0), 2);
    assert_eq!(ring_place(2, 4, 3), 3);
    assert_eq!(next_head(3, 4), 0);
    assert_eq!(next_head(1, 4), 2);
}

#[test]
fn the_window_keeps_the_largest_of_the_latest_peaks() {
    assert_eq!(lookahead_frames(48_000), 252);
    assert_eq!(lookahead_frames(0), 13);
    let peaks = [5_u32, 3, 8, 1, 1, 2, 0, 7, 7, 1];
    let mut window = PeakWindow::new(2);
    for (index, peak) in peaks.iter().enumerate() {
        let expected = peaks[index.saturating_sub(2)..=index]
            .iter()
            .copied()
            .max()
            .unwrap();
        assert_eq!(window.push(*peak), expected);
    }
}

#[test]
fn lookahead_gives_every_frame_back() {
    let mut line = Lookahead::new(2);
    let mut out = Vec::new();
    for frame in 1..=5_u32 {
        out.extend(line.push((frame, frame)));
    }
    for _ in 0..2 {
        out.extend(line.push((0, 0)));
    }
    assert_eq!(out, [(1, 1), (2, 2), (3, 3), (4, 4), (5, 5)]);
}

#[test]
fn dither_repeats_and_stays_bounded() {
    let mut first = TpdfDither::default();
    let mut second = TpdfDither::default();
    let mut differs = false;
    let mut last = 0;
    for _ in 0..1000 {
        let noise = first.noise();
        assert_eq!(noise, second.noise());
        assert!(noise.abs() < 0x100_0000);
        differs |= noise != last;
        last = noise;
    }
    assert!(differs);
    let mut state = 0x6a09_e667_f3bc_c909_u64;
    state ^= state << 13;
    state ^= state >> 7;
    state ^= state << 17;
    assert_eq!(
        u64::from(TpdfDither::default().uniform()),
        state >> 40
    );
}

fn profile() -> HrirSet {
    let channel = |speaker, length| HrirChannel {
        speaker,
        left: vec![1; length],
        right: vec![1; 2],
    };
    HrirSet {
        sample_rate: 48_000,
        channels: vec![
            channel(Speaker::FrontLeft, 3),
            channel(Speaker::FrontRight, 1026),
        ],
        directional: vec![DirectionalHrir {
            direction: [0; 3],
            left: vec![1; 7],
            right: vec![1; 9],
        }],
    }
}

#[test]
fn buses_are_planned_once_per_speaker() {
    let speakers = virtual_speakers(&[
        Speaker::FrontLeft,
        Speaker::FrontRight,
        Speaker::FrontLeft,
    ])
    .unwrap();
    assert_eq!(
        speakers,
        [Speaker::FrontLeft, Speaker::FrontRight, Speaker::Lfe]
    );
    assert_eq!(
        virtual_speakers(&[]).unwrap_err().message(),
        "binaural renderer has no virtual speaker buses"
    );
    let mut layout = BusLayout::new(&profile(), &speakers).unwrap();
    assert_eq!(layout.lengths, [3, 1026, 1, 9]);
    assert_eq!(layout.tail_blocks, [1, 2, 0, 1]);
    assert_eq!(layout.maximum_impulse, 1026);
    assert_eq!(layout.routes.len(), 3);
    assert_eq!(layout.routes[2].index, 3);
    assert_eq!(layout.routes[2].source, RouteSource::Direction { place: 0 });
    assert_eq!(layout.tail_frames(&None), 1025);
    let correction = RoomCorrection {
        sample_rate: 48_000,
        left: vec![1; 5],
        right: vec![1; 6],
    };
    assert_eq!(layout.tail_frames(&Some(correction)), 1030);
    layout.reshape(vec![512, 512, 1, 512]);
    assert_eq!(layout.maximum_impulse, 1026);
    assert_eq!(layout.tail_blocks, [1, 1, 0, 1]);
    assert_eq!(convolution_tail_blocks(0), 0);
    let bare = HrirSet {
        sample_rate: 48_000,
        channels: Vec::new(),
        directional: Vec::new(),
    };
    assert_eq!(
        BusLayout::new(&bare, &[Speaker::FrontLeft])
            .err()
            .unwrap()
            .message(),
        "HRIR has no usable response for FrontLeft"
    );
}

#[test]
fn buses_ring_for_their_tail() {
    let mut activity = BusActivity::new(vec![2, 0]);
    activity.mark(0).unwrap();
    activity.mark(1).unwrap();
    assert_eq!(
        activity.mark(2).unwrap_err().message(),
        "virtual-speaker bus 2 does not exist"
    );
    assert_eq!(activity.end_block(), [true, true]);
    assert_eq!(activity.end_block(), [true, false]);
    assert_eq!(activity.end_block(), [true, false]);
    assert_eq!(activity.end_block(), [false, false]);
}

#[test]
fn accounts_meet_their_target() {
    let mut account = FrameAccount::new(100);
    assert_eq!(
        account.target(0).unwrap_err().message(),
        "selected stream decoded to zero audio frames"
    );
    for _ in 0..1500 {
        if account.end_frame().unwrap() {
            account.end_block(1024).unwrap();
        }
    }
    let target = account.target(10).unwrap();
    assert_eq!(target, 1610);
    for _ in 0..10 {
        assert!(!account.commit());
    }
    let mut blocks = Vec::new();
    while let Some(frames) = account.next_block(target) {
        blocks.push(frames);
        account.end_block(frames).unwrap();
    }
    assert_eq!(blocks, [586]);
    account.count_written(1609).unwrap();
    assert_eq!(
        account.check_written(target).unwrap_err().message(),
        "output limiter produced 1609 frames; expected 1610"
    );
    account.count_written(1).unwrap();
    account.check_written(target).unwrap();
    account.input = u64::MAX;
    assert_eq!(
        account.target(1).unwrap_err().message(),
        "rendered duration overflowed"
    );
    account.processed = u64::MAX;
    assert_eq!(
        account.end_block(1).unwrap_err().message(),
        "rendered frame count overflowed"
    );
}

#[test]
fn reflections_end_after_their_tail() {
    assert_eq!(reflection_tail(10, 48_000), 58);
    let layout = BusLayout::new(
        &profile(),
        &[Speaker::FrontLeft, Speaker::FrontRight, Speaker::Lfe],
    )
    .unwrap();
    let mut activity = ReflectionActivity::new(4, &layout.routes, 2);
    assert!(activity.feed(0, true).unwrap());
    assert!(activity.feed(0, true).unwrap());
    assert!(!activity.feed(2, true).unwrap());
    assert!(activity.feed(1, false).unwrap());
    assert_eq!(
        activity.feed(4, true).unwrap_err().message(),
        "early-reflection source bus 4 does not exist"
    );
    assert_eq!(activity.tail_frames(), 3);
    assert_eq!(activity.advance(), [(0, false)]);
    assert!(activity.feed(3, true).unwrap());
    assert_eq!(activity.advance(), [(0, false), (3, false)]);
    assert_eq!(activity.advance(), [(0, true), (3, false)]);
    assert_eq!(activity.advance(), [(3, true)]);
    assert!(activity.advance().is_empty());
}

#[test]
fn grids_wrap_around_the_circle_and_stop_at_the_pole() {
    assert_eq!(filter_place(18, 71), 1367);
    let cell = GridCell::new(18, 71);
    assert_eq!(cell.lower_left, 1367);
    assert_eq!(cell.lower_right, 1296);
    assert_eq!(cell.upper_left, 1367);
    assert_eq!(GridCell::new(0, 72).lower_left, 0);
    assert_eq!(maximum_tail_frames(10, 32), 134);
    assert_eq!(maximum_tail_frames(usize::MAX, 1), usize::MAX);
    assert_eq!(previous_cursor(0), 63);
    assert_eq!(tap_place(100, 5, 11, 0), 5);
    assert_eq!(tap_place(100, 5, 11, 23), 82);
}

#[test]
fn models_are_shaped_by_their_longest_response() {
    let shape = ModelShape::new(&[100, 600]).unwrap();
    assert_eq!(shape.fft_len, 4096);
    assert_eq!(shape.output_len, 512);
    assert_eq!(shape.bins, 2049);
    let small = ModelShape::new(&[3]).unwrap();
    assert_eq!(small.fft_len, 2048);
    assert_eq!(small.output_len, 256);
    assert!(ModelShape::new(&[]).is_none());
    assert_eq!(profile_delay(&[9, 1, 5, 7]), 7);
    assert_eq!(profile_delay(&[]), 0);
    let samples = [0.5_f32, -2.0, 2.0, 1.0].map(f32::to_bits);
    assert_eq!(peak_index(&samples), 2);
    assert_eq!(peak_index(&[]), 0);
}
