use surroundfold::cli::{DistanceRendererMode, ObjectRendererMode};
use surroundfold::hrir::{HrirChannel, HrirSet};
use surroundfold::isf::{
    find_table, select_layout, IsfConfig, IsfLayout, IsfRenderer, IsfTable, RowPlan,
};
use surroundfold::object::{
    Distance, Extent, Gain, IsfState, ObjectState, ObjectTrim, ObjectTrimMode, ObjectZone,
    Placement, Point, Scalar, SpatialUpdate,
};
use surroundfold::object_render::{
    longest, route_bed, validate_dimensions, BedRoute, ChannelRole, ObjectPlan,
    ObjectRenderOptions, ObjectRouting, ObjectSchedule, RampClock, RampStep, Retirement, TailClock,
};
use surroundfold::spatial::{
    bus_permitted, direct_stereo_route, permitted_targets, trim_configuration, DirectRoute,
    PanningBus, SpatialPanner,
};
use surroundfold::speaker::Speaker;
use surroundfold::truehd_adapter::{
    bed_index_to_speaker, channel_label_to_speaker, convert_frame, metadata_updates,
    scale_oamd_samples, Action, Arrival, BlockTiming, ChannelLabel, CodedTrim, DecodedUnit,
    Divergence, MetadataPayload, ObjectElement, ObjectInfo, StreamProgress, TrimElement,
};

fn value(scalar: Scalar) -> f64 {
    match scalar {
        Scalar::Ratio {
            numerator,
            denominator,
        } => f64::from(numerator) / f64::from(denominator),
        Scalar::Double { bits } => f64::from_bits(bits),
    }
}

fn info() -> ObjectInfo {
    ObjectInfo {
        not_active: false,
        gain: 0,
        size: [0; 3],
        follows_screen: false,
        screen_factor: 0,
        depth_factor: 0,
        distance_specified: false,
        at_infinity: false,
        distance_index: 0,
        zone_index: 0,
        elevation: true,
        snap: false,
    }
}

fn payload(objects: Vec<Vec<ObjectInfo>>, timing: Vec<BlockTiming>) -> MetadataPayload {
    MetadataPayload {
        evolution_offset: 0,
        beds: Vec::new(),
        bed_objects: 0,
        isf_objects: 0,
        dynamic_objects: 0,
        element: Some(ObjectElement {
            sample_offset: 0,
            block_count: timing.len(),
            timing,
            objects,
        }),
        trim: None,
        divergence: Vec::new(),
        positions: Vec::new(),
    }
}

fn instant() -> BlockTiming {
    BlockTiming {
        offset_factor: 0,
        ramp_duration: 0,
    }
}

#[test]
fn every_oamd_block_becomes_a_scaled_timed_update() {
    let mut payload = payload(
        vec![vec![info(), info()]],
        vec![
            BlockTiming {
                offset_factor: 0,
                ramp_duration: 32,
            },
            BlockTiming {
                offset_factor: 2,
                ramp_duration: 64,
            },
        ],
    );
    payload.dynamic_objects = 1;
    payload.element.as_mut().unwrap().sample_offset = 8;

    let updates = metadata_updates(&payload, 1, 96_000).unwrap();
    assert_eq!(updates.len(), 2);
    assert_eq!(updates[0].sample_offset, 16);
    assert_eq!(updates[0].ramp_samples, 64);
    assert_eq!(updates[1].sample_offset, 144);
    assert_eq!(updates[1].ramp_samples, 128);
}

#[test]
fn isf_signals_precede_dynamic_objects_in_decoder_channel_order() {
    let mut payload = payload(vec![vec![info()]; 5], vec![instant()]);
    payload.isf_objects = 4;
    payload.dynamic_objects = 1;

    let updates = metadata_updates(&payload, 5, 48_000).unwrap();
    assert_eq!(updates.len(), 1);
    assert_eq!(
        updates[0]
            .isf
            .iter()
            .map(|state| state.source_channel)
            .collect::<Vec<_>>(),
        [0, 1, 2, 3]
    );
    assert_eq!(updates[0].objects[0].source_channel, 4);
    assert_eq!(
        updates[0].objects[0].trim.settings(8).mode,
        ObjectTrimMode::Default
    );
}

#[test]
fn bed_gain_and_custom_trim_reach_the_renderer() {
    let mut configurations = [None; 9];
    configurations[2] = Some(CodedTrim {
        use_default: false,
        disabled: false,
        center: Some((-6.0_f64).to_bits()),
        surround: Some((-3.0_f64).to_bits()),
        height: None,
        top_bottom: None,
        listener: Some((-0.5_f64).to_bits()),
    });
    let mut bed = info();
    bed.gain = -6;
    let mut flags = [false; 17];
    flags[2] = true;
    let mut payload = payload(vec![vec![bed]], vec![instant()]);
    payload.beds = vec![flags];
    payload.bed_objects = 1;
    payload.trim = Some(TrimElement {
        warp_mode: 1,
        global_mode: 2,
        per_object: false,
        disabled: Vec::new(),
        configurations,
    });

    let state = metadata_updates(&payload, 1, 48_000).unwrap()[0].objects[0];
    assert_eq!(state.bed_speaker, Some(Speaker::FrontCenter));
    assert_eq!(state.gain, Gain::Decibels { db: -6 });
    assert!(state.trim.warp_y);
    let trim = state.trim.settings(2);
    assert_eq!(trim.mode, ObjectTrimMode::Custom);
    assert!((value(trim.center_db) + 6.0).abs() < f64::EPSILON);
    assert!((value(trim.surround_db) + 3.0).abs() < f64::EPSILON);
    assert!((value(trim.listener_balance) + 0.5).abs() < f64::EPSILON);
    assert_eq!(state.trim.settings(1).mode, ObjectTrimMode::Default);
}

#[test]
fn screen_reference_distance_and_divergence_reach_the_render_state() {
    let mut object = info();
    object.follows_screen = true;
    object.screen_factor = 1.0_f64.to_bits();
    object.depth_factor = 1.0_f64.to_bits();
    object.distance_specified = true;
    object.distance_index = 7;
    object.snap = true;
    let mut payload = payload(vec![vec![object]], vec![instant()]);
    payload.dynamic_objects = 1;
    payload.positions = vec![vec![[
        (-1.0_f64).to_bits(),
        1.0_f64.to_bits(),
        1.0_f64.to_bits(),
    ]]];
    payload.divergence = vec![vec![Divergence {
        present: true,
        bits: 0.704_833_f64.to_bits(),
    }]];

    let object = metadata_updates(&payload, 1, 48_000).unwrap()[0].objects[0];
    assert_eq!(object.distance, Some(Distance::Tenths { value: 50 }));
    let anchor = object.screen.unwrap();
    assert_eq!(value(anchor.factor), 1.0);
    assert_eq!(value(anchor.depth), 1.0);
    let Placement::Room { point, .. } = object.position else {
        panic!("a moving object has no room position");
    };
    assert_eq!(
        [value(point.x), value(point.y), value(point.z)],
        [-1.0, 1.0, 1.0]
    );
    assert!((value(object.divergence) - 0.704_833).abs() < f64::EPSILON);
    assert!(!object.snap);
}

#[test]
fn beds_are_listed_by_their_flags() {
    let mut flags = [false; 17];
    flags[0] = true;
    flags[3] = true;
    flags[12] = true;
    let mut payload = payload(vec![vec![info()]; 3], vec![instant()]);
    payload.beds = vec![flags];
    payload.bed_objects = 3;
    let updates = metadata_updates(&payload, 3, 48_000).unwrap();
    assert_eq!(
        updates[0].bed_speakers,
        [Speaker::FrontLeft, Speaker::Lfe, Speaker::TopRearLeft]
    );
    payload.bed_objects = 2;
    assert_eq!(
        metadata_updates(&payload, 3, 48_000).unwrap_err().message(),
        "TrueHD metadata bed assignment contains 3 channels but declares 2"
    );
    assert_eq!(bed_index_to_speaker(16).unwrap(), Speaker::Lfe);
    assert!(bed_index_to_speaker(17).is_err());
    assert_eq!(
        channel_label_to_speaker(ChannelLabel::Lfe2),
        Speaker::Lfe
    );
    assert_eq!(scale_oamd_samples(1536, 96_000).unwrap(), 3072);
}

fn unit(channels: usize, labels: Vec<ChannelLabel>) -> DecodedUnit {
    let mut first = [0; 16];
    let mut second = [0; 16];
    for channel in 0..channels {
        first[channel] = channel as i32 + 1;
        second[channel] = -(channel as i32) - 1;
    }
    DecodedUnit {
        sampling_frequency: 48_000,
        sample_length: 2,
        channel_count: channels,
        pcm: vec![first, second],
        labels,
        payloads: Vec::new(),
    }
}

#[test]
fn units_become_interleaved_frames() {
    let frame = convert_frame(&unit(2, vec![ChannelLabel::L, ChannelLabel::R])).unwrap();
    assert_eq!(frame.samples, [1, 2, -1, -2]);
    assert_eq!(
        frame.channel_speakers,
        [Some(Speaker::FrontLeft), Some(Speaker::FrontRight)]
    );
    assert!(convert_frame(&unit(0, Vec::new())).is_err());
}

#[test]
fn broken_units_are_skipped_only_where_that_is_allowed() {
    let strict = StreamProgress::new(3, false);
    assert!(strict
        .decide(Arrival::BrokenUnit {
            cause: "noise".to_owned()
        })
        .is_err());
    let relaxed = StreamProgress::new(3, true);
    assert!(matches!(
        relaxed.decide(Arrival::BrokenUnit {
            cause: "noise".to_owned()
        }),
        Ok(Action::Skip)
    ));
    assert!(matches!(strict.decide(Arrival::Starved), Ok(Action::Read)));
    assert!(matches!(
        strict.decide(Arrival::Unit {
            unit: unit(2, vec![ChannelLabel::L, ChannelLabel::R])
        }),
        Ok(Action::Deliver { .. })
    ));
    assert!(strict.finish().is_err());
}

fn channel(speaker: Speaker) -> HrirChannel {
    HrirChannel {
        speaker,
        left: vec![1.0_f32.to_bits()],
        right: vec![1.0_f32.to_bits()],
    }
}

fn identity_hrir(speakers: &[Speaker]) -> HrirSet {
    HrirSet {
        sample_rate: 48_000,
        channels: speakers.iter().copied().map(channel).collect(),
        directional: Vec::new(),
    }
}

fn table(layout: IsfLayout) -> IsfTable {
    IsfTable {
        inputs: 4,
        layout,
        coefficients: vec![0; 4 * layout.speakers().len()],
    }
}

#[test]
fn selects_the_richest_exact_hrir_layout() {
    let hrir = identity_hrir(&IsfLayout::Seven.speakers());
    let tables = [table(IsfLayout::Two), table(IsfLayout::Seven)];
    let layout = select_layout(&hrir).unwrap();
    assert_eq!(layout.speakers(), IsfLayout::Seven.speakers());
    let place = find_table(&tables, 4, layout).unwrap();
    assert_eq!(tables[place].coefficients.len(), 4 * 7);
}

#[test]
fn rejects_reserved_isf_sizes() {
    assert!(IsfConfig::new(0, 6).is_err());
}

#[test]
fn nine_channel_height_layout_uses_standard_speaker_index_order() {
    let speakers = IsfLayout::NineFour.speakers();
    assert_eq!(speakers[7], Speaker::TopFrontLeft);
    assert_eq!(speakers[10], Speaker::TopRearRight);
    assert_eq!(speakers[11], Speaker::WideLeft);
}

#[test]
fn isf_rows_follow_the_channels() {
    let hrir = identity_hrir(&[Speaker::FrontLeft, Speaker::FrontRight]);
    let tables = [table(IsfLayout::Two)];
    let buses = [Speaker::FrontLeft, Speaker::FrontRight, Speaker::Lfe];
    let config = IsfConfig::new(3, 4).unwrap();
    let renderer =
        IsfRenderer::new(config, &hrir, &tables, &buses, false, false, false).unwrap();
    assert_eq!(
        renderer.row_plan(5, true).unwrap(),
        RowPlan::Row { start: 4 }
    );
    assert_eq!(renderer.row_plan(5, false).unwrap(), RowPlan::Silent);
    assert_eq!(
        renderer.row_plan(7, true).unwrap_err().message(),
        "channel 7 is outside the configured ISF range"
    );
    assert!(IsfRenderer::new(config, &hrir, &[], &buses, false, false, false).is_err());
    assert!(
        IsfRenderer::new(config, &hrir, &tables, &buses[..1], false, false, false).is_err()
    );
}

#[test]
fn speaker_zone_membership_tracks_the_render_layout() {
    assert!(!bus_permitted(
        Speaker::WideLeft,
        ObjectZone::NoSide,
        true,
        false,
    ));
    assert!(bus_permitted(
        Speaker::SideLeft,
        ObjectZone::NoSide,
        true,
        false,
    ));
    assert!(bus_permitted(
        Speaker::SideLeft,
        ObjectZone::NoBack,
        true,
        false,
    ));

    assert!(!bus_permitted(
        Speaker::SideLeft,
        ObjectZone::NoSide,
        true,
        true,
    ));
    assert!(bus_permitted(
        Speaker::SideLeft,
        ObjectZone::NoBack,
        true,
        true,
    ));
    assert!(bus_permitted(
        Speaker::RearLeft,
        ObjectZone::Surround,
        true,
        true,
    ));
}

fn panning_buses(speakers: &[Speaker]) -> Vec<PanningBus> {
    speakers
        .iter()
        .enumerate()
        .map(|(index, speaker)| PanningBus {
            index,
            speaker: *speaker,
            level: !speaker.is_height(),
            named: true,
        })
        .collect()
}

#[test]
fn zones_leave_something_to_pan_to() {
    let panner =
        SpatialPanner::new(panning_buses(&[Speaker::FrontLeft, Speaker::TopFrontLeft])).unwrap();
    assert_eq!(panner.plan(ObjectZone::All, true).places, [0, 1]);
    assert_eq!(panner.plan(ObjectZone::All, false).places, [0]);
    assert!(!panner.plan(ObjectZone::Surround, false).places.is_empty());
    assert!(SpatialPanner::new(Vec::new()).is_err());
    assert_eq!(trim_configuration(0, 0), 0);
    assert_eq!(trim_configuration(4, 4), 8);
    assert_eq!(direct_stereo_route(Speaker::SideLeft), DirectRoute::Left);
    assert_eq!(direct_stereo_route(Speaker::RearRight), DirectRoute::Right);
    for zone in [
        ObjectZone::All,
        ObjectZone::NoBack,
        ObjectZone::NoSide,
        ObjectZone::CentreAndBack,
        ObjectZone::Screen,
        ObjectZone::Surround,
    ] {
        assert!(!permitted_targets(zone, false).is_empty());
    }
}

fn zero() -> Scalar {
    Scalar::Ratio {
        numerator: 0,
        denominator: 1,
    }
}

fn object(source_channel: usize) -> ObjectState {
    let point = Point {
        x: Scalar::Ratio {
            numerator: 1,
            denominator: 1,
        },
        y: Scalar::Ratio {
            numerator: 1,
            denominator: 1,
        },
        z: zero(),
    };
    ObjectState {
        source_channel,
        active: true,
        bed_speaker: None,
        position: Placement::Room {
            point,
            authored: point,
        },
        screen: None,
        distance: None,
        gain: Gain::Decibels { db: 0 },
        size: Extent {
            width: zero(),
            depth: zero(),
            height: zero(),
        },
        snap: false,
        zone: ObjectZone::All,
        elevation: true,
        divergence: zero(),
        trim: ObjectTrim::default(),
    }
}

fn update(offset: usize, beds: Vec<Speaker>, objects: Vec<ObjectState>) -> SpatialUpdate {
    SpatialUpdate {
        sample_offset: offset,
        ramp_samples: 0,
        bed_speakers: beds,
        isf: Vec::new(),
        objects,
    }
}

fn options() -> ObjectRenderOptions {
    ObjectRenderOptions {
        surround_swap: false,
        mute_bed: false,
        mute_ground: false,
        speaker_virtualizer: false,
        object_renderer: ObjectRendererMode::Baseline,
        distance_renderer: DistanceRendererMode::Baseline,
    }
}

#[test]
fn bed_assignment_releases_channel_from_stale_object_routing() {
    let mut routing = ObjectRouting::new();
    let change = routing
        .apply_update(&update(0, Vec::new(), vec![object(0)]))
        .unwrap();
    assert_eq!(change.begins, [true]);
    assert!(routing.objects.contains(&0));
    assert!(routing.claimed.contains(&0));

    let change = routing
        .apply_update(&update(0, vec![Speaker::FrontLeft], Vec::new()))
        .unwrap();
    assert_eq!(change.retired, [0]);

    assert!(!routing.objects.contains(&0));
    assert!(!routing.claimed.contains(&0));
    assert_eq!(
        routing.role(0, Some(Speaker::FrontLeft), false),
        ChannelRole::Bed {
            speaker: Speaker::FrontLeft
        }
    );
    assert_eq!(
        routing.role(0, Some(Speaker::FrontLeft), true),
        ChannelRole::Nothing
    );
}

#[test]
fn isf_runs_take_their_channels_over() {
    let hrir = identity_hrir(&[Speaker::FrontLeft, Speaker::FrontRight]);
    let tables = [table(IsfLayout::Two)];
    let buses = [Speaker::FrontLeft, Speaker::FrontRight, Speaker::Lfe];
    let mut routing = ObjectRouting::new();
    routing
        .apply_update(&update(0, Vec::new(), vec![object(2), object(6)]))
        .unwrap();
    let signals = |source_channel: usize| SpatialUpdate {
        isf: vec![IsfState {
            source_channel,
            active: true,
            gain: Gain::Silent,
            trim: ObjectTrim::default(),
        }],
        ..update(0, Vec::new(), Vec::new())
    };
    assert_eq!(
        routing.apply_update(&signals(1)).err().unwrap().message(),
        "received ISF metadata before an ISF program assignment"
    );
    let config = IsfConfig::new(1, 4).unwrap();
    let too_far = routing.configure_isf(
        Some(IsfConfig::new(1, 8).unwrap()),
        7,
        &hrir,
        &tables,
        &buses,
        options(),
    );
    assert_eq!(
        too_far.unwrap_err().message(),
        "ISF channel range 1..9 exceeds 7 decoded channels"
    );
    let retired = routing
        .configure_isf(Some(config), 7, &hrir, &tables, &buses, options())
        .unwrap();
    assert_eq!(retired, [2]);
    assert_eq!(routing.role(2, None, false), ChannelRole::Isf);
    assert_eq!(routing.role(6, None, false), ChannelRole::Object);
    assert_eq!(routing.role(0, None, false), ChannelRole::Nothing);
    let change = routing.apply_update(&signals(3)).unwrap();
    assert_eq!(change.isf[0].plan, RowPlan::Row { start: 4 });
    assert!(routing.apply_update(&signals(5)).is_err());
    let other = routing.configure_isf(
        Some(IsfConfig::new(0, 4).unwrap()),
        7,
        &hrir,
        &tables,
        &buses,
        options(),
    );
    assert_eq!(
        other.unwrap_err().message(),
        "ISF configuration changes within the stream"
    );
    assert!(routing
        .configure_isf(None, 7, &hrir, &tables, &buses, options())
        .unwrap()
        .is_empty());
}

#[test]
fn updates_wait_for_their_sample() {
    let mut schedule = ObjectSchedule::new();
    schedule
        .schedule_at(
            0,
            vec![
                update(2, vec![Speaker::FrontLeft], Vec::new()),
                update(0, Vec::new(), Vec::new()),
                update(2, vec![Speaker::FrontRight], Vec::new()),
            ],
        )
        .unwrap();
    assert_eq!(schedule.take_due().len(), 1);
    schedule.advance().unwrap();
    assert!(schedule.take_due().is_empty());
    schedule.advance().unwrap();
    let due = schedule.take_due();
    assert_eq!(due[0].bed_speakers, [Speaker::FrontLeft]);
    assert_eq!(due[1].bed_speakers, [Speaker::FrontRight]);
    let error = schedule
        .schedule_at(u64::MAX, vec![update(1, Vec::new(), Vec::new())])
        .unwrap_err();
    assert_eq!(error.message(), "object metadata timeline overflowed");
    // What came before the time that cannot be counted waits behind the others.
    schedule.position = 0;
    schedule
        .schedule_at(8, vec![update(0, vec![Speaker::FrontCenter], Vec::new())])
        .unwrap();
    assert!(schedule
        .schedule_at(
            3,
            vec![
                update(1, vec![Speaker::SideLeft], Vec::new()),
                update(usize::MAX, Vec::new(), Vec::new()),
            ],
        )
        .is_err());
    assert_eq!(schedule.pending.len(), 2);
    assert_eq!((schedule.pending[0].at, schedule.pending[1].at), (8, 4));
    schedule.schedule_at(0, Vec::new()).unwrap();
    assert_eq!((schedule.pending[0].at, schedule.pending[1].at), (4, 8));
    schedule.position = u64::MAX;
    assert_eq!(
        schedule.advance().unwrap_err().message(),
        "object sample timeline overflowed"
    );
}

#[test]
fn frames_must_have_consistent_dimensions() {
    let mut known = None;
    validate_dimensions(&mut known, 48_000, 48_000, 2, 3, 6, 3).unwrap();
    assert_eq!(known, Some(48_000));
    let wording = |known: &mut Option<u32>, hrir, rate, samples, channels, held, speakers| {
        validate_dimensions(known, hrir, rate, samples, channels, held, speakers)
            .unwrap_err()
            .message()
    };
    assert_eq!(
        wording(&mut known, 48_000, 44_100, 2, 3, 6, 3),
        "object-audio sample rate 44100 does not match the prepared HRIR rate 48000"
    );
    assert_eq!(
        wording(&mut known, 44_100, 44_100, 2, 3, 6, 3),
        "object-audio sample rate changes within the stream"
    );
    known = None;
    assert_eq!(
        wording(&mut known, 48_000, 48_000, usize::MAX, 2, 6, 2),
        "object-audio PCM frame dimensions overflowed"
    );
    assert_eq!(
        wording(&mut known, 48_000, 48_000, 2, 3, 5, 3),
        "object-audio PCM frame has inconsistent dimensions"
    );
}

#[test]
fn beds_find_their_way() {
    let hrir = identity_hrir(&[Speaker::FrontLeft, Speaker::FrontRight, Speaker::SideLeft]);
    let buses = [
        Speaker::FrontLeft,
        Speaker::FrontRight,
        Speaker::SideLeft,
        Speaker::Lfe,
    ];
    let route = |speaker, options| route_bed(speaker, options, &hrir, &buses);
    assert_eq!(
        route(Speaker::FrontRight, options()).unwrap(),
        BedRoute::Bus { bus: 1 }
    );
    assert_eq!(
        route(Speaker::Lfe, options()).unwrap(),
        BedRoute::LowFrequency { bus: 3 }
    );
    let mut virtualizer = options();
    virtualizer.speaker_virtualizer = true;
    assert_eq!(
        route(Speaker::SideLeft, virtualizer).unwrap(),
        BedRoute::Direct {
            route: DirectRoute::Left
        }
    );
    let mut muted = options();
    muted.mute_ground = true;
    assert_eq!(route(Speaker::FrontLeft, muted).unwrap(), BedRoute::Muted);
    let mut swapped = options();
    swapped.surround_swap = true;
    assert_eq!(
        route(Speaker::RearLeft, swapped).unwrap(),
        BedRoute::Bus { bus: 2 }
    );
    assert_eq!(
        route_bed(Speaker::FrontLeft, options(), &hrir, &buses[1..])
            .unwrap_err()
            .message(),
        "missing virtual-speaker bus for FrontLeft"
    );
    assert_eq!(
        route_bed(Speaker::Lfe, options(), &hrir, &buses[..3])
            .unwrap_err()
            .message(),
        "missing calibrated binaural LFE bus"
    );
    let empty = identity_hrir(&[]);
    assert_eq!(
        route_bed(Speaker::FrontLeft, options(), &empty, &buses)
            .unwrap_err()
            .message(),
        "HRIR has no route for bed channel FrontLeft"
    );
}

#[test]
fn distance_is_told_by_images_only_where_it_is_known() {
    let mut far = object(0);
    far.distance = Some(Distance::Infinite);
    let mut image = options();
    image.distance_renderer = DistanceRendererMode::ImageSource;
    image.object_renderer = ObjectRendererMode::Continuous;
    let plan = ObjectPlan::new(&far, image, false);
    assert!(plan.image_distance && !plan.reflects && plan.continuous && plan.audible);
    let plan = ObjectPlan::new(&object(0), image, false);
    assert!(!plan.image_distance && plan.reflects);
    far.bed_speaker = Some(Speaker::Lfe);
    let plan = ObjectPlan::new(&far, image, true);
    assert!(!plan.image_distance && !plan.reflects && !plan.continuous);
    image.mute_ground = true;
    assert!(!ObjectPlan::new(&far, image, true).audible);
}

#[test]
fn a_ramp_arrives_after_its_frames() {
    let mut clock = RampClock::new();
    assert_eq!(clock.begin(0), RampStep::Arrive);
    assert_eq!(clock.advance(), RampStep::Idle);
    assert_eq!(clock.begin(130), RampStep::Segment { frames: 64 });
    let mut steps = Vec::new();
    loop {
        let step = clock.advance();
        steps.push(step);
        if step == RampStep::Arrive {
            break;
        }
    }
    assert_eq!(steps.len(), 130);
    assert_eq!(steps[63], RampStep::Segment { frames: 64 });
    assert_eq!(steps[127], RampStep::Segment { frames: 2 });
    assert_eq!(steps[0], RampStep::Move);
}

#[test]
fn tails_run_out() {
    let mut tail = TailClock::new(96_000, 100);
    assert_eq!(tail.longest, 196);
    assert!(!tail.observe(false));
    assert!(tail.observe(true));
    for _ in 0..196 {
        assert!(tail.observe(false));
    }
    assert!(!tail.observe(false));
    assert_eq!(TailClock::new(48_000, 100).longest, 164);

    let mut retired = Retirement::new();
    assert!(!retired.retire(0));
    assert!(retired.retire(2));
    assert!(retired.retire(1));
    assert_eq!(retired.tail_frames(), 2);
    assert_eq!(retired.advance(), [true, false]);
    assert_eq!(retired.remaining, [1]);
    assert_eq!(retired.advance(), [false]);
    assert_eq!(longest(&[3, 9, 4]), 9);
}

#[test]
fn muted_beds_and_grounds_do_not_sound() {
    let mut state = object(0);
    assert!(ObjectPlan::new(&state, options(), true).audible);
    let mut ground = options();
    ground.mute_ground = true;
    assert!(!ObjectPlan::new(&state, ground, true).audible);
    assert!(ObjectPlan::new(&state, ground, false).audible);
    state.bed_speaker = Some(Speaker::FrontLeft);
    let mut bed = options();
    bed.mute_bed = true;
    assert!(!ObjectPlan::new(&state, bed, false).audible);
    assert!(ObjectPlan::new(&state, options(), false).audible);
}

#[test]
fn zones_decide_on_buses_and_trim() {
    let panner = SpatialPanner::new(panning_buses(&[
        Speaker::FrontLeft,
        Speaker::FrontCenter,
        Speaker::FrontRight,
        Speaker::SideLeft,
        Speaker::SideRight,
    ]))
    .unwrap();
    let screen = panner.plan(ObjectZone::Screen, true);
    assert_eq!(screen.places, [0, 1, 2]);
    assert_eq!(screen.trim_configuration, 0);
    assert_ne!(panner.plan(ObjectZone::All, true).trim_configuration, 0);

    let panner = SpatialPanner::new(panning_buses(&[
        Speaker::FrontLeft,
        Speaker::FrontRight,
        Speaker::TopRearLeft,
        Speaker::TopRearRight,
    ]))
    .unwrap();
    assert_eq!(panner.plan(ObjectZone::All, false).places, [0, 1]);
    assert_eq!(panner.plan(ObjectZone::Screen, true).places, [0, 1, 2, 3]);
}

#[test]
fn channels_given_back_stay_so_behind_an_error() {
    let mut routing = ObjectRouting::new();
    routing
        .apply_update(&update(0, Vec::new(), vec![object(0), object(2)]))
        .unwrap();
    let broken = SpatialUpdate {
        isf: vec![IsfState {
            source_channel: 1,
            active: true,
            gain: Gain::Silent,
            trim: ObjectTrim::default(),
        }],
        ..update(0, vec![Speaker::FrontLeft], vec![object(5)])
    };
    assert!(routing.apply_update(&broken).is_err());
    assert!(!routing.objects.contains(&0) && !routing.claimed.contains(&0));
    assert!(routing.objects.contains(&2));
    assert!(!routing.objects.contains(&5));
}
