use surroundfold::eac3::{FrameReader, MetadataPayload};
use surroundfold::eac3_render::{
    check_stream, pcm_ended, AtmosFault, Eac3ObjectPipeline, ProgramFrame,
};
use surroundfold::error::{AppError, Reason};
use surroundfold::joc::{Branch, JocDecoder, JocFrame, JocTables};
use surroundfold::mux::Argument;
use surroundfold::oamd::OamdDecoder;
use surroundfold::object::{
    Distance, Gain, ObjectTrimMode, ObjectZone, Placement, Point, Scalar, SpatialUpdate,
};
use surroundfold::qmf::RECONSTRUCTION_DELAY;
use surroundfold::render::{decode_arguments, demux_arguments, truehd_arguments};
use surroundfold::speaker::Speaker;
use surroundfold::truehd_adapter::StreamProgress;

#[derive(Default)]
struct BitWriter {
    bytes: Vec<u8>,
    bit_len: usize,
}

impl BitWriter {
    fn write(&mut self, value: u64, count: usize) {
        for shift in (0..count).rev() {
            if self.bit_len % 8 == 0 {
                self.bytes.push(0);
            }
            if (value >> shift) & 1 != 0 {
                let offset = self.bit_len & 7;
                *self.bytes.last_mut().unwrap() |= 1 << (7 - offset);
            }
            self.bit_len += 1;
        }
    }

    /// Writes fields, each as a value and a width.
    fn fields(&mut self, list: &[(u64, usize)]) {
        for (value, width) in list {
            self.write(*value, *width);
        }
    }

    /// Writes an element: its number, its size and its own bits.
    fn element(&mut self, id: u64, content: &BitWriter) {
        self.write(id, 4);
        self.write(content.bytes.len() as u64 - 1, 4);
        self.write(0, 1);
        for byte in &content.bytes {
            self.write(u64::from(*byte), 8);
        }
    }

    fn payload(self, id: u32, sample_offset: Option<u16>) -> MetadataPayload {
        MetadataPayload {
            id,
            sample_offset,
            bit_len: self.bytes.len() * 8,
            data: self.bytes,
        }
    }
}

/// The low-frequency channel and one object that moves from one block to the
/// next.
fn object_element() -> BitWriter {
    let mut bits = BitWriter::default();
    bits.fields(&[(0, 1), (2, 2), (7, 5), (1, 3)]);
    bits.fields(&[(1, 6), (1, 2), (3, 6), (3, 2), (1, 1), (0, 4), (1, 1)]);
    // The low-frequency channel: full level, then the same again.
    bits.fields(&[(0, 1), (0, 2), (1, 1), (0, 1)]);
    bits.fields(&[(0, 1), (2, 2), (0, 1)]);
    // The object, all of it.
    bits.fields(&[(0, 1), (2, 2), (18, 6), (1, 1)]);
    bits.fields(&[(31, 6), (62, 6), (0, 1), (15, 4), (1, 1), (0, 1), (3, 4)]);
    bits.fields(&[(1, 3), (1, 1), (1, 2), (31, 5)]);
    bits.fields(&[(1, 1), (3, 3), (3, 2), (1, 1), (0, 1)]);
    // The object: the level of the channel before, and a step.
    bits.fields(&[(0, 1), (3, 2), (1, 2), (3, 2)]);
    bits.fields(&[(3, 2), (1, 4), (1, 1), (6, 3), (7, 3), (1, 3), (0, 1), (0, 1), (0, 1)]);
    bits
}

fn trim_element() -> BitWriter {
    let mut bits = BitWriter::default();
    bits.fields(&[(0, 1), (1, 2), (0, 2), (1, 2), (1, 1), (0, 1), (1, 1)]);
    bits
}

fn extended_element() -> BitWriter {
    let mut bits = BitWriter::default();
    bits.write(0, 1);
    bits.fields(&[(1, 1), (1, 1), (0, 2), (1, 2), (1, 1), (1, 2)]);
    bits.fields(&[(1, 1), (1, 1), (1, 3), (1, 2), (0, 1)]);
    bits
}

fn oamd_payload() -> MetadataPayload {
    let mut bits = BitWriter::default();
    bits.fields(&[(0, 2), (1, 5), (1, 1), (1, 1), (0, 1), (3, 4)]);
    bits.element(1, &object_element());
    bits.element(2, &trim_element());
    bits.element(5, &extended_element());
    bits.payload(11, Some(5))
}

fn value(scalar: Scalar) -> f64 {
    match scalar {
        Scalar::Ratio {
            numerator,
            denominator,
        } => f64::from(numerator) / f64::from(denominator),
        Scalar::Double { bits } => f64::from_bits(bits),
    }
}

fn near(scalar: Scalar, wanted: f64) -> bool {
    (value(scalar) - wanted).abs() < 1e-9
}

fn stands_at(point: Point, wanted: [f64; 3]) -> bool {
    near(point.x, wanted[0]) && near(point.y, wanted[1]) && near(point.z, wanted[2])
}

fn timing(update: &SpatialUpdate) -> (usize, usize) {
    (update.sample_offset, update.ramp_samples)
}

#[test]
fn a_whole_metadata_payload_is_decoded() {
    let mut decoder = OamdDecoder::new();
    let frame = decoder.decode(&oamd_payload()).unwrap();
    assert_eq!(frame.object_count, 2);
    assert_eq!(frame.joc_object_count, 1);
    assert_eq!(frame.dynamic_object_count, 1);
    assert_eq!(frame.bed_speakers, vec![Speaker::Lfe]);
    assert_eq!(frame.lfe_object_indices, vec![0]);
    assert!(frame.isf.is_none());
    assert_eq!(frame.updates.len(), 2);
    assert_eq!(timing(&frame.updates[0]), (5 + 7 + 32, 512));
    assert_eq!(timing(&frame.updates[1]), (5 + 7 + 96, 32));
    for update in &frame.updates {
        assert_eq!(update.bed_speakers, vec![Speaker::Lfe]);
        assert_eq!(update.objects.len(), 2);
        let bed = &update.objects[0];
        assert_eq!(bed.source_channel, 1);
        assert_eq!(bed.bed_speaker, Some(Speaker::Lfe));
        assert_eq!(bed.gain, Gain::Decibels { db: 0 });
        assert!(matches!(
            bed.position,
            Placement::Speaker {
                speaker: Speaker::Lfe
            }
        ));
        assert!(!bed.trim.disabled);
        assert!(bed.trim.warp_y);
        assert_eq!(bed.trim.settings(0).mode, ObjectTrimMode::Disabled);
        assert!(update.objects[1].trim.disabled);
    }
    let first = &frame.updates[0].objects[1];
    assert_eq!(first.source_channel, 0);
    assert_eq!(first.bed_speaker, None);
    assert_eq!(first.gain, Gain::Decibels { db: -4 });
    assert_eq!(first.distance, Some(Distance::Tenths { value: 20 }));
    assert_eq!(first.zone, ObjectZone::NoBack);
    assert!(first.elevation);
    assert!(!first.snap, "an object on the screen does not snap");
    assert!(near(first.size.width, 1.0) && near(first.size.height, 1.0));
    let anchor = first.screen.unwrap();
    assert!(near(anchor.factor, 0.5) && near(anchor.depth, 2.0));
    assert!(near(first.divergence, 0.608_529));
    match first.position {
        Placement::Room { point, authored } => {
            assert!(stands_at(point, [2.0 * 2.0 / 310.0, -1.0, -1.0]));
            assert!(stands_at(authored, [0.0, -1.0, -1.0]));
        }
        Placement::Speaker { .. } => panic!("a dynamic object has no speaker"),
    }
    let second = &frame.updates[1].objects[1];
    assert_eq!(second.gain, Gain::Decibels { db: 0 });
    assert_eq!(second.distance, None);
    assert!(near(second.divergence, 0.608_529));
    match second.position {
        Placement::Room { point, .. } => assert!(stands_at(
            point,
            [
                2.0 * 29.0 / 62.0 - 1.0,
                1.0 - 2.0 * 61.0 / 62.0,
                -14.0 / 15.0
            ]
        )),
        Placement::Speaker { .. } => panic!("a dynamic object has no speaker"),
    }
}

#[test]
fn a_refused_payload_keeps_what_was_read_of_its_objects() {
    let mut decoder = OamdDecoder::new();
    let mut broken = oamd_payload();
    broken.bit_len -= 8;
    let error = decoder.decode(&broken).unwrap_err();
    assert_eq!(
        error.message(),
        "invalid OAMD metadata: OAMD element extends past its payload"
    );
    assert_eq!(decoder.properties.len(), 2);
    let object = decoder.properties[1];
    assert_eq!(object.gain, Gain::Decibels { db: 0 });
    assert_eq!(
        (object.position.x, object.position.y, object.position.z),
        (145, 305, -70)
    );
    assert_eq!(object.divergence, 0);

    // Where the program itself cannot be read, nothing changes.
    broken.bit_len = 9;
    assert!(decoder.decode(&broken).is_err());
    assert_eq!(decoder.properties[1], object);
    // Once it is known, there are properties of its objects.
    let mut other = OamdDecoder::new();
    broken.bit_len = 12;
    assert!(other.decode(&broken).is_err());
    assert_eq!(other.properties.len(), 2);
}

/// Trees whose codes are 0, 10 and 11.
fn tables() -> JocTables {
    let tree = vec![Branch { zero: -1, one: 1 }, Branch { zero: -2, one: -3 }];
    JocTables {
        coarse_generic: tree.clone(),
        coarse_sparse: tree.clone(),
        fine_generic: tree.clone(),
        fine_sparse: tree.clone(),
        five_channel_index: tree.clone(),
        seven_channel_index: tree,
    }
}

fn joc_lead(objects: u64, sequence: u64) -> BitWriter {
    let mut bits = BitWriter::default();
    bits.fields(&[(0, 3), (objects - 1, 6), (0, 3), (5, 3), (8, 5), (sequence, 10)]);
    bits
}

/// One object with one band for each of five channels.
fn dense_payload(sequence: u64, codes: &[(u64, usize)]) -> MetadataPayload {
    let mut bits = joc_lead(1, sequence);
    bits.fields(&[(1, 1), (0, 3), (0, 1), (0, 1), (0, 1), (0, 1)]);
    bits.fields(codes);
    bits.payload(14, None)
}

/// A matrix value in coarse steps.
fn steps(frame: &JocFrame, timeslot: usize, channel: usize) -> f64 {
    let coefficient = frame.coefficient(0, timeslot, channel, 63).unwrap();
    f64::from(coefficient.numerator) / f64::from(coefficient.denominator) / 2.0
}

#[test]
fn matrices_move_smoothly_from_frame_to_frame() {
    let mut decoder = JocDecoder::new();
    let first = decoder
        .decode(
            &dense_payload(5, &[(0, 1), (2, 2), (3, 2), (0, 1), (0, 1)]),
            1536,
            &tables(),
        )
        .unwrap();
    assert!(first.splice);
    assert_eq!(first.sequence, 5);
    assert_eq!((first.clip_gain.power, first.clip_gain.fraction), (5, 8));
    assert!((steps(&first, 0, 1) - 1.0 / 24.0).abs() < 1e-12);
    assert!((steps(&first, 11, 2) - 1.0).abs() < 1e-12);
    assert!((steps(&first, 23, 1) - 1.0).abs() < 1e-12);
    assert!((steps(&first, 23, 2) - 2.0).abs() < 1e-12);
    assert_eq!(first.coefficient(0, 23, 0, 0).unwrap().numerator, 0);

    let second = decoder
        .decode(
            &dense_payload(6, &[(0, 1), (0, 1), (3, 2), (0, 1), (0, 1)]),
            1536,
            &tables(),
        )
        .unwrap();
    assert!(!second.splice);
    assert!((steps(&second, 11, 1) - 0.5).abs() < 1e-12);
    assert!((steps(&second, 0, 2) - 2.0).abs() < 1e-12);
    assert!(steps(&second, 23, 1).abs() < 1e-12);

    let third = decoder
        .decode(
            &dense_payload(9, &[(0, 1), (0, 1), (3, 2), (0, 1), (0, 1)]),
            1536,
            &tables(),
        )
        .unwrap();
    assert!(third.splice, "a frame is missing");
    assert!((steps(&third, 11, 2) - 1.0).abs() < 1e-12);
}

#[test]
fn sparse_matrices_may_change_in_steps() {
    let mut bits = joc_lead(1, 0);
    bits.fields(&[(1, 1), (0, 3), (1, 1), (0, 1), (1, 1), (0, 1), (3, 5)]);
    bits.fields(&[(3, 3), (3, 2)]);
    let frame = JocDecoder::new()
        .decode(&bits.payload(14, None), 1536, &tables())
        .unwrap();
    assert!(steps(&frame, 3, 3).abs() < 1e-12);
    assert!((steps(&frame, 4, 3) - 4.0).abs() < 1e-12);
    assert!((steps(&frame, 4, 0) - 2.0).abs() < 1e-12);

    let mut bits = joc_lead(1, 0);
    bits.fields(&[(1, 1), (0, 3), (1, 1), (0, 1), (1, 1), (0, 1), (3, 5)]);
    bits.fields(&[(5, 3), (0, 1)]);
    let error = JocDecoder::new()
        .decode(&bits.payload(14, None), 1536, &tables())
        .unwrap_err();
    assert_eq!(
        error.message(),
        "invalid JOC metadata: sparse JOC channel 5 exceeds the 5-channel downmix"
    );
}

fn program(payloads: Vec<MetadataPayload>) -> ProgramFrame {
    let mut bits = BitWriter::default();
    bits.fields(&[
        (0x0b77, 16),
        (0, 2),
        (0, 3),
        (7, 11),
        (0, 2),
        (3, 2),
        (7, 3),
        (0, 1),
        (11, 5),
    ]);
    bits.bytes.resize(16, 0);
    let frame = FrameReader::new(&bits.bytes).next_frame().unwrap().unwrap();
    ProgramFrame {
        header: frame.header,
        sample_start: frame.sample_start,
        payloads,
    }
}

fn side_layout() -> Vec<Speaker> {
    vec![
        Speaker::FrontLeft,
        Speaker::FrontRight,
        Speaker::FrontCenter,
        Speaker::Lfe,
        Speaker::SideLeft,
        Speaker::SideRight,
    ]
}

fn quiet_joc(sequence: u64) -> MetadataPayload {
    dense_payload(sequence, &[(0, 1), (0, 1), (0, 1), (0, 1), (0, 1)])
}

/// Samples that tell their frame and channel.
fn sample(frame: usize, channel: usize) -> f32 {
    frame as f32 + channel as f32 / 8.0
}

fn pcm() -> Vec<u8> {
    (0..1536)
        .flat_map(|frame| (0..6).map(move |channel| sample(frame, channel)))
        .flat_map(|value| value.to_le_bytes())
        .collect()
}

#[test]
fn a_stream_is_aligned_and_emitted_to_its_end() {
    let mut pipeline = Eac3ObjectPipeline::new(48_000, side_layout());
    let prepared = pipeline
        .prepare(&program(vec![oamd_payload(), quiet_joc(1)]), &tables())
        .unwrap();
    assert_eq!(prepared.sample_start, 0);
    assert_eq!(prepared.sample_count, 1536);
    assert_eq!(prepared.pcm_bytes, 1536 * 6 * 4);
    assert_eq!(prepared.oamd.updates.len(), 2);

    let channels = pipeline.take_pcm(&prepared, &pcm()).unwrap();
    let places = [0, 1, 2, 4, 5];
    assert_eq!(channels.len(), 5);
    for (channel, place) in channels.iter().zip(places) {
        assert_eq!(channel.len(), 1536);
        assert_eq!(f32::from_bits(channel[7]), sample(7, place));
    }

    let object = (0..1536_u32).collect::<Vec<_>>();
    let block = pipeline.emit(&vec![object.clone()]).unwrap().unwrap();
    assert_eq!(block.frames, 1536 - RECONSTRUCTION_DELAY);
    assert_eq!(block.channels, 2);
    assert_eq!(block.speakers, vec![None, Some(Speaker::Lfe)]);
    assert_eq!(block.samples[0], 577);
    assert_eq!(f32::from_bits(block.samples[1]), sample(0, 3));
    assert_eq!(f32::from_bits(block.samples[3]), sample(1, 3));
    pipeline.remember(prepared.joc);

    let held = pipeline.flush_frame().unwrap().unwrap();
    assert_eq!(held.timeslots, 24);
    assert_eq!(held.object_count, 1);
    let rest = pipeline.emit(&vec![object]).unwrap().unwrap();
    assert_eq!(rest.frames, RECONSTRUCTION_DELAY);
    assert_eq!(rest.samples[0], 0);
    assert_eq!(
        f32::from_bits(rest.samples[2 * RECONSTRUCTION_DELAY - 1]),
        sample(1535, 3)
    );
    assert!(pipeline.flush_frame().unwrap().is_none());
    assert!(pipeline.check_end(false).is_ok());
    assert!(matches!(
        pipeline.check_end(true),
        Err(AppError::Render(Reason::Atmos(AtmosFault::ExtraPcm)))
    ));
}

#[test]
fn broken_programs_are_refused() {
    let fault = |payloads: Vec<MetadataPayload>| {
        let mut pipeline = Eac3ObjectPipeline::new(48_000, side_layout());
        match pipeline.prepare(&program(payloads), &tables()) {
            Ok(_) => panic!("the program is broken"),
            Err(error) => error.message(),
        }
    };
    assert!(fault(vec![quiet_joc(1)]).ends_with("E-AC-3 Atmos frame has no OAMD payload"));
    assert!(fault(vec![oamd_payload()]).ends_with("E-AC-3 Atmos frame has no JOC payload"));
    let mut two = joc_lead(2, 1);
    two.fields(&[(0, 1), (0, 1)]);
    assert!(fault(vec![oamd_payload(), two.payload(14, None)])
        .ends_with("OAMD describes 1 JOC essences, JOC reconstructs 2"));

    let mut other = Eac3ObjectPipeline::new(44_100, side_layout());
    let error = other
        .prepare(&program(vec![oamd_payload(), quiet_joc(1)]), &tables())
        .err()
        .unwrap();
    assert!(matches!(
        error,
        AppError::UnsupportedInput(Reason::Atmos(AtmosFault::FrameRate {
            rate: 48_000,
            hrir: 44_100
        }))
    ));
}

#[test]
fn broken_samples_are_refused() {
    let mut pipeline = Eac3ObjectPipeline::new(48_000, side_layout());
    let prepared = pipeline
        .prepare(&program(vec![oamd_payload(), quiet_joc(1)]), &tables())
        .unwrap();
    let mut bytes = pcm();
    bytes[..4].copy_from_slice(&f32::NAN.to_le_bytes());
    assert!(matches!(
        pipeline.take_pcm(&prepared, &bytes),
        Err(AppError::Render(Reason::Atmos(AtmosFault::NonFinite)))
    ));
    assert!(matches!(
        pcm_ended(),
        AppError::Render(Reason::Atmos(AtmosFault::PcmEnded))
    ));

    let mut layout = side_layout();
    layout.retain(|speaker| *speaker != Speaker::Lfe);
    let mut pipeline = Eac3ObjectPipeline::new(48_000, layout);
    let prepared = pipeline
        .prepare(&program(vec![oamd_payload(), quiet_joc(1)]), &tables())
        .unwrap();
    assert!(matches!(
        pipeline.take_pcm(&prepared, &vec![0; 1536 * 5 * 4]),
        Err(AppError::Render(Reason::Atmos(AtmosFault::LfeDisagreement)))
    ));
}

#[test]
fn object_streams_must_match_their_profile() {
    assert_eq!(check_stream(Some(6), Some(48_000), 48_000).unwrap(), 6);
    assert_eq!(
        check_stream(None, Some(48_000), 48_000).unwrap_err().message(),
        "selected E-AC-3 stream has no channel count"
    );
    assert!(check_stream(Some(6), None, 48_000)
        .unwrap_err()
        .message()
        .contains("DD+/Atmos sample rate unknown does not match HRIR sample rate 48000"));
    assert!(check_stream(Some(6), Some(44_100), 48_000)
        .unwrap_err()
        .message()
        .contains("DD+/Atmos sample rate 44100 does not match HRIR sample rate 48000"));
}

fn spelled(arguments: &[Argument]) -> Vec<String> {
    arguments
        .iter()
        .map(|argument| match argument {
            Argument::Text(text) => text.clone(),
            Argument::Source => "<in>".to_owned(),
            Argument::Track { index } => format!("<track {index}>"),
            Argument::Destination => "<out>".to_owned(),
        })
        .collect()
}

#[test]
fn decoders_are_called_with_their_stream() {
    assert_eq!(
        spelled(&decode_arguments(2, 48_000)).join(" "),
        "-nostdin -hide_banner -loglevel error -i <in> -map 0:2 -vn -sn -dn \
         -ar 48000 -c:a pcm_f32le -f f32le -y <out>"
    );
    assert_eq!(
        spelled(&demux_arguments(0, "eac3")).join(" "),
        "-nostdin -hide_banner -loglevel error -i <in> -map 0:0 -vn -sn -dn \
         -c:a copy -f eac3 -y <out>"
    );
    assert_eq!(
        spelled(&truehd_arguments(11)).join(" "),
        "-nostdin -hide_banner -loglevel error -i <in> -map 0:11 -vn -sn -dn \
         -c:a copy -f truehd pipe:1"
    );
}

#[test]
fn a_decoded_stream_must_bring_frames() {
    let mut progress = StreamProgress::new(3, false);
    assert_eq!(
        progress.finish().unwrap_err().message(),
        "embedded TrueHD decoder produced no audio frames"
    );
    progress.count_frame().unwrap();
    assert_eq!(progress.frames, 1);
    assert!(progress.finish().is_ok());
}

#[test]
fn a_failed_matrix_payload_leaves_no_trace() {
    let codes = [(2, 2), (0, 1), (0, 1), (0, 1), (0, 1)];
    let mut decoder = JocDecoder::new();
    decoder.decode(&dense_payload(5, &codes), 1536, &tables()).unwrap();
    let mut copy = decoder.clone();
    let mut short = dense_payload(6, &codes);
    short.bit_len = 40;
    assert!(decoder.decode(&short, 1536, &tables()).is_err());
    assert!(decoder.decode(&dense_payload(6, &codes), 1000, &tables()).is_err());
    let first = decoder.decode(&dense_payload(6, &codes), 1536, &tables()).unwrap();
    let second = copy.decode(&dense_payload(6, &codes), 1536, &tables()).unwrap();
    assert!(!first.splice);
    assert_eq!(first.splice, second.splice);
    assert_eq!(first.coefficients, second.coefficients);
}
