use surroundfold::bits::BitReader;
use surroundfold::eac3::{
    extract_emdf_payloads, FrameReader, MetadataPayload, StreamType, SyncFrameHeader,
};
use surroundfold::eac3_render::{
    exactly_one_payload, joc_channel_indices, Alignment, AtmosFault, Eac3ObjectPipeline,
    ProgramAssembler, StreamShape,
};
use surroundfold::error::{AppError, Reason};
use surroundfold::isf::IsfConfig;
use surroundfold::joc::{
    huffman_decode, subband_to_parameter_band, Branch, DownmixConfiguration, JocDecoder, JocTables,
    QMF_SUBBANDS,
};
use surroundfold::oamd::{
    append_nonstandard_bed, append_standard_bed, read_basic_info, read_divergence, read_render_info,
    read_trim_element, OamdDecoder, ObjectProperties, ProgramAssignment, RoomPosition,
};
use surroundfold::object::{Distance, Gain, ObjectTrimMode, ObjectZone, Scalar};
use surroundfold::qmf::{check_input, FilterCounts, RECONSTRUCTION_DELAY};
use surroundfold::render::deinterleave;
use surroundfold::speaker::Speaker;

#[derive(Default)]
struct BitWriter {
    bytes: Vec<u8>,
    bit_len: usize,
}

impl BitWriter {
    fn write(&mut self, value: u64, count: usize) {
        for shift in (0..count).rev() {
            if self.bit_len % 8 == 0 {
                self.bytes.push(0);
            }
            if (value >> shift) & 1 != 0 {
                let offset = self.bit_len & 7;
                *self.bytes.last_mut().unwrap() |= 1 << (7 - offset);
            }
            self.bit_len += 1;
        }
    }
}

fn make_sync_frame(
    stream_type: u8,
    substream: u8,
    blocks_code: u8,
    channel_mode: u8,
    lfe: bool,
    bitstream_id: u8,
) -> Vec<u8> {
    let mut bits = BitWriter::default();
    bits.write(0x0b77, 16);
    bits.write(u64::from(stream_type), 2);
    bits.write(u64::from(substream), 3);
    bits.write(7, 11);
    bits.write(0, 2);
    bits.write(u64::from(blocks_code), 2);
    bits.write(u64::from(channel_mode), 3);
    bits.write(u64::from(lfe), 1);
    bits.write(u64::from(bitstream_id), 5);
    bits.bytes.resize(16, 0);
    bits.bytes
}

fn make_emdf(payload: &MetadataPayload) -> Vec<u8> {
    let mut body = BitWriter::default();
    body.write(0, 2);
    body.write(0, 3);
    body.write(u64::from(payload.id), 5);
    body.write(1, 1);
    body.write(u64::from(payload.sample_offset.unwrap()) << 1, 12);
    body.write(0, 1);
    body.write(0, 1);
    body.write(0, 1);
    body.write(1, 1);
    body.write(payload.data.len() as u64, 8);
    body.write(0, 1);
    for byte in &payload.data {
        body.write(u64::from(*byte), 8);
    }
    body.write(0, 5);
    while body.bit_len % 8 != 0 {
        body.write(0, 1);
    }

    let mut result = BitWriter::default();
    result.write(0x5838, 16);
    result.write(body.bytes.len() as u64, 16);
    for byte in body.bytes {
        result.write(u64::from(byte), 8);
    }
    result.bytes
}

fn copy_unaligned(source: &[u8], target: &mut [u8], start: usize) {
    for bit in 0..source.len() * 8 {
        if source[bit >> 3] & (1 << (7 - (bit & 7))) != 0 {
            let target_bit = start + bit;
            target[target_bit >> 3] |= 1 << (7 - (target_bit & 7));
        }
    }
}

#[test]
fn parses_full_rate_header() {
    let frame = make_sync_frame(0, 0, 3, 7, false, 11);
    let header = SyncFrameHeader::parse(&frame).unwrap();
    assert_eq!(header.stream_type, StreamType::Independent);
    assert_eq!(header.frame_bytes, 16);
    assert_eq!(header.sample_rate, 48_000);
    assert_eq!(header.blocks, 6);
    assert_eq!(header.channel_mode, 7);
    assert!(!header.lfe);
}

#[test]
fn frame_reader_tracks_primary_program_samples() {
    let first = make_sync_frame(0, 0, 3, 7, false, 11);
    let dependent = make_sync_frame(1, 0, 3, 7, false, 11);
    let second = make_sync_frame(0, 0, 1, 7, false, 11);
    let bytes = [first, dependent, second].concat();
    let mut reader = FrameReader::new(&bytes);
    let first = reader.next_frame().unwrap().unwrap();
    let dependent = reader.next_frame().unwrap().unwrap();
    let second = reader.next_frame().unwrap().unwrap();
    assert_eq!(first.sample_start, 0);
    assert_eq!(dependent.sample_start, 0);
    assert_eq!(second.sample_start, 1536);
    assert_eq!(second.header.sample_count(), 512);
    assert!(reader.next_frame().unwrap().is_none());
}

#[test]
fn truncated_sync_frame_is_rejected_without_partial_output() {
    let frame = make_sync_frame(0, 0, 3, 7, true, 11);
    for length in 1..frame.len() {
        let mut reader = FrameReader::new(&frame[..length]);
        assert!(
            reader.next_frame().is_err(),
            "accepted frame truncated to {length} bytes"
        );
    }
}

#[test]
fn extracts_unaligned_emdf_payload() {
    let payload = MetadataPayload {
        id: 11,
        sample_offset: Some(37),
        data: vec![0xa5],
        bit_len: 8,
    };
    let emdf = make_emdf(&payload);
    let mut frame = vec![0_u8; 4 + emdf.len()];
    copy_unaligned(&emdf, &mut frame, 3);
    let decoded = extract_emdf_payloads(&frame);
    assert_eq!(decoded, [payload]);
}

#[test]
fn variable_length_integer_matches_emdf_rule() {
    // 0b00111 = chunk 3 + extension, then 0b0100 = chunk 2 + stop:
    // ((3 + 1) << 3) + 2 = 34.
    let mut bits = BitReader::with_limit(&[0b0111_0100], 8);
    assert_eq!(bits.variable(3, None).unwrap(), 34);
}

#[test]
fn headers_of_other_codecs_are_refused() {
    let frame = make_sync_frame(0, 0, 3, 7, false, 8);
    let error = SyncFrameHeader::parse(&frame).unwrap_err();
    assert_eq!(error.exit_code(), 6);
    assert!(error
        .message()
        .contains("sync frame is not E-AC-3 (bitstream ID 8)"));
    let mut noise = make_sync_frame(0, 0, 3, 7, false, 11);
    noise[0] = 0;
    assert!(SyncFrameHeader::parse(&noise).is_err());
    let reserved = make_sync_frame(3, 0, 3, 7, false, 11);
    assert!(SyncFrameHeader::parse(&reserved).is_err());
}

#[test]
fn bits_come_most_significant_first() {
    let mut bits = BitReader::new(&[0b1010_0101, 0xff]);
    assert!(bits.read_bit().unwrap());
    assert_eq!(bits.read(3).unwrap(), 0b010);
    assert_eq!(bits.position(), 4);
    assert_eq!(bits.read_u8(4).unwrap(), 0b0101);
    assert_eq!(bits.read_signed(4).unwrap(), -1);
    assert_eq!(bits.remaining(), 4);
    assert!(bits.read(5).is_err());
    bits.skip(4).unwrap();
    assert!(bits.skip(1).is_err());
}

#[test]
fn limits_and_positions_stay_in_range() {
    let bytes = [0_u8; 4];
    let mut bits = BitReader::at(&bytes, 8);
    assert_eq!(bits.position(), 8);
    bits.set_limit(16).unwrap();
    assert_eq!(bits.remaining(), 8);
    assert!(bits.set_limit(33).is_err());
    assert!(bits.set_position(17).is_err());
    bits.set_position(16).unwrap();
    assert!(bits.read_bit().is_err());
    assert!(bits.read_u16(17).is_err());
}

#[test]
fn ffmpeg_side_layout_maps_to_joc_order_without_lfe() {
    let speakers = [
        Speaker::FrontLeft,
        Speaker::FrontRight,
        Speaker::FrontCenter,
        Speaker::Lfe,
        Speaker::SideLeft,
        Speaker::SideRight,
    ];
    assert_eq!(
        joc_channel_indices(DownmixConfiguration::FiveChannel, &speakers).unwrap(),
        [0, 1, 2, 4, 5]
    );
}

#[test]
fn missing_and_shared_channels_are_named() {
    let stereo = [Speaker::FrontLeft, Speaker::FrontRight];
    let error = joc_channel_indices(DownmixConfiguration::FiveChannel, &stereo).unwrap_err();
    assert_eq!(
        error.message(),
        "decoded E-AC-3 layout is missing JOC channel SideLeft/RearLeft"
    );
    let surround = [
        Speaker::FrontLeft,
        Speaker::FrontRight,
        Speaker::FrontCenter,
        Speaker::SideLeft,
        Speaker::SideRight,
    ];
    assert!(joc_channel_indices(DownmixConfiguration::SevenChannel, &surround).is_err());
}

#[test]
fn deinterleave_preserves_frame_and_channel_order() {
    let bits = |value: f32| value.to_bits();
    let samples = [1.0, 2.0, 3.0, 4.0, 5.0, 6.0].map(bits);
    assert_eq!(
        deinterleave(&samples, 3),
        [
            vec![bits(1.0), bits(4.0)],
            vec![bits(2.0), bits(5.0)],
            vec![bits(3.0), bits(6.0)],
        ]
    );
}

fn independent(substream: u8) -> surroundfold::eac3::Eac3Frame {
    let bytes = make_sync_frame(0, substream, 3, 7, false, 11);
    FrameReader::new(&bytes).next_frame().unwrap().unwrap()
}

fn dependent() -> surroundfold::eac3::Eac3Frame {
    let bytes = [
        make_sync_frame(0, 0, 3, 7, false, 11),
        make_sync_frame(1, 0, 3, 7, false, 11),
    ]
    .concat();
    let mut reader = FrameReader::new(&bytes);
    reader.next_frame().unwrap();
    reader.next_frame().unwrap().unwrap()
}

#[test]
fn programs_end_where_the_next_begins() {
    let mut assembler = ProgramAssembler::new();
    assert!(assembler.accept(independent(0)).unwrap().is_none());
    assert!(assembler.accept(dependent()).unwrap().is_none());
    let first = assembler.accept(independent(0)).unwrap().unwrap();
    assert_eq!(first.sample_start, 0);
    assert_eq!(first.header.sample_count(), 1536);
    assert!(assembler.finish().is_some());
}

#[test]
fn a_program_cannot_start_with_a_dependent_frame() {
    let mut assembler = ProgramAssembler::new();
    let error = assembler.accept(dependent()).err().unwrap();
    assert!(matches!(
        error,
        AppError::UnsupportedInput(Reason::Atmos(AtmosFault::StartsDependent))
            | AppError::Render(Reason::Atmos(AtmosFault::StartsDependent))
    ));
}

#[test]
fn exactly_one_payload_of_a_kind_is_wanted() {
    let payload = |id: u32| MetadataPayload {
        id,
        sample_offset: None,
        data: Vec::new(),
        bit_len: 0,
    };
    let list = [payload(11), payload(14), payload(11)];
    assert_eq!(
        exactly_one_payload(&list, 14, AtmosFault::NoJoc, AtmosFault::MultipleJoc).unwrap(),
        1
    );
    assert!(exactly_one_payload(&list, 12, AtmosFault::NoOamd, AtmosFault::MultipleOamd).is_err());
    assert!(exactly_one_payload(&list, 11, AtmosFault::NoOamd, AtmosFault::MultipleOamd).is_err());
}

#[test]
fn the_shape_of_a_stream_must_not_change() {
    let mut shape = StreamShape {
        objects: None,
        isf: None,
        lfe: None,
    };
    shape.agree(12, None, true).unwrap();
    shape.agree(12, None, true).unwrap();
    assert!(shape.agree(13, None, true).is_err());
    assert_eq!(shape.objects, Some(13));
    assert!(shape.agree(12, None, true).is_err());
    assert!(shape
        .agree(12, Some(IsfConfig::new(1, 4).unwrap()), true)
        .is_err());
    assert_eq!(shape.isf, Some(None));
    assert!(shape.agree(12, None, false).is_err());
    assert_eq!(shape.lfe, Some(false));
}

#[test]
fn the_reconstruction_delay_is_dropped_once() {
    let mut alignment = Alignment::new();
    assert_eq!(alignment.delay_remaining, RECONSTRUCTION_DELAY);
    alignment.source_samples = 1536;
    let objects = vec![vec![1_u32; 1536], vec![2_u32; 1536]];
    let block = alignment.emit_aligned(&objects, false).unwrap().unwrap();
    assert_eq!(block.frames, 1536 - 577);
    assert_eq!(block.channels, 2);
    assert_eq!(block.samples[..4], [1, 2, 1, 2]);
    let rest = alignment.emit_aligned(&objects, false).unwrap().unwrap();
    assert_eq!(rest.frames, 577);
    assert!(alignment.emit_aligned(&objects, false).unwrap().is_none());
}

#[test]
fn a_pipeline_without_frames_is_refused() {
    let pipeline = Eac3ObjectPipeline::new(48_000, vec![Speaker::FrontLeft, Speaker::FrontRight]);
    assert!(pipeline
        .flush_frame()
        .err()
        .unwrap()
        .message()
        .contains("E-AC-3 stream contains no complete Atmos frames"));
    assert!(pipeline.check_end(false).is_ok());
    assert!(pipeline.check_end(true).is_err());
}

#[test]
fn parameter_band_mapping_matches_standard_example() {
    let counts = [1, 3, 5, 7, 9, 12, 15, 23];
    let band_index = counts.iter().position(|count| *count == 15).unwrap();
    assert_eq!(subband_to_parameter_band(band_index, 24), 13);
    assert_eq!(subband_to_parameter_band(0, 63), 0);
    assert_eq!(subband_to_parameter_band(7, 48), 22);
}

#[test]
fn normative_huffman_trees_decode_root_leaves() {
    // The roots of the coarse generic and the fine sparse tree.
    let coarse_generic = [Branch { zero: -1, one: 1 }];
    let fine_sparse = [Branch { zero: 1, one: -1 }];
    let mut zero = BitReader::new(&[0]);
    assert_eq!(huffman_decode(&mut zero, &coarse_generic).unwrap(), 0);
    let mut one = BitReader::new(&[0b1000_0000]);
    assert_eq!(huffman_decode(&mut one, &fine_sparse).unwrap(), 0);
}

#[test]
fn broken_code_trees_are_refused() {
    let endless = [Branch { zero: 1, one: 1 }, Branch { zero: 1, one: 1 }];
    assert!(huffman_decode(&mut BitReader::new(&[0, 0]), &endless).is_err());
    let dangling = [Branch { zero: 5, one: -1 }];
    assert!(huffman_decode(&mut BitReader::new(&[0]), &dangling).is_err());
    let two = [Branch { zero: 1, one: -1 }, Branch { zero: -3, one: -2 }];
    assert_eq!(
        huffman_decode(&mut BitReader::new(&[0b0000_0000]), &two).unwrap(),
        2
    );
    assert_eq!(
        huffman_decode(&mut BitReader::new(&[0b0100_0000]), &two).unwrap(),
        1
    );
}

#[test]
fn fresh_decoder_has_no_history() {
    let decoder = JocDecoder::new();
    assert!(decoder.previous.is_empty());
    assert_eq!(QMF_SUBBANDS, 64);
}

fn small_tables() -> JocTables {
    let tree = vec![Branch { zero: -1, one: 1 }, Branch { zero: -2, one: -3 }];
    JocTables {
        coarse_generic: tree.clone(),
        coarse_sparse: tree.clone(),
        fine_generic: tree.clone(),
        fine_sparse: tree.clone(),
        five_channel_index: tree.clone(),
        seven_channel_index: tree,
    }
}

#[test]
fn joc_short_arbitrary_payloads_fail_without_panicking() {
    let tables = small_tables();
    for length in 0_usize..64 {
        let data = (0..length)
            .map(|index| {
                u8::try_from(index)
                    .unwrap()
                    .wrapping_mul(73)
                    .wrapping_add(19)
            })
            .collect::<Vec<_>>();
        let payload = MetadataPayload {
            id: 14,
            sample_offset: None,
            bit_len: data.len() * 8,
            data,
        };
        let _ = JocDecoder::new().decode(&payload, 1536, &tables);
    }
}

#[test]
fn joc_refuses_other_payloads_and_odd_frames() {
    let tables = small_tables();
    let payload = |id: u32| MetadataPayload {
        id,
        sample_offset: None,
        data: vec![0; 32],
        bit_len: 256,
    };
    assert!(JocDecoder::new().decode(&payload(11), 1536, &tables).is_err());
    assert!(JocDecoder::new().decode(&payload(14), 1535, &tables).is_err());
    assert!(JocDecoder::new().decode(&payload(14), 0, &tables).is_err());
}

fn joc_frame() -> surroundfold::joc::JocFrame {
    // One object that holds no data of its own.
    let mut bits = BitWriter::default();
    bits.write(0, 3);
    bits.write(0, 6);
    bits.write(0, 3);
    bits.write(0, 3);
    bits.write(0, 5);
    bits.write(0, 10);
    bits.write(0, 1);
    while bits.bit_len % 8 != 0 {
        bits.write(0, 1);
    }
    let payload = MetadataPayload {
        id: 14,
        sample_offset: None,
        bit_len: bits.bytes.len() * 8,
        data: bits.bytes,
    };
    JocDecoder::new()
        .decode(&payload, 1536, &small_tables())
        .unwrap()
}

#[test]
fn an_object_without_data_stays_silent() {
    let frame = joc_frame();
    assert_eq!(frame.object_count, 1);
    assert_eq!(frame.input_channels, 5);
    assert_eq!(frame.timeslots, 24);
    for timeslot in [0, 23] {
        let row = frame.channel_coefficients(0, timeslot, 4).unwrap();
        assert_eq!(row.len(), 64);
        assert!(row.iter().all(|value| value.numerator == 0));
    }
    assert!(frame.coefficient(1, 0, 0, 0).is_none());
    let held = frame.hold_last(2);
    assert_eq!(held.timeslots, 2);
    assert_eq!(held.coefficients().len(), 2 * 5 * 64);
}

#[test]
fn reconstruction_wants_matching_channels() {
    let frame = joc_frame();
    assert_eq!(check_input(&[1536; 5], &frame).unwrap(), 1536);
    assert_eq!(
        check_input(&[1536; 4], &frame).unwrap_err().message(),
        "invalid JOC reconstruction input: JOC requires 5 downmix channels, received 4"
    );
    assert_eq!(
        check_input(&[1536, 1536, 64, 1536, 0], &frame)
            .unwrap_err()
            .message(),
        "invalid JOC reconstruction input: JOC channel 2 has 64 samples, expected 1536"
    );
    let mut counts = FilterCounts::new();
    assert!(counts.prepare(&frame));
    assert!(!counts.prepare(&frame));
    assert_eq!(counts.analysis, 5);
}

#[test]
fn bed_masks_preserve_object_order_after_msb_first_reading() {
    let mut standard_edges = Vec::new();
    append_standard_bed(1 | (1 << 9), &mut standard_edges);
    assert_eq!(
        standard_edges,
        [Speaker::FrontLeft, Speaker::FrontRight, Speaker::Lfe,]
    );

    let mut nonstandard_edges = Vec::new();
    append_nonstandard_bed(1 | (1 << 16), &mut nonstandard_edges);
    assert_eq!(nonstandard_edges, [Speaker::FrontLeft, Speaker::Lfe]);

    let mut speakers = Vec::new();
    append_standard_bed(0b1_0000_1101, &mut speakers);
    assert_eq!(
        speakers,
        [
            Speaker::FrontLeft,
            Speaker::FrontRight,
            Speaker::Lfe,
            Speaker::SideLeft,
            Speaker::SideRight,
            Speaker::WideLeft,
            Speaker::WideRight,
        ]
    );
}

#[test]
fn reserved_object_size_index_is_rejected() {
    let mut properties = ObjectProperties::default();
    let error =
        read_render_info(&mut BitReader::new(&[0b0100_1100]), &mut properties, 3, 1).unwrap_err();
    assert!(error
        .message()
        .contains("reserved OAMD object size index 3"));
}

#[test]
fn render_info_retains_finite_and_infinite_distance() {
    let mut finite = ObjectProperties::default();
    read_render_info(
        &mut BitReader::new(&[0x17, 0xc0, 0x84, 0xe0]),
        &mut finite,
        3,
        0,
    )
    .unwrap();
    assert_eq!(finite.distance, Some(Distance::Tenths { value: 50 }));

    let mut infinite = ObjectProperties::default();
    read_render_info(
        &mut BitReader::new(&[0x17, 0xc0, 0x86]),
        &mut infinite,
        3,
        0,
    )
    .unwrap();
    assert_eq!(infinite.distance, Some(Distance::Infinite));
}

fn value(scalar: Scalar) -> f64 {
    match scalar {
        Scalar::Ratio {
            numerator,
            denominator,
        } => f64::from(numerator) / f64::from(denominator),
        Scalar::Double { bits } => f64::from_bits(bits),
    }
}

#[test]
fn room_coordinates_map_to_renderer_axes() {
    let at = |x: i16, y: i16, z: i16| {
        let point = RoomPosition { x, y, z }.point();
        [value(point.x), value(point.y), value(point.z)]
    };
    assert_eq!(at(0, 0, -75), [-1.0, 1.0, -1.0]);
    assert_eq!(at(310, 310, 75), [1.0, -1.0, 1.0]);
}

#[test]
fn divergence_decodes_table_code_and_reuse_modes() {
    let table = read_divergence(&mut BitReader::new(&[0b1001_0000]), 250_000).unwrap();
    assert_eq!(table, 704_833);

    let reuse = read_divergence(&mut BitReader::new(&[0b1010_0000]), 250_000).unwrap();
    assert_eq!(reuse, 250_000);

    let code = read_divergence(&mut BitReader::new(&[0b1101_1111, 0b1000_0000]), 0).unwrap();
    assert_eq!(code, 1_000_000);
}

#[test]
fn reserved_divergence_syntax_is_rejected() {
    assert!(read_divergence(&mut BitReader::new(&[0b1100_0000, 0]), 0).is_err());
    assert!(read_divergence(&mut BitReader::new(&[0b1110_0000]), 0).is_err());
}

#[test]
fn program_assignment_accepts_every_defined_isf_size() {
    for (index, expected) in [4, 8, 10, 14, 15, 30].into_iter().enumerate() {
        let encoded = 0b0001_0000 | u8::try_from(index).unwrap();
        let assignment =
            ProgramAssignment::read(&mut BitReader::new(&[encoded]), expected).unwrap();
        assert_eq!(assignment.isf_object_count, expected);
    }
}

#[test]
fn decodes_custom_trim_and_warp_metadata() {
    // warp Y, custom global mode, configuration 0 centre trim -6 dB,
    // configurations 1..8 default, no per-object disables.
    let trim = read_trim_element(&mut BitReader::new(&[0x48, 0x0c, 0x7f, 0x80]), 1).unwrap();
    let object = trim.for_object(0);
    assert!(object.warp_y);
    let settings = object.settings(0);
    assert_eq!(settings.mode, ObjectTrimMode::Custom);
    assert!((value(settings.center_db) + 6.0).abs() < f64::EPSILON);
    assert!(value(settings.surround_db).abs() < f64::EPSILON);
    assert!(value(settings.height_db).abs() < f64::EPSILON);
    assert_eq!(object.settings(1).mode, ObjectTrimMode::Default);
}

#[test]
fn decodes_global_and_per_object_trim_modes() {
    let default = read_trim_element(&mut BitReader::new(&[0]), 1).unwrap();
    assert_eq!(
        default.for_object(0).settings(0).mode,
        ObjectTrimMode::Default
    );

    let disabled = read_trim_element(&mut BitReader::new(&[0x04]), 1).unwrap();
    assert_eq!(
        disabled.for_object(0).settings(0).mode,
        ObjectTrimMode::Disabled
    );

    let object_disabled = read_trim_element(&mut BitReader::new(&[0x03]), 1).unwrap();
    assert_eq!(
        object_disabled.for_object(0).settings(0).mode,
        ObjectTrimMode::Disabled
    );
}

#[test]
fn rejects_non_oamd_payloads() {
    let payload = MetadataPayload {
        id: 14,
        sample_offset: None,
        data: Vec::new(),
        bit_len: 0,
    };
    assert!(OamdDecoder::new().decode(&payload).is_err());
}

#[test]
fn oamd_short_arbitrary_payloads_fail_without_panicking() {
    for length in 0_usize..64 {
        let data = (0..length)
            .map(|index| {
                u8::try_from(index)
                    .unwrap()
                    .wrapping_mul(41)
                    .wrapping_add(7)
            })
            .collect::<Vec<_>>();
        let payload = MetadataPayload {
            id: 11,
            sample_offset: None,
            bit_len: data.len() * 8,
            data,
        };
        let _ = OamdDecoder::new().decode(&payload);
    }
}

#[test]
fn the_sample_rate_must_not_change() {
    let mut first = vec![0x0b, 0x77, 0x00, 0x07, 0x3e, 0x58];
    first.resize(16, 0);
    let mut other = vec![0x0b, 0x77, 0x00, 0x07, 0x7e, 0x58];
    other.resize(16, 0);
    let bytes = [first.clone(), other, first].concat();
    let mut reader = FrameReader::new(&bytes);
    let frame = reader.next_frame().unwrap().unwrap();
    assert_eq!(frame.header.sample_rate, 48_000);
    let timeline = reader.timeline;
    assert_eq!(
        reader.next_frame().unwrap_err().message(),
        "invalid E-AC-3 metadata: E-AC-3 sample rate changes from 48000 to 44100 within the stream"
    );
    assert_eq!(reader.offset, 32);
    assert_eq!(reader.timeline, timeline);
    assert_eq!(reader.next_frame().unwrap().unwrap().sample_start, 1536);
    assert_eq!(FrameReader::new(&bytes[16..]).next_frame().unwrap().unwrap().header.sample_rate, 44_100);
}

#[test]
fn frames_start_behind_the_primary_frames_before_their_program() {
    let bytes = [
        make_sync_frame(1, 0, 3, 7, false, 11),
        make_sync_frame(0, 0, 3, 7, false, 11),
        make_sync_frame(1, 0, 3, 7, false, 11),
        make_sync_frame(0, 1, 3, 7, false, 11),
        make_sync_frame(0, 0, 1, 7, false, 11),
        make_sync_frame(0, 0, 0, 7, false, 11),
        make_sync_frame(1, 1, 3, 7, false, 11),
    ]
    .concat();
    let mut reader = FrameReader::new(&bytes);
    let mut starts = Vec::new();
    while let Some(frame) = reader.next_frame().unwrap() {
        starts.push(frame.sample_start);
    }
    assert_eq!(starts, [0, 0, 0, 0, 1536, 2048, 2048]);
    assert_eq!(reader.timeline.sample_start, 2304);
}

#[test]
fn variable_length_integers_keep_32_bits() {
    let mut bits = BitReader::new(&[0x00, 0x00, 0x00, 0x01, 0x00, 0x00, 0x00, 0x0a]);
    assert_eq!(bits.variable(31, None).unwrap(), 0x8000_0005);
    let mut bits = BitReader::new(&[0xff, 0xff, 0xff, 0xff, 0x00, 0x00, 0x00, 0x0a]);
    assert_eq!(bits.variable(31, None).unwrap(), 5);
    let mut writer = BitWriter::default();
    for chunk in [0xfe, 0xfe, 0xfe, 0xff] {
        writer.write(chunk, 8);
        writer.write(1, 1);
    }
    assert_eq!(
        BitReader::new(&writer.bytes).variable(8, None).unwrap_err().message(),
        "invalid E-AC-3 metadata: variable-length value overflowed"
    );
}

#[test]
fn errors_use_up_the_bytes_that_were_read() {
    let frame = make_sync_frame(0, 0, 3, 7, false, 11);
    let mut bytes = vec![0_u8; 7];
    bytes.extend(&frame);
    bytes.extend(&frame[..9]);
    let mut reader = FrameReader::new(&bytes);
    assert!(reader.next_frame().is_err());
    assert_eq!(reader.offset, 7);
    assert_eq!(reader.next_frame().unwrap().unwrap().sample_start, 0);
    assert_eq!(reader.offset, 23);
    assert!(reader.next_frame().is_err());
    assert_eq!(reader.offset, bytes.len());
    assert!(reader.next_frame().unwrap().is_none());

    let mut reader = FrameReader::new(&frame[..3]);
    assert!(reader.next_frame().is_err());
    assert_eq!(reader.offset, 3);

    let twice = [frame.clone(), frame].concat();
    let mut reader = FrameReader::new(&twice);
    reader.timeline.sample_start = u64::MAX;
    assert!(reader.next_frame().is_err());
    assert_eq!(reader.timeline.current_program_start, u64::MAX);
    assert_eq!(reader.timeline.frame_index, 0);
    assert_eq!(reader.offset, 16);
    reader.timeline.sample_start = 0;
    reader.timeline.frame_index = u64::MAX;
    assert!(reader.next_frame().is_err());
    assert_eq!(reader.timeline.sample_start, 1536);
    assert_eq!(reader.timeline.current_program_start, 0);
}

#[test]
fn properties_keep_what_was_read_before_an_error() {
    let mut properties = ObjectProperties::default();
    let mut bits = BitReader::with_limit(&[0b0000_0000], 2);
    assert!(read_basic_info(&mut bits, &mut properties, 1, Gain::Silent).is_err());
    assert_eq!(properties.gain, Gain::Decibels { db: 0 });

    // The room runs from left to right, and then the bits end.
    let mut writer = BitWriter::default();
    writer.write(62, 6);
    let mut properties = ObjectProperties::default();
    let mut bits = BitReader::with_limit(&writer.bytes, 6);
    assert!(read_render_info(&mut bits, &mut properties, 1, 0).is_err());
    assert_eq!(properties.position, RoomPosition { x: 310, y: 155, z: 0 });

    // Position and zone, and then a reserved size.
    let mut writer = BitWriter::default();
    for (value, count) in [(31, 6), (0, 6), (1, 1), (15, 4), (0, 1), (1, 3), (0, 1), (3, 2)] {
        writer.write(value, count);
    }
    let mut properties = ObjectProperties::default();
    let mut bits = BitReader::new(&writer.bytes);
    assert!(read_render_info(&mut bits, &mut properties, 1, 0).is_err());
    assert_eq!(properties.position, RoomPosition { x: 155, y: 0, z: 75 });
    assert_eq!(properties.zone, ObjectZone::NoBack);
    assert!(!properties.elevation);
    assert_eq!(properties.width, 0);
}
