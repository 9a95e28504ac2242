use av_gif::demuxer::GifDemuxer;
use av_gif::encoder::{DisposalMethod, GifEncoder, GifEncoderState, GifEvent, GifWriter};

#[test]
fn test_single_frame_gif() -> Result<(), String> {
    let mut encoder = GifEncoderState::new();

    // 100x100 frame of palette index zero.
    let buffer = vec![0u8; 100 * 100];

    encoder.process_event(GifEvent::StartGif {
        width: 100u16,
        height: 100u16,
        global_palette: Some(vec![[255, 0, 0], [0, 0, 255]]),
        background_color_index: 0,
        loop_count: Some(0),
    })?;
    encoder.process_event(GifEvent::StartFrame {
        delay: 0,
        disposal_method: DisposalMethod::Unspecified,
        local_palette: None,
        transparent_color_index: None,
        is_interlaced: false,
    })?;
    encoder.process_event(GifEvent::WriteImageChunk { data: buffer })?;
    encoder.process_event(GifEvent::FlushFrame)?;
    encoder.process_event(GifEvent::EndFrame)?;
    encoder.process_event(GifEvent::EndGif)?;

    let data = encoder.encoded_data();
    assert_eq!(&data[0..10], &[0x47, 0x49, 0x46, 0x38, 0x39, 0x61, 0x64, 0x00, 0x64, 0x00]);
    assert_eq!(*data.last().unwrap(), 0x3B);

    // Round trip: the emitted stream parses back to one 100x100 frame.
    let mut demuxer = GifDemuxer::new();
    demuxer.parse_gif(data).map_err(|_| "round trip failed".to_string())?;
    assert_eq!(demuxer.frames.len(), 1);
    assert_eq!(demuxer.frames[0].width, 100);
    assert_eq!(demuxer.frames[0].height, 100);

    Ok(())
}

fn header_round_trip(size: usize) {
    let palette = vec![[7u8, 8, 9]; size];
    let flat: Vec<u8> = palette.iter().flat_map(|c| c.iter().copied()).collect();

    let mut encoder = GifEncoderState::new();
    encoder
        .process_event(GifEvent::StartGif {
            width: 320,
            height: 200,
            global_palette: Some(palette),
            background_color_index: 3,
            loop_count: None,
        })
        .unwrap();
    encoder.process_event(GifEvent::EndGif).unwrap();

    let mut demuxer = GifDemuxer::new();
    demuxer.parse_gif(encoder.encoded_data()).unwrap();

    assert_eq!(demuxer.screen_width, 320);
    assert_eq!(demuxer.screen_height, 200);
    assert_eq!(demuxer.background_color_index, 3);
    assert_eq!(demuxer.global_color_table.len(), 3 * size);
    assert_eq!(demuxer.global_color_table, flat);
}

#[test]
fn test_header_round_trip_size_2() {
    header_round_trip(2);
}

#[test]
fn test_header_round_trip_size_4() {
    header_round_trip(4);
}

#[test]
fn test_header_round_trip_size_16() {
    header_round_trip(16);
}

#[test]
fn test_header_round_trip_size_256() {
    header_round_trip(256);
}

#[test]
fn test_gce_round_trip_values() {
    let mut encoder = GifEncoderState::new();
    encoder
        .process_event(GifEvent::StartGif {
            width: 4,
            height: 4,
            global_palette: Some(vec![[0, 0, 0], [255, 255, 255]]),
            background_color_index: 0,
            loop_count: None,
        })
        .unwrap();
    encoder
        .process_event(GifEvent::StartFrame {
            delay: 300,
            disposal_method: DisposalMethod::Previous,
            local_palette: None,
            transparent_color_index: Some(5),
            is_interlaced: false,
        })
        .unwrap();
    encoder.process_event(GifEvent::WriteImageChunk { data: vec![0u8; 16] }).unwrap();
    encoder.process_event(GifEvent::FlushFrame).unwrap();
    encoder.process_event(GifEvent::EndFrame).unwrap();
    encoder.process_event(GifEvent::EndGif).unwrap();

    let mut demuxer = GifDemuxer::new();
    demuxer.parse_gif(encoder.encoded_data()).unwrap();

    let gce = demuxer.frames[0].gce.as_ref().unwrap();
    assert_eq!(gce.disposal_method, 3); // Previous
    assert_eq!(gce.delay_time, 300);
    assert!(gce.transparent_color_flag);
    assert!(!gce.user_input_flag);
    assert_eq!(gce.transparent_color_index, 5);
}

#[test]
fn test_invalid_transition() {
    let mut encoder = GifEncoderState::new();
    assert!(encoder.process_event(GifEvent::EndGif).is_err());
    assert!(encoder.process_event(GifEvent::FlushFrame).is_err());

    // The failed events left the encoder idle, so StartGif still works.
    let r = encoder.process_event(GifEvent::StartGif {
        width: 1,
        height: 1,
        global_palette: None,
        background_color_index: 0,
        loop_count: None,
    });
    assert!(r.is_ok());

    // StartGif twice is illegal.
    let r2 = encoder.process_event(GifEvent::StartGif {
        width: 1,
        height: 1,
        global_palette: None,
        background_color_index: 0,
        loop_count: None,
    });
    assert!(r2.is_err());
}

#[test]
fn test_interlaced_reorder() {
    // Four rows of width two: interlacing keeps row 0, then row 2, then the
    // odd rows.
    let data = vec![0u8, 0, 1, 1, 2, 2, 3, 3];
    let mut writer = GifWriter::new();
    let reordered = writer.encode_interlaced_data(&data, 2, 4);
    assert_eq!(reordered, vec![0u8, 0, 2, 2, 1, 1, 3, 3]);
}

#[test]
fn test_interlaced_ten_rows() {
    // Ten rows of width one: passes start at rows 0 and 8, then 4, then 2
    // and 6, then the odd rows.
    let data: Vec<u8> = (0u8..10).collect();
    let mut writer = GifWriter::new();
    let reordered = writer.encode_interlaced_data(&data, 1, 10);
    assert_eq!(reordered, vec![0u8, 8, 4, 2, 6, 1, 3, 5, 7, 9]);
}

#[test]
fn test_interlaced_chunk_needs_full_frame() {
    let mut encoder = GifEncoderState::new();
    encoder
        .process_event(GifEvent::StartGif {
            width: 4,
            height: 4,
            global_palette: Some(vec![[0, 0, 0], [255, 255, 255]]),
            background_color_index: 0,
            loop_count: None,
        })
        .unwrap();
    encoder
        .process_event(GifEvent::StartFrame {
            delay: 0,
            disposal_method: DisposalMethod::Unspecified,
            local_palette: None,
            transparent_color_index: None,
            is_interlaced: true,
        })
        .unwrap();
    // An interlaced chunk must carry exactly width * height pixels.
    let r = encoder.process_event(GifEvent::WriteImageChunk { data: vec![0u8; 3] });
    assert!(r.is_err());
    let ok = encoder.process_event(GifEvent::WriteImageChunk { data: vec![0u8; 16] });
    assert!(ok.is_ok());
}

#[test]
fn test_frame_trailer_without_flush() {
    // EndFrame straight from the frame state writes a bare terminator.
    let mut encoder = GifEncoderState::new();
    encoder
        .process_event(GifEvent::StartGif {
            width: 2,
            height: 2,
            global_palette: Some(vec![[0, 0, 0], [255, 255, 255]]),
            background_color_index: 0,
            loop_count: None,
        })
        .unwrap();
    encoder
        .process_event(GifEvent::StartFrame {
            delay: 0,
            disposal_method: DisposalMethod::Unspecified,
            local_palette: None,
            transparent_color_index: None,
            is_interlaced: false,
        })
        .unwrap();
    encoder.process_event(GifEvent::EndFrame).unwrap();
    encoder.process_event(GifEvent::EndGif).unwrap();

    let data = encoder.encoded_data();
    // ... terminator then trailer.
    assert_eq!(&data[data.len() - 2..], &[0x00, 0x3B]);
}
