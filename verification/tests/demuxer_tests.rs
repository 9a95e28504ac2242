use av_gif::demuxer::{BlockOutcome, Extension, GifDemuxer, GifFrame, ParseError};

fn gif_head(version: &[u8], width: u16, height: u16, packed: u8) -> Vec<u8> {
    let mut v = Vec::new();
    v.extend_from_slice(b"GIF");
    v.extend_from_slice(version);
    v.extend_from_slice(&width.to_le_bytes());
    v.extend_from_slice(&height.to_le_bytes());
    v.push(packed);
    v.push(0); // background color index
    v.push(0); // pixel aspect ratio
    v
}

fn global_palette_two_colors() -> Vec<u8> {
    vec![255, 0, 0, 0, 0, 255]
}

fn image_descriptor(width: u16, height: u16) -> Vec<u8> {
    let mut v = vec![0x2C];
    v.extend_from_slice(&0u16.to_le_bytes());
    v.extend_from_slice(&0u16.to_le_bytes());
    v.extend_from_slice(&width.to_le_bytes());
    v.extend_from_slice(&height.to_le_bytes());
    v.push(0x00); // no local color table, not interlaced
    v.push(2); // minimum code size
    v.extend_from_slice(&[2, 0x4C, 0x01, 0x00]); // one data sub-block, terminator
    v
}

fn gce_block(packed: u8, delay: u16, transparent_index: u8) -> Vec<u8> {
    let mut v = vec![0x21, 0xF9, 0x04, packed];
    v.extend_from_slice(&delay.to_le_bytes());
    v.push(transparent_index);
    v.push(0x00);
    v
}

fn netscape_block(loop_count: u16) -> Vec<u8> {
    let mut v = vec![0x21, 0xFF, 0x0B];
    v.extend_from_slice(b"NETSCAPE2.0");
    v.push(0x03);
    v.push(0x01);
    v.extend_from_slice(&loop_count.to_le_bytes());
    v.push(0x00);
    v
}

#[test]
fn test_parse_gif87a() {
    let mut buf = gif_head(b"87a", 100, 100, 0x80);
    buf.extend_from_slice(&global_palette_two_colors());
    buf.extend_from_slice(&image_descriptor(100, 100));
    buf.push(0x3B);

    let mut demuxer = GifDemuxer::new();
    demuxer.parse_gif(&buf).unwrap();

    assert_eq!(demuxer.screen_width, 100);
    assert_eq!(demuxer.screen_height, 100);
}

#[test]
fn test_parse_gif89a() {
    let mut buf = gif_head(b"89a", 100, 100, 0x80);
    buf.extend_from_slice(&global_palette_two_colors());
    buf.extend_from_slice(&gce_block(0x00, 10, 0));
    buf.extend_from_slice(&image_descriptor(100, 100));
    buf.push(0x3B);

    let mut demuxer = GifDemuxer::new();
    demuxer.parse_gif(&buf).unwrap();

    assert_eq!(demuxer.screen_width, 100);
    assert_eq!(demuxer.screen_height, 100);
}

#[test]
fn test_parse_gif89a_multi_frame() {
    let mut buf = gif_head(b"89a", 100, 100, 0x80);
    buf.extend_from_slice(&global_palette_two_colors());
    buf.extend_from_slice(&gce_block(0x00, 10, 0));
    buf.extend_from_slice(&image_descriptor(100, 100));
    buf.extend_from_slice(&gce_block(0x00, 10, 0));
    buf.extend_from_slice(&image_descriptor(100, 100));
    buf.push(0x3B);

    let mut demuxer = GifDemuxer::new();
    demuxer.parse_gif(&buf).unwrap();

    assert_eq!(demuxer.screen_width, 100);
    assert_eq!(demuxer.screen_height, 100);
    assert_eq!(demuxer.frames.len(), 2);
}

#[test]
fn test_parse_gif_infinite_loop() {
    let mut buf = gif_head(b"89a", 100, 100, 0x80);
    buf.extend_from_slice(&global_palette_two_colors());
    buf.extend_from_slice(&netscape_block(0));
    buf.extend_from_slice(&gce_block(0x00, 10, 0));
    buf.extend_from_slice(&image_descriptor(100, 100));
    buf.push(0x3B);

    let mut demuxer = GifDemuxer::new();
    demuxer.parse_gif(&buf).unwrap();

    assert_eq!(demuxer.screen_width, 100);
    assert_eq!(demuxer.screen_height, 100);

    let loop_count = demuxer.get_loop_count();
    assert!(loop_count.is_some());
}

#[test]
fn test_parse_gif_transparency() {
    let mut buf = gif_head(b"89a", 100, 100, 0x80);
    buf.extend_from_slice(&global_palette_two_colors());
    buf.extend_from_slice(&gce_block(0x01, 10, 1)); // transparency flag set
    buf.extend_from_slice(&image_descriptor(100, 100));
    buf.push(0x3B);

    let mut demuxer = GifDemuxer::new();
    demuxer.parse_gif(&buf).unwrap();

    assert_eq!(demuxer.screen_width, 100);
    assert_eq!(demuxer.screen_height, 100);

    let has_transparency = demuxer
        .frames
        .iter()
        .any(|frame| frame.gce.is_some() && frame.gce.as_ref().unwrap().transparent_color_flag);

    assert!(has_transparency);
}

#[test]
fn test_parse_gif_comments() {
    let text = b"This is a comment";
    let mut buf = gif_head(b"89a", 100, 100, 0x80);
    buf.extend_from_slice(&global_palette_two_colors());
    buf.push(0x21);
    buf.push(0xFE);
    buf.push(text.len() as u8);
    buf.extend_from_slice(text);
    buf.push(0x00);
    buf.extend_from_slice(&image_descriptor(100, 100));
    buf.push(0x3B);

    let mut demuxer = GifDemuxer::new();
    demuxer.parse_gif(&buf).unwrap();

    assert_eq!(demuxer.screen_width, 100);
    assert_eq!(demuxer.screen_height, 100);

    let has_comments = demuxer.comments.len() > 0;
    let comment = demuxer.comments.first().unwrap();

    assert!(has_comments);
    assert_eq!(comment.text, "This is a comment");
}

#[test]
fn test_parse_gif_plain_text() {
    let text = b"The filename is:";
    let mut buf = gif_head(b"89a", 100, 100, 0x80);
    buf.extend_from_slice(&global_palette_two_colors());
    buf.push(0x21);
    buf.push(0x01);
    buf.push(12);
    buf.extend_from_slice(&10u16.to_le_bytes()); // grid left
    buf.extend_from_slice(&20u16.to_le_bytes()); // grid top
    buf.extend_from_slice(&80u16.to_le_bytes()); // grid width
    buf.extend_from_slice(&16u16.to_le_bytes()); // grid height
    buf.push(8); // cell width
    buf.push(16); // cell height
    buf.push(1); // foreground index
    buf.push(0); // background index
    buf.push(text.len() as u8);
    buf.extend_from_slice(text);
    buf.push(0x00);
    buf.extend_from_slice(&image_descriptor(100, 100));
    buf.push(0x3B);

    let mut demuxer = GifDemuxer::new();
    demuxer.parse_gif(&buf).unwrap();

    assert_eq!(demuxer.screen_width, 100);
    assert_eq!(demuxer.screen_height, 100);

    let has_plain_text = demuxer.plain_texts.len() > 0;
    let plain_text = demuxer.plain_texts.first().unwrap();

    assert!(has_plain_text);
    assert_eq!(plain_text.text, "The filename is:", "plain_text.gif");
}

#[test]
fn test_loop_count_value() {
    let mut buf = gif_head(b"89a", 100, 100, 0x80);
    buf.extend_from_slice(&global_palette_two_colors());
    buf.extend_from_slice(&netscape_block(0));
    buf.extend_from_slice(&image_descriptor(100, 100));
    buf.push(0x3B);

    let mut demuxer = GifDemuxer::new();
    demuxer.parse_gif(&buf).unwrap();

    assert_eq!(demuxer.get_loop_count(), Some(0));
}

#[test]
fn test_loop_count_absent() {
    let mut buf = gif_head(b"89a", 100, 100, 0x80);
    buf.extend_from_slice(&global_palette_two_colors());
    // An application extension that is not NETSCAPE 2.0.
    buf.extend_from_slice(&[0x21, 0xFF, 0x0B]);
    buf.extend_from_slice(b"SOMETHING99");
    buf.extend_from_slice(&[0x01, 0x55, 0x00]);
    buf.extend_from_slice(&image_descriptor(100, 100));
    buf.push(0x3B);

    let mut demuxer = GifDemuxer::new();
    demuxer.parse_gif(&buf).unwrap();

    assert_eq!(demuxer.get_loop_count(), None);
    assert_eq!(demuxer.get_applications().len(), 1);
}

#[test]
fn test_multi_frame_gces() {
    let mut buf = gif_head(b"89a", 100, 100, 0x80);
    buf.extend_from_slice(&global_palette_two_colors());
    buf.extend_from_slice(&gce_block(0x00, 10, 0));
    buf.extend_from_slice(&image_descriptor(100, 100));
    buf.extend_from_slice(&gce_block(0x00, 20, 0));
    buf.extend_from_slice(&image_descriptor(100, 100));
    buf.push(0x3B);

    let mut demuxer = GifDemuxer::new();
    demuxer.parse_gif(&buf).unwrap();

    assert_eq!(demuxer.frames.len(), 2);
    assert!(demuxer.frames[0].gce.is_some());
    assert!(demuxer.frames[1].gce.is_some());
    assert_eq!(demuxer.frames[0].gce.as_ref().unwrap().delay_time, 10);
    assert_eq!(demuxer.frames[1].gce.as_ref().unwrap().delay_time, 20);
}

#[test]
fn test_gce_fields() {
    // disposal 2 in bits 2-4, transparency flag in bit 0
    let packed = (2u8 << 2) | 0x01;
    let mut buf = gif_head(b"89a", 10, 10, 0x80);
    buf.extend_from_slice(&global_palette_two_colors());
    buf.extend_from_slice(&gce_block(packed, 123, 7));
    buf.extend_from_slice(&image_descriptor(10, 10));
    buf.push(0x3B);

    let mut demuxer = GifDemuxer::new();
    demuxer.parse_gif(&buf).unwrap();

    let gce = demuxer.frames[0].gce.as_ref().unwrap();
    assert_eq!(gce.disposal_method, 2);
    assert!(gce.transparent_color_flag);
    assert!(!gce.user_input_flag);
    assert_eq!(gce.delay_time, 123);
    assert_eq!(gce.transparent_color_index, 7);
}

#[test]
fn test_frame_count_matches_images() {
    let mut buf = gif_head(b"89a", 10, 10, 0x80);
    buf.extend_from_slice(&global_palette_two_colors());
    for _ in 0..3 {
        buf.extend_from_slice(&image_descriptor(10, 10));
    }
    buf.push(0x3B);

    let mut demuxer = GifDemuxer::new();
    demuxer.parse_gif(&buf).unwrap();

    assert_eq!(demuxer.frames.len(), 3);
}

#[test]
fn test_pending_gce_replaced() {
    // A second GCE before the image replaces the first.
    let mut buf = gif_head(b"89a", 10, 10, 0x80);
    buf.extend_from_slice(&global_palette_two_colors());
    buf.extend_from_slice(&gce_block(0x00, 11, 0));
    buf.extend_from_slice(&gce_block(0x00, 22, 0));
    buf.extend_from_slice(&image_descriptor(10, 10));
    buf.push(0x3B);

    let mut demuxer = GifDemuxer::new();
    demuxer.parse_gif(&buf).unwrap();

    assert_eq!(demuxer.frames.len(), 1);
    assert_eq!(demuxer.frames[0].gce.as_ref().unwrap().delay_time, 22);
}

#[test]
fn test_stops_at_trailer() {
    let mut buf = gif_head(b"89a", 10, 10, 0x80);
    buf.extend_from_slice(&global_palette_two_colors());
    buf.extend_from_slice(&image_descriptor(10, 10));
    buf.push(0x3B);
    // Content after the trailer is ignored.
    buf.extend_from_slice(&image_descriptor(10, 10));

    let mut demuxer = GifDemuxer::new();
    demuxer.parse_gif(&buf).unwrap();

    assert_eq!(demuxer.frames.len(), 1);
}

#[test]
fn test_stops_at_unknown_byte() {
    let mut buf = gif_head(b"89a", 10, 10, 0x80);
    buf.extend_from_slice(&global_palette_two_colors());
    buf.extend_from_slice(&image_descriptor(10, 10));
    buf.push(0x99); // junk: the parser keeps the frame and stops
    buf.extend_from_slice(&image_descriptor(10, 10));

    let mut demuxer = GifDemuxer::new();
    demuxer.parse_gif(&buf).unwrap();

    assert_eq!(demuxer.frames.len(), 1);
}

#[test]
fn test_invalid_signature() {
    let buf = b"NOTGIF_AT_ALL";

    let mut demuxer = GifDemuxer::new();
    let r = demuxer.parse_gif(buf);

    assert_eq!(r, Err(ParseError::InvalidSignature));
}

#[test]
fn test_truncated_signature() {
    let mut demuxer = GifDemuxer::new();
    assert_eq!(demuxer.parse_gif(b"GIF8"), Err(ParseError::Truncated));
}

#[test]
fn test_truncated_screen_descriptor() {
    let mut demuxer = GifDemuxer::new();
    assert_eq!(demuxer.parse_gif(b"GIF89a\x64\x00"), Err(ParseError::Truncated));
}

#[test]
fn test_truncated_global_color_table() {
    // The packed byte announces a 2-color table, but only one byte follows.
    let mut buf = gif_head(b"89a", 10, 10, 0x80);
    buf.push(255);

    let mut demuxer = GifDemuxer::new();
    assert_eq!(demuxer.parse_gif(&buf), Err(ParseError::Truncated));
}

#[test]
fn test_malformed_comment_subblock() {
    // A sub-block announcing 5 bytes with only 2 present.
    let input = [5u8, 1, 2];
    let r = GifDemuxer::parse_comment_extension(&input, 0);
    assert!(matches!(r, Err(ParseError::Malformed)));
}

#[test]
fn test_comment_invalid_utf8() {
    let mut buf = gif_head(b"89a", 10, 10, 0x80);
    buf.extend_from_slice(&global_palette_two_colors());
    buf.extend_from_slice(&[0x21, 0xFE, 2, 0xFF, 0xFE, 0x00]);
    buf.push(0x3B);

    let mut demuxer = GifDemuxer::new();
    demuxer.parse_gif(&buf).unwrap();

    assert_eq!(demuxer.get_comments()[0].text, "\u{FFFD}\u{FFFD}");
}

#[test]
fn test_frame_new_defaults() {
    let frame = GifFrame::new();
    assert_eq!(frame.width, 0);
    assert_eq!(frame.height, 0);
    assert!(frame.local_color_table.is_empty());
    assert!(frame.data.is_empty());
    assert!(frame.gce.is_none());
}

#[test]
fn test_parse_block_comment() {
    let mut block = vec![0x21, 0xFE, 5];
    block.extend_from_slice(b"hello");
    block.push(0x00);

    match GifDemuxer::parse_block(&block, 0).unwrap() {
        BlockOutcome::Extension(end, Extension::Comment(c)) => {
            assert_eq!(end, block.len());
            assert_eq!(c.text, "hello");
        }
        _ => panic!("expected a comment extension"),
    }
}

#[test]
fn test_next_packet_payload() {
    let mut buf = gif_head(b"89a", 100, 100, 0x80);
    buf.extend_from_slice(&global_palette_two_colors());
    buf.extend_from_slice(&image_descriptor(100, 100));
    buf.push(0x3B);

    let mut demuxer = GifDemuxer::new();
    demuxer.parse_gif(&buf).unwrap();

    let (payload, pts, duration) = demuxer.next_packet().unwrap();
    // left, top, width (little endian), packed byte, no-GCE marker,
    // minimum code size, then the compressed data bytes.
    assert_eq!(payload, vec![0, 0, 0, 0, 100, 0, 0, 0, 2, 0x4C, 0x01]);
    assert_eq!(pts, 0);
    assert_eq!(duration, 1);
    assert!(demuxer.next_packet().is_none());
}

#[test]
fn test_extradata_layout() {
    let mut buf = gif_head(b"89a", 100, 50, 0x80);
    buf.extend_from_slice(&global_palette_two_colors());
    buf.push(0x3B);

    let mut demuxer = GifDemuxer::new();
    demuxer.parse_gif(&buf).unwrap();

    let mut expected = vec![100, 0, 50, 0, 0x80, 0, 0];
    expected.extend_from_slice(&global_palette_two_colors());
    assert_eq!(demuxer.extradata_bytes(), expected);
}
