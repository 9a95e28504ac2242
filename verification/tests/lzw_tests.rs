use av_gif::lzw::LzwEncoder;
use av_gif::subblocks::append_sub_block_chain;

#[test]
fn test_lzw_encoder() {
    let mut encoder = LzwEncoder::new(2);
    let chunk = b"ABABABABABABABABA";

    encoder.encode_chunk(Vec::from(chunk.as_slice()).as_ref());
    encoder.finalize();

    let encoded_data = encoder.get_encoded_data();

    // Assert that the encoded data is not empty
    assert!(!encoded_data.is_empty());

    // Assert that the encoded data is not the same as the input data
    assert_ne!(encoded_data, chunk.as_slice());
}

#[test]
fn test_lzw_exact_bytes() {
    // Minimum code size 2: clear code 4 and end-of-information 5 at width
    // 3. Feeding one zero pixel emits clear, 0, EOI; packed LSB first that
    // is 0b01000100 then 0b00000001.
    let mut encoder = LzwEncoder::new(2);
    encoder.encode_chunk(&[0]);
    encoder.finalize();
    assert_eq!(encoder.get_encoded_data(), &[0x44, 0x01]);
}

#[test]
fn test_lzw_reset_restores_fresh_state() {
    let mut encoder = LzwEncoder::new(2);
    encoder.encode_chunk(&[0, 1, 0, 1, 0]);
    encoder.finalize();
    let first = encoder.get_encoded_data().to_vec();

    encoder.reset();
    assert!(encoder.get_encoded_data().is_empty());

    encoder.encode_chunk(&[0, 1, 0, 1, 0]);
    encoder.finalize();
    assert_eq!(encoder.get_encoded_data(), first.as_slice());
}

#[test]
fn test_lzw_long_input_resets_dictionary() {
    // Enough varied input to assign every code up to 4095, forcing the
    // mid-stream clear-and-restart instead of an overflow.
    let mut data = Vec::new();
    let mut x: u32 = 1;
    for i in 0..30000u32 {
        x = x.wrapping_mul(1103515245).wrapping_add(12345 + i);
        data.push((x >> 16) as u8);
    }
    let mut encoder = LzwEncoder::new(8);
    encoder.encode_chunk(&data);
    encoder.finalize();
    let out = encoder.get_encoded_data();
    assert!(out.len() > 100);
}

#[test]
fn test_sub_block_chain_255() {
    // A 255-byte payload fills exactly one sub-block; the terminator
    // follows as its own length byte.
    let data = vec![7u8; 255];
    let mut out = Vec::new();
    append_sub_block_chain(&mut out, &data);
    assert_eq!(out.len(), 257);
    assert_eq!(out[0], 255);
    assert_eq!(out[256], 0x00);
}

#[test]
fn test_sub_block_chain_256() {
    // One byte past a full block: the 255-length block is followed
    // immediately by another length byte, never merged.
    let data = vec![9u8; 256];
    let mut out = Vec::new();
    append_sub_block_chain(&mut out, &data);
    assert_eq!(out.len(), 259);
    assert_eq!(out[0], 255);
    assert_eq!(out[256], 1);
    assert_eq!(out[257], 9);
    assert_eq!(out[258], 0x00);
}

#[test]
fn test_sub_block_chain_empty() {
    let data: Vec<u8> = Vec::new();
    let mut out = Vec::new();
    append_sub_block_chain(&mut out, &data);
    assert_eq!(out, vec![0x00]);
}
