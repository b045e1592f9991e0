use vstorage::config::FrameConfig;
use vstorage::quant::{quantize, dequantize};
use vstorage::bits::{BitReader, BitWriter};
use vstorage::header::{FrameHeader, encode_header_triple, decode_header_triple, HEADER_SIZE};
use vstorage::ecc::{rs_encode, rs_decode};
use vstorage::error::VstorageError;

#[test]
fn test_default_config() {
    let config = FrameConfig::new(2, 4, 32, 30, 18).unwrap();
    assert_eq!(config.logical_width(), 1920);
    assert_eq!(config.logical_height(), 1080);
    assert_eq!(config.bits_per_channel(), 2);
    assert_eq!(config.bits_per_pixel(), 6);
    assert_eq!(config.rs_data_len(), 223);
    assert!(config.max_raw_per_frame() > 1_200_000);
    assert!(config.max_raw_per_frame() < 1_400_000);
}

#[test]
fn test_invalid_config() {
    assert!(FrameConfig::new(0, 4, 32, 30, 18).is_err());
    assert!(FrameConfig::new(2, 3, 32, 30, 18).is_err());
    assert!(FrameConfig::new(2, 4, 0, 30, 18).is_err());
    assert!(FrameConfig::new(7, 4, 32, 30, 18).is_err());
}

#[test]
fn test_config_error_kind() {
    match FrameConfig::new(0, 4, 32, 30, 18) {
        Err(VstorageError::Config(_)) => {}
        _ => panic!("expected a Config error"),
    }
}

#[test]
fn test_quantize_roundtrip() {
    for levels in [2u8, 4, 8, 16] {
        for v in 0..levels {
            let pixel = quantize(v, levels);
            let recovered = dequantize(pixel, levels);
            assert_eq!(v, recovered, "levels={levels}, value={v}, pixel={pixel}");
        }
    }
}

#[test]
fn test_quantize_values() {
    assert_eq!(quantize(0, 4), 0);
    assert_eq!(quantize(1, 4), 85);
    assert_eq!(quantize(2, 4), 170);
    assert_eq!(quantize(3, 4), 255);
    assert_eq!(quantize(1, 2), 255);
    assert_eq!(quantize(5, 16), 85);
    assert_eq!(dequantize(84, 4), 1);
    assert_eq!(dequantize(255, 4), 3);
    assert_eq!(dequantize(0, 16), 0);
}

#[test]
fn test_noise_tolerance() {
    let levels = 4u8;
    for v in 0..levels {
        let pixel = quantize(v, levels);
        for noise in -30i16..=30 {
            let noisy = (pixel as i16 + noise).clamp(0, 255) as u8;
            let recovered = dequantize(noisy, levels);
            assert_eq!(
                v, recovered,
                "levels={levels}, value={v}, pixel={pixel}, noise={noise}, noisy={noisy}"
            );
        }
    }
}

#[test]
fn test_bit_roundtrip() {
    let data = vec![0xDE, 0xAD, 0xBE, 0xEF];
    let mut reader = BitReader::new(&data);
    let mut writer = BitWriter::new();
    for _ in 0..(data.len() * 8 / 2) {
        let bits = reader.read_bits(2);
        writer.write_bits(bits, 2);
    }
    assert_eq!(writer.finish(), data);
}

#[test]
fn test_bit_reader_past_end() {
    let data = vec![0xFFu8];
    let mut reader = BitReader::new(&data);
    assert_eq!(reader.read_bits(8), 0xFF);
    assert_eq!(reader.read_bits(8), 0);
    assert_eq!(reader.read_bits(3), 0);
}

fn sample_header() -> FrameHeader {
    FrameHeader {
        version: 1,
        frame_number: 42,
        total_frames: 100,
        block_size: 2,
        levels: 4,
        file_size: 123456789,
        data_length: 65535,
        ecc_len: 32,
        rs_data_len: 223,
        nonce: [1; 12],
        salt: [2; 16],
        data_sha256: [3; 32],
    }
}

#[test]
fn test_serialize_roundtrip() {
    let h = sample_header();
    let buf = h.serialize();
    let h2 = FrameHeader::deserialize(&buf).unwrap();
    assert_eq!(h.frame_number, h2.frame_number);
    assert_eq!(h.total_frames, h2.total_frames);
    assert_eq!(h.file_size, h2.file_size);
    assert_eq!(h.data_length, h2.data_length);
    assert_eq!(h.nonce, h2.nonce);
    assert_eq!(h.salt, h2.salt);
    assert_eq!(h.data_sha256, h2.data_sha256);
}

#[test]
fn test_triple_majority_vote() {
    let h = sample_header();
    let mut triple = encode_header_triple(&h);
    for i in HEADER_SIZE..HEADER_SIZE * 2 {
        triple[i] = 0xFF;
    }
    let recovered = decode_header_triple(&triple).unwrap();
    assert_eq!(recovered.frame_number, h.frame_number);
    assert_eq!(recovered.file_size, h.file_size);
    assert_eq!(recovered.data_sha256, h.data_sha256);
}

#[test]
fn test_triple_first_copy_corrupt() {
    let h = sample_header();
    let mut triple = encode_header_triple(&h);
    for i in 0..HEADER_SIZE {
        triple[i] = triple[i].wrapping_add(77);
    }
    let recovered = decode_header_triple(&triple).unwrap();
    assert_eq!(recovered.frame_number, h.frame_number);
    assert_eq!(recovered.block_size, h.block_size);
}

#[test]
fn test_triple_too_short() {
    match decode_header_triple(&vec![0u8; 100]) {
        Err(VstorageError::Header(_)) => {}
        _ => panic!("expected a Header error"),
    }
}

#[test]
fn test_invalid_magic() {
    let mut buf = vec![0u8; HEADER_SIZE];
    buf[0] = b'X';
    buf[1] = b'X';
    buf[2] = b'X';
    buf[3] = b'X';
    assert!(FrameHeader::deserialize(&buf).is_err());
}

#[test]
fn test_unsupported_version() {
    let h = sample_header();
    let mut buf = h.serialize();
    buf[4] = 9;
    match FrameHeader::deserialize(&buf) {
        Err(VstorageError::Header(_)) => {}
        _ => panic!("expected a Header error"),
    }
}

#[test]
fn test_rs_encode_decode_clean() {
    let ecc_len = 32;
    let rs_data_len = 223;
    let data = b"Hello, Reed-Solomon!".to_vec();

    let encoded = rs_encode(&data, ecc_len, rs_data_len);
    assert_eq!(encoded.len(), 255);

    let decoded = rs_decode(&encoded, ecc_len, rs_data_len, data.len()).unwrap();
    assert_eq!(decoded, data);
}

#[test]
fn test_rs_error_correction() {
    let ecc_len = 32;
    let rs_data_len = 223;
    let data = b"Error correction test data!!!!!".to_vec();

    let mut encoded = rs_encode(&data, ecc_len, rs_data_len);
    for i in 0..15 {
        encoded[i] = encoded[i].wrapping_add(1);
    }

    let decoded = rs_decode(&encoded, ecc_len, rs_data_len, data.len()).unwrap();
    assert_eq!(decoded, data);
}

#[test]
fn test_rs_multiple_blocks() {
    let ecc_len = 32;
    let rs_data_len = 223;
    let data: Vec<u8> = (0..500).map(|i| (i % 256) as u8).collect();

    let encoded = rs_encode(&data, ecc_len, rs_data_len);
    assert_eq!(encoded.len(), 255 * 3);

    let decoded = rs_decode(&encoded, ecc_len, rs_data_len, data.len()).unwrap();
    assert_eq!(decoded, data);
}

#[test]
fn test_rs_insufficient_data() {
    let encoded = vec![0u8; 100];
    match rs_decode(&encoded, 32, 223, 200) {
        Err(VstorageError::Ecc(_)) => {}
        _ => panic!("expected an Ecc error"),
    }
}
