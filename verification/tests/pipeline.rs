use vstorage::config::FrameConfig;
use vstorage::crypto::{derive_key, encrypt, decrypt};
use vstorage::decode::{decode_frames, detect_config_from_frame};
use vstorage::ecc::{rs_encode, rs_decode};
use vstorage::encode::encode_frames;
use vstorage::error::VstorageError;
use vstorage::frame::{encode_frame_to_image, decode_header_area, decode_data_area};
use vstorage::frame::RgbFrame;
use vstorage::header::{FrameHeader, encode_header_triple, decode_header_triple, HEADER_SIZE};
use sha2::Digest;

#[test]
fn test_encrypt_decrypt_roundtrip() {
    let plaintext = b"Secret data for Vstorage testing!".to_vec();
    let password = "hunter2";

    let (ciphertext, nonce, salt) = encrypt(&plaintext, password).unwrap();
    assert_ne!(&ciphertext[..], &plaintext[..]);

    let decrypted = decrypt(&ciphertext, password, &nonce, &salt).unwrap();
    assert_eq!(decrypted, plaintext);
}

#[test]
fn test_wrong_password_fails() {
    let plaintext = b"Secret data".to_vec();
    let (ciphertext, nonce, salt) = encrypt(&plaintext, "correct").unwrap();
    assert!(decrypt(&ciphertext, "wrong", &nonce, &salt).is_err());
}

#[test]
fn test_key_derivation_deterministic() {
    let salt = [42u8; 16];
    let k1 = derive_key("password", &salt).unwrap();
    let k2 = derive_key("password", &salt).unwrap();
    assert_eq!(k1, k2);
}

#[test]
fn test_frame_encode_decode_roundtrip() {
    let config = FrameConfig::new(2, 4, 32, 30, 18).unwrap();

    let header_data = vec![0xAB; HEADER_SIZE * 3];
    let rs_data = vec![0x55; 1024];

    let img = encode_frame_to_image(&header_data, &rs_data, &config);

    let decoded_header = decode_header_area(&img, config.block_size, config.levels);
    assert_eq!(
        &decoded_header[..header_data.len()],
        &header_data[..],
        "header roundtrip failed"
    );

    let decoded_data = decode_data_area(&img, &config);
    assert_eq!(
        &decoded_data[..rs_data.len()],
        &rs_data[..],
        "data roundtrip failed"
    );
}

#[test]
fn test_roundtrip_no_ffmpeg() {
    let original: Vec<u8> = (0..5000).map(|i| (i % 256) as u8).collect();
    let password = "test-password-123";

    let config = FrameConfig::new(2, 4, 32, 30, 18).unwrap();

    let (ciphertext, nonce, salt) = encrypt(&original, password).unwrap();
    let file_size = original.len() as u64;

    let max_raw = config.max_raw_per_frame();
    let num_frames = (ciphertext.len() + max_raw - 1) / max_raw;

    let mut frame_images = Vec::new();

    for i in 0..num_frames {
        let start = i * max_raw;
        let end = std::cmp::min(start + max_raw, ciphertext.len());
        let frame_data = ciphertext[start..end].to_vec();

        let rs_encoded = rs_encode(&frame_data, config.ecc_len as usize, config.rs_data_len());
        let data_hash: [u8; 32] = sha2::Sha256::digest(&rs_encoded).into();

        let hdr = FrameHeader {
            version: 1,
            frame_number: i as u32,
            total_frames: num_frames as u32,
            block_size: config.block_size,
            levels: config.levels,
            file_size,
            data_length: frame_data.len() as u32,
            ecc_len: config.ecc_len,
            rs_data_len: config.rs_data_len() as u16,
            nonce,
            salt,
            data_sha256: data_hash,
        };

        let header_bytes = encode_header_triple(&hdr);
        let img = encode_frame_to_image(&header_bytes, &rs_encoded, &config);
        frame_images.push(img);
    }

    let first_header_bytes =
        decode_header_area(&frame_images[0], config.block_size, config.levels);
    let first_header = decode_header_triple(&first_header_bytes).unwrap();

    assert_eq!(first_header.total_frames, num_frames as u32);
    assert_eq!(first_header.file_size, file_size);

    let mut recovered_ciphertext = Vec::new();

    for (i, img) in frame_images.iter().enumerate() {
        let header_bytes = decode_header_area(img, config.block_size, config.levels);
        let frame_hdr = decode_header_triple(&header_bytes).unwrap();
        assert_eq!(frame_hdr.frame_number, i as u32);

        let data_bytes = decode_data_area(img, &config);
        let data_len = frame_hdr.data_length as usize;
        let rs_decoded = rs_decode(
            &data_bytes,
            config.ecc_len as usize,
            config.rs_data_len(),
            data_len,
        )
        .unwrap();

        recovered_ciphertext.extend_from_slice(&rs_decoded);
    }

    let plaintext = decrypt(
        &recovered_ciphertext,
        password,
        &first_header.nonce,
        &first_header.salt,
    )
    .unwrap();

    let recovered = &plaintext[..file_size as usize];
    assert_eq!(recovered, &original[..], "roundtrip mismatch!");
}

#[test]
fn test_roundtrip_with_noise() {
    let original: Vec<u8> = b"Vstorage noise resilience test data!".to_vec();
    let password = "noisy";

    let config = FrameConfig::new(4, 4, 32, 30, 18).unwrap();

    let frames = encode_frames(&original, Some(password), &config).unwrap();

    let mut noisy_frames = Vec::new();
    for img in frames.into_iter() {
        let mut img = img;
        let (w, h) = (img.width(), img.height());
        let mut y = 0;
        while y < h {
            let mut x = 0;
            while x < w {
                let p = img.get_pixel(x, y);
                img.put_pixel(
                    x,
                    y,
                    p.0.saturating_add(10),
                    p.1.saturating_sub(8),
                    p.2.saturating_add(5),
                );
                x += 11;
            }
            y += 7;
        }
        noisy_frames.push(img);
    }

    let recovered = decode_frames(&noisy_frames, Some(password)).unwrap();
    assert_eq!(recovered, original, "noisy roundtrip failed!");
}

#[test]
fn test_pipeline_roundtrip_encrypted() {
    let original: Vec<u8> = (0..5000).map(|i| (i % 256) as u8).collect();
    let config = FrameConfig::new(2, 4, 32, 30, 18).unwrap();

    let frames = encode_frames(&original, Some("test-password-123"), &config).unwrap();
    assert_eq!(frames.len(), 1);

    let recovered = decode_frames(&frames, Some("test-password-123")).unwrap();
    assert_eq!(recovered, original);
}

#[test]
fn test_pipeline_roundtrip_plain_multiframe() {
    let original: Vec<u8> = (0..3_000_000u64).map(|i| (i.wrapping_mul(2654435761) >> 13) as u8).collect();
    let config = FrameConfig::new(2, 4, 32, 30, 18).unwrap();

    let frames = encode_frames(&original, None, &config).unwrap();
    let expected_frames =
        (original.len() + config.max_raw_per_frame() - 1) / config.max_raw_per_frame();
    assert_eq!(frames.len(), expected_frames);

    let hdr_bytes = decode_header_area(&frames[0], 2, 4);
    let hdr = decode_header_triple(&hdr_bytes).unwrap();
    assert_eq!(hdr.block_size, 2);
    assert_eq!(hdr.levels, 4);
    assert_eq!(hdr.file_size, 3_000_000);

    let recovered = decode_frames(&frames, None).unwrap();
    assert_eq!(recovered, original);
}

#[test]
fn test_auto_detect() {
    let original: Vec<u8> = (0..1000).map(|i| (i % 251) as u8).collect();
    let config = FrameConfig::new(8, 16, 32, 30, 18).unwrap();

    let frames = encode_frames(&original, None, &config).unwrap();
    let (hdr, detected) = detect_config_from_frame(&frames[0]).unwrap();
    assert_eq!(hdr.block_size, 8);
    assert_eq!(hdr.levels, 16);
    assert_eq!(detected.block_size, 8);
    assert_eq!(detected.levels, 16);
}

#[test]
fn test_triple_copy_resilience() {
    let original: Vec<u8> = (0..1000).map(|i| (i % 256) as u8).collect();
    let config = FrameConfig::new(2, 4, 32, 30, 18).unwrap();

    let frames = encode_frames(&original, None, &config).unwrap();
    let hdr_bytes = decode_header_area(&frames[0], 2, 4);
    let clean = decode_header_triple(&hdr_bytes).unwrap();

    let mut corrupted = hdr_bytes.clone();
    for i in 90..180 {
        corrupted[i] = 0xFF;
    }
    let recovered = decode_header_triple(&corrupted).unwrap();
    assert_eq!(recovered.file_size, clean.file_size);
    assert_eq!(recovered.total_frames, clean.total_frames);
    assert_eq!(recovered.block_size, 2);
    assert_eq!(recovered.levels, 4);
}

#[test]
fn test_wrong_password_pipeline() {
    let original: Vec<u8> = (0..100).map(|i| (i % 256) as u8).collect();
    let config = FrameConfig::new(2, 4, 32, 30, 18).unwrap();

    let frames = encode_frames(&original, Some("correct"), &config).unwrap();
    match decode_frames(&frames, Some("wrong")) {
        Err(VstorageError::Crypto(_)) => {}
        _ => panic!("expected a Crypto error"),
    }
}

#[test]
fn test_encryption_tamper_detect() {
    let original: Vec<u8> = (0..200).map(|i| (i % 256) as u8).collect();
    let password = "tamper-check";
    let (mut ciphertext, nonce, salt) = encrypt(&original, password).unwrap();
    ciphertext[10] ^= 0x01;
    match decrypt(&ciphertext, password, &nonce, &salt) {
        Err(VstorageError::Crypto(_)) => {}
        _ => panic!("expected a Crypto error"),
    }
}

#[test]
fn test_encrypted_without_password() {
    let original: Vec<u8> = (0..100).map(|i| (i % 256) as u8).collect();
    let config = FrameConfig::new(2, 4, 32, 30, 18).unwrap();

    let frames = encode_frames(&original, Some("secret"), &config).unwrap();
    match decode_frames(&frames, None) {
        Err(VstorageError::Crypto(_)) => {}
        _ => panic!("expected a Crypto error"),
    }
}

#[test]
fn test_extra_frames_ignored() {
    let original: Vec<u8> = (0..2000).map(|i| (i % 256) as u8).collect();
    let config = FrameConfig::new(2, 4, 32, 30, 18).unwrap();

    let mut frames = encode_frames(&original, None, &config).unwrap();
    frames.push(RgbFrame::new(3840, 2160));
    frames.push(RgbFrame::new(3840, 2160));

    let recovered = decode_frames(&frames, None).unwrap();
    assert_eq!(recovered, original);
}

#[test]
fn test_short_sequence_fails() {
    let max_raw = FrameConfig::new(2, 4, 32, 30, 18).unwrap().max_raw_per_frame();
    let original: Vec<u8> = (0..2 * max_raw).map(|i| (i % 256) as u8).collect();
    let config = FrameConfig::new(2, 4, 32, 30, 18).unwrap();

    let mut frames = encode_frames(&original, None, &config).unwrap();
    assert_eq!(frames.len(), 2);
    frames.pop();
    match decode_frames(&frames, None) {
        Err(VstorageError::Ecc(_)) => {}
        _ => panic!("expected an Ecc error"),
    }
}

#[test]
fn test_header_fallback_full_frame() {
    let max_raw = FrameConfig::new(2, 4, 32, 30, 18).unwrap().max_raw_per_frame();
    let original: Vec<u8> = (0..2 * max_raw).map(|i| (i % 256) as u8).collect();
    let config = FrameConfig::new(2, 4, 32, 30, 18).unwrap();

    let mut frames = encode_frames(&original, None, &config).unwrap();
    assert_eq!(frames.len(), 2);

    // Destroy the second frame's header rows (the first two logical rows);
    // its slice fills the frame, so the max_raw fallback still decodes it.
    let header_height = 2 * config.block_size as u32;
    for y in 0..header_height {
        for x in 0..3840 {
            frames[1].put_pixel(x, y, 255, 255, 255);
        }
    }

    let recovered = decode_frames(&frames, None).unwrap();
    assert_eq!(recovered, original);
}

#[test]
fn test_ecc_cap() {
    // The Reed-Solomon decoder in use cannot safely correct more than 170
    // parity bytes per block; such configurations are rejected.
    assert!(FrameConfig::new(2, 4, 170, 30, 18).is_ok());
    match FrameConfig::new(2, 4, 200, 30, 18) {
        Err(VstorageError::Config(_)) => {}
        _ => panic!("expected a Config error"),
    }
}

#[test]
fn test_header_capacity_rejected() {
    // At block size 16 with two levels the header area holds only 180 bytes,
    // too few for the 270-byte triple header; encoding must refuse it.
    let original: Vec<u8> = (0..100).map(|i| (i % 256) as u8).collect();
    let config = FrameConfig::new(16, 2, 32, 30, 18).unwrap();
    match encode_frames(&original, None, &config) {
        Err(VstorageError::Config(_)) => {}
        _ => panic!("expected a Config error"),
    }
}

#[test]
fn test_spurious_password_ignored_on_plain_video() {
    let original: Vec<u8> = (0..500).map(|i| (i % 256) as u8).collect();
    let config = FrameConfig::new(2, 4, 32, 30, 18).unwrap();

    let frames = encode_frames(&original, None, &config).unwrap();
    let recovered = decode_frames(&frames, Some("ignored")).unwrap();
    assert_eq!(recovered, original);
}
