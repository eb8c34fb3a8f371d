use std::io::ErrorKind;

use zx0decompress::{decompress, decompress_with_settings, DecompressError, Settings};

const ABRA: [u8; 14] = [
    0x1f, 0x41, 0x42, 0x52, 0x41, 0x20, 0xf6, 0xab, 0x43, 0x44, 0xf5, 0xf2, 0x55, 0x58,
];

#[test]
fn decompress_to_expected() {
    let source = ABRA;
    let result = decompress(&source).unwrap();
    assert_eq!(&result, b"ABRA ABRACADABRA");
}

#[test]
fn empty_input() {
    let source: &[u8] = &[];
    let result = decompress(source);
    let Err(DecompressError::ReadFailure(e)) = result else {
        panic!("Expected read to fail, got {result:?}");
    };
    assert_eq!(e.kind(), ErrorKind::UnexpectedEof);
}

#[test]
fn invalid_input_offset_0() {
    let source = [
        149, 0, 0, 0, 255, 255, 255, 255, 85, 85, 85, 85, 85, 85, 85, 85, 85, 85, 85, 85, 85, 85,
        85, 170, 0,
    ];
    let result = decompress(&source);
    let Err(DecompressError::InvalidOffset) = result else {
        panic!("Expected InvalidOffset, got {result:?}");
    };
}

#[test]
fn every_truncation_fails_with_read_failure() {
    for n in 0..ABRA.len() {
        let result = decompress(&ABRA[..n]);
        assert!(
            matches!(result, Err(DecompressError::ReadFailure(_))),
            "prefix of {n} bytes gave {result:?}"
        );
    }
}

#[test]
fn cap_cuts_back_reference() {
    let settings = Settings { classic_mode: false, max_output_size: 7 };
    let result = decompress_with_settings(&ABRA, settings).unwrap();
    assert_eq!(&result, b"ABRA AB");
}

#[test]
fn cap_stops_before_end_marker() {
    let settings = Settings { classic_mode: false, max_output_size: 16 };
    let result = decompress_with_settings(&ABRA, settings).unwrap();
    assert_eq!(&result, b"ABRA ABRACADABRA");
    let settings = Settings { classic_mode: false, max_output_size: 15 };
    let result = decompress_with_settings(&ABRA, settings).unwrap();
    assert_eq!(&result, b"ABRA ABRACADABR");
}

#[test]
fn zero_cap_gives_empty_output() {
    let settings = Settings { classic_mode: false, max_output_size: 0 };
    let result = decompress_with_settings(&[], settings).unwrap();
    assert!(result.is_empty());
}

#[test]
fn literal_run_is_cut_at_cap() {
    let settings = Settings { classic_mode: false, max_output_size: 3 };
    let result = decompress_with_settings(&ABRA, settings).unwrap();
    assert_eq!(&result, b"ABR");
}

#[test]
fn cut_literal_run_still_reads_whole_run() {
    // The cap keeps three of the five literals, but all five must be there.
    let settings = Settings { classic_mode: false, max_output_size: 3 };
    let result = decompress_with_settings(&ABRA[..4], settings);
    assert!(matches!(result, Err(DecompressError::ReadFailure(_))), "got {result:?}");
    let result = decompress_with_settings(&ABRA[..6], settings).unwrap();
    assert_eq!(&result, b"ABR");
}

#[test]
fn capped_result_is_prefix_of_full_result() {
    let full = decompress(&ABRA).unwrap();
    for cap in 0..=full.len() + 2 {
        let settings = Settings { classic_mode: false, max_output_size: cap };
        let result = decompress_with_settings(&ABRA, settings).unwrap();
        assert_eq!(&result[..], &full[..cap.min(full.len())]);
    }
}

#[test]
fn output_bound_on_adversarial_inputs() {
    let inputs: [&[u8]; 5] = [
        &[0x00, 0x00, 0x00, 0x00],
        &[0xff; 32],
        &[0x55; 40],
        &[0xaa; 40],
        &[149, 0, 0, 0, 255, 255, 255, 255, 85, 85, 85, 85, 85, 85, 85, 85, 85, 85, 85, 85, 85],
    ];
    for input in inputs {
        for cap in [1usize, 2, 7, 431] {
            let settings = Settings { classic_mode: false, max_output_size: cap };
            if let Ok(out) = decompress_with_settings(input, settings) {
                assert!(out.len() <= cap);
            }
        }
    }
}

#[test]
fn end_marker_first() {
    // One literal, then a new offset whose high part is the end marker.
    let source = [0xd5, 0x41, 0x55, 0x60];
    let result = decompress(&source).unwrap();
    assert_eq!(&result, b"A");
}

#[test]
fn offset_one_repeats_last_byte() {
    let source = [0xe3, 0x41, 0xfe, 0x55, 0x55, 0x80];
    let result = decompress(&source).unwrap();
    assert_eq!(&result, b"AAAAAA");
}

#[test]
fn default_settings_agree() {
    let inputs: [&[u8]; 3] = [&ABRA, &[], &[0xe3, 0x41, 0xfe, 0x55, 0x55, 0x80]];
    for input in inputs {
        let plain = decompress(input);
        let explicit = decompress_with_settings(input, Settings::default());
        assert_eq!(format!("{plain:?}"), format!("{explicit:?}"));
    }
    let settings = Settings::default();
    assert!(!settings.classic_mode);
    assert_eq!(settings.max_output_size, usize::MAX);
}

#[test]
fn classic_mode_changes_result() {
    let settings = Settings { classic_mode: true, max_output_size: usize::MAX };
    let result = decompress_with_settings(&ABRA, settings);
    assert!(matches!(result, Err(DecompressError::ReadFailure(_))), "got {result:?}");
}

#[test]
fn invalid_offset_beyond_output() {
    // One literal, then a new offset of 2 with only one byte written.
    let source = [0xe3, 0x41, 0xfc, 0x55, 0x55, 0x80];
    let result = decompress(&source);
    assert!(matches!(result, Err(DecompressError::InvalidOffset)), "got {result:?}");
}

/// Packs bits, most significant first, into bytes padded with zero bits.
fn pack_bits(bits: &[u8]) -> Vec<u8> {
    let mut bytes = vec![0u8; (bits.len() + 7) / 8];
    for (i, bit) in bits.iter().enumerate() {
        if *bit == 1 {
            bytes[i / 8] |= 0x80 >> (i % 8);
        }
    }
    bytes
}

#[test]
fn gamma_value_past_usize_is_invalid_length() {
    // Sixty-four zero continuation bits, each with a zero data bit.
    let source = [0u8; 17];
    let result = decompress(&source);
    assert!(matches!(result, Err(DecompressError::InvalidLength)), "got {result:?}");
}

#[test]
fn offset_high_part_past_usize_is_invalid_offset() {
    // One literal, then a new offset whose high part is 2^57 + 1: its data
    // bits are flipped, so 56 ones and then a zero.
    let mut bits = vec![1u8, 1];
    for i in 0..57 {
        bits.push(0);
        bits.push(if i < 56 { 1 } else { 0 });
    }
    bits.push(1);
    let packed = pack_bits(&bits);
    let mut source = vec![packed[0], 0x41];
    source.extend_from_slice(&packed[1..]);
    source.push(0xfe);
    source.extend_from_slice(&[0x55, 0x55, 0x80]);
    let result = decompress(&source);
    assert!(matches!(result, Err(DecompressError::InvalidOffset)), "got {result:?}");
}
