use zen::compress::Lz5Error;
use zen::lz5_compress::compress;
use zen::lz5_decompress::decompress;

/// Decompressing what was compressed yields the input back, across
/// every operation kind the encoder can pick.
#[test]
fn compress_then_decompress_round_trips() {
    let cases: Vec<Vec<u8>> = vec![
        vec![],
        vec![0x42],
        vec![1, 2, 3, 4, 5],
        vec![7; 100],
        vec![0xAB; 2000],
        (0..=255).collect(),
        (0..1024).map(|i| (i % 7) as u8).collect(),
        vec![1, 2, 1, 2, 1, 2, 1, 2, 9],
        [
            vec![10, 20, 30, 40, 50, 60, 70, 80],
            vec![0, 0, 0],
            vec![10, 20, 30, 40, 50, 60, 70, 80],
        ]
        .concat(),
        (0..4096).map(|i| (i * 31 % 251) as u8).collect(),
    ];

    for data in cases {
        let compressed = compress(&data);
        let decompressed = decompress(&compressed).unwrap();
        assert_eq!(decompressed, data);
    }
}

/// A short all-equal run becomes a byte-fill command, not a dictionary
/// command: fills win ties because only a strictly longer candidate
/// replaces the running best.
#[test]
fn equal_run_compresses_to_byte_fill() {
    let compressed = compress(&[0xAA, 0xAA, 0xAA, 0xAA, 0xAA]);
    assert_eq!(compressed, vec![0x24, 0xAA, 0xFF]);
}

/// A byte-fill command decodes to exactly `count` repetitions of its
/// payload byte, through the one-byte header for short counts and the
/// extended two-byte header past 32.
#[test]
fn byte_fill_commands_decode_to_repetitions() {
    // One-byte header: count 6.
    assert_eq!(decompress(&[0x25, 0x07, 0xFF]).unwrap(), vec![0x07; 6]);
    // One-byte header at its cap: count 32.
    assert_eq!(decompress(&[0x3F, 0x99, 0xFF]).unwrap(), vec![0x99; 32]);
    // Extended header: count 100.
    assert_eq!(decompress(&[0xE4, 99, 0xAA, 0xFF]).unwrap(), vec![0xAA; 100]);
    // Extended header at its widest: count 1024.
    assert_eq!(decompress(&[0xE7, 0xFF, 0x55, 0xFF]).unwrap(), vec![0x55; 1024]);
}

/// The remaining operation kinds decode as documented.
#[test]
fn decompress_each_operation_kind() {
    // Direct copy of 3 literal bytes.
    assert_eq!(decompress(&[0x02, 9, 8, 7, 0xFF]).unwrap(), vec![9, 8, 7]);
    // Word fill with an odd count truncates the last cycle.
    assert_eq!(decompress(&[0x44, 1, 2, 0xFF]).unwrap(), vec![1, 2, 1, 2, 1]);
    // Incrementing fill wraps modulo 256.
    assert_eq!(decompress(&[0x63, 0xFE, 0xFF]).unwrap(), vec![0xFE, 0xFF, 0x00, 0x01]);
    // Absolute dictionary copy that outruns the produced output cycles
    // its suffix.
    assert_eq!(
        decompress(&[0x02, 5, 6, 7, 0x85, 0x01, 0x00, 0xFF]).unwrap(),
        vec![5, 6, 7, 6, 7, 6, 7, 6, 7]
    );
    // Sliding dictionary copy by backward distance, inverted variant
    // (the inverting ops only fit the extended header).
    assert_eq!(
        decompress(&[0x00, 0x0F, 0xFC, 0x01, 0x01, 0xFF]).unwrap(),
        vec![0x0F, !0x0Fu8, !0x0Fu8]
    );
}

/// Malformed streams are refused rather than decoded partially.
#[test]
fn malformed_streams_are_errors() {
    // No terminator at all.
    assert!(decompress(&[]).is_err());
    // Truncated before a declared payload.
    assert!(decompress(&[0x05, 1, 2]).is_err());
    // An absolute dictionary index past the produced output.
    assert!(decompress(&[0x81, 0x10, 0x00, 0xFF]).is_err());
    // A backward distance longer than the produced output.
    assert!(decompress(&[0x00, 5, 0xC1, 0x09, 0xFF]).is_err());
    let _ = Lz5Error;
}
