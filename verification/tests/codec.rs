//! The codec primitives: obfuscation involution and compression
//! round trips, and every way a frame can be malformed.

use packlib::codec::{compress, decompress, deobfuscate, obfuscate};
use packlib::error::Error;
use packlib::version::PFHVersion;

const ALL_VERSIONS: [PFHVersion; 5] = [
    PFHVersion::PFH0,
    PFHVersion::PFH2,
    PFHVersion::PFH3,
    PFHVersion::PFH4,
    PFHVersion::PFH5,
];

#[test]
fn obfuscation_is_an_involution_for_every_version() {
    let data: Vec<u8> = (0u16..600).map(|i| (i % 251) as u8).collect();
    for v in ALL_VERSIONS {
        let once = obfuscate(&data, v);
        let twice = deobfuscate(&once, v);
        assert_eq!(twice, data);
    }
}

#[test]
fn obfuscation_changes_the_bytes() {
    let data = vec![0u8; 64];
    for v in ALL_VERSIONS {
        let once = obfuscate(&data, v);
        assert_eq!(once.len(), 64);
        assert_ne!(once, data);
    }
}

#[test]
fn different_versions_use_different_key_schedules() {
    let data = vec![0u8; 16];
    let a = obfuscate(&data, PFHVersion::PFH4);
    let b = obfuscate(&data, PFHVersion::PFH5);
    assert_ne!(a, b);
}

#[test]
fn obfuscating_empty_input_yields_empty_output() {
    let data: Vec<u8> = Vec::new();
    let once = obfuscate(&data, PFHVersion::PFH5);
    assert!(once.is_empty());
}

#[test]
fn compression_round_trips() {
    let data = b"aaaaaabbbbcdefffffffffffffffffffffffffffggg".to_vec();
    let packed = compress(&data);
    let unpacked = decompress(&packed).unwrap();
    assert_eq!(unpacked, data);
}

#[test]
fn compression_round_trips_empty_input() {
    let data: Vec<u8> = Vec::new();
    let packed = compress(&data);
    assert_eq!(packed.len(), 4);
    assert_eq!(decompress(&packed).unwrap(), data);
}

#[test]
fn compression_round_trips_long_uniform_runs() {
    // A run longer than one count byte can carry.
    let data = vec![7u8; 1000];
    let packed = compress(&data);
    assert!(packed.len() < data.len());
    assert_eq!(decompress(&packed).unwrap(), data);
}

#[test]
fn compression_shrinks_a_run() {
    let data = vec![42u8; 255];
    let packed = compress(&data);
    assert_eq!(packed.len(), 6);
    assert_eq!(packed[4], 255);
    assert_eq!(packed[5], 42);
}

#[test]
fn decompress_rejects_a_missing_header() {
    assert_eq!(decompress(&vec![1, 2, 3]), Err(Error::CorruptData));
}

#[test]
fn decompress_rejects_a_zero_run_count() {
    // Header declares one byte; the pair carries a zero count.
    assert_eq!(decompress(&vec![1, 0, 0, 0, 0, 9]), Err(Error::CorruptData));
}

#[test]
fn decompress_rejects_a_dangling_half_pair() {
    assert_eq!(decompress(&vec![1, 0, 0, 0, 1]), Err(Error::CorruptData));
}

#[test]
fn decompress_rejects_a_length_mismatch() {
    // Header declares two bytes but the pairs expand to one.
    assert_eq!(decompress(&vec![2, 0, 0, 0, 1, 9]), Err(Error::CorruptData));
}

#[test]
fn decompress_accepts_a_well_formed_frame() {
    assert_eq!(decompress(&vec![3, 0, 0, 0, 2, 9, 1, 8]).unwrap(), vec![9, 9, 8]);
}
