//! The archive container: save and open round trips, lazy against
//! eager opening, merging, mutation, and the malformed inputs an open
//! must reject.

use packlib::error::Error;
use packlib::packedfile::{PackedFile, PackedFileData};
use packlib::packfile::PackFile;
use packlib::version::{
    PFHVersion, BIT_DATA_ENCRYPTED, BIT_EXTENDED_HEADER, BIT_INDEX_ENCRYPTED, BIT_INDEX_TIMESTAMPS,
};

fn entry(path: &[u8], timestamp: u64, data: &[u8]) -> PackedFile {
    PackedFile::read_from_vec(path.to_vec(), timestamp, false, data.to_vec())
}

fn build(version: PFHVersion, bitmask: u32, entries: &[(&[u8], u64, &[u8])]) -> PackFile {
    let mut pf = PackFile::new_with_name(b"test.pack".to_vec(), version);
    pf.bitmask = bitmask;
    for (path, ts, data) in entries {
        pf.add_packed_file(entry(path, *ts, data), false).unwrap();
    }
    pf
}

#[test]
fn save_then_open_round_trips_paths_and_bodies() {
    let pf = build(
        PFHVersion::PFH5,
        0,
        &[
            (b"script/one.lua", 0, b"print(1)"),
            (b"data/two.bin", 0, &[0u8, 1, 2, 3, 255]),
            (b"three", 0, b""),
        ],
    );
    let bytes = pf.save().unwrap();
    let back = PackFile::open(bytes, false).unwrap();
    assert_eq!(back.pfh_version, PFHVersion::PFH5);
    assert_eq!(back.packed_files.len(), 3);
    assert_eq!(back.packed_files[0].path, b"script/one.lua".to_vec());
    assert_eq!(back.get_data_by_path(&b"script/one.lua".to_vec()).unwrap(), b"print(1)".to_vec());
    assert_eq!(
        back.get_data_by_path(&b"data/two.bin".to_vec()).unwrap(),
        vec![0u8, 1, 2, 3, 255]
    );
    assert_eq!(back.get_data_by_path(&b"three".to_vec()).unwrap(), Vec::<u8>::new());
}

#[test]
fn index_without_timestamp_bit_writes_no_timestamp_field() {
    // One entry with path "a": its index record must be exactly the
    // four-byte size field, one path byte and the terminator — no
    // timestamp — and the saved archive must round-trip untouched.
    let pf = build(PFHVersion::PFH4, 0, &[(b"a", 77, b"body-bytes")]);
    let bytes = pf.save().unwrap();
    let index_size = u32::from_le_bytes([bytes[12], bytes[13], bytes[14], bytes[15]]);
    assert_eq!(index_size, 4 + 1 + 1);
    let back = PackFile::open(bytes.clone(), false).unwrap();
    assert_eq!(back.packed_files.len(), 1);
    assert_eq!(back.packed_files[0].path, b"a".to_vec());
    // The timestamp was not written, so it comes back as zero.
    assert_eq!(back.packed_files[0].timestamp, 0);
    assert_eq!(back.get_data_by_path(&b"a".to_vec()).unwrap(), b"body-bytes".to_vec());
    // Saving the re-opened archive reproduces the same bytes.
    assert_eq!(back.save().unwrap(), bytes);
}

#[test]
fn index_with_timestamp_bit_round_trips_timestamps() {
    let pf = build(PFHVersion::PFH4, BIT_INDEX_TIMESTAMPS, &[(b"a", 123456789, b"x")]);
    let bytes = pf.save().unwrap();
    let index_size = u32::from_le_bytes([bytes[12], bytes[13], bytes[14], bytes[15]]);
    assert_eq!(index_size, 8 + 4 + 1 + 1);
    let back = PackFile::open(bytes, false).unwrap();
    assert_eq!(back.packed_files[0].timestamp, 123456789);
}

#[test]
fn lazy_and_eager_opens_decode_identically() {
    let pf = build(
        PFHVersion::PFH5,
        0,
        &[(b"first/a", 0, b"alpha"), (b"second/b", 0, b"beta-beta-beta")],
    );
    let bytes = pf.save().unwrap();
    let lazy = PackFile::open(bytes.clone(), true).unwrap();
    let eager = PackFile::open(bytes, false).unwrap();
    assert_eq!(lazy.packed_files.len(), eager.packed_files.len());
    for i in 0..lazy.packed_files.len() {
        assert_eq!(lazy.packed_files[i].path, eager.packed_files[i].path);
        assert_eq!(lazy.get_data_by_index(i).unwrap(), eager.get_data_by_index(i).unwrap());
    }
    // A lazy body really starts on the backing buffer.
    assert!(matches!(lazy.packed_files[0].data, PackedFileData::OnDisk(_, _)));
    assert!(matches!(eager.packed_files[0].data, PackedFileData::OnMemory(_, _, _)));
}

#[test]
fn toggling_compression_changes_nothing_until_save() {
    let mut pf = build(PFHVersion::PFH5, 0, &[(b"a", 0, b"wwwwwwwwwwwwwwwwww"), (b"b", 0, b"z")]);
    let before_a = pf.get_data_by_path(&b"a".to_vec()).unwrap();
    let before_b = pf.get_data_by_path(&b"b".to_vec()).unwrap();
    pf.toggle_compression(true);
    // The entries' bytes are untouched by the toggle alone.
    assert_eq!(pf.get_data_by_path(&b"a".to_vec()).unwrap(), before_a);
    assert_eq!(pf.get_data_by_path(&b"b".to_vec()).unwrap(), before_b);
    assert!(matches!(&pf.packed_files[0].data, PackedFileData::OnMemory(d, false, false) if d == &before_a));
    // After a save the bodies are compressed on the wire, yet still
    // decode to the original bytes.
    let bytes = pf.save().unwrap();
    let back = PackFile::open(bytes, false).unwrap();
    assert!(back.packed_files[0].is_compressed);
    assert_eq!(back.get_data_by_path(&b"a".to_vec()).unwrap(), before_a);
    assert_eq!(back.get_data_by_path(&b"b".to_vec()).unwrap(), before_b);
}

#[test]
fn toggling_compression_off_clears_the_bit() {
    let mut pf = build(PFHVersion::PFH5, 0, &[(b"a", 0, b"abc")]);
    pf.toggle_compression(true);
    pf.toggle_compression(false);
    let bytes = pf.save().unwrap();
    let back = PackFile::open(bytes, false).unwrap();
    assert!(!back.packed_files[0].is_compressed);
}

#[test]
fn compression_bit_is_refused_on_an_old_revision() {
    let mut pf = build(PFHVersion::PFH2, 0, &[(b"a", 0, b"abc")]);
    pf.toggle_compression(true);
    assert_eq!(pf.bitmask, 0);
}

#[test]
fn encrypted_data_round_trips() {
    let pf = build(PFHVersion::PFH4, BIT_DATA_ENCRYPTED, &[(b"a", 0, b"secret-body")]);
    let bytes = pf.save().unwrap();
    let back = PackFile::open(bytes, true).unwrap();
    assert_eq!(back.packed_files[0].is_encrypted, Some(PFHVersion::PFH4));
    assert_eq!(back.get_data_by_path(&b"a".to_vec()).unwrap(), b"secret-body".to_vec());
}

#[test]
fn encrypted_index_round_trips() {
    let pf = build(PFHVersion::PFH5, BIT_INDEX_ENCRYPTED, &[(b"deep/path/name", 0, b"1234")]);
    let bytes = pf.save().unwrap();
    let back = PackFile::open(bytes, false).unwrap();
    assert_eq!(back.packed_files[0].path, b"deep/path/name".to_vec());
    assert_eq!(back.get_data_by_path(&b"deep/path/name".to_vec()).unwrap(), b"1234".to_vec());
}

#[test]
fn extended_header_round_trips_timestamp_and_dependencies() {
    let mut pf = build(PFHVersion::PFH5, BIT_EXTENDED_HEADER, &[(b"a", 0, b"x")]);
    pf.timestamp = 9_876_543_210;
    pf.set_packfiles_list(vec![b"base.pack".to_vec(), b"patch.pack".to_vec()]);
    let bytes = pf.save().unwrap();
    let back = PackFile::open(bytes, false).unwrap();
    assert_eq!(back.timestamp, 9_876_543_210);
    assert_eq!(back.get_packfiles_list().len(), 2);
    assert_eq!(back.get_packfiles_list()[0], b"base.pack".to_vec());
    assert_eq!(back.get_packfiles_list()[1], b"patch.pack".to_vec());
}

#[test]
fn later_archive_shadows_earlier_one() {
    let a = build(PFHVersion::PFH5, 0, &[(b"db/t/data", 0, b"from-a"), (b"only-a", 0, b"a")]);
    let b = build(PFHVersion::PFH5, 0, &[(b"db/t/data", 0, b"from-b"), (b"only-b", 0, b"b")]);
    let bytes_a = a.save().unwrap();
    let bytes_b = b.save().unwrap();

    let ab = PackFile::open_packfiles(&vec![bytes_a.clone(), bytes_b.clone()], false).unwrap();
    assert_eq!(ab.get_data_by_path(&b"db/t/data".to_vec()).unwrap(), b"from-b".to_vec());
    assert_eq!(ab.get_data_by_path(&b"only-a".to_vec()).unwrap(), b"a".to_vec());
    assert_eq!(ab.get_data_by_path(&b"only-b".to_vec()).unwrap(), b"b".to_vec());
    assert_eq!(ab.packed_files.len(), 3);

    let ba = PackFile::open_packfiles(&vec![bytes_b, bytes_a], false).unwrap();
    assert_eq!(ba.get_data_by_path(&b"db/t/data".to_vec()).unwrap(), b"from-a".to_vec());
}

#[test]
fn open_rejects_bad_magic() {
    let mut bytes = build(PFHVersion::PFH5, 0, &[(b"a", 0, b"x")]).save().unwrap();
    bytes[0] = b'Q';
    assert_eq!(PackFile::open(bytes, false).err(), Some(Error::CorruptData));
}

#[test]
fn open_rejects_truncated_bodies() {
    let mut bytes = build(PFHVersion::PFH5, 0, &[(b"a", 0, b"xyz")]).save().unwrap();
    bytes.pop();
    assert_eq!(PackFile::open(bytes, false).err(), Some(Error::CorruptData));
}

#[test]
fn open_rejects_trailing_garbage() {
    let mut bytes = build(PFHVersion::PFH5, 0, &[(b"a", 0, b"xyz")]).save().unwrap();
    bytes.push(0);
    assert_eq!(PackFile::open(bytes, false).err(), Some(Error::CorruptData));
}

#[test]
fn open_rejects_illegal_bitmask_bits() {
    // A PFH0 archive may not carry the timestamp bit.
    let mut bytes = build(PFHVersion::PFH0, 0, &[(b"a", 0, b"x")]).save().unwrap();
    bytes[4] |= BIT_INDEX_TIMESTAMPS as u8;
    assert_eq!(PackFile::open(bytes, false).err(), Some(Error::CorruptData));
}

#[test]
fn open_rejects_duplicate_paths() {
    // Hand-craft an index with the same path twice by merging the
    // bytes of a saved archive: corrupt the second path to match the
    // first.
    let pf = build(PFHVersion::PFH5, 0, &[(b"aa", 0, b"1"), (b"ab", 0, b"2")]);
    let mut bytes = pf.save().unwrap();
    // Index starts at 16: records are [size u32]["aa" 0][size u32]["ab" 0].
    // The second path's last byte sits at 16 + 7 + 5.
    bytes[16 + 7 + 5] = b'a';
    assert_eq!(PackFile::open(bytes, false).err(), Some(Error::CorruptData));
}

#[test]
fn add_without_overwrite_rejects_an_existing_path() {
    let mut pf = build(PFHVersion::PFH5, 0, &[(b"a", 0, b"1")]);
    let r = pf.add_packed_file(entry(b"a", 0, b"2"), false);
    assert_eq!(r, Err(Error::PathConflict));
    assert_eq!(pf.get_data_by_path(&b"a".to_vec()).unwrap(), b"1".to_vec());
}

#[test]
fn add_with_overwrite_replaces_in_place() {
    let mut pf = build(PFHVersion::PFH5, 0, &[(b"a", 0, b"1"), (b"b", 0, b"2")]);
    pf.add_packed_file(entry(b"a", 0, b"new"), true).unwrap();
    assert_eq!(pf.packed_files.len(), 2);
    assert_eq!(pf.packed_files[0].path, b"a".to_vec());
    assert_eq!(pf.get_data_by_path(&b"a".to_vec()).unwrap(), b"new".to_vec());
}

#[test]
fn remove_returns_the_entry_and_unknown_paths_fail() {
    let mut pf = build(PFHVersion::PFH5, 0, &[(b"a", 0, b"1")]);
    let e = pf.remove_packed_file_by_path(&b"a".to_vec()).unwrap();
    assert_eq!(e.path, b"a".to_vec());
    assert_eq!(pf.packed_files.len(), 0);
    assert_eq!(pf.remove_packed_file_by_path(&b"a".to_vec()).err(), Some(Error::EntryNotFound));
}

#[test]
fn rename_moves_and_reports_conflicts() {
    let mut pf = build(PFHVersion::PFH5, 0, &[(b"a", 0, b"1"), (b"b", 0, b"2")]);
    assert_eq!(pf.rename_packedfile(&b"missing".to_vec(), &b"c".to_vec()), Err(Error::EntryNotFound));
    assert_eq!(pf.rename_packedfile(&b"a".to_vec(), &b"b".to_vec()), Err(Error::PathConflict));
    pf.rename_packedfile(&b"a".to_vec(), &b"c".to_vec()).unwrap();
    assert!(!pf.packedfile_exists(&b"a".to_vec()));
    assert_eq!(pf.get_data_by_path(&b"c".to_vec()).unwrap(), b"1".to_vec());
}

#[test]
fn folder_lookup_sees_only_strict_children() {
    let pf = build(PFHVersion::PFH5, 0, &[(b"db/units/data", 0, b"1")]);
    assert!(pf.folder_exists(&b"db".to_vec()));
    assert!(pf.folder_exists(&b"db/units".to_vec()));
    assert!(!pf.folder_exists(&b"db/unit".to_vec()));
    assert!(!pf.folder_exists(&b"db/units/data".to_vec()));
}

#[test]
fn set_pfh_version_drops_bits_the_new_revision_cannot_carry() {
    let mut pf = build(PFHVersion::PFH5, 0, &[(b"a", 0, b"x")]);
    pf.toggle_compression(true);
    pf.set_pfh_version(PFHVersion::PFH0);
    assert_eq!(pf.pfh_version, PFHVersion::PFH0);
    assert_eq!(pf.bitmask, 0);
}

#[test]
fn lazy_entry_materialises_once_and_stays_cached() {
    let pf = build(PFHVersion::PFH5, 0, &[(b"a", 0, b"cache-me")]);
    let bytes = pf.save().unwrap();
    let mut lazy = PackFile::open(bytes, true).unwrap();
    assert!(matches!(lazy.packed_files[0].data, PackedFileData::OnDisk(_, _)));
    let d = lazy.load_entry_by_index(0).unwrap();
    assert_eq!(d, b"cache-me".to_vec());
    assert!(matches!(&lazy.packed_files[0].data, PackedFileData::OnMemory(b, false, false) if b == &d));
    // Reading again is served from memory and yields the same bytes.
    assert_eq!(lazy.load_entry_by_index(0).unwrap(), d);
}

#[test]
fn entry_size_reports_wire_size_on_disk_and_logical_size_in_memory() {
    let mut pf = build(PFHVersion::PFH5, 0, &[(b"a", 0, b"0123456789")]);
    pf.toggle_compression(true);
    let bytes = pf.save().unwrap();
    let mut back = PackFile::open(bytes, true).unwrap();
    let wire = back.packed_files[0].get_size();
    back.load_entry_by_index(0).unwrap();
    let logical = back.packed_files[0].get_size();
    assert_eq!(logical, 10);
    assert_ne!(wire, logical);
}

#[test]
fn entry_data_and_info_from_memory_reports_state() {
    let e = entry(b"a", 0, b"xyz");
    let (data, still_compressed, still_encrypted, should_compress, should_encrypt) =
        e.get_data_and_info_from_memory().unwrap();
    assert_eq!(data, b"xyz".to_vec());
    assert!(!still_compressed && !still_encrypted && !should_compress);
    assert!(should_encrypt.is_none());

    let on_disk = PackedFile::read_from_data(
        b"a".to_vec(),
        0,
        false,
        None,
        PackedFileData::OnDisk(0, 3),
    );
    assert_eq!(on_disk.get_data_and_info_from_memory(), Err(Error::DataNotInMemory));
}

#[test]
fn set_data_discards_old_transforms() {
    let mut pf = build(PFHVersion::PFH5, 0, &[(b"a", 0, b"old")]);
    pf.packed_files[0].set_data(b"new-bytes".to_vec());
    assert_eq!(pf.get_data_by_path(&b"a".to_vec()).unwrap(), b"new-bytes".to_vec());
}

#[test]
fn set_data_by_path_edits_in_place() {
    let mut pf = build(PFHVersion::PFH5, 0, &[(b"a", 0, b"one"), (b"b", 0, b"two")]);
    pf.set_data_by_path(&b"b".to_vec(), b"edited".to_vec()).unwrap();
    assert_eq!(pf.get_data_by_path(&b"b".to_vec()).unwrap(), b"edited".to_vec());
    assert_eq!(pf.get_data_by_path(&b"a".to_vec()).unwrap(), b"one".to_vec());
    // Order is kept.
    assert_eq!(pf.packed_files[1].path, b"b".to_vec());
    assert_eq!(
        pf.set_data_by_path(&b"missing".to_vec(), Vec::new()).err(),
        Some(Error::EntryNotFound)
    );
}

#[test]
fn notes_are_kept_on_the_archive() {
    let mut pf = PackFile::new();
    assert!(pf.get_notes().is_none());
    pf.set_notes(Some(b"remember".to_vec()));
    assert_eq!(pf.get_notes().as_ref().unwrap(), &b"remember".to_vec());
}
