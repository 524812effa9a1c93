//! Dependency resolution: later archives shadow earlier ones, broken
//! copies are skipped, and the flat fallback store is consulted last.

use packlib::dependency::{resolve_reference, DependencySet};
use packlib::packedfile::PackedFile;
use packlib::packfile::PackFile;
use packlib::schema::{Definition, Field, FieldType, Schema};
use packlib::table::{DecodedData, Table};
use packlib::version::PFHVersion;

fn units_definition() -> Definition {
    Definition {
        version: 1,
        fields: vec![
            Field {
                name: b"key".to_vec(),
                field_type: FieldType::StringU8,
                is_key: true,
                is_reference: None,
                sub_fields: vec![],
            },
            Field {
                name: b"display".to_vec(),
                field_type: FieldType::StringU8,
                is_key: false,
                is_reference: Some((b"units".to_vec(), b"key".to_vec())),
                sub_fields: vec![],
            },
        ],
    }
}

fn units_schema() -> Schema {
    let mut schema = Schema::new();
    schema.add_definition(b"units".to_vec(), units_definition());
    schema
}

fn units_table(rows: &[(&[u8], &[u8])]) -> Table {
    let mut t = Table::new(b"units".to_vec(), units_definition());
    for (key, display) in rows {
        t.entries.push(vec![
            DecodedData::StringU8(key.to_vec()),
            DecodedData::StringU8(display.to_vec()),
        ]);
    }
    t
}

fn archive_with_units(rows: &[(&[u8], &[u8])]) -> PackFile {
    let mut pf = PackFile::new_with_name(b"dep.pack".to_vec(), PFHVersion::PFH5);
    let body = units_table(rows).encode();
    pf.add_packed_file(
        PackedFile::read_from_vec(b"db/units/data".to_vec(), 0, false, body),
        false,
    )
    .unwrap();
    pf
}

/// A key or display cell as resolve_reference returns it: the cell's
/// wire bytes, a 16-bit length then the text.
fn cell_bytes(s: &[u8]) -> Vec<u8> {
    let mut out = vec![s.len() as u8, 0];
    out.extend_from_slice(s);
    out
}

#[test]
fn later_dependency_shadows_earlier_one() {
    let vanilla = archive_with_units(&[(b"spearman", b"Vanilla Spearman")]);
    let modded = archive_with_units(&[(b"spearman", b"Modded Spearman")]);
    let deps = DependencySet { archives: vec![vanilla, modded], fallback: vec![] };
    let pairs = resolve_reference(&b"units".to_vec(), &b"display".to_vec(), &deps, &units_schema());
    assert_eq!(pairs.len(), 1);
    assert_eq!(pairs[0].0, cell_bytes(b"spearman"));
    assert_eq!(pairs[0].1, cell_bytes(b"Modded Spearman"));
}

#[test]
fn reversed_order_resolves_to_the_other_archive() {
    let vanilla = archive_with_units(&[(b"spearman", b"Vanilla Spearman")]);
    let modded = archive_with_units(&[(b"spearman", b"Modded Spearman")]);
    let deps = DependencySet { archives: vec![modded, vanilla], fallback: vec![] };
    let pairs = resolve_reference(&b"units".to_vec(), &b"display".to_vec(), &deps, &units_schema());
    assert_eq!(pairs.len(), 1);
    assert_eq!(pairs[0].1, cell_bytes(b"Vanilla Spearman"));
}

#[test]
fn an_archive_that_fails_to_decode_is_skipped() {
    let vanilla = archive_with_units(&[(b"spearman", b"Vanilla Spearman")]);
    // The later archive's copy is garbage, so resolution falls back to
    // the earlier archive rather than failing.
    let mut broken = PackFile::new_with_name(b"broken.pack".to_vec(), PFHVersion::PFH5);
    broken
        .add_packed_file(
            PackedFile::read_from_vec(b"db/units/data".to_vec(), 0, false, vec![9, 9]),
            false,
        )
        .unwrap();
    let deps = DependencySet { archives: vec![vanilla, broken], fallback: vec![] };
    let pairs = resolve_reference(&b"units".to_vec(), &b"display".to_vec(), &deps, &units_schema());
    assert_eq!(pairs.len(), 1);
    assert_eq!(pairs[0].1, cell_bytes(b"Vanilla Spearman"));
}

#[test]
fn fallback_store_is_used_only_when_no_archive_supplies_the_table() {
    let fallback = units_table(&[(b"axeman", b"Fallback Axeman")]);
    let empty_archive = PackFile::new_with_name(b"empty.pack".to_vec(), PFHVersion::PFH5);
    let deps = DependencySet { archives: vec![empty_archive], fallback: vec![fallback] };
    let pairs = resolve_reference(&b"units".to_vec(), &b"display".to_vec(), &deps, &units_schema());
    assert_eq!(pairs.len(), 1);
    assert_eq!(pairs[0].0, cell_bytes(b"axeman"));
    assert_eq!(pairs[0].1, cell_bytes(b"Fallback Axeman"));

    let vanilla = archive_with_units(&[(b"spearman", b"Vanilla Spearman")]);
    let fallback2 = units_table(&[(b"axeman", b"Fallback Axeman")]);
    let deps2 = DependencySet { archives: vec![vanilla], fallback: vec![fallback2] };
    let pairs2 =
        resolve_reference(&b"units".to_vec(), &b"display".to_vec(), &deps2, &units_schema());
    assert_eq!(pairs2.len(), 1);
    assert_eq!(pairs2[0].1, cell_bytes(b"Vanilla Spearman"));
}

#[test]
fn no_source_at_all_yields_no_candidates() {
    let deps = DependencySet { archives: vec![], fallback: vec![] };
    let pairs = resolve_reference(&b"units".to_vec(), &b"display".to_vec(), &deps, &units_schema());
    assert!(pairs.is_empty());
}

#[test]
fn an_unknown_column_yields_no_candidates() {
    let vanilla = archive_with_units(&[(b"spearman", b"Vanilla Spearman")]);
    let deps = DependencySet { archives: vec![vanilla], fallback: vec![] };
    let pairs = resolve_reference(&b"units".to_vec(), &b"missing".to_vec(), &deps, &units_schema());
    assert!(pairs.is_empty());
}

#[test]
fn keys_come_from_the_key_field() {
    let vanilla = archive_with_units(&[(b"a", b"One"), (b"b", b"Two")]);
    let deps = DependencySet { archives: vec![vanilla], fallback: vec![] };
    let pairs = resolve_reference(&b"units".to_vec(), &b"display".to_vec(), &deps, &units_schema());
    assert_eq!(pairs.len(), 2);
    assert_eq!(pairs[0].0, cell_bytes(b"a"));
    assert_eq!(pairs[1].0, cell_bytes(b"b"));
}
