//! The record codec: round trips over every cell type, version
//! resolution through the registry, and each decode error.

use packlib::error::Error;
use packlib::schema::{clone_definition, Definition, Field, FieldType, Schema};
use packlib::table::{DecodedData, Table};

fn field(name: &[u8], ft: FieldType, is_key: bool) -> Field {
    Field { name: name.to_vec(), field_type: ft, is_key, is_reference: None, sub_fields: vec![] }
}

fn list_field(name: &[u8], sub_fields: Vec<Field>) -> Field {
    Field {
        name: name.to_vec(),
        field_type: FieldType::Sequence,
        is_key: false,
        is_reference: None,
        sub_fields,
    }
}

fn wide_definition(version: i32) -> Definition {
    Definition {
        version,
        fields: vec![
            field(b"flag", FieldType::Boolean, false),
            field(b"ratio", FieldType::Float32, false),
            field(b"count", FieldType::Integer, false),
            field(b"stamp", FieldType::LongInteger, false),
            field(b"key", FieldType::StringU8, true),
            field(b"label", FieldType::StringU16, false),
            field(b"note", FieldType::OptionalStringU8, false),
            field(b"wide_note", FieldType::OptionalStringU16, false),
        ],
    }
}

fn schema_with(name: &[u8], def: Definition) -> Schema {
    let mut schema = Schema::new();
    schema.add_definition(name.to_vec(), def);
    schema
}

fn sample_row() -> Vec<DecodedData> {
    vec![
        DecodedData::Boolean(true),
        DecodedData::Float32(0x3F80_0000),
        DecodedData::Integer(-7),
        DecodedData::LongInteger(-5_000_000_000),
        DecodedData::StringU8(b"unit_a".to_vec()),
        DecodedData::StringU16(vec![0x48, 0x69, 0x263A]),
        DecodedData::OptionalStringU8(true, b"present".to_vec()),
        DecodedData::OptionalStringU16(false, Vec::new()),
    ]
}

#[test]
fn encode_then_decode_round_trips_every_cell_type() {
    let schema = schema_with(b"units", wide_definition(3));
    let mut t = Table::new(b"units".to_vec(), wide_definition(3));
    t.entries.push(sample_row());
    t.entries.push(vec![
        DecodedData::Boolean(false),
        DecodedData::Float32(0),
        DecodedData::Integer(i32::MAX),
        DecodedData::LongInteger(i64::MIN),
        DecodedData::StringU8(Vec::new()),
        DecodedData::StringU16(Vec::new()),
        DecodedData::OptionalStringU8(false, Vec::new()),
        DecodedData::OptionalStringU16(true, vec![1, 2, 3]),
    ]);
    let bytes = t.encode();
    let back = Table::decode(&bytes, &b"units".to_vec(), &schema).unwrap();
    assert_eq!(back.name, b"units".to_vec());
    assert_eq!(back.definition.version, 3);
    assert_eq!(back.entries, t.entries);
}

#[test]
fn encode_then_decode_round_trips_an_empty_table() {
    let schema = schema_with(b"units", wide_definition(1));
    let t = Table::new(b"units".to_vec(), wide_definition(1));
    let bytes = t.encode();
    assert_eq!(bytes.len(), 8);
    let back = Table::decode(&bytes, &b"units".to_vec(), &schema).unwrap();
    assert!(back.entries.is_empty());
}

#[test]
fn header_encodes_version_and_count_little_endian() {
    let mut t = Table::new(
        b"units".to_vec(),
        Definition { version: 2, fields: vec![field(b"flag", FieldType::Boolean, false)] },
    );
    t.entries.push(vec![DecodedData::Boolean(true)]);
    t.entries.push(vec![DecodedData::Boolean(false)]);
    let bytes = t.encode();
    assert_eq!(bytes, vec![2, 0, 0, 0, 2, 0, 0, 0, 1, 0]);
}

#[test]
fn decode_resolves_the_exact_declared_version() {
    let mut schema = Schema::new();
    schema.add_definition(
        b"units".to_vec(),
        Definition { version: 1, fields: vec![field(b"flag", FieldType::Boolean, false)] },
    );
    schema.add_definition(
        b"units".to_vec(),
        Definition { version: 2, fields: vec![field(b"count", FieldType::Integer, false)] },
    );
    // Version 2 on the wire: one row with one integer.
    let bytes = vec![2, 0, 0, 0, 1, 0, 0, 0, 5, 0, 0, 0];
    let t = Table::decode(&bytes, &b"units".to_vec(), &schema).unwrap();
    assert_eq!(t.definition.version, 2);
    assert_eq!(t.entries, vec![vec![DecodedData::Integer(5)]]);
}

#[test]
fn get_latest_definition_picks_the_highest_version() {
    let mut schema = Schema::new();
    schema.add_definition(
        b"units".to_vec(),
        Definition { version: 1, fields: vec![field(b"flag", FieldType::Boolean, false)] },
    );
    schema.add_definition(
        b"units".to_vec(),
        Definition { version: 4, fields: vec![field(b"count", FieldType::Integer, false)] },
    );
    schema.add_definition(
        b"units".to_vec(),
        Definition { version: 3, fields: vec![field(b"flag", FieldType::Boolean, false)] },
    );
    assert_eq!(schema.get_latest_definition(&b"units".to_vec()).unwrap().version, 4);
    assert_eq!(
        schema.get_latest_definition(&b"missing".to_vec()).err(),
        Some(Error::SchemaNotFound)
    );
}

#[test]
fn get_definition_distinguishes_unknown_table_from_unknown_version() {
    let schema = schema_with(b"units", wide_definition(3));
    assert_eq!(
        schema.get_definition(&b"missing".to_vec(), 3).err(),
        Some(Error::SchemaNotFound)
    );
    assert_eq!(
        schema.get_definition(&b"units".to_vec(), 9).err(),
        Some(Error::DefinitionNotFound)
    );
    assert_eq!(schema.get_definition(&b"units".to_vec(), 3).unwrap().version, 3);
}

#[test]
fn decode_reports_an_unknown_table() {
    let schema = schema_with(b"units", wide_definition(3));
    let bytes = vec![3, 0, 0, 0, 0, 0, 0, 0];
    assert_eq!(
        Table::decode(&bytes, &b"other".to_vec(), &schema).err(),
        Some(Error::SchemaNotFound)
    );
}

#[test]
fn decode_reports_an_unknown_version() {
    let schema = schema_with(b"units", wide_definition(3));
    let bytes = vec![9, 0, 0, 0, 0, 0, 0, 0];
    assert_eq!(
        Table::decode(&bytes, &b"units".to_vec(), &schema).err(),
        Some(Error::UnknownVersion)
    );
}

#[test]
fn list_field_round_trips() {
    let def = Definition {
        version: 1,
        fields: vec![
            field(b"key", FieldType::StringU8, true),
            list_field(
                b"attachments",
                vec![
                    field(b"slot", FieldType::Integer, false),
                    field(b"label", FieldType::StringU8, false),
                ],
            ),
        ],
    };
    let schema = schema_with(b"units", clone_definition(&def));
    let mut t = Table::new(b"units".to_vec(), def);
    t.entries.push(vec![
        DecodedData::StringU8(b"spearman".to_vec()),
        DecodedData::Sequence(vec![
            vec![DecodedData::Integer(1), DecodedData::StringU8(b"shield".to_vec())],
            vec![DecodedData::Integer(2), DecodedData::StringU8(b"banner".to_vec())],
        ]),
    ]);
    t.entries.push(vec![
        DecodedData::StringU8(b"archer".to_vec()),
        DecodedData::Sequence(vec![]),
    ]);
    let bytes = t.encode();
    let back = Table::decode(&bytes, &b"units".to_vec(), &schema).unwrap();
    assert_eq!(back.entries, t.entries);
}

#[test]
fn nested_list_fields_round_trip_two_levels_deep() {
    let def = Definition {
        version: 7,
        fields: vec![list_field(
            b"outer",
            vec![
                field(b"flag", FieldType::Boolean, false),
                list_field(b"inner", vec![field(b"count", FieldType::Integer, false)]),
            ],
        )],
    };
    let schema = schema_with(b"units", clone_definition(&def));
    let mut t = Table::new(b"units".to_vec(), def);
    t.entries.push(vec![DecodedData::Sequence(vec![vec![
        DecodedData::Boolean(true),
        DecodedData::Sequence(vec![
            vec![DecodedData::Integer(-1)],
            vec![DecodedData::Integer(9)],
        ]),
    ]])]);
    let bytes = t.encode();
    let back = Table::decode(&bytes, &b"units".to_vec(), &schema).unwrap();
    assert_eq!(back.entries, t.entries);
}

#[test]
fn list_field_wire_layout_is_count_then_nested_rows() {
    let def = Definition {
        version: 1,
        fields: vec![list_field(b"inner", vec![field(b"flag", FieldType::Boolean, false)])],
    };
    let mut t = Table::new(b"units".to_vec(), def);
    t.entries.push(vec![DecodedData::Sequence(vec![
        vec![DecodedData::Boolean(true)],
        vec![DecodedData::Boolean(false)],
    ])]);
    let bytes = t.encode();
    // Header, then the list's repetition count, then the nested rows.
    assert_eq!(bytes, vec![1, 0, 0, 0, 1, 0, 0, 0, 2, 0, 0, 0, 1, 0]);
}

#[test]
fn decode_reports_truncation_inside_a_nested_row() {
    let def = Definition {
        version: 1,
        fields: vec![list_field(b"inner", vec![field(b"count", FieldType::Integer, false)])],
    };
    let schema = schema_with(b"units", def);
    // One row, whose list declares one nested row, but the nested
    // integer is cut short.
    let bytes = vec![1, 0, 0, 0, 1, 0, 0, 0, 1, 0, 0, 0, 5, 0];
    assert_eq!(
        Table::decode(&bytes, &b"units".to_vec(), &schema).err(),
        Some(Error::Truncated)
    );
}

#[test]
fn decode_reports_truncation_inside_a_fixed_field() {
    let def = Definition { version: 1, fields: vec![field(b"count", FieldType::Integer, false)] };
    let schema = schema_with(b"units", def);
    // One row declared, but only two bytes of the integer present.
    let bytes = vec![1, 0, 0, 0, 1, 0, 0, 0, 5, 0];
    assert_eq!(
        Table::decode(&bytes, &b"units".to_vec(), &schema).err(),
        Some(Error::Truncated)
    );
}

#[test]
fn decode_reports_an_overlong_string_length() {
    let def = Definition { version: 1, fields: vec![field(b"key", FieldType::StringU8, false)] };
    let schema = schema_with(b"units", def);
    // The string claims 200 bytes that are not there.
    let bytes = vec![1, 0, 0, 0, 1, 0, 0, 0, 200, 0, b'x'];
    assert_eq!(
        Table::decode(&bytes, &b"units".to_vec(), &schema).err(),
        Some(Error::InvalidField)
    );
}

#[test]
fn decode_reports_a_bad_boolean() {
    let def = Definition { version: 1, fields: vec![field(b"flag", FieldType::Boolean, false)] };
    let schema = schema_with(b"units", def);
    let bytes = vec![1, 0, 0, 0, 1, 0, 0, 0, 7];
    assert_eq!(
        Table::decode(&bytes, &b"units".to_vec(), &schema).err(),
        Some(Error::InvalidField)
    );
}

#[test]
fn decode_reports_a_bad_presence_marker() {
    let def = Definition {
        version: 1,
        fields: vec![field(b"note", FieldType::OptionalStringU8, false)],
    };
    let schema = schema_with(b"units", def);
    let bytes = vec![1, 0, 0, 0, 1, 0, 0, 0, 2];
    assert_eq!(
        Table::decode(&bytes, &b"units".to_vec(), &schema).err(),
        Some(Error::InvalidField)
    );
}

#[test]
fn decode_rejects_trailing_bytes() {
    let def = Definition { version: 1, fields: vec![field(b"flag", FieldType::Boolean, false)] };
    let schema = schema_with(b"units", def);
    let bytes = vec![1, 0, 0, 0, 1, 0, 0, 0, 1, 99];
    assert_eq!(
        Table::decode(&bytes, &b"units".to_vec(), &schema).err(),
        Some(Error::CorruptData)
    );
}

#[test]
fn decode_rejects_a_truncated_header() {
    let schema = schema_with(b"units", wide_definition(3));
    assert_eq!(
        Table::decode(&vec![3, 0, 0], &b"units".to_vec(), &schema).err(),
        Some(Error::Truncated)
    );
}

#[test]
fn absent_optional_string_still_writes_its_marker() {
    let def = Definition {
        version: 1,
        fields: vec![field(b"note", FieldType::OptionalStringU8, false)],
    };
    let schema = schema_with(b"units", clone_definition(&def));
    let mut t = Table::new(b"units".to_vec(), def);
    t.entries.push(vec![DecodedData::OptionalStringU8(false, Vec::new())]);
    let bytes = t.encode();
    assert_eq!(bytes, vec![1, 0, 0, 0, 1, 0, 0, 0, 0]);
    let back = Table::decode(&bytes, &b"units".to_vec(), &schema).unwrap();
    assert_eq!(back.entries, t.entries);
}
