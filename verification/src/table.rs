//! The schema-driven record codec: typed rows to bytes and back.
//!
//! A table's bytes are a header — the declared version, then the row
//! count — followed by the rows, each field encoded in the wire order
//! its definition declares.  A nested list field is a 32-bit
//! repetition count followed by that many nested rows, laid out by
//! the field's own sub-fields.  Encoding never reorders or drops
//! fields; an absent optional string still writes its presence
//! marker.  The spec functions here define the layout once; `encode`
//! and `decode` are proved against them, and the round-trip law is
//! proved for every well-formed table, nested lists included.

use vstd::prelude::*;

use crate::error::Error;
use crate::schema::{
    clone_definition, lemma_layouts_index, Definition, Field, FieldLayout, FieldType, Schema,
    spec_has_table, spec_layout, spec_layouts, spec_lookup_def,
};
use crate::wire::{
    lemma_i32_cast_roundtrip, lemma_i64_cast_roundtrip, lemma_u16_le_roundtrip,
    lemma_u32_le_roundtrip, lemma_u64_le_roundtrip, push_bytes, push_u16_le, push_u32_le,
    push_u64_le, read_u16_le, read_u32_le, read_u64_le, u16_from_le, u16_le_bytes, u32_from_le,
    u32_le_bytes, u64_from_le, u64_le_bytes, clone_bytes, copy_range,
};

verus! {

/// One decoded cell.  A float field carries its raw 32-bit pattern,
/// untouched by the codec.  An optional string carries a presence
/// flag; an absent one holds the empty string.  A list field carries
/// its nested rows.
#[derive(Debug, PartialEq, Eq)]
pub enum DecodedData {
    Boolean(bool),
    Float32(u32),
    Integer(i32),
    LongInteger(i64),
    StringU8(Vec<u8>),
    StringU16(Vec<u16>),
    OptionalStringU8(bool, Vec<u8>),
    OptionalStringU16(bool, Vec<u16>),
    Sequence(Vec<Vec<DecodedData>>),
}

/// The abstract content of one cell.
pub enum CellModel {
    Boolean(bool),
    Float32(u32),
    Integer(i32),
    LongInteger(i64),
    StringU8(Seq<u8>),
    StringU16(Seq<u16>),
    OptionalStringU8(bool, Seq<u8>),
    OptionalStringU16(bool, Seq<u16>),
    Sequence(Seq<Seq<CellModel>>),
}

/// The abstract content of a cell.
pub open spec fn spec_cell_model(d: DecodedData) -> CellModel
    decreases d,
{
    match d {
        DecodedData::Boolean(b) => CellModel::Boolean(b),
        DecodedData::Float32(x) => CellModel::Float32(x),
        DecodedData::Integer(i) => CellModel::Integer(i),
        DecodedData::LongInteger(l) => CellModel::LongInteger(l),
        DecodedData::StringU8(s) => CellModel::StringU8(s@),
        DecodedData::StringU16(s) => CellModel::StringU16(s@),
        DecodedData::OptionalStringU8(p, s) => CellModel::OptionalStringU8(p, s@),
        DecodedData::OptionalStringU16(p, s) => CellModel::OptionalStringU16(p, s@),
        DecodedData::Sequence(rows) => CellModel::Sequence(spec_rows_model(rows@)),
    }
}

/// The abstract content of one row.
pub open spec fn spec_row_model(row: Seq<DecodedData>) -> Seq<CellModel>
    decreases row,
{
    if row.len() == 0 {
        Seq::empty()
    } else {
        spec_row_model(row.drop_last()).push(spec_cell_model(row.last()))
    }
}

/// The abstract content of a list of rows.
pub open spec fn spec_rows_model(entries: Seq<Vec<DecodedData>>) -> Seq<Seq<CellModel>>
    decreases entries,
{
    if entries.len() == 0 {
        Seq::empty()
    } else {
        spec_rows_model(entries.drop_last()).push(spec_row_model(entries.last()@))
    }
}

/// A row model is the pointwise cell model.
pub proof fn lemma_row_model_index(row: Seq<DecodedData>)
    ensures
        spec_row_model(row).len() == row.len(),
        forall|i: int|
            0 <= i < row.len() ==> spec_row_model(row)[i] == spec_cell_model(#[trigger] row[i]),
    decreases row.len(),
{
    if row.len() > 0 {
        lemma_row_model_index(row.drop_last());
        assert forall|i: int| 0 <= i < row.len() implies spec_row_model(row)[i] == spec_cell_model(
            #[trigger] row[i],
        ) by {
            if i < row.len() - 1 {
                assert(row.drop_last()[i] == row[i]);
                assert(spec_row_model(row.drop_last())[i] == spec_cell_model(
                    row.drop_last()[i],
                ));
            } else {
                assert(row.last() == row[i]);
            }
        }
    }
}

/// A rows model is the pointwise row model.
pub proof fn lemma_rows_model_index(entries: Seq<Vec<DecodedData>>)
    ensures
        spec_rows_model(entries).len() == entries.len(),
        forall|i: int|
            0 <= i < entries.len() ==> spec_rows_model(entries)[i] == spec_row_model(
                (#[trigger] entries[i])@,
            ),
    decreases entries.len(),
{
    if entries.len() > 0 {
        lemma_rows_model_index(entries.drop_last());
        assert forall|i: int| 0 <= i < entries.len() implies spec_rows_model(entries)[i]
            == spec_row_model((#[trigger] entries[i])@) by {
            if i < entries.len() - 1 {
                assert(entries.drop_last()[i] == entries[i]);
                assert(spec_rows_model(entries.drop_last())[i] == spec_row_model(
                    entries.drop_last()[i]@,
                ));
            } else {
                assert(entries.last() == entries[i]);
            }
        }
    }
}

/// Whether a cell fits a field's wire layout and its wire limits: a
/// string fits its 16-bit length prefix, an absent optional string is
/// empty, and a nested list fits its 32-bit count with every nested
/// row fitting the sub-layout.
pub open spec fn spec_cell_wf(c: CellModel, l: FieldLayout) -> bool
    decreases c,
{
    match c {
        CellModel::Boolean(_b) => l == FieldLayout::Boolean,
        CellModel::Float32(_x) => l == FieldLayout::Float32,
        CellModel::Integer(_i) => l == FieldLayout::Integer,
        CellModel::LongInteger(_l) => l == FieldLayout::LongInteger,
        CellModel::StringU8(s) => l == FieldLayout::StringU8 && s.len() <= u16::MAX,
        CellModel::StringU16(s) => l == FieldLayout::StringU16 && s.len() <= u16::MAX,
        CellModel::OptionalStringU8(p, s) => l == FieldLayout::OptionalStringU8 && s.len()
            <= u16::MAX && (!p ==> s.len() == 0),
        CellModel::OptionalStringU16(p, s) => l == FieldLayout::OptionalStringU16 && s.len()
            <= u16::MAX && (!p ==> s.len() == 0),
        CellModel::Sequence(rows) => {
            &&& l matches FieldLayout::Sequence(_sub)
            &&& rows.len() <= u32::MAX
            &&& forall|i: int|
                0 <= i < rows.len() ==> spec_row_wf(
                    #[trigger] rows[i],
                    l->Sequence_0,
                )
        },
    }
}

/// A row matches a layout list: same length, each cell fitting its
/// field.
pub open spec fn spec_row_wf(row: Seq<CellModel>, ls: Seq<FieldLayout>) -> bool
    decreases row,
{
    &&& row.len() == ls.len()
    &&& forall|i: int| 0 <= i < row.len() ==> spec_cell_wf(#[trigger] row[i], ls[i])
}

/// The wire bytes of a run of 16-bit units, each little-endian.
pub open spec fn spec_enc_u16s(s: Seq<u16>) -> Seq<u8>
    decreases s.len(),
{
    if s.len() == 0 {
        Seq::empty()
    } else {
        spec_enc_u16s(s.drop_last()) + u16_le_bytes(s.last())
    }
}

/// The wire bytes of one cell.
pub open spec fn spec_enc_cell(c: CellModel) -> Seq<u8>
    decreases c,
{
    match c {
        CellModel::Boolean(b) => seq![
            if b {
                1u8
            } else {
                0u8
            },
        ],
        CellModel::Float32(x) => u32_le_bytes(x),
        CellModel::Integer(i) => u32_le_bytes(i as u32),
        CellModel::LongInteger(l) => u64_le_bytes(l as u64),
        CellModel::StringU8(s) => u16_le_bytes(s.len() as u16) + s,
        CellModel::StringU16(s) => u16_le_bytes(s.len() as u16) + spec_enc_u16s(s),
        CellModel::OptionalStringU8(p, s) => if p {
            seq![1u8] + u16_le_bytes(s.len() as u16) + s
        } else {
            seq![0u8]
        },
        CellModel::OptionalStringU16(p, s) => if p {
            seq![1u8] + u16_le_bytes(s.len() as u16) + spec_enc_u16s(s)
        } else {
            seq![0u8]
        },
        CellModel::Sequence(rows) => u32_le_bytes(rows.len() as u32) + spec_enc_rows(rows),
    }
}

/// The wire bytes of one row, fields in definition order.
pub open spec fn spec_enc_row(row: Seq<CellModel>) -> Seq<u8>
    decreases row,
{
    if row.len() == 0 {
        Seq::empty()
    } else {
        spec_enc_row(row.drop_last()) + spec_enc_cell(row.last())
    }
}

/// The wire bytes of all rows in order.
pub open spec fn spec_enc_rows(rows: Seq<Seq<CellModel>>) -> Seq<u8>
    decreases rows,
{
    if rows.len() == 0 {
        Seq::empty()
    } else {
        spec_enc_rows(rows.drop_last()) + spec_enc_row(rows.last())
    }
}

/// The wire bytes of a whole table: version, row count, rows.
pub open spec fn spec_enc_table(version: i32, rows: Seq<Seq<CellModel>>) -> Seq<u8> {
    u32_le_bytes(version as u32) + u32_le_bytes(rows.len() as u32) + spec_enc_rows(rows)
}

/// Parses a run of 16-bit units from the front of `s`.
pub open spec fn spec_dec_u16s(s: Seq<u8>, count: nat) -> Option<(Seq<u16>, nat)>
    decreases count,
{
    if count == 0 {
        Some((Seq::empty(), 0))
    } else if s.len() < 2 {
        None
    } else {
        let v = u16_from_le(s.subrange(0, 2));
        match spec_dec_u16s(s.skip(2), (count - 1) as nat) {
            None => None,
            Some(p) => Some((seq![v] + p.0, 2 + p.1)),
        }
    }
}

/// Parses one cell of the given wire layout from the front of `s`.
pub open spec fn spec_dec_cell(s: Seq<u8>, l: FieldLayout) -> Option<(CellModel, nat)>
    decreases l, 0nat,
{
    match l {
        FieldLayout::Boolean => if s.len() < 1 {
            None
        } else if s[0] == 0 {
            Some((CellModel::Boolean(false), 1))
        } else if s[0] == 1 {
            Some((CellModel::Boolean(true), 1))
        } else {
            None
        },
        FieldLayout::Float32 => if s.len() < 4 {
            None
        } else {
            Some((CellModel::Float32(u32_from_le(s.subrange(0, 4))), 4))
        },
        FieldLayout::Integer => if s.len() < 4 {
            None
        } else {
            Some((CellModel::Integer(u32_from_le(s.subrange(0, 4)) as i32), 4))
        },
        FieldLayout::LongInteger => if s.len() < 8 {
            None
        } else {
            Some((CellModel::LongInteger(u64_from_le(s.subrange(0, 8)) as i64), 8))
        },
        FieldLayout::StringU8 => if s.len() < 2 {
            None
        } else {
            let len = u16_from_le(s.subrange(0, 2)) as nat;
            if s.len() < 2 + len {
                None
            } else {
                Some((CellModel::StringU8(s.subrange(2, 2 + len as int)), 2 + len))
            }
        },
        FieldLayout::StringU16 => if s.len() < 2 {
            None
        } else {
            let c = u16_from_le(s.subrange(0, 2)) as nat;
            match spec_dec_u16s(s.skip(2), c) {
                None => None,
                Some(p) => Some((CellModel::StringU16(p.0), 2 + p.1)),
            }
        },
        FieldLayout::OptionalStringU8 => if s.len() < 1 {
            None
        } else if s[0] == 0 {
            Some((CellModel::OptionalStringU8(false, Seq::empty()), 1))
        } else if s[0] != 1 {
            None
        } else if s.len() < 3 {
            None
        } else {
            let len = u16_from_le(s.subrange(1, 3)) as nat;
            if s.len() < 3 + len {
                None
            } else {
                Some((CellModel::OptionalStringU8(true, s.subrange(3, 3 + len as int)), 3 + len))
            }
        },
        FieldLayout::OptionalStringU16 => if s.len() < 1 {
            None
        } else if s[0] == 0 {
            Some((CellModel::OptionalStringU16(false, Seq::empty()), 1))
        } else if s[0] != 1 {
            None
        } else if s.len() < 3 {
            None
        } else {
            let c = u16_from_le(s.subrange(1, 3)) as nat;
            match spec_dec_u16s(s.skip(3), c) {
                None => None,
                Some(p) => Some((CellModel::OptionalStringU16(true, p.0), 3 + p.1)),
            }
        },
        FieldLayout::Sequence(sub) => if s.len() < 4 {
            None
        } else {
            let c = u32_from_le(s.subrange(0, 4)) as nat;
            match spec_dec_rows(s.skip(4), sub, c) {
                None => None,
                Some(p) => Some((CellModel::Sequence(p.0), 4 + p.1)),
            }
        },
    }
}

/// Parses one row from the front of `s`, fields in definition order.
pub open spec fn spec_dec_row(s: Seq<u8>, ls: Seq<FieldLayout>) -> Option<(Seq<CellModel>, nat)>
    decreases ls, 0nat,
{
    if ls.len() == 0 {
        Some((Seq::empty(), 0))
    } else {
        match spec_dec_cell(s, ls[0]) {
            None => None,
            Some(c) => match spec_dec_row(s.skip(c.1 as int), ls.skip(1)) {
                None => None,
                Some(p) => Some((seq![c.0] + p.0, c.1 + p.1)),
            },
        }
    }
}

/// Parses `count` rows from the front of `s`.
pub open spec fn spec_dec_rows(s: Seq<u8>, ls: Seq<FieldLayout>, count: nat) -> Option<
    (Seq<Seq<CellModel>>, nat),
>
    decreases ls, count,
{
    if count == 0 {
        Some((Seq::empty(), 0))
    } else {
        match spec_dec_row(s, ls) {
            None => None,
            Some(r) => match spec_dec_rows(s.skip(r.1 as int), ls, (count - 1) as nat) {
                None => None,
                Some(p) => Some((seq![r.0] + p.0, r.1 + p.1)),
            },
        }
    }
}

/// Parses a whole table body: version, row count, then exactly that
/// many rows spanning the rest of the buffer.
pub open spec fn spec_dec_table_body(s: Seq<u8>, ls: Seq<FieldLayout>) -> Option<
    (i32, Seq<Seq<CellModel>>),
> {
    if s.len() < 8 {
        None
    } else {
        let version = u32_from_le(s.subrange(0, 4)) as i32;
        let count = u32_from_le(s.subrange(4, 8)) as nat;
        match spec_dec_rows(s.skip(8), ls, count) {
            None => None,
            Some(p) => if p.1 == s.len() - 8 {
                Some((version, p.0))
            } else {
                None
            },
        }
    }
}

/// A non-empty unit run splits off its first unit.
proof fn lemma_enc_u16s_front(s: Seq<u16>)
    requires
        s.len() > 0,
    ensures
        spec_enc_u16s(s) == u16_le_bytes(s[0]) + spec_enc_u16s(s.skip(1)),
    decreases s.len(),
{
    if s.len() == 1 {
        assert(s.drop_last() =~= Seq::<u16>::empty());
        assert(s.skip(1) =~= Seq::<u16>::empty());
        assert(Seq::<u8>::empty() + u16_le_bytes(s[0]) =~= u16_le_bytes(s[0]));
        assert(u16_le_bytes(s[0]) + Seq::<u8>::empty() =~= u16_le_bytes(s[0]));
    } else {
        let d = s.drop_last();
        lemma_enc_u16s_front(d);
        assert(d[0] == s[0]);
        assert(s.skip(1).drop_last() =~= d.skip(1));
        assert(s.skip(1).last() == s.last());
        assert((u16_le_bytes(s[0]) + spec_enc_u16s(d.skip(1))) + u16_le_bytes(s.last())
            =~= u16_le_bytes(s[0]) + (spec_enc_u16s(d.skip(1)) + u16_le_bytes(s.last())));
    }
}

/// Parsing an encoded unit run, whatever follows it, yields the units
/// and consumes exactly their wire bytes.
proof fn lemma_dec_u16s_roundtrip(s: Seq<u16>, rest: Seq<u8>)
    ensures
        spec_dec_u16s(spec_enc_u16s(s) + rest, s.len() as nat) == Some(
            (s, spec_enc_u16s(s).len() as nat),
        ),
    decreases s.len(),
{
    if s.len() == 0 {
        assert(s =~= Seq::<u16>::empty());
    } else {
        lemma_enc_u16s_front(s);
        let tail = s.skip(1);
        lemma_dec_u16s_roundtrip(tail, rest);
        let b = spec_enc_u16s(s) + rest;
        assert(b =~= u16_le_bytes(s[0]) + (spec_enc_u16s(tail) + rest));
        assert(b.subrange(0, 2) =~= u16_le_bytes(s[0]));
        lemma_u16_le_roundtrip(s[0]);
        assert(b.skip(2) =~= spec_enc_u16s(tail) + rest);
        assert(seq![s[0]] + tail =~= s);
    }
}

/// A non-empty row splits off its first cell.
proof fn lemma_enc_row_front(row: Seq<CellModel>)
    requires
        row.len() > 0,
    ensures
        spec_enc_row(row) == spec_enc_cell(row[0]) + spec_enc_row(row.skip(1)),
    decreases row.len(),
{
    if row.len() == 1 {
        assert(row.drop_last() =~= Seq::<CellModel>::empty());
        assert(row.skip(1) =~= Seq::<CellModel>::empty());
        assert(Seq::<u8>::empty() + spec_enc_cell(row[0]) =~= spec_enc_cell(row[0]));
        assert(spec_enc_cell(row[0]) + Seq::<u8>::empty() =~= spec_enc_cell(row[0]));
    } else {
        let d = row.drop_last();
        lemma_enc_row_front(d);
        assert(d[0] == row[0]);
        assert(row.skip(1).drop_last() =~= d.skip(1));
        assert(row.skip(1).last() == row.last());
        assert((spec_enc_cell(row[0]) + spec_enc_row(d.skip(1))) + spec_enc_cell(row.last())
            =~= spec_enc_cell(row[0]) + (spec_enc_row(d.skip(1)) + spec_enc_cell(row.last())));
    }
}

/// A non-empty row list splits off its first row.
proof fn lemma_enc_rows_front(rows: Seq<Seq<CellModel>>)
    requires
        rows.len() > 0,
    ensures
        spec_enc_rows(rows) == spec_enc_row(rows[0]) + spec_enc_rows(rows.skip(1)),
    decreases rows.len(),
{
    if rows.len() == 1 {
        assert(rows.drop_last() =~= Seq::<Seq<CellModel>>::empty());
        assert(rows.skip(1) =~= Seq::<Seq<CellModel>>::empty());
        assert(Seq::<u8>::empty() + spec_enc_row(rows[0]) =~= spec_enc_row(rows[0]));
        assert(spec_enc_row(rows[0]) + Seq::<u8>::empty() =~= spec_enc_row(rows[0]));
    } else {
        let d = rows.drop_last();
        lemma_enc_rows_front(d);
        assert(d[0] == rows[0]);
        assert(rows.skip(1).drop_last() =~= d.skip(1));
        assert(rows.skip(1).last() == rows.last());
        assert((spec_enc_row(rows[0]) + spec_enc_rows(d.skip(1))) + spec_enc_row(rows.last())
            =~= spec_enc_row(rows[0]) + (spec_enc_rows(d.skip(1)) + spec_enc_row(rows.last())));
    }
}

/// Parsing one encoded cell, whatever follows it, yields the cell and
/// consumes exactly its wire bytes.
#[verifier::rlimit(100)]
proof fn lemma_dec_cell_roundtrip(c: CellModel, l: FieldLayout, rest: Seq<u8>)
    requires
        spec_cell_wf(c, l),
    ensures
        spec_dec_cell(spec_enc_cell(c) + rest, l) == Some((c, spec_enc_cell(c).len() as nat)),
    decreases c,
{
    let b = spec_enc_cell(c) + rest;
    match c {
        CellModel::Boolean(v) => {
            assert(b[0] == (if v {
                1u8
            } else {
                0u8
            }));
        },
        CellModel::Float32(x) => {
            assert(b.subrange(0, 4) =~= u32_le_bytes(x));
            lemma_u32_le_roundtrip(x);
        },
        CellModel::Integer(i) => {
            assert(b.subrange(0, 4) =~= u32_le_bytes(i as u32));
            lemma_u32_le_roundtrip(i as u32);
            lemma_i32_cast_roundtrip(i);
        },
        CellModel::LongInteger(l2) => {
            assert(b.subrange(0, 8) =~= u64_le_bytes(l2 as u64));
            lemma_u64_le_roundtrip(l2 as u64);
            lemma_i64_cast_roundtrip(l2);
        },
        CellModel::StringU8(s) => {
            assert(b.subrange(0, 2) =~= u16_le_bytes(s.len() as u16));
            lemma_u16_le_roundtrip(s.len() as u16);
            assert(b.subrange(2, 2 + s.len() as int) =~= s);
        },
        CellModel::StringU16(s) => {
            assert(b.subrange(0, 2) =~= u16_le_bytes(s.len() as u16));
            lemma_u16_le_roundtrip(s.len() as u16);
            assert(b.skip(2) =~= spec_enc_u16s(s) + rest);
            lemma_dec_u16s_roundtrip(s, rest);
        },
        CellModel::OptionalStringU8(p, s) => {
            if p {
                assert(b[0] == 1u8);
                assert(b.subrange(1, 3) =~= u16_le_bytes(s.len() as u16));
                lemma_u16_le_roundtrip(s.len() as u16);
                assert(b.subrange(3, 3 + s.len() as int) =~= s);
            } else {
                assert(b[0] == 0u8);
                assert(s =~= Seq::<u8>::empty());
            }
        },
        CellModel::OptionalStringU16(p, s) => {
            if p {
                assert(b[0] == 1u8);
                assert(b.subrange(1, 3) =~= u16_le_bytes(s.len() as u16));
                lemma_u16_le_roundtrip(s.len() as u16);
                assert(b.skip(3) =~= spec_enc_u16s(s) + rest);
                lemma_dec_u16s_roundtrip(s, rest);
            } else {
                assert(b[0] == 0u8);
                assert(s =~= Seq::<u16>::empty());
            }
        },
        CellModel::Sequence(rows) => {
            let sub = l->Sequence_0;
            assert(b.subrange(0, 4) =~= u32_le_bytes(rows.len() as u32));
            lemma_u32_le_roundtrip(rows.len() as u32);
            assert(b.skip(4) =~= spec_enc_rows(rows) + rest);
            lemma_dec_rows_roundtrip(rows, sub, rest);
        },
    }
}

/// Parsing one encoded row, whatever follows it, yields the row and
/// consumes exactly its wire bytes.
proof fn lemma_dec_row_roundtrip(row: Seq<CellModel>, ls: Seq<FieldLayout>, rest: Seq<u8>)
    requires
        spec_row_wf(row, ls),
    ensures
        spec_dec_row(spec_enc_row(row) + rest, ls) == Some(
            (row, spec_enc_row(row).len() as nat),
        ),
    decreases row,
{
    if row.len() == 0 {
        assert(row =~= Seq::<CellModel>::empty());
        assert(spec_enc_row(row) + rest =~= rest);
        assert(ls.len() == 0);
    } else {
        lemma_enc_row_front(row);
        let c0 = row[0];
        let tail = row.skip(1);
        assert(spec_row_wf(tail, ls.skip(1))) by {
            assert(forall|i: int| 0 <= i < tail.len() ==> tail[i] == row[i + 1]);
            assert(forall|i: int| 0 <= i < ls.skip(1).len() ==> ls.skip(1)[i] == ls[i + 1]);
        }
        lemma_dec_row_roundtrip(tail, ls.skip(1), rest);
        let b = spec_enc_row(row) + rest;
        assert(b =~= spec_enc_cell(c0) + (spec_enc_row(tail) + rest));
        lemma_dec_cell_roundtrip(c0, ls[0], spec_enc_row(tail) + rest);
        assert(b.skip(spec_enc_cell(c0).len() as int) =~= spec_enc_row(tail) + rest);
        assert(seq![c0] + tail =~= row);
    }
}

/// Parsing encoded rows, whatever follows them, yields the rows and
/// consumes exactly their wire bytes.
proof fn lemma_dec_rows_roundtrip(rows: Seq<Seq<CellModel>>, ls: Seq<FieldLayout>, rest: Seq<u8>)
    requires
        forall|i: int| 0 <= i < rows.len() ==> spec_row_wf(#[trigger] rows[i], ls),
    ensures
        spec_dec_rows(spec_enc_rows(rows) + rest, ls, rows.len() as nat) == Some(
            (rows, spec_enc_rows(rows).len() as nat),
        ),
    decreases rows,
{
    if rows.len() == 0 {
        assert(rows =~= Seq::<Seq<CellModel>>::empty());
    } else {
        lemma_enc_rows_front(rows);
        let r0 = rows[0];
        let tail = rows.skip(1);
        assert(forall|i: int| 0 <= i < tail.len() ==> tail[i] == rows[i + 1]);
        lemma_dec_rows_roundtrip(tail, ls, rest);
        let b = spec_enc_rows(rows) + rest;
        assert(b =~= spec_enc_row(r0) + (spec_enc_rows(tail) + rest));
        lemma_dec_row_roundtrip(r0, ls, spec_enc_rows(tail) + rest);
        assert(b.skip(spec_enc_row(r0).len() as int) =~= spec_enc_rows(tail) + rest);
        assert(seq![r0] + tail =~= rows);
    }
}

/// The round-trip law of the record codec: any well-formed table body
/// decodes from its own encoding, version and rows exactly as they
/// were, nested lists included.
pub proof fn lemma_table_roundtrip(version: i32, rows: Seq<Seq<CellModel>>, ls: Seq<FieldLayout>)
    requires
        forall|i: int| 0 <= i < rows.len() ==> spec_row_wf(#[trigger] rows[i], ls),
        rows.len() <= u32::MAX,
    ensures
        spec_dec_table_body(spec_enc_table(version, rows), ls) == Some((version, rows)),
{
    let b = spec_enc_table(version, rows);
    assert(b.subrange(0, 4) =~= u32_le_bytes(version as u32));
    lemma_u32_le_roundtrip(version as u32);
    lemma_i32_cast_roundtrip(version);
    assert(b.subrange(4, 8) =~= u32_le_bytes(rows.len() as u32));
    lemma_u32_le_roundtrip(rows.len() as u32);
    assert(b.skip(8) =~= spec_enc_rows(rows) + Seq::<u8>::empty());
    lemma_dec_rows_roundtrip(rows, ls, Seq::<u8>::empty());
    assert(b.len() == 8 + spec_enc_rows(rows).len());
}

/// A successfully parsed unit run has exactly the requested length.
proof fn lemma_dec_u16s_len(s: Seq<u8>, count: nat)
    ensures
        spec_dec_u16s(s, count) matches Some(p) ==> p.0.len() == count,
    decreases count,
{
    if count > 0 && s.len() >= 2 {
        lemma_dec_u16s_len(s.skip(2), (count - 1) as nat);
    }
}

/// A successfully parsed cell always fits its field.
proof fn lemma_dec_cell_wf(s: Seq<u8>, l: FieldLayout)
    ensures
        spec_dec_cell(s, l) matches Some(p) ==> spec_cell_wf(p.0, l),
    decreases l, 0nat,
{
    match l {
        FieldLayout::StringU16 => {
            if s.len() >= 2 {
                lemma_dec_u16s_len(s.skip(2), u16_from_le(s.subrange(0, 2)) as nat);
            }
        },
        FieldLayout::OptionalStringU16 => {
            if s.len() >= 3 {
                lemma_dec_u16s_len(s.skip(3), u16_from_le(s.subrange(1, 3)) as nat);
            }
        },
        FieldLayout::Sequence(sub) => {
            if s.len() >= 4 {
                lemma_dec_rows_wf(s.skip(4), sub, u32_from_le(s.subrange(0, 4)) as nat);
            }
        },
        _ => {},
    }
}

/// A successfully parsed row always fits the layout list.
proof fn lemma_dec_row_wf(s: Seq<u8>, ls: Seq<FieldLayout>)
    ensures
        spec_dec_row(s, ls) matches Some(p) ==> spec_row_wf(p.0, ls),
    decreases ls, 0nat,
{
    if ls.len() > 0 {
        lemma_dec_cell_wf(s, ls[0]);
        match spec_dec_cell(s, ls[0]) {
            Some(c) => {
                lemma_dec_row_wf(s.skip(c.1 as int), ls.skip(1));
                match spec_dec_row(s.skip(c.1 as int), ls.skip(1)) {
                    Some(p) => {
                        assert(forall|i: int|
                            0 <= i < p.0.len() ==> (seq![c.0] + p.0)[i + 1] == #[trigger] p.0[i]);
                        assert(forall|i: int|
                            0 <= i < ls.skip(1).len() ==> #[trigger] ls.skip(1)[i] == ls[i + 1]);
                    },
                    None => {},
                }
            },
            None => {},
        }
    }
}

/// Successfully parsed rows all fit the layout list, and there are
/// exactly as many as requested.
proof fn lemma_dec_rows_wf(s: Seq<u8>, ls: Seq<FieldLayout>, count: nat)
    ensures
        spec_dec_rows(s, ls, count) matches Some(p) ==> p.0.len() == count && forall|i: int|
            0 <= i < p.0.len() ==> spec_row_wf(#[trigger] p.0[i], ls),
    decreases ls, count,
{
    if count > 0 {
        lemma_dec_row_wf(s, ls);
        match spec_dec_row(s, ls) {
            Some(r) => {
                lemma_dec_rows_wf(s.skip(r.1 as int), ls, (count - 1) as nat);
                match spec_dec_rows(s.skip(r.1 as int), ls, (count - 1) as nat) {
                    Some(p) => {
                        assert(forall|i: int|
                            0 <= i < p.0.len() ==> (seq![r.0] + p.0)[i + 1] == #[trigger] p.0[i]);
                    },
                    None => {},
                }
            },
            None => {},
        }
    }
}

/// Whether a cell's own sizes fit their wire fields, whatever the
/// layout: what the encoder needs.
pub open spec fn spec_cell_encodable(c: CellModel) -> bool
    decreases c,
{
    match c {
        CellModel::StringU8(s) => s.len() <= u16::MAX,
        CellModel::StringU16(s) => s.len() <= u16::MAX,
        CellModel::OptionalStringU8(p, s) => s.len() <= u16::MAX && (!p ==> s.len() == 0),
        CellModel::OptionalStringU16(p, s) => s.len() <= u16::MAX && (!p ==> s.len() == 0),
        CellModel::Sequence(rows) => rows.len() <= u32::MAX && forall|i: int|
            0 <= i < rows.len() ==> spec_row_encodable(#[trigger] rows[i]),
        _ => true,
    }
}

/// Whether every cell of the row is encodable.
pub open spec fn spec_row_encodable(row: Seq<CellModel>) -> bool
    decreases row,
{
    forall|i: int| 0 <= i < row.len() ==> spec_cell_encodable(#[trigger] row[i])
}

/// A cell fitting some layout is encodable.
pub proof fn lemma_cell_wf_encodable(c: CellModel, l: FieldLayout)
    requires
        spec_cell_wf(c, l),
    ensures
        spec_cell_encodable(c),
    decreases c,
{
    match c {
        CellModel::Sequence(rows) => {
            assert forall|i: int| 0 <= i < rows.len() implies spec_row_encodable(
                #[trigger] rows[i],
            ) by {
                lemma_row_wf_encodable(rows[i], l->Sequence_0);
            }
        },
        _ => {},
    }
}

/// A row fitting some layout list is encodable.
pub proof fn lemma_row_wf_encodable(row: Seq<CellModel>, ls: Seq<FieldLayout>)
    requires
        spec_row_wf(row, ls),
    ensures
        spec_row_encodable(row),
    decreases row,
{
    assert forall|i: int| 0 <= i < row.len() implies spec_cell_encodable(#[trigger] row[i]) by {
        lemma_cell_wf_encodable(row[i], ls[i]);
    }
}

/// Appends every 16-bit unit of `src`, each little-endian.
fn push_u16s(out: &mut Vec<u8>, src: &Vec<u16>)
    ensures
        final(out)@ == old(out)@ + spec_enc_u16s(src@),
{
    let n = src.len();
    let mut i: usize = 0;
    proof {
        assert(src@.take(0) =~= Seq::<u16>::empty());
        assert(out@ =~= old(out)@ + spec_enc_u16s(src@.take(0)));
    }
    while i < n
        invariant
            i <= n,
            n == src@.len(),
            out@ == old(out)@ + spec_enc_u16s(src@.take(i as int)),
        decreases n - i,
    {
        push_u16_le(out, src[i]);
        proof {
            assert(src@.take(i + 1).drop_last() =~= src@.take(i as int));
            assert(src@.take(i + 1).last() == src@[i as int]);
            assert(old(out)@ + spec_enc_u16s(src@.take(i as int)) + u16_le_bytes(src@[i as int])
                =~= old(out)@ + (spec_enc_u16s(src@.take(i as int)) + u16_le_bytes(
                src@[i as int],
            )));
        }
        i = i + 1;
    }
    proof {
        assert(src@.take(n as int) =~= src@);
    }
}

/// Appends one cell's wire bytes, nested rows included.
#[verifier::rlimit(100)]
#[verifier::loop_isolation(false)]
pub(crate) fn push_cell(out: &mut Vec<u8>, c: &DecodedData)
    requires
        spec_cell_encodable(spec_cell_model(*c)),
    ensures
        final(out)@ == old(out)@ + spec_enc_cell(spec_cell_model(*c)),
    decreases *c,
{
    match c {
        DecodedData::Boolean(b) => {
            out.push(
                if *b {
                    1u8
                } else {
                    0u8
                },
            );
            assert(final(out)@ =~= old(out)@ + spec_enc_cell(spec_cell_model(*c)));
        },
        DecodedData::Float32(x) => {
            push_u32_le(out, *x);
        },
        DecodedData::Integer(i) => {
            push_u32_le(out, *i as u32);
        },
        DecodedData::LongInteger(l) => {
            push_u64_le(out, *l as u64);
        },
        DecodedData::StringU8(s) => {
            push_u16_le(out, s.len() as u16);
            push_bytes(out, s);
        },
        DecodedData::StringU16(s) => {
            push_u16_le(out, s.len() as u16);
            push_u16s(out, s);
        },
        DecodedData::OptionalStringU8(p, s) => {
            if *p {
                out.push(1u8);
                push_u16_le(out, s.len() as u16);
                push_bytes(out, s);
                assert(final(out)@ =~= old(out)@ + spec_enc_cell(spec_cell_model(*c)));
            } else {
                out.push(0u8);
                assert(final(out)@ =~= old(out)@ + spec_enc_cell(spec_cell_model(*c)));
            }
        },
        DecodedData::OptionalStringU16(p, s) => {
            if *p {
                out.push(1u8);
                push_u16_le(out, s.len() as u16);
                push_u16s(out, s);
                assert(final(out)@ =~= old(out)@ + spec_enc_cell(spec_cell_model(*c)));
            } else {
                out.push(0u8);
                assert(final(out)@ =~= old(out)@ + spec_enc_cell(spec_cell_model(*c)));
            }
        },
        DecodedData::Sequence(rows) => {
            let ghost rm = spec_rows_model(rows@);
            proof {
                lemma_rows_model_index(rows@);
            }
            push_u32_le(out, rows.len() as u32);
            let ghost hdr = out@;
            let n = rows.len();
            let mut i: usize = 0;
            proof {
                assert(rm.take(0) =~= Seq::<Seq<CellModel>>::empty());
                assert(out@ =~= hdr + spec_enc_rows(rm.take(0)));
            }
            while i < n
                invariant
                    i <= n,
                    out@ == hdr + spec_enc_rows(rm.take(i as int)),
                decreases n - i,
            {
                push_row(out, &rows[i]);
                proof {
                    assert(rm.take(i + 1).drop_last() =~= rm.take(i as int));
                    assert(rm.take(i + 1).last() == rm[i as int]);
                    assert(hdr + spec_enc_rows(rm.take(i as int)) + spec_enc_row(rm[i as int])
                        =~= hdr + (spec_enc_rows(rm.take(i as int)) + spec_enc_row(
                        rm[i as int],
                    )));
                }
                i = i + 1;
            }
            proof {
                assert(rm.take(n as int) =~= rm);
                assert(final(out)@ =~= old(out)@ + spec_enc_cell(spec_cell_model(*c)));
            }
        },
    }
}

/// Appends one row's wire bytes, fields in order.
#[verifier::loop_isolation(false)]
fn push_row(out: &mut Vec<u8>, row: &Vec<DecodedData>)
    requires
        spec_row_encodable(spec_row_model(row@)),
    ensures
        final(out)@ == old(out)@ + spec_enc_row(spec_row_model(row@)),
    decreases *row,
{
    let ghost rm = spec_row_model(row@);
    proof {
        lemma_row_model_index(row@);
    }
    let n = row.len();
    let mut j: usize = 0;
    proof {
        assert(rm.take(0) =~= Seq::<CellModel>::empty());
        assert(out@ =~= old(out)@ + spec_enc_row(rm.take(0)));
    }
    while j < n
        invariant
            j <= n,
            out@ == old(out)@ + spec_enc_row(rm.take(j as int)),
        decreases n - j,
    {
        push_cell(out, &row[j]);
        proof {
            assert(rm.take(j + 1).drop_last() =~= rm.take(j as int));
            assert(rm.take(j + 1).last() == rm[j as int]);
            assert(old(out)@ + spec_enc_row(rm.take(j as int)) + spec_enc_cell(rm[j as int])
                =~= old(out)@ + (spec_enc_row(rm.take(j as int)) + spec_enc_cell(rm[j as int])));
        }
        j = j + 1;
    }
    proof {
        assert(rm.take(n as int) =~= rm);
    }
}

/// Reads `count` little-endian 16-bit units starting at `pos`.
fn read_u16s(data: &Vec<u8>, pos: usize, count: u16) -> (r: Result<(Vec<u16>, usize), Error>)
    requires
        pos <= data@.len(),
    ensures
        match r {
            Ok(p) => pos <= p.1 <= data@.len() && spec_dec_u16s(
                data@.skip(pos as int),
                count as nat,
            ) == Some((p.0@, (p.1 - pos) as nat)),
            Err(e) => e == Error::Truncated && spec_dec_u16s(
                data@.skip(pos as int),
                count as nat,
            ) is None,
        },
{
    let n = data.len();
    let mut v: Vec<u16> = Vec::new();
    let mut p = pos;
    let mut k: u16 = 0;
    while k < count
        invariant
            pos <= p <= n,
            n == data@.len(),
            k <= count,
            v@.len() == k,
            spec_dec_u16s(data@.skip(pos as int), count as nat) == (match spec_dec_u16s(
                data@.skip(p as int),
                (count - k) as nat,
            ) {
                None => None::<(Seq<u16>, nat)>,
                Some(q) => Some((v@ + q.0, ((p - pos) + q.1) as nat)),
            }),
        decreases count - k,
    {
        let ghost rem = data@.skip(p as int);
        let (u, p2) = match read_u16_le(data, p) {
            Some(x) => x,
            None => {
                proof {
                    assert(rem.len() < 2);
                }
                return Err(Error::Truncated);
            },
        };
        proof {
            assert(rem.subrange(0, 2) =~= data@.subrange(p as int, p + 2));
        }
        let ghost old_v = v@;
        v.push(u);
        p = p2;
        k = k + 1;
        proof {
            assert(rem.skip(2) =~= data@.skip(p as int));
            assert(v@ =~= old_v.push(u));
            assert(match spec_dec_u16s(data@.skip(p as int), (count - k) as nat) {
                None => true,
                Some(q) => old_v + (seq![u] + q.0) =~= v@ + q.0,
            });
        }
    }
    proof {
        assert(v@ + Seq::<u16>::empty() =~= v@);
    }
    Ok((v, p))
}

/// Reads one cell of the given field's layout starting at `pos`,
/// nested rows included.
#[verifier::rlimit(100)]
#[verifier::loop_isolation(false)]
fn dec_cell(data: &Vec<u8>, pos: usize, f: &Field) -> (r: Result<(DecodedData, usize), Error>)
    requires
        pos <= data@.len(),
    ensures
        match r {
            Ok(p) => pos <= p.1 <= data@.len() && spec_dec_cell(
                data@.skip(pos as int),
                spec_layout(*f),
            ) == Some((spec_cell_model(p.0), (p.1 - pos) as nat)),
            Err(e) => spec_dec_cell(data@.skip(pos as int), spec_layout(*f)) is None && (e
                == Error::Truncated || e == Error::InvalidField),
        },
    decreases *f, 0nat,
{
    let ghost rem = data@.skip(pos as int);
    let n = data.len();
    match f.field_type {
        FieldType::Boolean => {
            if pos >= n {
                return Err(Error::Truncated);
            }
            let b = data[pos];
            assert(rem[0] == b);
            if b == 0 {
                Ok((DecodedData::Boolean(false), pos + 1))
            } else if b == 1 {
                Ok((DecodedData::Boolean(true), pos + 1))
            } else {
                Err(Error::InvalidField)
            }
        },
        FieldType::Float32 => {
            match read_u32_le(data, pos) {
                Some(x) => {
                    proof {
                        assert(rem.subrange(0, 4) =~= data@.subrange(pos as int, pos + 4));
                    }
                    Ok((DecodedData::Float32(x.0), x.1))
                },
                None => {
                    proof {
                        assert(rem.len() < 4);
                    }
                    Err(Error::Truncated)
                },
            }
        },
        FieldType::Integer => {
            match read_u32_le(data, pos) {
                Some(x) => {
                    proof {
                        assert(rem.subrange(0, 4) =~= data@.subrange(pos as int, pos + 4));
                    }
                    Ok((DecodedData::Integer(x.0 as i32), x.1))
                },
                None => {
                    proof {
                        assert(rem.len() < 4);
                    }
                    Err(Error::Truncated)
                },
            }
        },
        FieldType::LongInteger => {
            match read_u64_le(data, pos) {
                Some(x) => {
                    proof {
                        assert(rem.subrange(0, 8) =~= data@.subrange(pos as int, pos + 8));
                    }
                    Ok((DecodedData::LongInteger(x.0 as i64), x.1))
                },
                None => {
                    proof {
                        assert(rem.len() < 8);
                    }
                    Err(Error::Truncated)
                },
            }
        },
        FieldType::StringU8 => {
            let (len, p2) = match read_u16_le(data, pos) {
                Some(x) => x,
                None => {
                    proof {
                        assert(rem.len() < 2);
                    }
                    return Err(Error::Truncated);
                },
            };
            proof {
                assert(rem.subrange(0, 2) =~= data@.subrange(pos as int, pos + 2));
            }
            match copy_range(data, p2, len as usize) {
                Some(s) => {
                    proof {
                        assert(s@ =~= rem.subrange(2, 2 + len as int));
                    }
                    Ok((DecodedData::StringU8(s), p2 + len as usize))
                },
                None => {
                    proof {
                        assert(rem.len() < 2 + len as nat);
                    }
                    Err(Error::InvalidField)
                },
            }
        },
        FieldType::StringU16 => {
            let (cnt, p2) = match read_u16_le(data, pos) {
                Some(x) => x,
                None => {
                    proof {
                        assert(rem.len() < 2);
                    }
                    return Err(Error::Truncated);
                },
            };
            proof {
                assert(rem.subrange(0, 2) =~= data@.subrange(pos as int, pos + 2));
            }
            match read_u16s(data, p2, cnt) {
                Ok(p) => {
                    proof {
                        assert(rem.skip(2) =~= data@.skip(p2 as int));
                    }
                    Ok((DecodedData::StringU16(p.0), p.1))
                },
                Err(_e) => {
                    proof {
                        assert(rem.skip(2) =~= data@.skip(p2 as int));
                    }
                    Err(Error::InvalidField)
                },
            }
        },
        FieldType::OptionalStringU8 => {
            if pos >= n {
                return Err(Error::Truncated);
            }
            let b = data[pos];
            assert(rem[0] == b);
            if b == 0 {
                return Ok((DecodedData::OptionalStringU8(false, Vec::new()), pos + 1));
            }
            if b != 1 {
                return Err(Error::InvalidField);
            }
            let (len, p2) = match read_u16_le(data, pos + 1) {
                Some(x) => x,
                None => {
                    proof {
                        assert(rem.len() < 3);
                    }
                    return Err(Error::Truncated);
                },
            };
            proof {
                assert(rem.subrange(1, 3) =~= data@.subrange(pos + 1, pos + 3));
            }
            match copy_range(data, p2, len as usize) {
                Some(s) => {
                    proof {
                        assert(s@ =~= rem.subrange(3, 3 + len as int));
                    }
                    Ok((DecodedData::OptionalStringU8(true, s), p2 + len as usize))
                },
                None => {
                    proof {
                        assert(rem.len() < 3 + len as nat);
                    }
                    Err(Error::InvalidField)
                },
            }
        },
        FieldType::OptionalStringU16 => {
            if pos >= n {
                return Err(Error::Truncated);
            }
            let b = data[pos];
            assert(rem[0] == b);
            if b == 0 {
                return Ok((DecodedData::OptionalStringU16(false, Vec::new()), pos + 1));
            }
            if b != 1 {
                return Err(Error::InvalidField);
            }
            let (cnt, p2) = match read_u16_le(data, pos + 1) {
                Some(x) => x,
                None => {
                    proof {
                        assert(rem.len() < 3);
                    }
                    return Err(Error::Truncated);
                },
            };
            proof {
                assert(rem.subrange(1, 3) =~= data@.subrange(pos + 1, pos + 3));
            }
            match read_u16s(data, p2, cnt) {
                Ok(p) => {
                    proof {
                        assert(rem.skip(3) =~= data@.skip(p2 as int));
                    }
                    Ok((DecodedData::OptionalStringU16(true, p.0), p.1))
                },
                Err(_e) => {
                    proof {
                        assert(rem.skip(3) =~= data@.skip(p2 as int));
                    }
                    Err(Error::InvalidField)
                },
            }
        },
        FieldType::Sequence => {
            let (cnt, p2) = match read_u32_le(data, pos) {
                Some(x) => x,
                None => {
                    proof {
                        assert(rem.len() < 4);
                    }
                    return Err(Error::Truncated);
                },
            };
            proof {
                assert(rem.subrange(0, 4) =~= data@.subrange(pos as int, pos + 4));
            }
            match dec_rows(data, p2, &f.sub_fields, cnt) {
                Ok(p) => {
                    proof {
                        assert(rem.skip(4) =~= data@.skip(p2 as int));
                    }
                    Ok((DecodedData::Sequence(p.0), p.1))
                },
                Err(e) => {
                    proof {
                        assert(rem.skip(4) =~= data@.skip(p2 as int));
                    }
                    Err(e)
                },
            }
        },
    }
}

/// Reads one row starting at `pos`, fields in definition order.
#[verifier::rlimit(100)]
#[verifier::loop_isolation(false)]
fn dec_row(data: &Vec<u8>, pos: usize, fields: &Vec<Field>) -> (r: Result<
    (Vec<DecodedData>, usize),
    Error,
>)
    requires
        pos <= data@.len(),
    ensures
        match r {
            Ok(p) => pos <= p.1 <= data@.len() && spec_dec_row(
                data@.skip(pos as int),
                spec_layouts(fields@),
            ) == Some((spec_row_model(p.0@), (p.1 - pos) as nat)),
            Err(e) => spec_dec_row(data@.skip(pos as int), spec_layouts(fields@)) is None && (e
                == Error::Truncated || e == Error::InvalidField),
        },
    decreases *fields, 0nat,
{
    let ghost ls = spec_layouts(fields@);
    proof {
        lemma_layouts_index(fields@);
        assert(ls.skip(0) =~= ls);
    }
    let n = data.len();
    let nf = fields.len();
    let mut row: Vec<DecodedData> = Vec::new();
    let mut p = pos;
    let mut j: usize = 0;
    while j < nf
        invariant
            j <= nf,
            nf == fields@.len(),
            nf == ls.len(),
            pos <= p <= n,
            n == data@.len(),
            row@.len() == j,
            forall|i: int| 0 <= i < ls.len() ==> ls[i] == spec_layout(#[trigger] fields@[i]),
            spec_dec_row(data@.skip(pos as int), ls) == (match spec_dec_row(
                data@.skip(p as int),
                ls.skip(j as int),
            ) {
                None => None::<(Seq<CellModel>, nat)>,
                Some(q) => Some((spec_row_model(row@) + q.0, ((p - pos) + q.1) as nat)),
            }),
        decreases nf - j,
    {
        let ghost before = row@;
        proof {
            assert(ls.skip(j as int)[0] == ls[j as int]);
        }
        let (cell, p2) = match dec_cell(data, p, &fields[j]) {
            Ok(x) => x,
            Err(e) => {
                return Err(e);
            },
        };
        proof {
            assert(data@.skip(p as int).skip((p2 - p) as int) =~= data@.skip(p2 as int));
            assert(ls.skip(j as int).skip(1) =~= ls.skip(j + 1));
        }
        row.push(cell);
        proof {
            assert(row@.drop_last() =~= before);
            assert(spec_row_model(row@) =~= spec_row_model(before).push(spec_cell_model(cell)));
            assert(match spec_dec_row(data@.skip(p2 as int), ls.skip(j + 1)) {
                None => true,
                Some(q) => spec_row_model(before) + (seq![spec_cell_model(cell)] + q.0)
                    =~= spec_row_model(row@) + q.0,
            });
        }
        p = p2;
        j = j + 1;
    }
    proof {
        assert(ls.skip(nf as int) =~= Seq::<FieldLayout>::empty());
        assert(spec_row_model(row@) + Seq::<CellModel>::empty() =~= spec_row_model(row@));
    }
    Ok((row, p))
}

/// Reads `count` rows starting at `pos`.
#[verifier::rlimit(100)]
#[verifier::loop_isolation(false)]
fn dec_rows(data: &Vec<u8>, pos: usize, fields: &Vec<Field>, count: u32) -> (r: Result<
    (Vec<Vec<DecodedData>>, usize),
    Error,
>)
    requires
        pos <= data@.len(),
    ensures
        match r {
            Ok(p) => pos <= p.1 <= data@.len() && p.0@.len() == count && spec_dec_rows(
                data@.skip(pos as int),
                spec_layouts(fields@),
                count as nat,
            ) == Some((spec_rows_model(p.0@), (p.1 - pos) as nat)),
            Err(e) => spec_dec_rows(
                data@.skip(pos as int),
                spec_layouts(fields@),
                count as nat,
            ) is None && (e == Error::Truncated || e == Error::InvalidField),
        },
    decreases *fields, count,
{
    let ghost ls = spec_layouts(fields@);
    let n = data.len();
    let mut rows: Vec<Vec<DecodedData>> = Vec::new();
    let mut p = pos;
    let mut k: u32 = 0;
    while k < count
        invariant
            k <= count,
            pos <= p <= n,
            n == data@.len(),
            rows@.len() == k,
            spec_dec_rows(data@.skip(pos as int), ls, count as nat) == (match spec_dec_rows(
                data@.skip(p as int),
                ls,
                (count - k) as nat,
            ) {
                None => None::<(Seq<Seq<CellModel>>, nat)>,
                Some(q) => Some((spec_rows_model(rows@) + q.0, ((p - pos) + q.1) as nat)),
            }),
        decreases count - k,
    {
        let ghost before = rows@;
        let (row, p2) = match dec_row(data, p, fields) {
            Ok(x) => x,
            Err(e) => {
                return Err(e);
            },
        };
        proof {
            assert(data@.skip(p as int).skip((p2 - p) as int) =~= data@.skip(p2 as int));
        }
        rows.push(row);
        proof {
            assert(rows@.drop_last() =~= before);
            assert(spec_rows_model(rows@) =~= spec_rows_model(before).push(
                spec_row_model(row@),
            ));
            assert(match spec_dec_rows(data@.skip(p2 as int), ls, (count - k - 1) as nat) {
                None => true,
                Some(q) => spec_rows_model(before) + (seq![spec_row_model(row@)] + q.0)
                    =~= spec_rows_model(rows@) + q.0,
            });
        }
        p = p2;
        k = k + 1;
    }
    proof {
        assert(spec_rows_model(rows@) + Seq::<Seq<CellModel>>::empty() =~= spec_rows_model(
            rows@,
        ));
    }
    Ok((rows, p))
}

/// A decoded table: its name, the definition its rows follow, and the
/// typed rows in wire order.
pub struct Table {
    pub name: Vec<u8>,
    pub definition: Definition,
    pub entries: Vec<Vec<DecodedData>>,
}

impl Table {
    /// The abstract rows of this table.
    pub open spec fn spec_rows(self) -> Seq<Seq<CellModel>> {
        spec_rows_model(self.entries@)
    }

    /// A well-formed table: the row count fits its wire field and
    /// every row matches the definition's field layouts.
    pub open spec fn wf(self) -> bool {
        &&& self.entries@.len() <= u32::MAX
        &&& forall|i: int|
            0 <= i < self.spec_rows().len() ==> spec_row_wf(
                #[trigger] self.spec_rows()[i],
                spec_layouts(self.definition.fields@),
            )
    }

    /// An empty table following the given definition — the starting
    /// point when creating a record from scratch.
    pub fn new(name: Vec<u8>, definition: Definition) -> (r: Self)
        ensures
            r.wf(),
            r.name@ == name@,
            r.definition == definition,
            r.entries@.len() == 0,
    {
        Table { name, definition, entries: Vec::new() }
    }

    /// Serialises the table: version, row count, then every row's
    /// fields in definition order, nested lists included.  The
    /// produced bytes always decode back to exactly this table's
    /// version and rows: together with the contract of
    /// [`Table::decode`] this states the round-trip law.
    #[verifier::rlimit(100)]
    #[verifier::loop_isolation(false)]
    pub fn encode(&self) -> (r: Vec<u8>)
        requires
            self.wf(),
        ensures
            r@ == spec_enc_table(self.definition.version, self.spec_rows()),
            spec_dec_table_body(r@, spec_layouts(self.definition.fields@)) == Some(
                (self.definition.version, self.spec_rows()),
            ),
    {
        let ghost rows = self.spec_rows();
        let ghost ls = spec_layouts(self.definition.fields@);
        proof {
            lemma_rows_model_index(self.entries@);
        }
        let n = self.entries.len();
        let mut out: Vec<u8> = Vec::new();
        push_u32_le(&mut out, self.definition.version as u32);
        push_u32_le(&mut out, n as u32);
        let ghost hdr = out@;
        let mut i: usize = 0;
        proof {
            assert(rows.take(0) =~= Seq::<Seq<CellModel>>::empty());
            assert(out@ =~= hdr + spec_enc_rows(rows.take(0)));
        }
        while i < n
            invariant
                i <= n,
                out@ == hdr + spec_enc_rows(rows.take(i as int)),
            decreases n - i,
        {
            proof {
                assert(spec_row_wf(rows[i as int], ls));
                lemma_row_wf_encodable(rows[i as int], ls);
            }
            push_row(&mut out, &self.entries[i]);
            proof {
                assert(rows.take(i + 1).drop_last() =~= rows.take(i as int));
                assert(rows.take(i + 1).last() == rows[i as int]);
                assert(hdr + spec_enc_rows(rows.take(i as int)) + spec_enc_row(rows[i as int])
                    =~= hdr + (spec_enc_rows(rows.take(i as int)) + spec_enc_row(
                    rows[i as int],
                )));
            }
            i = i + 1;
        }
        proof {
            assert(rows.take(n as int) =~= rows);
            assert(out@ =~= spec_enc_table(self.definition.version, rows));
            lemma_table_roundtrip(self.definition.version, rows, ls);
        }
        out
    }

    /// Decodes a table from its bytes: reads the declared version,
    /// resolves the definition for exactly that version through the
    /// registry, and reads the declared number of rows — nested lists
    /// included — which must span the rest of the buffer.  Succeeds
    /// precisely when all of that holds.
    #[verifier::rlimit(100)]
    #[verifier::loop_isolation(false)]
    pub fn decode(data: &Vec<u8>, table_name: &Vec<u8>, schema: &Schema) -> (r: Result<
        Table,
        Error,
    >)
        requires
            schema.spec_wf(),
        ensures
            r is Ok <==> (data@.len() >= 8 && (spec_lookup_def(
                schema.tables@,
                table_name@,
                u32_from_le(data@.subrange(0, 4)) as i32,
            ) matches Some(d) && spec_dec_table_body(data@, spec_layouts(d.fields@)) is Some)),
            match r {
                Ok(t) => {
                    &&& t.name@ == table_name@
                    &&& t.wf()
                    &&& data@.len() >= 8
                    &&& t.definition.version == u32_from_le(data@.subrange(0, 4)) as i32
                    &&& (spec_lookup_def(schema.tables@, table_name@, t.definition.version)
                        matches Some(d) && spec_layouts(t.definition.fields@) == spec_layouts(
                        d.fields@,
                    ) && t.definition.fields@.len() == d.fields@.len() && (forall|i: int|
                        0 <= i < d.fields@.len() ==> (#[trigger] t.definition.fields@[i]).name@
                            == d.fields@[i].name@ && t.definition.fields@[i].is_key
                            == d.fields@[i].is_key))
                    &&& spec_dec_table_body(data@, spec_layouts(t.definition.fields@)) == Some(
                        (t.definition.version, t.spec_rows()),
                    )
                },
                Err(e) => {
                    &&& (e == Error::SchemaNotFound <==> data@.len() >= 8 && !spec_has_table(
                        schema.tables@,
                        table_name@,
                    ))
                    &&& (e == Error::UnknownVersion <==> data@.len() >= 8 && spec_has_table(
                        schema.tables@,
                        table_name@,
                    ) && spec_lookup_def(
                        schema.tables@,
                        table_name@,
                        u32_from_le(data@.subrange(0, 4)) as i32,
                    ) is None)
                    &&& (e == Error::SchemaNotFound || e == Error::UnknownVersion || e
                        == Error::Truncated || e == Error::InvalidField || e
                        == Error::CorruptData)
                },
            },
    {
        let version_u = match read_u32_le(data, 0) {
            Some(x) => x.0,
            None => {
                return Err(Error::Truncated);
            },
        };
        let count = match read_u32_le(data, 4) {
            Some(x) => x.0,
            None => {
                return Err(Error::Truncated);
            },
        };
        let version = version_u as i32;
        proof {
            assert(data@.subrange(0int, 0int + 4) =~= data@.subrange(0, 4));
            assert(data@.subrange(4int, 4int + 4) =~= data@.subrange(4, 8));
        }
        let def = match schema.get_definition(table_name, version) {
            Ok(d) => d,
            Err(e) => {
                if e == Error::SchemaNotFound {
                    return Err(Error::SchemaNotFound);
                }
                return Err(Error::UnknownVersion);
            },
        };
        let ghost ls = spec_layouts(def.fields@);
        let (entries, end) = match dec_rows(data, 8, &def.fields, count) {
            Ok(x) => x,
            Err(e) => {
                proof {
                    assert(data@.skip(8) =~= data@.skip(8int));
                }
                return Err(e);
            },
        };
        let n = data.len();
        if end != n {
            proof {
                assert(data@.skip(8).len() == n - 8);
            }
            return Err(Error::CorruptData);
        }
        let definition = clone_definition(def);
        let t = Table { name: clone_bytes(table_name), definition, entries };
        proof {
            assert(spec_layouts(t.definition.fields@) == ls);
            assert(spec_dec_rows(data@.skip(8), ls, count as nat) == Some(
                (t.spec_rows(), (n - 8) as nat),
            ));
            lemma_dec_rows_wf(data@.skip(8), ls, count as nat);
            lemma_rows_model_index(t.entries@);
        }
        Ok(t)
    }
}

} // verus!
