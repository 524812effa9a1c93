//! The schema registry: versioned field layouts per table name.
//!
//! A schema maps each table name to the definitions known for it, one
//! per format version of that table.  The registry is read-mostly;
//! adding a definition is an explicit administrative operation.

use vstd::prelude::*;

use crate::error::Error;
use crate::wire::{bytes_eq, clone_bytes};

verus! {

/// The primitive type of one field on the wire.
#[derive(Clone, Copy, Debug, PartialEq, Eq, Structural)]
pub enum FieldType {
    /// One byte, zero or one.
    Boolean,
    /// Four bytes holding a 32-bit floating-point bit pattern; the
    /// codec moves the bits untouched.
    Float32,
    /// Four bytes, signed, little-endian.
    Integer,
    /// Eight bytes, signed, little-endian.
    LongInteger,
    /// A 16-bit length prefix and that many bytes.
    StringU8,
    /// A 16-bit count prefix and that many 16-bit units.
    StringU16,
    /// A presence byte, then the string when present.
    OptionalStringU8,
    /// A presence byte, then the 16-bit-unit string when present.
    OptionalStringU16,
    /// A nested list of rows: a 32-bit repetition count, then that
    /// many rows laid out by the field's own sub-fields.
    Sequence,
}

/// One field of a definition: its name, wire type, whether it takes
/// part in row identity, when it is a foreign key the table and
/// column it points at, and — for a nested list field — the layout of
/// the nested rows.
pub struct Field {
    pub name: Vec<u8>,
    pub field_type: FieldType,
    pub is_key: bool,
    pub is_reference: Option<(Vec<u8>, Vec<u8>)>,
    pub sub_fields: Vec<Field>,
}

/// One versioned field layout of a table; field order is wire order.
pub struct Definition {
    pub version: i32,
    pub fields: Vec<Field>,
}

/// The wire layout of one field, nested lists included: exactly what
/// the record codec needs to pick the decode of each field.
pub enum FieldLayout {
    Boolean,
    Float32,
    Integer,
    LongInteger,
    StringU8,
    StringU16,
    OptionalStringU8,
    OptionalStringU16,
    Sequence(Seq<FieldLayout>),
}

/// The wire layout of a field.
pub open spec fn spec_layout(f: Field) -> FieldLayout
    decreases f,
{
    match f.field_type {
        FieldType::Boolean => FieldLayout::Boolean,
        FieldType::Float32 => FieldLayout::Float32,
        FieldType::Integer => FieldLayout::Integer,
        FieldType::LongInteger => FieldLayout::LongInteger,
        FieldType::StringU8 => FieldLayout::StringU8,
        FieldType::StringU16 => FieldLayout::StringU16,
        FieldType::OptionalStringU8 => FieldLayout::OptionalStringU8,
        FieldType::OptionalStringU16 => FieldLayout::OptionalStringU16,
        FieldType::Sequence => FieldLayout::Sequence(spec_layouts(f.sub_fields@)),
    }
}

/// The wire layouts of a list of fields, in wire order.
pub open spec fn spec_layouts(fs: Seq<Field>) -> Seq<FieldLayout>
    decreases fs,
{
    if fs.len() == 0 {
        Seq::empty()
    } else {
        spec_layouts(fs.drop_last()).push(spec_layout(fs.last()))
    }
}

/// The layout list is the pointwise layout of the fields.
pub proof fn lemma_layouts_index(fs: Seq<Field>)
    ensures
        spec_layouts(fs).len() == fs.len(),
        forall|i: int| 0 <= i < fs.len() ==> spec_layouts(fs)[i] == spec_layout(#[trigger] fs[i]),
    decreases fs.len(),
{
    if fs.len() > 0 {
        lemma_layouts_index(fs.drop_last());
        assert forall|i: int| 0 <= i < fs.len() implies spec_layouts(fs)[i] == spec_layout(
            #[trigger] fs[i],
        ) by {
            if i < fs.len() - 1 {
                assert(fs.drop_last()[i] == fs[i]);
                assert(spec_layouts(fs.drop_last())[i] == spec_layout(fs.drop_last()[i]));
            } else {
                assert(fs.last() == fs[i]);
            }
        }
    }
}

/// All definitions known for one table name.
pub struct VersionedFile {
    pub name: Vec<u8>,
    pub definitions: Vec<Definition>,
}

/// The registry: each known table name with its definitions.
pub struct Schema {
    pub tables: Vec<VersionedFile>,
}

/// Whether the registry knows the table name.
pub open spec fn spec_has_table(tables: Seq<VersionedFile>, name: Seq<u8>) -> bool {
    exists|i: int| 0 <= i < tables.len() && (#[trigger] tables[i]).name@ == name
}

/// Whether a definition list holds the version.
pub open spec fn spec_has_version(defs: Seq<Definition>, version: i32) -> bool {
    exists|i: int| 0 <= i < defs.len() && (#[trigger] defs[i]).version == version
}

/// A sound registry: table names are unique, and so are the versions
/// within one table.
pub open spec fn spec_schema_wf(tables: Seq<VersionedFile>) -> bool {
    &&& forall|i: int, j: int|
        0 <= i < j < tables.len() ==> (#[trigger] tables[i]).name@ != (#[trigger] tables[j]).name@
    &&& forall|t: int, a: int, b: int|
        #![trigger tables[t].definitions@[a], tables[t].definitions@[b]]
        0 <= t < tables.len() && 0 <= a < b < tables[t].definitions@.len()
            ==> tables[t].definitions@[a].version != tables[t].definitions@[b].version
}

/// The definition a sound registry holds for this name and version,
/// if any.
pub open spec fn spec_lookup_def(tables: Seq<VersionedFile>, name: Seq<u8>, version: i32) -> Option<
    Definition,
> {
    if spec_has_table(tables, name) {
        let ti = choose|i: int| 0 <= i < tables.len() && (#[trigger] tables[i]).name@ == name;
        let defs = tables[ti].definitions@;
        if spec_has_version(defs, version) {
            Some(defs[choose|j: int| 0 <= j < defs.len() && (#[trigger] defs[j]).version == version])
        } else {
            None
        }
    } else {
        None
    }
}

/// A fresh field equal to the given one, sub-fields included.
fn clone_field(f: &Field) -> (r: Field)
    ensures
        r.name@ == f.name@,
        r.field_type == f.field_type,
        r.is_key == f.is_key,
        match f.is_reference {
            Some(p) => r.is_reference matches Some(q) && q.0@ == p.0@ && q.1@ == p.1@,
            None => r.is_reference is None,
        },
        spec_layout(r) == spec_layout(*f),
    decreases *f,
{
    let is_reference = match &f.is_reference {
        Some(p) => Some((clone_bytes(&p.0), clone_bytes(&p.1))),
        None => None,
    };
    let sub_fields = clone_fields(&f.sub_fields);
    Field {
        name: clone_bytes(&f.name),
        field_type: f.field_type,
        is_key: f.is_key,
        is_reference,
        sub_fields,
    }
}

/// Fresh fields with the same layouts, names and flags in order.
fn clone_fields(fs: &Vec<Field>) -> (r: Vec<Field>)
    ensures
        r@.len() == fs@.len(),
        spec_layouts(r@) == spec_layouts(fs@),
        forall|i: int|
            0 <= i < fs@.len() ==> (#[trigger] r@[i]).field_type == fs@[i].field_type
                && r@[i].is_key == fs@[i].is_key && r@[i].name@ == fs@[i].name@,
    decreases *fs,
{
    let mut fields: Vec<Field> = Vec::new();
    let n = fs.len();
    let mut i: usize = 0;
    proof {
        assert(fs@.take(0) =~= Seq::<Field>::empty());
    }
    while i < n
        invariant
            i <= n,
            n == fs@.len(),
            fields@.len() == i,
            spec_layouts(fields@) == spec_layouts(fs@.take(i as int)),
            forall|j: int|
                0 <= j < i ==> (#[trigger] fields@[j]).field_type == fs@[j].field_type
                    && fields@[j].is_key == fs@[j].is_key && fields@[j].name@ == fs@[j].name@,
        decreases n - i,
    {
        let ghost before = fields@;
        let c = clone_field(&fs[i]);
        fields.push(c);
        proof {
            assert(fields@.drop_last() =~= before);
            assert(fs@.take(i + 1).drop_last() =~= fs@.take(i as int));
            assert(fs@.take(i + 1).last() == fs@[i as int]);
        }
        i = i + 1;
    }
    proof {
        assert(fs@.take(n as int) =~= fs@);
    }
    fields
}

/// A fresh definition with the same version and the same field
/// layouts, names and flags in the same order.
pub fn clone_definition(d: &Definition) -> (r: Definition)
    ensures
        r.version == d.version,
        r.fields@.len() == d.fields@.len(),
        spec_layouts(r.fields@) == spec_layouts(d.fields@),
        forall|i: int|
            0 <= i < d.fields@.len() ==> (#[trigger] r.fields@[i]).field_type
                == d.fields@[i].field_type && r.fields@[i].is_key == d.fields@[i].is_key
                && r.fields@[i].name@ == d.fields@[i].name@,
{
    Definition { version: d.version, fields: clone_fields(&d.fields) }
}

impl Schema {
    /// A sound registry: unique table names, unique versions per
    /// table.
    pub open spec fn spec_wf(self) -> bool {
        spec_schema_wf(self.tables@)
    }

    /// An empty registry.
    pub fn new() -> (r: Self)
        ensures
            r.tables@.len() == 0,
            r.spec_wf(),
    {
        Schema { tables: Vec::new() }
    }

    /// The position of the table name in the registry, if known.
    fn table_index(&self, name: &Vec<u8>) -> (r: Option<usize>)
        ensures
            match r {
                Some(i) => i < self.tables@.len() && self.tables@[i as int].name@ == name@,
                None => !spec_has_table(self.tables@, name@),
            },
    {
        let n = self.tables.len();
        let mut i: usize = 0;
        while i < n
            invariant
                i <= n,
                n == self.tables@.len(),
                forall|j: int| 0 <= j < i ==> (#[trigger] self.tables@[j]).name@ != name@,
            decreases n - i,
        {
            if bytes_eq(&self.tables[i].name, name) {
                return Some(i);
            }
            i = i + 1;
        }
        None
    }

    /// The definition of the table at exactly this version.  Fails
    /// with [`Error::SchemaNotFound`] when the table name is unknown,
    /// and with [`Error::DefinitionNotFound`] when the name is known
    /// but that version is not.
    #[verifier::loop_isolation(false)]
    pub fn get_definition(&self, table_name: &Vec<u8>, version: i32) -> (r: Result<
        &Definition,
        Error,
    >)
        requires
            spec_schema_wf(self.tables@),
        ensures
            match r {
                Ok(d) => {
                    &&& d.version == version
                    &&& spec_lookup_def(self.tables@, table_name@, version) == Some(*d)
                },
                Err(e) => {
                    &&& spec_lookup_def(self.tables@, table_name@, version) is None
                    &&& (e == Error::SchemaNotFound <==> !spec_has_table(
                        self.tables@,
                        table_name@,
                    ))
                    &&& (e == Error::SchemaNotFound || e == Error::DefinitionNotFound)
                },
            },
    {
        let ti = match self.table_index(table_name) {
            Some(i) => i,
            None => {
                return Err(Error::SchemaNotFound);
            },
        };
        proof {
            let w = choose|i: int|
                0 <= i < self.tables@.len() && (#[trigger] self.tables@[i]).name@ == table_name@;
            assert(self.tables@[w].name@ == table_name@);
            assert(w == ti);
        }
        let defs = &self.tables[ti].definitions;
        let n = defs.len();
        let mut j: usize = 0;
        while j < n
            invariant
                j <= n,
                n == defs@.len(),
                forall|q: int| 0 <= q < j ==> (#[trigger] defs@[q]).version != version,
            decreases n - j,
        {
            if defs[j].version == version {
                proof {
                    assert(defs@[j as int].version == version);
                    assert(spec_has_version(defs@, version));
                    let w = choose|q: int|
                        0 <= q < defs@.len() && (#[trigger] defs@[q]).version == version;
                    assert(defs@[w].version == version);
                    assert(w == j);
                }
                return Ok(&defs[j]);
            }
            j = j + 1;
        }
        proof {
            assert(!spec_has_version(defs@, version)) by {
                if spec_has_version(defs@, version) {
                    let w = choose|q: int|
                        0 <= q < defs@.len() && (#[trigger] defs@[q]).version == version;
                    assert(defs@[w].version == version);
                }
            }
        }
        Err(Error::DefinitionNotFound)
    }

    /// The definition with the highest version number for the table —
    /// the layout used when creating new records from scratch.  Fails
    /// with [`Error::SchemaNotFound`] when the table name is unknown,
    /// and with [`Error::DefinitionNotFound`] when it holds no
    /// definitions at all.
    #[verifier::loop_isolation(false)]
    pub fn get_latest_definition(&self, table_name: &Vec<u8>) -> (r: Result<&Definition, Error>)
        ensures
            match r {
                Ok(d) => exists|i: int|
                    0 <= i < self.tables@.len() && (#[trigger] self.tables@[i]).name@
                        == table_name@ && (exists|j: int|
                        0 <= j < self.tables@[i].definitions@.len() && *d
                            == self.tables@[i].definitions@[j]) && (forall|j: int|
                        0 <= j < self.tables@[i].definitions@.len()
                            ==> (#[trigger] self.tables@[i].definitions@[j]).version <= d.version),
                Err(e) => {
                    &&& (e == Error::SchemaNotFound <==> !spec_has_table(
                        self.tables@,
                        table_name@,
                    ))
                    &&& (e == Error::DefinitionNotFound ==> exists|i: int|
                        0 <= i < self.tables@.len() && (#[trigger] self.tables@[i]).name@
                            == table_name@ && self.tables@[i].definitions@.len() == 0)
                    &&& (e == Error::SchemaNotFound || e == Error::DefinitionNotFound)
                },
            },
    {
        let ti = match self.table_index(table_name) {
            Some(i) => i,
            None => {
                return Err(Error::SchemaNotFound);
            },
        };
        let defs = &self.tables[ti].definitions;
        let n = defs.len();
        if n == 0 {
            return Err(Error::DefinitionNotFound);
        }
        let mut best: usize = 0;
        let mut j: usize = 1;
        while j < n
            invariant
                1 <= j <= n,
                best < j,
                n == defs@.len(),
                forall|q: int| 0 <= q < j ==> (#[trigger] defs@[q]).version <= defs@[
                    best as int].version,
            decreases n - j,
        {
            if defs[j].version > defs[best].version {
                best = j;
            }
            j = j + 1;
        }
        Ok(&defs[best])
    }

    /// Adds a definition for the table, creating the table's entry on
    /// first use.  An administrative operation, not part of normal
    /// decode and encode traffic.  The version must be new to the
    /// table.  Afterwards the added definition is exactly what a
    /// lookup of that name and version yields, and every other lookup
    /// is unchanged.
    #[verifier::rlimit(100)]
    pub fn add_definition(&mut self, table_name: Vec<u8>, definition: Definition)
        requires
            old(self).spec_wf(),
            spec_has_table(old(self).tables@, table_name@) ==> !spec_has_version(
                old(self).tables@[choose|i: int|
                    0 <= i < old(self).tables@.len() && (#[trigger] old(self).tables@[i]).name@
                        == table_name@].definitions@,
                definition.version,
            ),
        ensures
            final(self).spec_wf(),
            spec_has_table(final(self).tables@, table_name@),
            spec_lookup_def(final(self).tables@, table_name@, definition.version) == Some(
                definition,
            ),
            forall|n: Seq<u8>, v: i32|
                !(n == table_name@ && v == definition.version) ==> spec_lookup_def(
                    final(self).tables@,
                    n,
                    v,
                ) == #[trigger] spec_lookup_def(old(self).tables@, n, v),
    {
        let ghost t0 = self.tables@;
        match self.table_index(&table_name) {
            Some(i) => {
                let mut vf = self.tables.remove(i);
                vf.definitions.push(definition);
                self.tables.insert(i, vf);
                proof {
                    let t1 = self.tables@;
                    let ii = i as int;
                    assert(t1 =~= t0.update(ii, t1[ii]));
                    assert(forall|j: int| 0 <= j < t1.len() && j != ii ==> t1[j] == t0[j]);
                    assert(t1[ii].name@ == table_name@);
                    let d0 = t0[ii].definitions@;
                    let d1 = t1[ii].definitions@;
                    assert(d1 =~= d0.push(definition));
                    // The requires speaks of the table the name picks out;
                    // uniqueness pins that to position `ii`.
                    let w = choose|q: int|
                        0 <= q < t0.len() && (#[trigger] t0[q]).name@ == table_name@;
                    assert(t0[w].name@ == table_name@);
                    assert(w == ii);
                    assert(!spec_has_version(d0, definition.version));
                    assert(forall|a: int|
                        0 <= a < d0.len() ==> (#[trigger] d0[a]).version != definition.version);
                    // Soundness of the updated registry.
                    assert(forall|j: int|
                        0 <= j < t1.len() ==> (#[trigger] t1[j]).name@ == t0[j].name@);
                    assert(spec_schema_wf(t1));
                    // The added definition is what the lookup yields.
                    assert(spec_has_table(t1, table_name@));
                    let w1 = choose|q: int|
                        0 <= q < t1.len() && (#[trigger] t1[q]).name@ == table_name@;
                    assert(t1[w1].name@ == table_name@);
                    assert(w1 == ii);
                    assert(d1[d0.len() as int] == definition);
                    assert(spec_has_version(d1, definition.version));
                    let b = choose|q: int|
                        0 <= q < d1.len() && (#[trigger] d1[q]).version == definition.version;
                    assert(d1[b].version == definition.version);
                    assert(b == d0.len());
                    assert(spec_lookup_def(t1, table_name@, definition.version) == Some(
                        definition,
                    ));
                    // Every other lookup is unchanged.
                    assert forall|n: Seq<u8>, v: i32|
                        !(n == table_name@ && v == definition.version) implies spec_lookup_def(
                        t1,
                        n,
                        v,
                    ) == spec_lookup_def(t0, n, v) by {
                        lemma_lookup_after_push_def(t0, t1, ii, definition, n, v);
                    }
                }
            },
            None => {
                let mut definitions: Vec<Definition> = Vec::new();
                definitions.push(definition);
                self.tables.push(VersionedFile { name: table_name, definitions });
                proof {
                    let t1 = self.tables@;
                    let ln = t0.len() as int;
                    assert(t1.len() == ln + 1);
                    assert(forall|j: int| 0 <= j < ln ==> t1[j] == t0[j]);
                    assert(t1[ln].name@ == table_name@);
                    assert(t1[ln].definitions@ =~= seq![definition]);
                    assert(!spec_has_table(t0, table_name@));
                    assert(forall|j: int| 0 <= j < ln ==> (#[trigger] t0[j]).name@ != table_name@);
                    assert(spec_schema_wf(t1));
                    // The added definition is what the lookup yields.
                    assert(spec_has_table(t1, table_name@));
                    let w1 = choose|q: int|
                        0 <= q < t1.len() && (#[trigger] t1[q]).name@ == table_name@;
                    assert(t1[w1].name@ == table_name@);
                    assert(w1 == ln);
                    let d1 = t1[ln].definitions@;
                    assert(d1[0].version == definition.version);
                    assert(spec_has_version(d1, definition.version));
                    let b = choose|q: int|
                        0 <= q < d1.len() && (#[trigger] d1[q]).version == definition.version;
                    assert(b == 0);
                    assert(spec_lookup_def(t1, table_name@, definition.version) == Some(
                        definition,
                    ));
                    // Every other lookup is unchanged.
                    assert forall|n: Seq<u8>, v: i32|
                        !(n == table_name@ && v == definition.version) implies spec_lookup_def(
                        t1,
                        n,
                        v,
                    ) == spec_lookup_def(t0, n, v) by {
                        lemma_lookup_after_new_table(t0, t1, definition, table_name@, n, v);
                    }
                }
            },
        }
    }
}

/// A lookup under any other name or version is unchanged by pushing a
/// fresh-versioned definition onto the table at position `i`.
#[verifier::rlimit(100)]
proof fn lemma_lookup_after_push_def(
    t0: Seq<VersionedFile>,
    t1: Seq<VersionedFile>,
    i: int,
    definition: Definition,
    n: Seq<u8>,
    v: i32,
)
    requires
        spec_schema_wf(t0),
        spec_schema_wf(t1),
        0 <= i < t0.len(),
        t1.len() == t0.len(),
        forall|j: int| 0 <= j < t1.len() && j != i ==> t1[j] == t0[j],
        t1[i].name@ == t0[i].name@,
        t1[i].definitions@ == t0[i].definitions@.push(definition),
        !(n == t0[i].name@ && v == definition.version),
    ensures
        spec_lookup_def(t1, n, v) == spec_lookup_def(t0, n, v),
{
    assert(forall|j: int| 0 <= j < t1.len() ==> (#[trigger] t1[j]).name@ == t0[j].name@);
    if spec_has_table(t0, n) {
        let w0 = choose|q: int| 0 <= q < t0.len() && (#[trigger] t0[q]).name@ == n;
        assert(t0[w0].name@ == n);
        assert(t1[w0].name@ == n);
        assert(spec_has_table(t1, n));
        let w1 = choose|q: int| 0 <= q < t1.len() && (#[trigger] t1[q]).name@ == n;
        assert(t1[w1].name@ == n);
        assert(w1 == w0);
        if w0 == i {
            assert(n == t0[i].name@);
            assert(v != definition.version);
            let d0 = t0[i].definitions@;
            let d1 = t1[i].definitions@;
            assert(forall|a: int| 0 <= a < d0.len() ==> d1[a] == #[trigger] d0[a]);
            if spec_has_version(d0, v) {
                let a = choose|q: int| 0 <= q < d0.len() && (#[trigger] d0[q]).version == v;
                assert(d0[a].version == v);
                assert(d1[a].version == v);
                assert(spec_has_version(d1, v));
                let b = choose|q: int| 0 <= q < d1.len() && (#[trigger] d1[q]).version == v;
                assert(d1[b].version == v);
                assert(b != d0.len());
                assert(b == a);
            } else {
                assert(!spec_has_version(d1, v)) by {
                    if spec_has_version(d1, v) {
                        let b = choose|q: int|
                            0 <= q < d1.len() && (#[trigger] d1[q]).version == v;
                        assert(d1[b].version == v);
                        assert(b != d0.len());
                        assert(d0[b].version == v);
                    }
                }
            }
        } else {
            assert(t1[w0] == t0[w0]);
        }
    } else {
        assert(!spec_has_table(t1, n)) by {
            if spec_has_table(t1, n) {
                let w1 = choose|q: int| 0 <= q < t1.len() && (#[trigger] t1[q]).name@ == n;
                assert(t1[w1].name@ == n);
                assert(t0[w1].name@ == n);
            }
        }
    }
}

/// A lookup under any other name or version is unchanged by adding a
/// table entry for a name the registry did not know.
proof fn lemma_lookup_after_new_table(
    t0: Seq<VersionedFile>,
    t1: Seq<VersionedFile>,
    definition: Definition,
    new_name: Seq<u8>,
    n: Seq<u8>,
    v: i32,
)
    requires
        spec_schema_wf(t0),
        spec_schema_wf(t1),
        !spec_has_table(t0, new_name),
        t1.len() == t0.len() + 1,
        forall|j: int| 0 <= j < t0.len() ==> t1[j] == t0[j],
        t1[t0.len() as int].name@ == new_name,
        t1[t0.len() as int].definitions@ == seq![definition],
        !(n == new_name && v == definition.version),
    ensures
        spec_lookup_def(t1, n, v) == spec_lookup_def(t0, n, v),
{
    let ln = t0.len() as int;
    if spec_has_table(t0, n) {
        let w0 = choose|q: int| 0 <= q < t0.len() && (#[trigger] t0[q]).name@ == n;
        assert(t0[w0].name@ == n);
        assert(t1[w0].name@ == n);
        assert(spec_has_table(t1, n));
        let w1 = choose|q: int| 0 <= q < t1.len() && (#[trigger] t1[q]).name@ == n;
        assert(t1[w1].name@ == n);
        assert(w1 == w0);
        assert(t1[w0] == t0[w0]);
    } else {
        if n == new_name {
            assert(spec_has_table(t1, n));
            let w1 = choose|q: int| 0 <= q < t1.len() && (#[trigger] t1[q]).name@ == n;
            assert(t1[w1].name@ == n);
            assert(w1 == ln);
            let d1 = t1[ln].definitions@;
            assert(v != definition.version);
            assert(!spec_has_version(d1, v)) by {
                if spec_has_version(d1, v) {
                    let b = choose|q: int| 0 <= q < d1.len() && (#[trigger] d1[q]).version == v;
                    assert(d1[b].version == v);
                    assert(b == 0);
                }
            }
        } else {
            assert(!spec_has_table(t1, n)) by {
                if spec_has_table(t1, n) {
                    let w1 = choose|q: int| 0 <= q < t1.len() && (#[trigger] t1[q]).name@ == n;
                    assert(t1[w1].name@ == n);
                    assert(w1 != ln);
                    assert(t0[w1].name@ == n);
                }
            }
        }
    }
}

} // verus!
