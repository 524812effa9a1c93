//! Cross-archive foreign-key resolution.
//!
//! A dependency set is an ordered list of loaded archives — the game's
//! base data first, mods after it — plus a flat, table-only fallback
//! store.  A reference query decodes the wanted table from the last
//! archive in the order that supplies it, so later archives shadow
//! earlier ones; archives whose copy fails to decode are skipped.  The
//! fallback store is consulted only when no archive supplies the
//! table.  The resolver only gathers candidate data; validating a
//! value against it is the caller's concern.

use vstd::prelude::*;

use crate::packfile::{spec_in_folder, PackFile};
use crate::schema::{Field, Schema, spec_layouts, spec_lookup_def};
use crate::table::{
    lemma_row_wf_encodable, spec_cell_encodable, spec_cell_model, spec_dec_table_body,
    spec_enc_cell, spec_row_wf, CellModel, DecodedData, Table,
};
use crate::wire::{bytes_eq, push_bytes, u32_from_le};

verus! {

/// The ordered archives and the flat fallback store a query consults.
pub struct DependencySet {
    pub archives: Vec<PackFile>,
    pub fallback: Vec<Table>,
}

impl DependencySet {
    /// Sound archives and sound fallback tables.
    pub open spec fn wf(self) -> bool {
        &&& forall|i: int| 0 <= i < self.archives@.len() ==> (#[trigger] self.archives@[i]).wf()
        &&& forall|i: int| 0 <= i < self.fallback@.len() ==> (#[trigger] self.fallback@[i]).wf()
    }
}

/// The folder that holds a table's records inside an archive.
pub open spec fn spec_db_folder(table: Seq<u8>) -> Seq<u8> {
    seq![100u8, 98u8, 47u8] + table
}

/// The first entry lying below the folder, if any.
pub open spec fn spec_first_in_folder(entries: Seq<crate::packedfile::PackedFile>, folder: Seq<u8>) -> Option<
    int,
>
    decreases entries.len(),
{
    if entries.len() == 0 {
        None
    } else if spec_in_folder(entries[0].path@, folder) {
        Some(0)
    } else {
        match spec_first_in_folder(entries.skip(1), folder) {
            None => None,
            Some(i) => Some(i + 1),
        }
    }
}

/// What one archive supplies for the table: the decoded version and
/// rows of its first entry below the table's folder, when that entry
/// decodes under the registry.
pub open spec fn spec_table_from_archive(pf: PackFile, table: Seq<u8>, schema: Schema) -> Option<
    (i32, Seq<Seq<CellModel>>),
> {
    match spec_first_in_folder(pf.packed_files@, spec_db_folder(table)) {
        None => None,
        Some(i) => match pf.spec_entry_decoded(i) {
            None => None,
            Some(bytes) => if bytes.len() < 8 {
                None
            } else {
                let version = u32_from_le(bytes.subrange(0, 4)) as i32;
                match spec_lookup_def(schema.tables@, table, version) {
                    None => None,
                    Some(d) => spec_dec_table_body(bytes, spec_layouts(d.fields@)),
                }
            },
        },
    }
}

/// The archive that resolves the table: the last one in the order
/// that supplies it, with what it supplies.
pub open spec fn spec_resolve_archive(
    archives: Seq<PackFile>,
    table: Seq<u8>,
    schema: Schema,
) -> Option<(int, (i32, Seq<Seq<CellModel>>))>
    decreases archives.len(),
{
    if archives.len() == 0 {
        None
    } else {
        match spec_table_from_archive(archives.last(), table, schema) {
            Some(t) => Some((archives.len() - 1, t)),
            None => spec_resolve_archive(archives.drop_last(), table, schema),
        }
    }
}

/// The fallback table that resolves the name: the last one carrying
/// it.
pub open spec fn spec_resolve_fallback(tables: Seq<Table>, name: Seq<u8>) -> Option<int>
    decreases tables.len(),
{
    if tables.len() == 0 {
        None
    } else if tables.last().name@ == name {
        Some(tables.len() - 1)
    } else {
        spec_resolve_fallback(tables.drop_last(), name)
    }
}

/// Dependency order [V, M] — the base game first, a mod after it —
/// resolves a table both supply to M's copy, and the reversed order
/// to V's: the later source always wins.
pub proof fn lemma_resolution_precedence(v: PackFile, m: PackFile, table: Seq<u8>, schema: Schema)
    requires
        spec_table_from_archive(v, table, schema) is Some,
        spec_table_from_archive(m, table, schema) is Some,
    ensures
        spec_resolve_archive(seq![v, m], table, schema) == Some(
            (1int, spec_table_from_archive(m, table, schema).unwrap()),
        ),
        spec_resolve_archive(seq![m, v], table, schema) == Some(
            (1int, spec_table_from_archive(v, table, schema).unwrap()),
        ),
{
    let vm = seq![v, m];
    assert(vm.len() == 2 && vm.last() == m);
    let mv = seq![m, v];
    assert(mv.len() == 2 && mv.last() == v);
}

/// When the folder test first holds at `i`, the scan finds exactly
/// `i`.
proof fn lemma_first_in_folder_at(
    entries: Seq<crate::packedfile::PackedFile>,
    folder: Seq<u8>,
    i: int,
)
    requires
        0 <= i < entries.len(),
        spec_in_folder(entries[i].path@, folder),
        forall|j: int| 0 <= j < i ==> !spec_in_folder((#[trigger] entries[j]).path@, folder),
    ensures
        spec_first_in_folder(entries, folder) == Some(i),
    decreases i,
{
    if i == 0 {
    } else {
        assert(forall|j: int|
            0 <= j < entries.skip(1).len() ==> entries.skip(1)[j] == entries[j + 1]);
        lemma_first_in_folder_at(entries.skip(1), folder, i - 1);
    }
}

/// When no entry lies below the folder, the scan finds nothing.
proof fn lemma_first_in_folder_none(entries: Seq<crate::packedfile::PackedFile>, folder: Seq<u8>)
    requires
        forall|j: int|
            0 <= j < entries.len() ==> !spec_in_folder((#[trigger] entries[j]).path@, folder),
    ensures
        spec_first_in_folder(entries, folder) is None,
    decreases entries.len(),
{
    if entries.len() > 0 {
        assert(forall|j: int|
            0 <= j < entries.skip(1).len() ==> entries.skip(1)[j] == entries[j + 1]);
        lemma_first_in_folder_none(entries.skip(1), folder);
    }
}

/// The wire bytes of one cell, in a fresh buffer.
fn enc_cell_bytes(c: &DecodedData) -> (r: Vec<u8>)
    requires
        spec_cell_encodable(spec_cell_model(*c)),
    ensures
        r@ == spec_enc_cell(spec_cell_model(*c)),
{
    let mut out: Vec<u8> = Vec::new();
    crate::table::push_cell(&mut out, c);
    assert(out@ =~= spec_enc_cell(spec_cell_model(*c)));
    out
}

/// The folder that holds a table's records.
fn db_folder(table: &Vec<u8>) -> (r: Vec<u8>)
    ensures
        r@ == spec_db_folder(table@),
{
    let mut folder: Vec<u8> = Vec::new();
    folder.push(100);
    folder.push(98);
    folder.push(47);
    push_bytes(&mut folder, table);
    assert(folder@ =~= spec_db_folder(table@));
    folder
}

/// Decodes the table an archive supplies, if it supplies one.
fn table_from_archive(pf: &PackFile, table_name: &Vec<u8>, schema: &Schema) -> (r: Option<Table>)
    requires
        pf.wf(),
        schema.spec_wf(),
    ensures
        match r {
            Some(t) => {
                &&& t.wf()
                &&& spec_table_from_archive(*pf, table_name@, *schema) == Some(
                    (t.definition.version, t.spec_rows()),
                )
                &&& (spec_lookup_def(schema.tables@, table_name@, t.definition.version)
                    matches Some(d) && t.definition.fields@.len() == d.fields@.len() && (forall|
                    i: int,
                |
                    0 <= i < d.fields@.len() ==> (#[trigger] t.definition.fields@[i]).name@
                        == d.fields@[i].name@ && t.definition.fields@[i].is_key
                        == d.fields@[i].is_key))
            },
            None => spec_table_from_archive(*pf, table_name@, *schema) is None,
        },
{
    let folder = db_folder(table_name);
    let n = pf.packed_files.len();
    let mut i: usize = 0;
    while i < n
        invariant
            i <= n,
            n == pf.packed_files@.len(),
            pf.wf(),
            schema.spec_wf(),
            folder@ == spec_db_folder(table_name@),
            forall|j: int|
                0 <= j < i ==> !spec_in_folder(
                    (#[trigger] pf.packed_files@[j]).path@,
                    folder@,
                ),
        decreases n - i,
    {
        if crate::packfile::path_in_folder(&pf.packed_files[i].path, &folder) {
            proof {
                lemma_first_in_folder_at(pf.packed_files@, folder@, i as int);
            }
            let bytes = match pf.get_data_by_index(i) {
                Ok(b) => b,
                Err(_e) => {
                    return None;
                },
            };
            return match Table::decode(&bytes, table_name, schema) {
                Ok(t) => Some(t),
                Err(_e) => None,
            };
        }
        i = i + 1;
    }
    proof {
        lemma_first_in_folder_none(pf.packed_files@, folder@);
    }
    None
}

/// The position of the field carrying the name, if any.
fn field_index_by_name(fields: &Vec<Field>, name: &Vec<u8>) -> (r: Option<usize>)
    ensures
        match r {
            Some(i) => i < fields@.len() && fields@[i as int].name@ == name@,
            None => forall|j: int| 0 <= j < fields@.len() ==> (#[trigger] fields@[j]).name@
                != name@,
        },
{
    let n = fields.len();
    let mut i: usize = 0;
    while i < n
        invariant
            i <= n,
            n == fields@.len(),
            forall|j: int| 0 <= j < i ==> (#[trigger] fields@[j]).name@ != name@,
        decreases n - i,
    {
        if bytes_eq(&fields[i].name, name) {
            return Some(i);
        }
        i = i + 1;
    }
    None
}

/// The position of the first field flagged as a key, if any.
fn first_key_index(fields: &Vec<Field>) -> (r: Option<usize>)
    ensures
        match r {
            Some(i) => i < fields@.len() && fields@[i as int].is_key,
            None => forall|j: int| 0 <= j < fields@.len() ==> !(#[trigger] fields@[j]).is_key,
        },
{
    let n = fields.len();
    let mut i: usize = 0;
    while i < n
        invariant
            i <= n,
            n == fields@.len(),
            forall|j: int| 0 <= j < i ==> !(#[trigger] fields@[j]).is_key,
        decreases n - i,
    {
        if fields[i].is_key {
            return Some(i);
        }
        i = i + 1;
    }
    None
}

/// One returned pair is the wire bytes of a row's key cell and
/// column cell.
#[verifier::opaque]
pub open spec fn spec_pair_ok(p: (Vec<u8>, Vec<u8>), row: Seq<CellModel>, ki: int, ci: int) -> bool {
    p.0@ == spec_enc_cell(row[ki]) && p.1@ == spec_enc_cell(row[ci])
}

/// What a correct answer for one resolved table looks like: when no
/// field carries the column name there are no pairs, and otherwise
/// there are column and key positions under which every pair is the
/// wire bytes of that row's key cell and column cell.
pub open spec fn spec_pairs_for(
    pairs: Seq<(Vec<u8>, Vec<u8>)>,
    rows: Seq<Seq<CellModel>>,
    fields: Seq<Field>,
    column: Seq<u8>,
) -> bool {
    &&& ((forall|j: int| 0 <= j < fields.len() ==> (#[trigger] fields[j]).name@ != column)
        ==> pairs.len() == 0)
    &&& ((exists|j: int| 0 <= j < fields.len() && (#[trigger] fields[j]).name@ == column)
        ==> (exists|ci: int, ki: int|
        #![trigger fields[ci], fields[ki]]
        {
            &&& 0 <= ci < fields.len()
            &&& fields[ci].name@ == column
            &&& 0 <= ki < fields.len()
            &&& pairs.len() == rows.len()
            &&& (forall|q: int|
                0 <= q < pairs.len() ==> spec_pair_ok(#[trigger] pairs[q], rows[q], ki, ci))
        }))
}

/// The reference pairs of one decoded table for the column: each
/// row's key cell and column cell on the wire.  The key is the first
/// field flagged as one, or the column itself where none is.  Empty
/// when the table has no column of that name.
fn pairs_from_table(t: &Table, column_name: &Vec<u8>) -> (r: (
    Vec<(Vec<u8>, Vec<u8>)>,
    Ghost<(int, int)>,
))
    requires
        t.wf(),
    ensures
        (forall|j: int|
            0 <= j < t.definition.fields@.len() ==> (#[trigger] t.definition.fields@[j]).name@
                != column_name@) ==> r.0@.len() == 0,
        (exists|j: int|
            0 <= j < t.definition.fields@.len() && (#[trigger] t.definition.fields@[j]).name@
                == column_name@) ==> ({
            let (ci, ki) = r.1@;
            &&& 0 <= ci < t.definition.fields@.len()
            &&& t.definition.fields@[ci].name@ == column_name@
            &&& 0 <= ki < t.definition.fields@.len()
            &&& r.0@.len() == t.spec_rows().len()
            &&& (forall|q: int|
                0 <= q < r.0@.len() ==> spec_pair_ok(#[trigger] r.0@[q], t.spec_rows()[q], ki, ci))
        }),
{
    let ci = match field_index_by_name(&t.definition.fields, column_name) {
        Some(ci) => ci,
        None => {
            let empty: Vec<(Vec<u8>, Vec<u8>)> = Vec::new();
            return (empty, Ghost((0int, 0int)));
        },
    };
    let ki = match first_key_index(&t.definition.fields) {
        Some(ki) => ki,
        None => ci,
    };
    let ghost ls = spec_layouts(t.definition.fields@);
    proof {
        crate::schema::lemma_layouts_index(t.definition.fields@);
        crate::table::lemma_rows_model_index(t.entries@);
    }
    let n = t.entries.len();
    let mut out: Vec<(Vec<u8>, Vec<u8>)> = Vec::new();
    let mut i: usize = 0;
    while i < n
        invariant
            i <= n,
            n == t.entries@.len(),
            n == t.spec_rows().len(),
            t.wf(),
            ls == spec_layouts(t.definition.fields@),
            ls.len() == t.definition.fields@.len(),
            ci < t.definition.fields@.len(),
            ki < t.definition.fields@.len(),
            forall|q: int|
                0 <= q < n ==> t.spec_rows()[q] == crate::table::spec_row_model(
                    (#[trigger] t.entries@[q])@,
                ),
            out@.len() == i,
            forall|q: int|
                0 <= q < i ==> spec_pair_ok(
                    #[trigger] out@[q],
                    t.spec_rows()[q],
                    ki as int,
                    ci as int,
                ),
        decreases n - i,
    {
        proof {
            assert(spec_row_wf(t.spec_rows()[i as int], ls));
            lemma_row_wf_encodable(t.spec_rows()[i as int], ls);
            crate::table::lemma_row_model_index(t.entries@[i as int]@);
            assert(t.entries@[i as int]@.len() == ls.len());
            assert(t.spec_rows()[i as int][ki as int] == spec_cell_model(
                t.entries@[i as int]@[ki as int],
            ));
            assert(t.spec_rows()[i as int][ci as int] == spec_cell_model(
                t.entries@[i as int]@[ci as int],
            ));
            assert(spec_cell_encodable(t.spec_rows()[i as int][ki as int]));
            assert(spec_cell_encodable(t.spec_rows()[i as int][ci as int]));
        }
        let key = enc_cell_bytes(&t.entries[i][ki]);
        let val = enc_cell_bytes(&t.entries[i][ci]);
        proof {
            reveal(spec_pair_ok);
        }
        out.push((key, val));
        i = i + 1;
    }
    (out, Ghost((ci as int, ki as int)))
}

/// Reference pairs correct for one field list, witnessed by concrete
/// column and key positions, are correct for a second field list with
/// the same names in the same order.
proof fn lemma_pairs_transfer(
    tf: Seq<Field>,
    df: Seq<Field>,
    rows: Seq<Seq<CellModel>>,
    pairs: Seq<(Vec<u8>, Vec<u8>)>,
    gi: (int, int),
    column: Seq<u8>,
)
    requires
        tf.len() == df.len(),
        forall|j: int| 0 <= j < df.len() ==> (#[trigger] df[j]).name@ == tf[j].name@,
        (forall|j: int| 0 <= j < tf.len() ==> (#[trigger] tf[j]).name@ != column) ==> pairs.len()
            == 0,
        (exists|j: int| 0 <= j < tf.len() && (#[trigger] tf[j]).name@ == column) ==> ({
            let (ci, ki) = gi;
            &&& 0 <= ci < tf.len()
            &&& tf[ci].name@ == column
            &&& 0 <= ki < tf.len()
            &&& pairs.len() == rows.len()
            &&& (forall|q: int|
                0 <= q < pairs.len() ==> spec_pair_ok(#[trigger] pairs[q], rows[q], ki, ci))
        }),
    ensures
        spec_pairs_for(pairs, rows, df, column),
{
    if forall|j: int| 0 <= j < df.len() ==> (#[trigger] df[j]).name@ != column {
        assert forall|j: int| 0 <= j < tf.len() implies (#[trigger] tf[j]).name@ != column by {
            assert(df[j].name@ == tf[j].name@);
        }
    }
    if exists|j: int| 0 <= j < df.len() && (#[trigger] df[j]).name@ == column {
        let w = choose|j: int| 0 <= j < df.len() && (#[trigger] df[j]).name@ == column;
        assert(tf[w].name@ == column);
        assert(exists|j: int| 0 <= j < tf.len() && (#[trigger] tf[j]).name@ == column);
        let (ci, ki) = gi;
        let dki = df[ki];
        assert(df[ci].name@ == column);
        assert({
            &&& 0 <= ci < df.len()
            &&& df[ci].name@ == column
            &&& 0 <= ki < df.len()
            &&& pairs.len() == rows.len()
            &&& (forall|q: int|
                0 <= q < pairs.len() ==> spec_pair_ok(#[trigger] pairs[q], rows[q], ki, ci))
        });
        assert(exists|ci2: int, ki2: int|
            #![trigger df[ci2], df[ki2]]
            {
                &&& 0 <= ci2 < df.len()
                &&& df[ci2].name@ == column
                &&& 0 <= ki2 < df.len()
                &&& pairs.len() == rows.len()
                &&& (forall|q: int|
                    0 <= q < pairs.len() ==> spec_pair_ok(#[trigger] pairs[q], rows[q], ki2, ci2))
            });
    }
}

/// Gathers the candidate values of the referenced column: the table
/// is decoded from the last archive in the dependency order that
/// supplies it — later archives shadow earlier ones, and an archive
/// whose copy fails to decode is skipped — or taken from the fallback
/// store when no archive supplies it.  Returns the key and column
/// cell of every row; empty when no source supplies the table at all.
#[verifier::rlimit(100)]
#[verifier::loop_isolation(false)]
pub fn resolve_reference(
    table_name: &Vec<u8>,
    column_name: &Vec<u8>,
    deps: &DependencySet,
    schema: &Schema,
) -> (r: Vec<(Vec<u8>, Vec<u8>)>)
    requires
        deps.wf(),
        schema.spec_wf(),
    ensures
        spec_resolve_archive(deps.archives@, table_name@, *schema) is None
            && spec_resolve_fallback(deps.fallback@, table_name@) is None ==> r@.len() == 0,
        (spec_resolve_archive(deps.archives@, table_name@, *schema) is Some && spec_lookup_def(
            schema.tables@,
            table_name@,
            spec_resolve_archive(deps.archives@, table_name@, *schema).unwrap().1.0,
        ) is Some) ==> spec_pairs_for(
            r@,
            spec_resolve_archive(deps.archives@, table_name@, *schema).unwrap().1.1,
            spec_lookup_def(
                schema.tables@,
                table_name@,
                spec_resolve_archive(deps.archives@, table_name@, *schema).unwrap().1.0,
            ).unwrap().fields@,
            column_name@,
        ),
        (spec_resolve_archive(deps.archives@, table_name@, *schema) is None
            && spec_resolve_fallback(deps.fallback@, table_name@) is Some) ==> spec_pairs_for(
            r@,
            deps.fallback@[spec_resolve_fallback(deps.fallback@, table_name@).unwrap()].spec_rows(),
            deps.fallback@[spec_resolve_fallback(
                deps.fallback@,
                table_name@,
            ).unwrap()].definition.fields@,
            column_name@,
        ),
{
    let n = deps.archives.len();
    let mut k: usize = n;
    proof {
        assert(deps.archives@.take(n as int) =~= deps.archives@);
    }
    while k > 0
        invariant
            k <= n,
            n == deps.archives@.len(),
            deps.wf(),
            schema.spec_wf(),
            spec_resolve_archive(deps.archives@.take(k as int), table_name@, *schema)
                == spec_resolve_archive(deps.archives@, table_name@, *schema),
        decreases k,
    {
        let ghost pre = deps.archives@.take(k as int);
        match table_from_archive(&deps.archives[k - 1], table_name, schema) {
            Some(t) => {
                proof {
                    assert(pre.last() == deps.archives@[k - 1]);
                    assert(spec_resolve_archive(deps.archives@, table_name@, *schema) == Some(
                        ((k - 1) as int, (t.definition.version, t.spec_rows())),
                    ));
                }
                let (pairs, gi) = pairs_from_table(&t, column_name);
                proof {
                    let d = spec_lookup_def(
                        schema.tables@,
                        table_name@,
                        t.definition.version,
                    ).unwrap();
                    lemma_pairs_transfer(
                        t.definition.fields@,
                        d.fields@,
                        t.spec_rows(),
                        pairs@,
                        gi@,
                        column_name@,
                    );
                }
                return pairs;
            },
            None => {
                proof {
                    assert(pre.last() == deps.archives@[k - 1]);
                    assert(pre.drop_last() =~= deps.archives@.take(k - 1));
                }
            },
        }
        k = k - 1;
    }
    proof {
        assert(deps.archives@.take(0) =~= Seq::<PackFile>::empty());
    }
    let m = deps.fallback.len();
    let mut f: usize = m;
    proof {
        assert(deps.fallback@.take(m as int) =~= deps.fallback@);
    }
    while f > 0
        invariant
            f <= m,
            m == deps.fallback@.len(),
            deps.wf(),
            spec_resolve_fallback(deps.fallback@.take(f as int), table_name@)
                == spec_resolve_fallback(deps.fallback@, table_name@),
        decreases f,
    {
        let ghost pre = deps.fallback@.take(f as int);
        if bytes_eq(&deps.fallback[f - 1].name, table_name) {
            proof {
                assert(pre.last() == deps.fallback@[f - 1]);
                assert(spec_resolve_fallback(deps.fallback@, table_name@) == Some((f - 1) as int));
            }
            let (pairs, gi) = pairs_from_table(&deps.fallback[f - 1], column_name);
            proof {
                let t = deps.fallback@[f - 1];
                lemma_pairs_transfer(
                    t.definition.fields@,
                    t.definition.fields@,
                    t.spec_rows(),
                    pairs@,
                    gi@,
                    column_name@,
                );
            }
            return pairs;
        }
        proof {
            assert(pre.last() == deps.fallback@[f - 1]);
            assert(pre.drop_last() =~= deps.fallback@.take(f - 1));
        }
        f = f - 1;
    }
    proof {
        assert(deps.fallback@.take(0) =~= Seq::<Table>::empty());
    }
    Vec::new()
}

} // verus!
