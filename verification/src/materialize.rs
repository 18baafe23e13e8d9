//! Schema-adaptive materialization.
//!
//! Turns a bounded chunk of observed rows into one batch whose columns exactly
//! match the target schema: for each target field the correspondingly named
//! observed value is taken (nulled where absent), observed fields without a
//! target counterpart are dropped, and a value whose shape cannot be
//! reconciled with the target type is a fatal type mismatch.

use vstd::prelude::*;

use crate::ScanError;
use crate::batch::Batch;
use crate::batch::BatchModel;
use crate::batch::batch_wf;
use crate::batch::col_view;
use crate::batch::duplicate_fields;
use crate::batch::duplicate_value;
use crate::parse::RowField;
use crate::parse::RowFieldModel;
use crate::parse::RowModel;
use crate::parse::row_view;
use crate::schema::Field;
use crate::schema::FieldModel;
use crate::schema::FieldType;
use crate::schema::JsonValue;
use crate::schema::Schema;
use crate::schema::ValModel;
use crate::schema::fields_model;
use crate::schema::val_matches;

verus! {

broadcast use vstd::prelude::Seq::lemma_push_map_commute, vstd::prelude::Seq::lemma_map_take_succ;

/// The value of the first observed field named `name`, if any.
pub open spec fn row_lookup(row: RowModel, name: Seq<u8>) -> Option<ValModel>
    decreases row.len(),
{
    if row.len() == 0 {
        Option::None
    } else if row[0].name == name {
        Option::Some(row[0].value)
    } else {
        row_lookup(row.drop_first(), name)
    }
}

/// The cell a target field gets from one observed row: null when the field is
/// absent or observed null, the observed value when its shape matches the
/// target type, and no cell at all — a type mismatch — otherwise.
pub open spec fn cell_of(row: RowModel, f: FieldModel) -> Option<ValModel> {
    match row_lookup(row, f.name) {
        Option::None => Option::Some(ValModel::Null),
        Option::Some(v) => if v is Null || val_matches(v, f.ftype) {
            Option::Some(v)
        } else {
            Option::None
        },
    }
}

/// Whether every target field can draw a cell from every row of the chunk.
pub open spec fn rows_ok(rows: Seq<RowModel>, fields: Seq<FieldModel>) -> bool {
    forall|i: int, j: int|
        0 <= i < rows.len() && 0 <= j < fields.len()
            ==> (#[trigger] cell_of(rows[i], fields[j])) is Some
}

/// The materialized batch of a chunk of rows against a target schema:
/// one column per target field, one cell per row.
pub open spec fn mat_model(rows: Seq<RowModel>, fields: Seq<FieldModel>) -> BatchModel {
    BatchModel {
        schema: fields,
        cols: Seq::new(
            fields.len(),
            |j: int| Seq::new(rows.len(), |i: int| cell_of(rows[i], fields[j])->Some_0),
        ),
        rows: rows.len(),
    }
}

/// A materialized batch is well formed: every cell is null or of its
/// column's type, and every column has the chunk's row count.
pub proof fn lemma_mat_wf(rows: Seq<RowModel>, fields: Seq<FieldModel>)
    requires
        rows_ok(rows, fields),
    ensures
        batch_wf(mat_model(rows, fields)),
{
    let b = mat_model(rows, fields);
    assert forall|j: int, i: int|
        0 <= j < b.cols.len() && 0 <= i < b.rows
            implies val_matches(#[trigger] b.cols[j][i], b.schema[j].ftype) by {
        assert(cell_of(rows[i], fields[j]) is Some);
    }
}

/// Model of a chunk of executable rows.
pub open spec fn rows_view(rows: Seq<Vec<RowField>>) -> Seq<RowModel> {
    rows.map_values(|r: Vec<RowField>| row_view(r@))
}

/// `row_lookup` finds a field if and only if one of its name was observed,
/// and returns the first observation.
pub proof fn lemma_row_lookup(row: RowModel, name: Seq<u8>)
    ensures
        row_lookup(row, name) is Some <==> exists|i: int|
            0 <= i < row.len() && row[i].name == name,
        row_lookup(row, name) matches Some(v) ==> exists|i: int|
            0 <= i < row.len() && row[i].name == name && row[i].value == v
                && forall|j: int| 0 <= j < i ==> row[j].name != name,
    decreases row.len(),
{
    if row.len() > 0 {
        lemma_row_lookup(row.drop_first(), name);
        if row[0].name != name {
            assert(forall|i: int| 1 <= i < row.len() ==> row[i] == row.drop_first()[i - 1]);
        }
    }
}

/// The first observed value under `name`, as [`row_lookup`] defines it.
fn lookup_in_row<'a>(row: &'a Vec<RowField>, name: &Vec<u8>) -> (r: Option<&'a JsonValue>)
    ensures
        match r {
            Option::Some(v) => row_lookup(row_view(row@), name@) == Option::Some(v@),
            Option::None => row_lookup(row_view(row@), name@) is None,
        },
{
    let mut i: usize = 0;
    while i < row.len()
        invariant
            0 <= i <= row.len(),
            forall|j: int| 0 <= j < i ==> row_view(row@)[j].name != name@,
        decreases row.len() - i,
    {
        if crate::schema::bytes_eq(&row[i].name, name) {
            proof {
                let rm = row_view(row@);
                lemma_row_lookup(rm, name@);
                let w = choose|k: int|
                    0 <= k < rm.len() && rm[k].name == name@
                        && rm[k].value == row_lookup(rm, name@)->Some_0
                        && forall|j: int| 0 <= j < k ==> rm[j].name != name@;
                assert(rm[i as int].name == name@);
                assert(w == i as int);
            }
            return Option::Some(&row[i].value);
        }
        i += 1;
    }
    proof {
        lemma_row_lookup(row_view(row@), name@);
    }
    Option::None
}

/// The cell a target field draws from one row, as [`cell_of`] defines it.
fn cell_for(row: &Vec<RowField>, f: &Field) -> (r: Result<JsonValue, ScanError>)
    ensures
        match r {
            Result::Ok(v) => cell_of(row_view(row@), f@) == Option::Some(v@),
            Result::Err(e) => cell_of(row_view(row@), f@) is None
                && e == ScanError::TypeMismatch,
        },
{
    match lookup_in_row(row, &f.name) {
        Option::None => Result::Ok(JsonValue::Null),
        Option::Some(v) => {
            let ok = match v {
                JsonValue::Null => true,
                JsonValue::Bool(_) => f.ftype == FieldType::Boolean,
                JsonValue::Int(n) => match f.ftype {
                    FieldType::Int64 => true,
                    FieldType::Int32 => i32::MIN as i64 <= *n && *n <= i32::MAX as i64,
                    _ => false,
                },
                JsonValue::Str(_) => f.ftype == FieldType::Utf8,
            };
            if ok {
                Result::Ok(duplicate_value(v))
            } else {
                Result::Err(ScanError::TypeMismatch)
            }
        },
    }
}

/// Materializes a chunk of observed rows against the target fields.
///
/// On success the batch is exactly the target schema's fields over the
/// chunk's rows, with absent fields nulled; on failure some row holds a value
/// that cannot be reconciled with its target field's type.
#[verifier::loop_isolation(false)]
pub fn materialize(rows: &Vec<Vec<RowField>>, fields: &Vec<Field>) -> (r: Result<
    Batch,
    ScanError,
>)
    ensures
        match r {
            Result::Ok(b) => rows_ok(rows_view(rows@), fields_model(fields@))
                && b@ == mat_model(rows_view(rows@), fields_model(fields@))
                && batch_wf(b@),
            Result::Err(e) => !rows_ok(rows_view(rows@), fields_model(fields@))
                && e == ScanError::TypeMismatch,
        },
{
    let ghost rm = rows_view(rows@);
    let ghost fm = fields_model(fields@);
    let mut cols: Vec<Vec<JsonValue>> = Vec::new();
    let mut j: usize = 0;
    while j < fields.len()
        invariant
            0 <= j <= fields.len(),
            cols@.map_values(|c: Vec<JsonValue>| col_view(c@))
                =~= mat_model(rm, fm).cols.take(j as int),
            forall|i: int, j2: int|
                0 <= i < rm.len() && 0 <= j2 < j
                    ==> (#[trigger] cell_of(rm[i], fm[j2])) is Some,
        decreases fields.len() - j,
    {
        let f = &fields[j];
        let mut col: Vec<JsonValue> = Vec::new();
        let mut i: usize = 0;
        while i < rows.len()
            invariant
                0 <= i <= rows.len(),
                0 <= j < fields.len(),
                f == &fields[j as int],
                col_view(col@) =~= mat_model(rm, fm).cols[j as int].take(i as int),
                forall|i2: int| 0 <= i2 < i ==> (#[trigger] cell_of(rm[i2], fm[j as int])) is Some,
            decreases rows.len() - i,
        {
            match cell_for(&rows[i], f) {
                Result::Ok(v) => {
                    col.push(v);
                    proof {
                        assert(rm[i as int] == row_view(rows@[i as int]@));
                        assert(cell_of(rm[i as int], fm[j as int]) == Option::Some(v@));
                        assert(col_view(col@)
                            =~= mat_model(rm, fm).cols[j as int].take(i + 1));
                    }
                },
                Result::Err(e) => {
                    proof {
                        assert(cell_of(rm[i as int], fm[j as int]) is None);
                    }
                    return Result::Err(e);
                },
            }
            i += 1;
        }
        cols.push(col);
        proof {
            assert(col_view(col@) =~= mat_model(rm, fm).cols[j as int]);
            assert(cols@.map_values(|c: Vec<JsonValue>| col_view(c@))
                =~= mat_model(rm, fm).cols.take(j + 1));
        }
        j += 1;
    }
    let b = Batch {
        schema: Schema { fields: duplicate_fields(fields) },
        columns: cols,
        num_rows: rows.len(),
    };
    proof {
        assert(mat_model(rm, fm).cols.take(fields@.len() as int) =~= mat_model(rm, fm).cols);
        assert(b@ =~= mat_model(rm, fm));
        lemma_mat_wf(rm, fm);
    }
    Result::Ok(b)
}

/// For a target field observed in no row of the chunk, the materialized
/// column is all null, with the chunk's row count.
pub proof fn lemma_missing_field_nulled(rows: Seq<RowModel>, fields: Seq<FieldModel>, j: int)
    requires
        0 <= j < fields.len(),
        forall|i: int, k: int|
            0 <= i < rows.len() && 0 <= k < rows[i].len()
                ==> (#[trigger] rows[i][k].name) != fields[j].name,
    ensures
        mat_model(rows, fields).cols[j].len() == rows.len(),
        forall|i: int|
            0 <= i < rows.len() ==> mat_model(rows, fields).cols[j][i] == ValModel::Null,
{
    assert forall|i: int|
        0 <= i < rows.len() implies mat_model(rows, fields).cols[j][i] == ValModel::Null by {
        lemma_row_lookup(rows[i], fields[j].name);
        assert(row_lookup(rows[i], fields[j].name) is None);
        assert(cell_of(rows[i], fields[j]) == Option::Some(ValModel::Null));
    }
}

} // verus!
