//! Columnar record batches.
//!
//! A batch is an immutable chunk of rows: a schema and one column per schema
//! field, every column holding exactly the batch's row count of cells, every
//! cell null or of its column's type.

use vstd::prelude::*;

use crate::schema::Field;
use crate::schema::FieldModel;
use crate::schema::JsonValue;
use crate::schema::Schema;
use crate::schema::ValModel;
use crate::schema::val_matches;

verus! {

broadcast use vstd::prelude::Seq::lemma_push_map_commute, vstd::prelude::Seq::lemma_map_take_succ;

/// Model of one column: its cells in row order.
pub open spec fn col_view(c: Seq<JsonValue>) -> Seq<ValModel> {
    c.map_values(|v: JsonValue| v@)
}

/// Model of a batch: schema, columns (outer index = column), row count.
#[verifier::ext_equal]
pub struct BatchModel {
    pub schema: Seq<FieldModel>,
    pub cols: Seq<Seq<ValModel>>,
    pub rows: nat,
}

/// Well-formedness of a batch: one column per field, every column of the
/// batch's row count, every cell matching its column's type.
pub open spec fn batch_wf(b: BatchModel) -> bool {
    &&& b.cols.len() == b.schema.len()
    &&& forall|j: int| 0 <= j < b.cols.len() ==> (#[trigger] b.cols[j]).len() == b.rows
    &&& forall|j: int, i: int|
        0 <= j < b.cols.len() && 0 <= i < b.rows
            ==> val_matches(#[trigger] b.cols[j][i], b.schema[j].ftype)
}

/// An immutable columnar record batch.
#[derive(Clone, Debug, PartialEq, Eq)]
pub struct Batch {
    pub schema: Schema,
    pub columns: Vec<Vec<JsonValue>>,
    pub num_rows: usize,
}

impl View for Batch {
    type V = BatchModel;

    open spec fn view(&self) -> BatchModel {
        BatchModel {
            schema: self.schema@,
            cols: self.columns@.map_values(|c: Vec<JsonValue>| col_view(c@)),
            rows: self.num_rows as nat,
        }
    }
}

/// A copy of a cell value with the same model.
pub fn duplicate_value(v: &JsonValue) -> (r: JsonValue)
    ensures
        r@ == v@,
{
    match v {
        JsonValue::Null => JsonValue::Null,
        JsonValue::Bool(b) => JsonValue::Bool(*b),
        JsonValue::Int(n) => JsonValue::Int(*n),
        JsonValue::Str(s) => JsonValue::Str(s.clone()),
    }
}

/// A copy of a field with the same model.
pub fn duplicate_field(f: &Field) -> (r: Field)
    ensures
        r@ == f@,
{
    Field { name: f.name.clone(), ftype: f.ftype }
}

/// A copy of a field list with the same model.
pub fn duplicate_fields(fields: &Vec<Field>) -> (r: Vec<Field>)
    ensures
        crate::schema::fields_model(r@) == crate::schema::fields_model(fields@),
{
    let mut r: Vec<Field> = Vec::new();
    let mut i: usize = 0;
    while i < fields.len()
        invariant
            0 <= i <= fields.len(),
            crate::schema::fields_model(r@)
                =~= crate::schema::fields_model(fields@).take(i as int),
        decreases fields.len() - i,
    {
        r.push(duplicate_field(&fields[i]));
        proof {
            assert(crate::schema::fields_model(r@)
                =~= crate::schema::fields_model(fields@).take(i + 1));
        }
        i += 1;
    }
    proof {
        assert(crate::schema::fields_model(fields@).take(fields@.len() as int)
            =~= crate::schema::fields_model(fields@));
    }
    r
}

/// The first `m` cells of a column, copied.
fn take_col(src: &Vec<JsonValue>, m: usize) -> (r: Vec<JsonValue>)
    requires
        m <= src.len(),
    ensures
        col_view(r@) == col_view(src@).take(m as int),
{
    let mut r: Vec<JsonValue> = Vec::new();
    let mut i: usize = 0;
    while i < m
        invariant
            0 <= i <= m <= src.len(),
            col_view(r@) =~= col_view(src@).take(i as int),
        decreases m - i,
    {
        r.push(duplicate_value(&src[i]));
        proof {
            assert(col_view(r@) =~= col_view(src@).take(i + 1));
        }
        i += 1;
    }
    proof {
        assert(col_view(r@) =~= col_view(src@).take(m as int));
    }
    r
}

/// A column of `m` copies of one constant value.
fn const_col(v: &JsonValue, m: usize) -> (r: Vec<JsonValue>)
    ensures
        col_view(r@) == Seq::new(m as nat, |k: int| v@),
{
    let mut r: Vec<JsonValue> = Vec::new();
    let mut i: usize = 0;
    while i < m
        invariant
            0 <= i <= m,
            col_view(r@) =~= Seq::new(i as nat, |k: int| v@),
        decreases m - i,
    {
        let ghost oldv = r@;
        r.push(duplicate_value(v));
        proof {
            assert forall|k: int| 0 <= k < i + 1 implies col_view(r@)[k] == v@ by {
                if k < i {
                    assert(col_view(r@)[k] == col_view(oldv)[k]);
                    assert(col_view(oldv) == Seq::new(i as nat, |k2: int| v@));
                }
            }
            assert(col_view(r@) =~= Seq::new((i + 1) as nat, |k: int| v@));
        }
        i += 1;
    }
    r
}

/// The batch restricted to its first `m` rows.
pub open spec fn batch_take(b: BatchModel, m: nat) -> BatchModel {
    BatchModel {
        schema: b.schema,
        cols: b.cols.map_values(|c: Seq<ValModel>| c.take(m as int)),
        rows: m,
    }
}

/// Truncation keeps a batch well formed.
pub proof fn lemma_batch_take_wf(b: BatchModel, m: nat)
    requires
        batch_wf(b),
        m <= b.rows,
    ensures
        batch_wf(batch_take(b, m)),
{
}

/// The batch with one constant column appended.
pub open spec fn batch_with_col(b: BatchModel, f: FieldModel, v: ValModel) -> BatchModel {
    BatchModel {
        schema: b.schema.push(f),
        cols: b.cols.push(Seq::new(b.rows, |i: int| v)),
        rows: b.rows,
    }
}

impl Batch {
    pub fn num_rows(&self) -> (r: usize)
        ensures
            r == self@.rows,
    {
        self.num_rows
    }

    pub fn num_columns(&self) -> (r: usize)
        ensures
            r == self@.cols.len(),
    {
        self.columns.len()
    }

    /// The projected schema this batch conforms to.
    pub fn schema(&self) -> (r: &Schema)
        ensures
            r@ == self@.schema,
    {
        &self.schema
    }

    /// One column, in schema order.
    pub fn column(&self, j: usize) -> (r: &Vec<JsonValue>)
        requires
            j < self@.cols.len(),
        ensures
            col_view(r@) == self@.cols[j as int],
    {
        &self.columns[j]
    }

    /// The batch truncated to its first `m` rows.
    #[verifier::loop_isolation(false)]
    pub fn take_prefix(&self, m: usize) -> (r: Batch)
        requires
            batch_wf(self@),
            m <= self@.rows,
        ensures
            r@ == batch_take(self@, m as nat),
            batch_wf(r@),
    {
        let mut cols: Vec<Vec<JsonValue>> = Vec::new();
        let mut j: usize = 0;
        while j < self.columns.len()
            invariant
                0 <= j <= self.columns.len(),
                cols@.map_values(|c: Vec<JsonValue>| col_view(c@))
                    =~= batch_take(self@, m as nat).cols.take(j as int),
            decreases self.columns.len() - j,
        {
            proof {
                assert(self@.cols[j as int] == col_view(self.columns@[j as int]@));
                assert(self@.cols[j as int].len() == self@.rows);
            }
            let col = take_col(&self.columns[j], m);
            cols.push(col);
            proof {
                assert(cols@.map_values(|c: Vec<JsonValue>| col_view(c@))
                    =~= batch_take(self@, m as nat).cols.take(j + 1));
            }
            j += 1;
        }
        let r = Batch {
            schema: Schema { fields: duplicate_fields(&self.schema.fields) },
            columns: cols,
            num_rows: m,
        };
        proof {
            assert(batch_take(self@, m as nat).cols.take(self.columns@.len() as int)
                =~= batch_take(self@, m as nat).cols);
            assert(r@ =~= batch_take(self@, m as nat));
            lemma_batch_take_wf(self@, m as nat);
        }
        r
    }

    /// Appends one constant-valued column, sized to the batch's row count.
    #[verifier::loop_isolation(false)]
    pub fn push_const_column(&mut self, f: &Field, v: &JsonValue)
        requires
            batch_wf(old(self)@),
            val_matches(v@, f.ftype),
        ensures
            final(self)@ == batch_with_col(old(self)@, f@, v@),
            batch_wf(final(self)@),
    {
        let col = const_col(v, self.num_rows);
        self.schema.fields.push(duplicate_field(f));
        self.columns.push(col);
        proof {
            assert(self@.schema =~= batch_with_col(old(self)@, f@, v@).schema);
            assert(self@.cols =~= batch_with_col(old(self)@, f@, v@).cols);
            assert(self@ =~= batch_with_col(old(self)@, f@, v@));
        }
    }
}

} // verus!
