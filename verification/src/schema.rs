//! Schemas, field types and the values cells can hold.
//!
//! Field names are byte strings; the supported cell types are 32- and 64-bit
//! integers, byte strings and booleans, each of which may also be null.

use vstd::prelude::*;

use crate::ScanError;

verus! {

/// The type of one schema field.
#[derive(Clone, Copy, Debug, PartialEq, Eq, Structural)]
pub enum FieldType {
    Int64,
    Int32,
    Utf8,
    Boolean,
}

/// One typed cell value as read from a record or synthesized for a batch.
#[derive(Clone, Debug, PartialEq, Eq)]
pub enum JsonValue {
    Null,
    Bool(bool),
    Int(i64),
    Str(Vec<u8>),
}

/// Mathematical model of a [`JsonValue`]: integers are unbounded, strings are
/// byte sequences.
pub enum ValModel {
    Null,
    Bool(bool),
    Int(int),
    Str(Seq<u8>),
}

impl View for JsonValue {
    type V = ValModel;

    open spec fn view(&self) -> ValModel {
        match self {
            JsonValue::Null => ValModel::Null,
            JsonValue::Bool(b) => ValModel::Bool(*b),
            JsonValue::Int(v) => ValModel::Int(*v as int),
            JsonValue::Str(s) => ValModel::Str(s@),
        }
    }
}

/// Whether a cell value may appear in a column of the given type: a cell is
/// either null or carries the column's type (32-bit integers must fit).
pub open spec fn val_matches(v: ValModel, t: FieldType) -> bool {
    match v {
        ValModel::Null => true,
        ValModel::Bool(_) => t == FieldType::Boolean,
        ValModel::Int(n) => match t {
            FieldType::Int64 => i64::MIN <= n <= i64::MAX,
            FieldType::Int32 => i32::MIN <= n <= i32::MAX,
            _ => false,
        },
        ValModel::Str(_) => t == FieldType::Utf8,
    }
}

/// One named, typed schema field.
#[derive(Clone, Debug, PartialEq, Eq)]
pub struct Field {
    pub name: Vec<u8>,
    pub ftype: FieldType,
}

/// Mathematical model of a [`Field`].
#[verifier::ext_equal]
pub struct FieldModel {
    pub name: Seq<u8>,
    pub ftype: FieldType,
}

impl View for Field {
    type V = FieldModel;

    open spec fn view(&self) -> FieldModel {
        FieldModel { name: self.name@, ftype: self.ftype }
    }
}

impl Field {
    pub fn new(name: Vec<u8>, ftype: FieldType) -> (r: Field)
        ensures
            r@ == (FieldModel { name: name@, ftype }),
    {
        Field { name, ftype }
    }
}

/// Model of a schema: its fields in order.
pub open spec fn fields_model(fs: Seq<Field>) -> Seq<FieldModel> {
    fs.map_values(|f: Field| f@)
}

/// An ordered list of named, typed fields.
#[derive(Clone, Debug, PartialEq, Eq)]
pub struct Schema {
    pub fields: Vec<Field>,
}

impl View for Schema {
    type V = Seq<FieldModel>;

    open spec fn view(&self) -> Seq<FieldModel> {
        fields_model(self.fields@)
    }
}

/// Index of the first field named `name`, if any.
pub open spec fn field_index(fields: Seq<FieldModel>, name: Seq<u8>) -> Option<int>
    decreases fields.len(),
{
    if fields.len() == 0 {
        Option::None
    } else if fields[0].name == name {
        Option::Some(0int)
    } else {
        match field_index(fields.drop_first(), name) {
            Option::Some(i) => Option::Some(i + 1),
            Option::None => Option::None,
        }
    }
}

/// The first-index spec function finds a field if and only if one of that
/// name exists, and what it finds is the first such field.
pub proof fn lemma_field_index(fields: Seq<FieldModel>, name: Seq<u8>)
    ensures
        field_index(fields, name) is Some <==> exists|i: int|
            0 <= i < fields.len() && fields[i].name == name,
        field_index(fields, name) matches Some(i) ==> 0 <= i < fields.len()
            && fields[i].name == name
            && forall|j: int| 0 <= j < i ==> fields[j].name != name,
    decreases fields.len(),
{
    if fields.len() > 0 {
        lemma_field_index(fields.drop_first(), name);
        if fields[0].name != name {
            if field_index(fields.drop_first(), name) is Some {
                let i = field_index(fields.drop_first(), name)->Some_0;
                assert(fields.drop_first()[i] == fields[i + 1]);
                assert(forall|j: int| 1 <= j < i + 1 ==> fields[j] == fields.drop_first()[j - 1]);
            } else {
                assert(forall|i: int| 1 <= i < fields.len()
                    ==> fields[i] == fields.drop_first()[i - 1]);
            }
        }
    }
}

/// Byte-string equality.
pub fn bytes_eq(a: &Vec<u8>, b: &Vec<u8>) -> (r: bool)
    ensures
        r == (a@ == b@),
{
    if a.len() != b.len() {
        return false;
    }
    let mut i: usize = 0;
    while i < a.len()
        invariant
            0 <= i <= a.len(),
            a.len() == b.len(),
            forall|j: int| 0 <= j < i ==> a@[j] == b@[j],
        decreases a.len() - i,
    {
        if a[i] != b[i] {
            return false;
        }
        i += 1;
    }
    proof {
        assert(a@ =~= b@);
    }
    true
}

impl Schema {
    pub fn new(fields: Vec<Field>) -> (r: Schema)
        ensures
            r@ == fields_model(fields@),
    {
        Schema { fields }
    }

    pub fn len(&self) -> (r: usize)
        ensures
            r == self@.len(),
    {
        self.fields.len()
    }

    /// Looks a field up by name; fails with `FieldNotFound` exactly when no
    /// field of that name exists. On success the returned index is the first
    /// field of that name.
    pub fn field_with_name(&self, name: &Vec<u8>) -> (r: Result<usize, ScanError>)
        ensures
            match r {
                Result::Ok(i) => field_index(self@, name@) == Option::Some(i as int),
                Result::Err(e) => e == ScanError::FieldNotFound
                    && field_index(self@, name@) is None,
            },
    {
        let mut i: usize = 0;
        while i < self.fields.len()
            invariant
                0 <= i <= self.fields.len(),
                forall|j: int| 0 <= j < i ==> self@[j].name != name@,
            decreases self.fields.len() - i,
        {
            if bytes_eq(&self.fields[i].name, name) {
                proof {
                    lemma_field_index(self@, name@);
                    assert(self@[i as int].name == name@);
                    let k = field_index(self@, name@)->Some_0;
                    assert(self@[k].name == name@);
                    assert(k >= i);
                    assert(k <= i);
                }
                return Result::Ok(i);
            }
            i += 1;
        }
        proof {
            lemma_field_index(self@, name@);
        }
        Result::Err(ScanError::FieldNotFound)
    }
}

} // verus!
