//! Logical data types and named fields.

use vstd::prelude::*;
use vstd::string::StringExecFns;

verus! {

/// Precision of a temporal value.
#[derive(Clone, Copy, Debug, PartialEq, Eq, Structural)]
pub enum TimeUnit {
    Nanoseconds,
    Microseconds,
    Milliseconds,
}

/// The logical type of a column.
#[derive(Debug)]
pub enum DataType {
    Boolean,
    UInt8,
    UInt16,
    UInt32,
    UInt64,
    Int8,
    Int16,
    Int32,
    Int64,
    Float32,
    Float64,
    Utf8,
    Binary,
    Date,
    /// A point in time, with an optional time zone.
    Datetime(TimeUnit, Option<String>),
    Duration(TimeUnit),
    Time,
    /// Fixed-width list.
    Array(Box<DataType>, usize),
    List(Box<DataType>),
    Null,
    Categorical,
    Struct(Vec<Field>),
    Unknown,
}

/// A column name together with its type.
#[derive(Debug)]
pub struct Field {
    pub name: String,
    pub dtype: DataType,
}

/// Mathematical model of a [`DataType`].
pub ghost enum DataTypeView {
    Boolean,
    UInt8,
    UInt16,
    UInt32,
    UInt64,
    Int8,
    Int16,
    Int32,
    Int64,
    Float32,
    Float64,
    Utf8,
    Binary,
    Date,
    Datetime(TimeUnit, Option<Seq<char>>),
    Duration(TimeUnit),
    Time,
    Array(Box<DataTypeView>, usize),
    List(Box<DataTypeView>),
    Null,
    Categorical,
    Struct(Seq<FieldView>),
    Unknown,
}

/// Mathematical model of a [`Field`].
pub ghost struct FieldView {
    pub name: Seq<char>,
    pub dtype: DataTypeView,
}

/// The model of an optional string.
pub open spec fn opt_string_view(s: Option<String>) -> Option<Seq<char>> {
    match s {
        Some(s) => Some(s@),
        None => None,
    }
}

/// The model of a data type, by structural recursion.
pub open spec fn dtype_view(d: DataType) -> DataTypeView
    decreases d,
{
    match d {
        DataType::Boolean => DataTypeView::Boolean,
        DataType::UInt8 => DataTypeView::UInt8,
        DataType::UInt16 => DataTypeView::UInt16,
        DataType::UInt32 => DataTypeView::UInt32,
        DataType::UInt64 => DataTypeView::UInt64,
        DataType::Int8 => DataTypeView::Int8,
        DataType::Int16 => DataTypeView::Int16,
        DataType::Int32 => DataTypeView::Int32,
        DataType::Int64 => DataTypeView::Int64,
        DataType::Float32 => DataTypeView::Float32,
        DataType::Float64 => DataTypeView::Float64,
        DataType::Utf8 => DataTypeView::Utf8,
        DataType::Binary => DataTypeView::Binary,
        DataType::Date => DataTypeView::Date,
        DataType::Datetime(tu, tz) => DataTypeView::Datetime(tu, opt_string_view(tz)),
        DataType::Duration(tu) => DataTypeView::Duration(tu),
        DataType::Time => DataTypeView::Time,
        DataType::Array(inner, width) => DataTypeView::Array(Box::new(dtype_view(*inner)), width),
        DataType::List(inner) => DataTypeView::List(Box::new(dtype_view(*inner))),
        DataType::Null => DataTypeView::Null,
        DataType::Categorical => DataTypeView::Categorical,
        DataType::Struct(fields) => DataTypeView::Struct(
            Seq::new(
                fields@.len(),
                |i: int|
                    if 0 <= i < fields@.len() {
                        field_view(fields@[i])
                    } else {
                        arbitrary()
                    },
            ),
        ),
        DataType::Unknown => DataTypeView::Unknown,
    }
}

/// The model of a field.
pub open spec fn field_view(f: Field) -> FieldView
    decreases f,
{
    FieldView { name: f.name@, dtype: dtype_view(f.dtype) }
}

impl View for DataType {
    type V = DataTypeView;

    open spec fn view(&self) -> DataTypeView {
        dtype_view(*self)
    }
}

impl View for Field {
    type V = FieldView;

    open spec fn view(&self) -> FieldView {
        field_view(*self)
    }
}

/// Copies an optional string.
pub fn clone_opt_string(s: &Option<String>) -> (res: Option<String>)
    ensures
        opt_string_view(res) == opt_string_view(*s),
{
    match s {
        Some(s) => Some(s.clone()),
        None => None,
    }
}

/// Whether two optional strings hold the same text.
pub fn eq_opt_string(a: &Option<String>, b: &Option<String>) -> (res: bool)
    ensures
        res == (opt_string_view(*a) == opt_string_view(*b)),
{
    match (a, b) {
        (Some(x), Some(y)) => *x == *y,
        (None, None) => true,
        _ => false,
    }
}

/// Copies a data type.
pub fn clone_dtype(d: &DataType) -> (res: DataType)
    ensures
        res@ == d@,
    decreases *d,
{
    match d {
        DataType::Boolean => DataType::Boolean,
        DataType::UInt8 => DataType::UInt8,
        DataType::UInt16 => DataType::UInt16,
        DataType::UInt32 => DataType::UInt32,
        DataType::UInt64 => DataType::UInt64,
        DataType::Int8 => DataType::Int8,
        DataType::Int16 => DataType::Int16,
        DataType::Int32 => DataType::Int32,
        DataType::Int64 => DataType::Int64,
        DataType::Float32 => DataType::Float32,
        DataType::Float64 => DataType::Float64,
        DataType::Utf8 => DataType::Utf8,
        DataType::Binary => DataType::Binary,
        DataType::Date => DataType::Date,
        DataType::Datetime(tu, tz) => DataType::Datetime(*tu, clone_opt_string(tz)),
        DataType::Duration(tu) => DataType::Duration(*tu),
        DataType::Time => DataType::Time,
        DataType::Array(inner, width) => DataType::Array(Box::new(clone_dtype(&**inner)), *width),
        DataType::List(inner) => DataType::List(Box::new(clone_dtype(&**inner))),
        DataType::Null => DataType::Null,
        DataType::Categorical => DataType::Categorical,
        DataType::Struct(fields) => {
            let mut out: Vec<Field> = Vec::new();
            let mut i: usize = 0;
            while i < fields.len()
                invariant
                    i <= fields@.len(),
                    out@.len() == i,
                    forall|j: int| 0 <= j < i ==> (#[trigger] out@[j])@ == fields@[j]@,
                    *d == DataType::Struct(*fields),
                    decreases_to!(*d => *fields),
                decreases fields@.len() - i,
            {
                let f = &fields[i];
                proof {
                    vstd::std_specs::vec::axiom_vec_index_decreases(*fields, i as int);
                }
                out.push(Field { name: f.name.clone(), dtype: clone_dtype(&f.dtype) });
                i += 1;
            }
            assert(DataType::Struct(out)@ =~= d@) by {
                assert(DataType::Struct(out)@->Struct_0 =~= d@->Struct_0);
            }
            DataType::Struct(out)
        },
        DataType::Unknown => DataType::Unknown,
    }
}

/// Whether two data types are the same type.
pub fn eq_dtype(a: &DataType, b: &DataType) -> (res: bool)
    ensures
        res == (a@ == b@),
    decreases *a,
{
    match (a, b) {
        (DataType::Boolean, DataType::Boolean) => true,
        (DataType::UInt8, DataType::UInt8) => true,
        (DataType::UInt16, DataType::UInt16) => true,
        (DataType::UInt32, DataType::UInt32) => true,
        (DataType::UInt64, DataType::UInt64) => true,
        (DataType::Int8, DataType::Int8) => true,
        (DataType::Int16, DataType::Int16) => true,
        (DataType::Int32, DataType::Int32) => true,
        (DataType::Int64, DataType::Int64) => true,
        (DataType::Float32, DataType::Float32) => true,
        (DataType::Float64, DataType::Float64) => true,
        (DataType::Utf8, DataType::Utf8) => true,
        (DataType::Binary, DataType::Binary) => true,
        (DataType::Date, DataType::Date) => true,
        (DataType::Datetime(tu, tz), DataType::Datetime(tu2, tz2)) => *tu == *tu2 && eq_opt_string(
            tz,
            tz2,
        ),
        (DataType::Duration(tu), DataType::Duration(tu2)) => *tu == *tu2,
        (DataType::Time, DataType::Time) => true,
        (DataType::Array(inner, width), DataType::Array(inner2, width2)) => *width == *width2
            && eq_dtype(&**inner, &**inner2),
        (DataType::List(inner), DataType::List(inner2)) => eq_dtype(&**inner, &**inner2),
        (DataType::Null, DataType::Null) => true,
        (DataType::Categorical, DataType::Categorical) => true,
        (DataType::Struct(fields), DataType::Struct(fields2)) => {
            if fields.len() != fields2.len() {
                assert(a@->Struct_0.len() != b@->Struct_0.len());
                return false;
            }
            let mut i: usize = 0;
            while i < fields.len()
                invariant
                    i <= fields@.len(),
                    fields@.len() == fields2@.len(),
                    forall|j: int| 0 <= j < i ==> (#[trigger] fields@[j])@ == fields2@[j]@,
                    *a == DataType::Struct(*fields),
                    *b == DataType::Struct(*fields2),
                decreases fields@.len() - i,
            {
                let f = &fields[i];
                let g = &fields2[i];
                proof {
                    vstd::std_specs::vec::axiom_vec_index_decreases(*fields, i as int);
                }
                if !(f.name == g.name && eq_dtype(&f.dtype, &g.dtype)) {
                    assert(a@->Struct_0[i as int] == fields@[i as int]@);
                    assert(b@->Struct_0[i as int] == fields2@[i as int]@);
                    return false;
                }
                i += 1;
            }
            assert(a@->Struct_0 =~= b@->Struct_0);
            true
        },
        (DataType::Unknown, DataType::Unknown) => true,
        _ => false,
    }
}

impl Clone for DataType {
    fn clone(&self) -> (res: Self)
        ensures
            res@ == self@,
    {
        clone_dtype(self)
    }
}

impl Clone for Field {
    fn clone(&self) -> (res: Self)
        ensures
            res@ == self@,
    {
        Field { name: self.name.clone(), dtype: clone_dtype(&self.dtype) }
    }
}

impl Field {
    /// A field of the given name and type.
    pub fn new(name: &str, dtype: DataType) -> (res: Field)
        ensures
            res@ == (FieldView { name: name@, dtype: dtype@ }),
    {
        Field { name: String::from_str(name), dtype }
    }

    /// The field's name.
    pub fn name(&self) -> (res: &String)
        ensures
            res@ == self@.name,
    {
        &self.name
    }

    /// The field's type.
    pub fn data_type(&self) -> (res: &DataType)
        ensures
            res@ == self@.dtype,
    {
        &self.dtype
    }

    /// Replaces the field's type and keeps its name.
    pub fn coerce(&mut self, dtype: DataType)
        ensures
            final(self)@ == (FieldView { name: old(self)@.name, dtype: dtype@ }),
            final(self).dtype == dtype,
            final(self).name == old(self).name,
    {
        self.dtype = dtype;
    }
}

} // verus!
