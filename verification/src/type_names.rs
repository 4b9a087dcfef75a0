//! The names of types, as error messages print them.

use vstd::prelude::*;
use vstd::string::StringExecFns;

use crate::datatypes::{DataType, DataTypeView, TimeUnit};
use crate::pyarrow::{decimal, spec_decimal};

verus! {

/// The name of a unit of time.
pub open spec fn spec_unit_name(tu: TimeUnit) -> Seq<char> {
    match tu {
        TimeUnit::Nanoseconds => "ns"@,
        TimeUnit::Microseconds => "μs"@,
        TimeUnit::Milliseconds => "ms"@,
    }
}

/// The name of a unit of time.
pub fn unit_name(tu: TimeUnit) -> (res: &'static str)
    ensures
        res@ == spec_unit_name(tu),
{
    match tu {
        TimeUnit::Nanoseconds => "ns",
        TimeUnit::Microseconds => "μs",
        TimeUnit::Milliseconds => "ms",
    }
}

/// The name of a type: a short word for a plain type, and for the
/// others the word with what the type is made of in square brackets.
pub open spec fn spec_dtype_name(d: DataTypeView) -> Seq<char>
    decreases d,
{
    match d {
        DataTypeView::Boolean => "bool"@,
        DataTypeView::UInt8 => "u8"@,
        DataTypeView::UInt16 => "u16"@,
        DataTypeView::UInt32 => "u32"@,
        DataTypeView::UInt64 => "u64"@,
        DataTypeView::Int8 => "i8"@,
        DataTypeView::Int16 => "i16"@,
        DataTypeView::Int32 => "i32"@,
        DataTypeView::Int64 => "i64"@,
        DataTypeView::Float32 => "f32"@,
        DataTypeView::Float64 => "f64"@,
        DataTypeView::Utf8 => "str"@,
        DataTypeView::Binary => "binary"@,
        DataTypeView::Date => "date"@,
        DataTypeView::Datetime(tu, tz) => match tz {
            Some(zone) => "datetime["@ + spec_unit_name(tu) + ", "@ + zone + "]"@,
            None => "datetime["@ + spec_unit_name(tu) + "]"@,
        },
        DataTypeView::Duration(tu) => "duration["@ + spec_unit_name(tu) + "]"@,
        DataTypeView::Time => "time"@,
        DataTypeView::Array(inner, width) => "array["@ + spec_dtype_name(*inner) + ", "@
            + spec_decimal(width as nat) + "]"@,
        DataTypeView::List(inner) => "list["@ + spec_dtype_name(*inner) + "]"@,
        DataTypeView::Null => "null"@,
        DataTypeView::Categorical => "cat"@,
        DataTypeView::Struct(fields) => "struct["@ + spec_decimal(fields.len()) + "]"@,
        DataTypeView::Unknown => "unknown"@,
    }
}

/// The name of a type; see [`spec_dtype_name`].
pub fn dtype_name(d: &DataType) -> (res: String)
    ensures
        res@ == spec_dtype_name(d@),
    decreases *d,
{
    match d {
        DataType::Boolean => String::from_str("bool"),
        DataType::UInt8 => String::from_str("u8"),
        DataType::UInt16 => String::from_str("u16"),
        DataType::UInt32 => String::from_str("u32"),
        DataType::UInt64 => String::from_str("u64"),
        DataType::Int8 => String::from_str("i8"),
        DataType::Int16 => String::from_str("i16"),
        DataType::Int32 => String::from_str("i32"),
        DataType::Int64 => String::from_str("i64"),
        DataType::Float32 => String::from_str("f32"),
        DataType::Float64 => String::from_str("f64"),
        DataType::Utf8 => String::from_str("str"),
        DataType::Binary => String::from_str("binary"),
        DataType::Date => String::from_str("date"),
        DataType::Datetime(tu, tz) => {
            let mut s = String::from_str("datetime[");
            s.append(unit_name(*tu));
            match tz {
                Some(zone) => {
                    s.append(", ");
                    s.append(zone.as_str());
                },
                None => {},
            }
            s.append("]");
            s
        },
        DataType::Duration(tu) => {
            let mut s = String::from_str("duration[");
            s.append(unit_name(*tu));
            s.append("]");
            s
        },
        DataType::Time => String::from_str("time"),
        DataType::Array(inner, width) => {
            let mut s = String::from_str("array[");
            let of = dtype_name(&**inner);
            s.append(of.as_str());
            s.append(", ");
            let wide: u64 = *width as u64;
            let n = decimal(wide);
            s.append(n.as_str());
            s.append("]");
            s
        },
        DataType::List(inner) => {
            let mut s = String::from_str("list[");
            let of = dtype_name(&**inner);
            s.append(of.as_str());
            s.append("]");
            s
        },
        DataType::Null => String::from_str("null"),
        DataType::Categorical => String::from_str("cat"),
        DataType::Struct(fields) => {
            let mut s = String::from_str("struct[");
            let count: u64 = fields.len() as u64;
            let n = decimal(count);
            s.append(n.as_str());
            s.append("]");
            s
        },
        DataType::Unknown => String::from_str("unknown"),
    }
}

} // verus!
