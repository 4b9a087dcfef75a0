//! The supertype lattice: the smallest type that two types can both be
//! cast to without loss, where there is one.

use vstd::prelude::*;

use crate::datatypes::{clone_dtype, clone_opt_string, eq_dtype, eq_opt_string};
use crate::datatypes::{DataType, DataTypeView, TimeUnit};
use crate::error::{PolarsError, PolarsErrorView, PolarsResult};

verus! {

/// Message of the error for two types without a common supertype.
pub open spec fn no_supertype_message() -> Seq<char> {
    "failed to determine supertype"@
}

/// The coarser of two time units.
pub open spec fn spec_get_time_units(l: TimeUnit, r: TimeUnit) -> TimeUnit {
    if l == TimeUnit::Milliseconds || r == TimeUnit::Milliseconds {
        TimeUnit::Milliseconds
    } else if l == TimeUnit::Microseconds || r == TimeUnit::Microseconds {
        TimeUnit::Microseconds
    } else {
        TimeUnit::Nanoseconds
    }
}

/// The coarser of two time units.
pub fn get_time_units(l: TimeUnit, r: TimeUnit) -> (res: TimeUnit)
    ensures
        res == spec_get_time_units(l, r),
{
    match (l, r) {
        (TimeUnit::Nanoseconds, TimeUnit::Microseconds) => TimeUnit::Microseconds,
        (_, TimeUnit::Milliseconds) => TimeUnit::Milliseconds,
        _ => l,
    }
}

impl DataTypeView {
    /// Width in bits of an integer type, 0 for any other type.
    pub open spec fn int_bits(self) -> int {
        match self {
            DataTypeView::Int8 | DataTypeView::UInt8 => 8,
            DataTypeView::Int16 | DataTypeView::UInt16 => 16,
            DataTypeView::Int32 | DataTypeView::UInt32 => 32,
            DataTypeView::Int64 | DataTypeView::UInt64 => 64,
            _ => 0,
        }
    }

    /// The signed integer types.
    pub open spec fn is_signed_int(self) -> bool {
        self is Int8 || self is Int16 || self is Int32 || self is Int64
    }

    /// The unsigned integer types.
    pub open spec fn is_unsigned_int(self) -> bool {
        self is UInt8 || self is UInt16 || self is UInt32 || self is UInt64
    }

    /// The float types.
    pub open spec fn is_float(self) -> bool {
        self is Float32 || self is Float64
    }

    /// Integers and floats.
    pub open spec fn is_numeric(self) -> bool {
        self.is_signed_int() || self.is_unsigned_int() || self.is_float()
    }

    /// The signed integer type of the given width.
    pub open spec fn signed_of_bits(bits: int) -> DataTypeView {
        if bits <= 8 {
            DataTypeView::Int8
        } else if bits <= 16 {
            DataTypeView::Int16
        } else if bits <= 32 {
            DataTypeView::Int32
        } else {
            DataTypeView::Int64
        }
    }

    /// The supertype of a signed and an unsigned integer type: the signed
    /// type if it is the wider one, else the next wider signed type, and
    /// `Float64` where no integer type holds both ranges.
    pub open spec fn mixed_int_supertype(signed: DataTypeView, unsigned: DataTypeView) -> DataTypeView {
        if unsigned.int_bits() < signed.int_bits() {
            signed
        } else if unsigned.int_bits() < 64 {
            Self::signed_of_bits(2 * unsigned.int_bits())
        } else {
            DataTypeView::Float64
        }
    }

    /// The supertype of two distinct types that are each numeric or
    /// boolean.
    pub open spec fn numeric_supertype(l: DataTypeView, r: DataTypeView) -> DataTypeView {
        if l is Boolean {
            r
        } else if r is Boolean {
            l
        } else if l is Float64 || r is Float64 {
            DataTypeView::Float64
        } else if l is Float32 {
            if r.int_bits() <= 16 {
                DataTypeView::Float32
            } else {
                DataTypeView::Float64
            }
        } else if r is Float32 {
            if l.int_bits() <= 16 {
                DataTypeView::Float32
            } else {
                DataTypeView::Float64
            }
        } else if l.is_signed_int() && r.is_unsigned_int() {
            Self::mixed_int_supertype(l, r)
        } else if l.is_unsigned_int() && r.is_signed_int() {
            Self::mixed_int_supertype(r, l)
        } else if l.int_bits() >= r.int_bits() {
            l
        } else {
            r
        }
    }
}

/// The supertype of a type of dates or times `t` and a number `n`: the
/// number type that holds both. A date is a count of days, which fits
/// 32 bits; the others are counts in 64 bits.
pub open spec fn spec_temporal_number_supertype(t: DataTypeView, n: DataTypeView) -> Option<
    DataTypeView,
> {
    match t {
        DataTypeView::Date => match n {
            DataTypeView::UInt32 | DataTypeView::UInt64 | DataTypeView::Int64 => Some(
                DataTypeView::Int64,
            ),
            DataTypeView::Int32 => Some(DataTypeView::Int32),
            DataTypeView::Float32 => Some(DataTypeView::Float32),
            DataTypeView::Float64 => Some(DataTypeView::Float64),
            _ => None,
        },
        DataTypeView::Datetime(_, _) | DataTypeView::Duration(_) => match n {
            DataTypeView::UInt32
            | DataTypeView::UInt64
            | DataTypeView::Int32
            | DataTypeView::Int64 => Some(DataTypeView::Int64),
            DataTypeView::Float32 | DataTypeView::Float64 => Some(DataTypeView::Float64),
            _ => None,
        },
        DataTypeView::Time => match n {
            DataTypeView::Int32 | DataTypeView::Int64 => Some(DataTypeView::Int64),
            DataTypeView::Float32 | DataTypeView::Float64 => Some(DataTypeView::Float64),
            _ => None,
        },
        _ => None,
    }
}

/// The supertype of two types, if they have one.
///
/// Equal types are their own supertype; `Unknown` absorbs everything and
/// `Null` nothing; numbers and booleans follow
/// [`DataTypeView::numeric_supertype`]; every type but `Binary` can be
/// read as a string; lists combine their element types; a date widens to
/// a datetime; temporal types of one kind take the coarser unit, and
/// datetimes must agree on the time zone; a duration with a datetime or
/// a date gives a datetime; and a type of dates or times with a number
/// follows [`spec_temporal_number_supertype`].
pub open spec fn spec_get_supertype(l: DataTypeView, r: DataTypeView) -> Option<DataTypeView>
    decreases l,
{
    if l == r {
        Some(l)
    } else if l is Unknown || r is Unknown {
        Some(DataTypeView::Unknown)
    } else if l is Null {
        Some(r)
    } else if r is Null {
        Some(l)
    } else if (l is Boolean || l.is_numeric()) && (r is Boolean || r.is_numeric()) {
        Some(DataTypeView::numeric_supertype(l, r))
    } else if l is Utf8 {
        if r is Binary {
            None
        } else {
            Some(DataTypeView::Utf8)
        }
    } else if r is Utf8 {
        if l is Binary {
            None
        } else {
            Some(DataTypeView::Utf8)
        }
    } else {
        match (l, r) {
            (DataTypeView::List(a), DataTypeView::List(b)) => match spec_get_supertype(*a, *b) {
                Some(inner) => Some(DataTypeView::List(Box::new(inner))),
                None => None,
            },
            (DataTypeView::Date, DataTypeView::Datetime(tu, tz)) => Some(
                DataTypeView::Datetime(tu, tz),
            ),
            (DataTypeView::Datetime(tu, tz), DataTypeView::Date) => Some(
                DataTypeView::Datetime(tu, tz),
            ),
            (DataTypeView::Datetime(tl, zl), DataTypeView::Datetime(tr, zr)) => if zl == zr {
                Some(DataTypeView::Datetime(spec_get_time_units(tl, tr), zl))
            } else {
                None
            },
            (DataTypeView::Duration(tl), DataTypeView::Duration(tr)) => Some(
                DataTypeView::Duration(spec_get_time_units(tl, tr)),
            ),
            (DataTypeView::Duration(tl), DataTypeView::Datetime(tr, tz)) => Some(
                DataTypeView::Datetime(spec_get_time_units(tl, tr), tz),
            ),
            (DataTypeView::Datetime(tl, tz), DataTypeView::Duration(tr)) => Some(
                DataTypeView::Datetime(spec_get_time_units(tl, tr), tz),
            ),
            (DataTypeView::Duration(_), DataTypeView::Date) => Some(
                DataTypeView::Datetime(TimeUnit::Milliseconds, None),
            ),
            (DataTypeView::Date, DataTypeView::Duration(_)) => Some(
                DataTypeView::Datetime(TimeUnit::Milliseconds, None),
            ),
            _ => match spec_temporal_number_supertype(l, r) {
                Some(st) => Some(st),
                None => spec_temporal_number_supertype(r, l),
            },
        }
    }
}

/// Width in bits of an integer type, 0 for any other type.
fn int_bits(d: &DataType) -> (res: u8)
    ensures
        res == d@.int_bits(),
{
    match d {
        DataType::Int8 | DataType::UInt8 => 8,
        DataType::Int16 | DataType::UInt16 => 16,
        DataType::Int32 | DataType::UInt32 => 32,
        DataType::Int64 | DataType::UInt64 => 64,
        _ => 0,
    }
}

fn is_signed_int(d: &DataType) -> (res: bool)
    ensures
        res == d@.is_signed_int(),
{
    matches!(d, DataType::Int8 | DataType::Int16 | DataType::Int32 | DataType::Int64)
}

fn is_unsigned_int(d: &DataType) -> (res: bool)
    ensures
        res == d@.is_unsigned_int(),
{
    matches!(d, DataType::UInt8 | DataType::UInt16 | DataType::UInt32 | DataType::UInt64)
}

fn is_float_dtype(d: &DataType) -> (res: bool)
    ensures
        res == d@.is_float(),
{
    matches!(d, DataType::Float32 | DataType::Float64)
}

fn is_boolean(d: &DataType) -> (res: bool)
    ensures
        res == (d@ is Boolean),
{
    matches!(d, DataType::Boolean)
}

fn mixed_int_supertype(signed: &DataType, unsigned: &DataType) -> (res: DataType)
    requires
        signed@.is_signed_int(),
        unsigned@.is_unsigned_int(),
    ensures
        res@ == DataTypeView::mixed_int_supertype(signed@, unsigned@),
{
    let ub: u8 = int_bits(unsigned);
    if ub < int_bits(signed) {
        clone_dtype(signed)
    } else if ub == 8 {
        DataType::Int16
    } else if ub == 16 {
        DataType::Int32
    } else if ub == 32 {
        DataType::Int64
    } else {
        DataType::Float64
    }
}

fn numeric_supertype(l: &DataType, r: &DataType) -> (res: DataType)
    requires
        l@ is Boolean || l@.is_numeric(),
        r@ is Boolean || r@.is_numeric(),
    ensures
        res@ == DataTypeView::numeric_supertype(l@, r@),
{
    if is_boolean(l) {
        clone_dtype(r)
    } else if is_boolean(r) {
        clone_dtype(l)
    } else if matches!(l, DataType::Float64) || matches!(r, DataType::Float64) {
        DataType::Float64
    } else if matches!(l, DataType::Float32) {
        if int_bits(r) <= 16 {
            DataType::Float32
        } else {
            DataType::Float64
        }
    } else if matches!(r, DataType::Float32) {
        if int_bits(l) <= 16 {
            DataType::Float32
        } else {
            DataType::Float64
        }
    } else if is_signed_int(l) && is_unsigned_int(r) {
        mixed_int_supertype(l, r)
    } else if is_unsigned_int(l) && is_signed_int(r) {
        mixed_int_supertype(r, l)
    } else if int_bits(l) >= int_bits(r) {
        clone_dtype(l)
    } else {
        clone_dtype(r)
    }
}

/// The supertype of two types, if they have one.
pub fn get_supertype(l: &DataType, r: &DataType) -> (res: Option<DataType>)
    ensures
        match spec_get_supertype(l@, r@) {
            Some(st) => res matches Some(d) && d@ == st,
            None => res is None,
        },
    decreases *l,
{
    if eq_dtype(l, r) {
        return Some(clone_dtype(l));
    }
    if matches!(l, DataType::Unknown) || matches!(r, DataType::Unknown) {
        return Some(DataType::Unknown);
    }
    if matches!(l, DataType::Null) {
        return Some(clone_dtype(r));
    }
    if matches!(r, DataType::Null) {
        return Some(clone_dtype(l));
    }
    let l_num = is_boolean(l) || is_signed_int(l) || is_unsigned_int(l) || is_float_dtype(l);
    let r_num = is_boolean(r) || is_signed_int(r) || is_unsigned_int(r) || is_float_dtype(r);
    if l_num && r_num {
        return Some(numeric_supertype(l, r));
    }
    if matches!(l, DataType::Utf8) {
        return if matches!(r, DataType::Binary) {
            None
        } else {
            Some(DataType::Utf8)
        };
    }
    if matches!(r, DataType::Utf8) {
        return if matches!(l, DataType::Binary) {
            None
        } else {
            Some(DataType::Utf8)
        };
    }
    match (l, r) {
        (DataType::List(a), DataType::List(b)) => match get_supertype(&**a, &**b) {
            Some(inner) => Some(DataType::List(Box::new(inner))),
            None => None,
        },
        (DataType::Date, DataType::Datetime(tu, tz)) => Some(
            DataType::Datetime(*tu, clone_opt_string(tz)),
        ),
        (DataType::Datetime(tu, tz), DataType::Date) => Some(
            DataType::Datetime(*tu, clone_opt_string(tz)),
        ),
        (DataType::Datetime(tl, zl), DataType::Datetime(tr, zr)) => if eq_opt_string(zl, zr) {
            Some(DataType::Datetime(get_time_units(*tl, *tr), clone_opt_string(zl)))
        } else {
            None
        },
        (DataType::Duration(tl), DataType::Duration(tr)) => Some(
            DataType::Duration(get_time_units(*tl, *tr)),
        ),
        (DataType::Duration(tl), DataType::Datetime(tr, tz)) => Some(
            DataType::Datetime(get_time_units(*tl, *tr), clone_opt_string(tz)),
        ),
        (DataType::Datetime(tl, tz), DataType::Duration(tr)) => Some(
            DataType::Datetime(get_time_units(*tl, *tr), clone_opt_string(tz)),
        ),
        (DataType::Duration(_), DataType::Date) => Some(
            DataType::Datetime(TimeUnit::Milliseconds, None),
        ),
        (DataType::Date, DataType::Duration(_)) => Some(
            DataType::Datetime(TimeUnit::Milliseconds, None),
        ),
        _ => match temporal_number_supertype(l, r) {
            Some(st) => Some(st),
            None => temporal_number_supertype(r, l),
        },
    }
}

/// The supertype of a type of dates or times and a number; see
/// [`spec_temporal_number_supertype`].
pub fn temporal_number_supertype(t: &DataType, n: &DataType) -> (res: Option<DataType>)
    ensures
        match spec_temporal_number_supertype(t@, n@) {
            Some(st) => res matches Some(d) && d@ == st,
            None => res is None,
        },
{
    match t {
        DataType::Date => match n {
            DataType::UInt32 | DataType::UInt64 | DataType::Int64 => Some(DataType::Int64),
            DataType::Int32 => Some(DataType::Int32),
            DataType::Float32 => Some(DataType::Float32),
            DataType::Float64 => Some(DataType::Float64),
            _ => None,
        },
        DataType::Datetime(_, _) | DataType::Duration(_) => match n {
            DataType::UInt32 | DataType::UInt64 | DataType::Int32 | DataType::Int64 => Some(
                DataType::Int64,
            ),
            DataType::Float32 | DataType::Float64 => Some(DataType::Float64),
            _ => None,
        },
        DataType::Time => match n {
            DataType::Int32 | DataType::Int64 => Some(DataType::Int64),
            DataType::Float32 | DataType::Float64 => Some(DataType::Float64),
            _ => None,
        },
        _ => None,
    }
}

/// The supertype of two types, or a compute error if they have none.
pub fn try_get_supertype(l: &DataType, r: &DataType) -> (res: PolarsResult<DataType>)
    ensures
        match spec_get_supertype(l@, r@) {
            Some(st) => res matches Ok(d) && d@ == st,
            None => res matches Err(e) && e@ == PolarsErrorView::ComputeError(
                no_supertype_message(),
            ),
        },
{
    match get_supertype(l, r) {
        Some(d) => Ok(d),
        None => Err(PolarsError::compute("failed to determine supertype")),
    }
}

/// The supertype does not depend on the order of its arguments.
pub proof fn lemma_supertype_commutes(l: DataTypeView, r: DataTypeView)
    ensures
        spec_get_supertype(l, r) == spec_get_supertype(r, l),
    decreases l,
{
    match (l, r) {
        (DataTypeView::List(a), DataTypeView::List(b)) => {
            lemma_supertype_commutes(*a, *b);
        },
        _ => {},
    }
}

} // verus!
