//! The output field of a function expression, from the fields of its
//! inputs.

use vstd::prelude::*;

use crate::datatypes::{clone_dtype, clone_opt_string, opt_string_view};
use crate::datatypes::{DataType, DataTypeView, Field, FieldView, TimeUnit};
use crate::error::{PolarsError, PolarsErrorView, PolarsResult};
use crate::function_expr::{ArrayFunction, BinaryFunction, BooleanFunction};
use crate::function_expr::{CategoricalFunction, Context, Duration, FunctionExpr};
use crate::function_expr::{ListFunction, RangeFunction, StringFunction, StructFunction};
use crate::function_expr::TemporalFunction;
use crate::supertype::{no_supertype_message, spec_get_supertype, try_get_supertype};
use crate::type_names::{dtype_name, spec_dtype_name};

verus! {

/// The type that stores the values of a logical type.
pub open spec fn spec_to_physical(d: DataTypeView) -> DataTypeView
    decreases d,
{
    match d {
        DataTypeView::Date => DataTypeView::Int32,
        DataTypeView::Datetime(_, _) => DataTypeView::Int64,
        DataTypeView::Duration(_) => DataTypeView::Int64,
        DataTypeView::Time => DataTypeView::Int64,
        DataTypeView::Categorical => DataTypeView::UInt32,
        DataTypeView::List(inner) => DataTypeView::List(Box::new(spec_to_physical(*inner))),
        DataTypeView::Array(inner, width) => DataTypeView::Array(
            Box::new(spec_to_physical(*inner)),
            width,
        ),
        _ => d,
    }
}

/// The type that stores the values of a logical type.
pub fn to_physical(d: &DataType) -> (res: DataType)
    ensures
        res@ == spec_to_physical(d@),
    decreases *d,
{
    match d {
        DataType::Date => DataType::Int32,
        DataType::Datetime(_, _) => DataType::Int64,
        DataType::Duration(_) => DataType::Int64,
        DataType::Time => DataType::Int64,
        DataType::Categorical => DataType::UInt32,
        DataType::List(inner) => DataType::List(Box::new(to_physical(&**inner))),
        DataType::Array(inner, width) => DataType::Array(Box::new(to_physical(&**inner)), *width),
        _ => clone_dtype(d),
    }
}

/// The supertype of `acc` and the types of `fields[from..]`, taken from
/// left to right; `None` as soon as two of them have no supertype.
pub open spec fn spec_fold_supertype(acc: DataTypeView, fields: Seq<FieldView>, from: int) -> Option<
    DataTypeView,
>
    decreases fields.len() - from,
{
    if from >= fields.len() || from < 0 {
        Some(acc)
    } else {
        match spec_get_supertype(acc, fields[from].dtype) {
            Some(st) => spec_fold_supertype(st, fields, from + 1),
            None => None,
        }
    }
}

/// The models of the fields in a slice.
pub open spec fn field_views(fields: Seq<Field>) -> Seq<FieldView> {
    Seq::new(fields.len(), |i: int| fields[i]@)
}

/// Derives the field that a function returns from the fields of its
/// inputs. The first input gives the result its name.
pub struct FieldsMapper<'a> {
    pub fields: &'a [Field],
}

impl<'a> FieldsMapper<'a> {
    /// A mapper over the given input fields.
    pub fn new(fields: &'a [Field]) -> (res: Self)
        ensures
            res.fields@ == fields@,
    {
        FieldsMapper { fields }
    }

    /// The models of the input fields.
    pub open spec fn inputs(&self) -> Seq<FieldView> {
        field_views(self.fields@)
    }

    /// A field of the given type, named as the first input.
    pub open spec fn named(&self, dtype: DataTypeView) -> FieldView {
        FieldView { name: self.inputs()[0].name, dtype }
    }

    /// Field with the same dtype.
    pub fn with_same_dtype(&self) -> (res: PolarsResult<Field>)
        requires
            self.fields@.len() > 0,
        ensures
            res matches Ok(f) && f@ == self.inputs()[0],
    {
        self.map_dtype(|dtype: &DataType| -> (r: DataType)
            ensures
                r@ == dtype@,
            { clone_dtype(dtype) })
    }

    /// Set a dtype.
    pub fn with_dtype(&self, dtype: DataType) -> (res: PolarsResult<Field>)
        requires
            self.fields@.len() > 0,
        ensures
            res matches Ok(f) && f@ == self.named(dtype@),
    {
        Ok(Field { name: self.fields[0].name.clone(), dtype })
    }

    /// Map a single dtype.
    pub fn map_dtype<F: Fn(&DataType) -> DataType>(&self, func: F) -> (res: PolarsResult<Field>)
        requires
            self.fields@.len() > 0,
            func.requires((&self.fields@[0].dtype,)),
        ensures
            res matches Ok(f) && f@.name == self.inputs()[0].name && func.ensures(
                (&self.fields@[0].dtype,),
                f.dtype,
            ),
    {
        let dtype = func(&self.fields[0].dtype);
        Ok(Field { name: self.fields[0].name.clone(), dtype })
    }

    /// Map to a physical type.
    pub fn to_physical_type(&self) -> (res: PolarsResult<Field>)
        requires
            self.fields@.len() > 0,
        ensures
            res matches Ok(f) && f@ == self.named(spec_to_physical(self.inputs()[0].dtype)),
    {
        self.map_dtype(|dtype: &DataType| -> (r: DataType)
            ensures
                r@ == spec_to_physical(dtype@),
            { to_physical(dtype) })
    }

    /// Map the dtype to the "supertype" of all fields.
    pub fn map_to_supertype(&self) -> (res: PolarsResult<Field>)
        requires
            self.fields@.len() > 0,
        ensures
            match spec_fold_supertype(self.inputs()[0].dtype, self.inputs(), 1) {
                Some(st) => res matches Ok(f) && f@ == self.named(st),
                None => res matches Err(e) && e@ == PolarsErrorView::ComputeError(
                    no_supertype_message(),
                ),
            },
    {
        let mut first = self.fields[0].clone();
        let mut st = clone_dtype(first.data_type());
        let mut i: usize = 1;
        while i < self.fields.len()
            invariant
                1 <= i <= self.fields@.len(),
                first@ == self.inputs()[0],
                spec_fold_supertype(self.inputs()[0].dtype, self.inputs(), 1)
                    == spec_fold_supertype(st@, self.inputs(), i as int),
            decreases self.fields@.len() - i,
        {
            st = try_get_supertype(&st, self.fields[i].data_type())?;
            i += 1;
        }
        first.coerce(st);
        Ok(first)
    }

    /// Map to a float supertype.
    pub fn map_to_float_dtype(&self) -> (res: PolarsResult<Field>)
        requires
            self.fields@.len() > 0,
        ensures
            res matches Ok(f) && f@ == self.named(spec_float_dtype(self.inputs()[0].dtype)),
    {
        self.map_dtype(|dtype: &DataType| -> (r: DataType)
            ensures
                r@ == spec_float_dtype(dtype@),
            {
                match dtype {
                    DataType::Float32 => DataType::Float32,
                    _ => DataType::Float64,
                }
            })
    }

    /// Map a single dtype with a potentially failing mapper function.
    pub fn try_map_dtype<F: Fn(&DataType) -> PolarsResult<DataType>>(&self, func: F) -> (res:
        PolarsResult<Field>)
        requires
            self.fields@.len() > 0,
            func.requires((&self.fields@[0].dtype,)),
        ensures
            match res {
                Ok(f) => f@.name == self.inputs()[0].name && func.ensures(
                    (&self.fields@[0].dtype,),
                    Ok(f.dtype),
                ),
                Err(e) => func.ensures((&self.fields@[0].dtype,), Err(e)),
            },
    {
        match func(&self.fields[0].dtype) {
            Ok(dtype) => Ok(Field { name: self.fields[0].name.clone(), dtype }),
            Err(e) => Err(e),
        }
    }

    /// Map all dtypes with a potentially failing mapper function.
    pub fn try_map_dtypes<F: Fn(&Vec<&DataType>) -> PolarsResult<DataType>>(&self, func: F) -> (res:
        PolarsResult<Field>)
        requires
            self.fields@.len() > 0,
            forall|dtypes: &Vec<&DataType>| #[trigger]
                dtypes_of(dtypes@, self.fields@) ==> func.requires((dtypes,)),
        ensures
            exists|dtypes: &Vec<&DataType>| #[trigger]
                dtypes_of(dtypes@, self.fields@) && match res {
                    Ok(f) => f@.name == self.inputs()[0].name && func.ensures(
                        (dtypes,),
                        Ok(f.dtype),
                    ),
                    Err(e) => func.ensures((dtypes,), Err(e)),
                },
    {
        let mut fld = self.fields[0].clone();
        let mut dtypes: Vec<&DataType> = Vec::new();
        let mut i: usize = 0;
        while i < self.fields.len()
            invariant
                i <= self.fields@.len(),
                dtypes@.len() == i,
                forall|j: int| 0 <= j < i ==> *(#[trigger] dtypes@[j]) == self.fields@[j].dtype,
            decreases self.fields@.len() - i,
        {
            dtypes.push(&self.fields[i].dtype);
            i += 1;
        }
        assert(dtypes_of(dtypes@, self.fields@));
        match func(&dtypes) {
            Ok(new_type) => {
                let ghost kept = new_type;
                fld.coerce(new_type);
                assert(fld.dtype == kept);
                Ok(fld)
            },
            Err(e) => Err(e),
        }
    }

    /// Map the dtype to the dtype of the list elements.
    pub fn map_to_list_inner_dtype(&self) -> (res: PolarsResult<Field>)
        requires
            self.fields@.len() > 0,
        ensures
            res matches Ok(f) && f@ == self.named(spec_inner_or_unknown(self.inputs()[0].dtype)),
    {
        let mut first = self.fields[0].clone();
        let dt = inner_or_unknown(first.data_type());
        first.coerce(dt);
        Ok(first)
    }

    /// The type of a range of dates: a list of dates, or of datetimes in
    /// the unit and the time zone that are asked for or that the inputs
    /// have.
    pub fn map_to_date_range_dtype(
        &self,
        every: &Duration,
        time_unit: &Option<TimeUnit>,
        tz: &Option<String>,
    ) -> (res: PolarsResult<Field>)
        requires
            self.fields@.len() > 0,
        ensures
            spec_map_to_date_range_dtype(
                self.inputs(),
                every.nsecs as int,
                *time_unit,
                opt_string_view(*tz),
            ) == match res {
                Ok(f) => Ok::<FieldView, PolarsErrorView>(f@),
                Err(e) => Err(e@),
            },
    {
        let base = self.map_to_supertype()?;
        let ghost st = spec_fold_supertype(self.inputs()[0].dtype, self.inputs(), 1).unwrap();
        assert(base.dtype@ == st);
        let inner_dtype = match (&base.dtype, time_unit, tz) {
            (DataType::Datetime(tu, field_tz), time_unit, tz) => {
                let unit = match time_unit {
                    Some(unit) => *unit,
                    None => *tu,
                };
                let zone = match (field_tz, tz) {
                    (Some(field_tz), Some(tz)) => {
                        if *field_tz != *tz {
                            return Err(zone_mismatch(tz, field_tz));
                        }
                        Some(tz.clone())
                    },
                    (Some(field_tz), None) => Some(field_tz.clone()),
                    (None, Some(tz)) => Some(tz.clone()),
                    (None, None) => None,
                };
                DataType::Datetime(unit, zone)
            },
            (DataType::Date, time_unit, time_zone) => {
                let nsecs = every.nanoseconds();
                if nsecs == 0 {
                    DataType::Date
                } else {
                    match time_unit {
                        Some(tu) => DataType::Datetime(*tu, clone_opt_string(time_zone)),
                        None => {
                            if !divisible_by_thousand(nsecs) {
                                DataType::Datetime(
                                    TimeUnit::Nanoseconds,
                                    clone_opt_string(time_zone),
                                )
                            } else {
                                DataType::Datetime(
                                    TimeUnit::Microseconds,
                                    clone_opt_string(time_zone),
                                )
                            }
                        },
                    }
                }
            },
            _ => {
                return Err(not_temporal(&base.dtype));
            },
        };
        assert(Ok::<DataTypeView, PolarsErrorView>(inner_dtype@) == spec_date_range_inner(
            st,
            every.nsecs as int,
            *time_unit,
            opt_string_view(*tz),
        ));
        Ok(Field::new("date", DataType::List(Box::new(inner_dtype))))
    }

    /// Map the dtypes to the "supertype" of a list of lists.
    pub fn map_to_list_supertype(&self) -> (res: PolarsResult<Field>)
        requires
            self.fields@.len() > 0,
        ensures
            match spec_list_supertype(field_dtypes(self.inputs())) {
                Some(st) => res matches Ok(f) && f@ == self.named(
                    DataTypeView::List(Box::new(st)),
                ),
                None => res matches Err(e) && e@ == PolarsErrorView::ComputeError(
                    no_supertype_message(),
                ),
            },
    {
        let res = self.try_map_dtypes(list_supertype);
        proof {
            let dtypes = choose|dtypes: &Vec<&DataType>| #[trigger]
                dtypes_of(dtypes@, self.fields@) && match res {
                    Ok(f) => f@.name == self.inputs()[0].name && call_ensures(
                        list_supertype,
                        (dtypes,),
                        Ok(f.dtype),
                    ),
                    Err(e) => call_ensures(list_supertype, (dtypes,), Err(e)),
                };
            assert(dtype_views(dtypes@) =~= field_dtypes(self.inputs()));
        }
        res
    }

    /// Set the timezone of a datetime dtype.
    pub fn map_datetime_dtype_timezone(&self, tz: Option<&String>) -> (res: PolarsResult<Field>)
        requires
            self.fields@.len() > 0,
        ensures
            spec_with_timezone(
                self.inputs(),
                match tz {
                    Some(z) => Some(z@),
                    None => None,
                },
            ) == match res {
                Ok(f) => Ok::<FieldView, PolarsErrorView>(f@),
                Err(e) => Err(e@),
            },
    {
        match &self.fields[0].dtype {
            DataType::Datetime(tu, _) => {
                let zone = match tz {
                    Some(z) => Some(z.clone()),
                    None => None,
                };
                self.with_dtype(DataType::Datetime(*tu, zone))
            },
            _ => Err(not_datetime(&self.fields[0].dtype)),
        }
    }

    /// The type of the sum over the elements of a list: small integers
    /// are summed as 64-bit integers.
    pub fn nested_sum_type(&self) -> (res: PolarsResult<Field>)
        requires
            self.fields@.len() > 0,
        ensures
            res matches Ok(f) && f@ == self.named(spec_nested_sum_dtype(self.inputs()[0].dtype)),
    {
        let mut first = self.fields[0].clone();
        let dt = inner_or_unknown(first.data_type());
        if matches!(dt, DataType::UInt8 | DataType::Int8 | DataType::Int16 | DataType::UInt16) {
            first.coerce(DataType::Int64);
        } else {
            first.coerce(dt);
        }
        Ok(first)
    }

    /// Set a dtype, `Unknown` if there is none.
    pub fn with_opt_dtype(&self, dtype: Option<DataType>) -> (res: PolarsResult<Field>)
        requires
            self.fields@.len() > 0,
        ensures
            res matches Ok(f) && f@ == self.named(
                match dtype {
                    Some(d) => d@,
                    None => DataTypeView::Unknown,
                },
            ),
    {
        let dtype = match dtype {
            Some(d) => d,
            None => DataType::Unknown,
        };
        self.with_dtype(dtype)
    }
}


/// The models of a list of types.
pub open spec fn dtype_views(dtypes: Seq<&DataType>) -> Seq<DataTypeView> {
    Seq::new(dtypes.len(), |i: int| (*dtypes[i])@)
}

/// The types of a list of fields.
pub open spec fn field_dtypes(fields: Seq<FieldView>) -> Seq<DataTypeView> {
    Seq::new(fields.len(), |i: int| fields[i].dtype)
}

/// The supertype of `acc` and the element types of `dtypes[from..]`,
/// taken from left to right.
pub open spec fn spec_fold_elements(acc: DataTypeView, dtypes: Seq<DataTypeView>, from: int) -> Option<
    DataTypeView,
>
    decreases dtypes.len() - from,
{
    if from >= dtypes.len() || from < 0 {
        Some(acc)
    } else {
        match spec_get_supertype(acc, spec_list_element(dtypes[from])) {
            Some(st) => spec_fold_elements(st, dtypes, from + 1),
            None => None,
        }
    }
}

/// The supertype of the element types of lists, where a type that is
/// no list stands for itself.
pub open spec fn spec_list_supertype(dtypes: Seq<DataTypeView>) -> Option<DataTypeView> {
    spec_fold_elements(spec_list_element(dtypes[0]), dtypes, 1)
}

/// Whether `r` is the list of the supertype of the element types, or
/// the error for types without one.
pub open spec fn is_list_supertype(dtypes: Seq<DataTypeView>, r: DtypeResult) -> bool {
    match spec_list_supertype(dtypes) {
        Some(st) => r matches Ok(d) && d@ == DataTypeView::List(Box::new(st)),
        None => r matches Err(e) && e@ == PolarsErrorView::ComputeError(no_supertype_message()),
    }
}

/// The list type over the supertype of the element types of `dtypes`.
pub fn list_supertype(dtypes: &Vec<&DataType>) -> (r: DtypeResult)
    requires
        dtypes@.len() > 0,
    ensures
        is_list_supertype(dtype_views(dtypes@), r),
{
    let ghost views = dtype_views(dtypes@);
    let mut st = clone_dtype(list_element(dtypes[0]));
    let mut i: usize = 1;
    while i < dtypes.len()
        invariant
            1 <= i <= dtypes@.len(),
            views == dtype_views(dtypes@),
            spec_list_supertype(views) == spec_fold_elements(st@, views, i as int),
        decreases dtypes@.len() - i,
    {
        st = try_get_supertype(&st, list_element(dtypes[i]))?;
        i += 1;
    }
    Ok(DataType::List(Box::new(st)))
}

/// Whether `dtypes` are the types of `fields`, in order.
pub open spec fn dtypes_of(dtypes: Seq<&DataType>, fields: Seq<Field>) -> bool {
    &&& dtypes.len() == fields.len()
    &&& forall|i: int| 0 <= i < dtypes.len() ==> *(#[trigger] dtypes[i]) == fields[i].dtype
}

/// `Float32` stays; every other type becomes `Float64`.
pub open spec fn spec_float_dtype(d: DataTypeView) -> DataTypeView {
    if d is Float32 {
        DataTypeView::Float32
    } else {
        DataTypeView::Float64
    }
}

/// The element type of a list or of a list of fixed width, `Unknown`
/// for any other type.
pub open spec fn spec_inner_or_unknown(d: DataTypeView) -> DataTypeView {
    match d {
        DataTypeView::List(inner) => *inner,
        DataTypeView::Array(inner, _) => *inner,
        _ => DataTypeView::Unknown,
    }
}

/// The element type of a list or of a list of fixed width, `Unknown`
/// for any other type.
pub fn inner_or_unknown(d: &DataType) -> (res: DataType)
    ensures
        res@ == spec_inner_or_unknown(d@),
{
    match d {
        DataType::List(inner) => clone_dtype(&**inner),
        DataType::Array(inner, _) => clone_dtype(&**inner),
        _ => DataType::Unknown,
    }
}

/// The element type of a list, and any other type itself.
pub open spec fn spec_list_element(d: DataTypeView) -> DataTypeView {
    match d {
        DataTypeView::List(inner) => *inner,
        _ => d,
    }
}

/// The element type of a list, and any other type itself.
pub fn list_element(d: &DataType) -> (res: &DataType)
    ensures
        res@ == spec_list_element(d@),
{
    match d {
        DataType::List(inner) => &**inner,
        _ => d,
    }
}

/// The type of the sum over the elements of a list.
pub open spec fn spec_nested_sum_dtype(d: DataTypeView) -> DataTypeView {
    let inner = spec_inner_or_unknown(d);
    if inner is UInt8 || inner is Int8 || inner is Int16 || inner is UInt16 {
        DataTypeView::Int64
    } else {
        inner
    }
}

/// Whether a count of nanoseconds is a whole number of microseconds.
pub fn divisible_by_thousand(n: i64) -> (res: bool)
    ensures
        res == (n as int % 1000 == 0),
{
    if n >= 0 {
        n % 1000 == 0
    } else if n == i64::MIN {
        // 9223372036854775808 = 9223372036854775 * 1000 + 808
        false
    } else {
        let m: i64 = -n;
        assert(((n as int) % 1000 == 0) <==> ((m as int) % 1000 == 0)) by {
            assert((n as int) == -(m as int));
            assert(((-(m as int)) % 1000 == 0) <==> ((m as int) % 1000 == 0)) by (nonlinear_arith);
        }
        m % 1000 == 0
    }
}

/// Message of the error for a time zone that differs from the one of
/// the inputs: it names the zone that was given and the zone that the
/// inputs have.
pub open spec fn zone_mismatch_message(given: Seq<char>, got: Seq<char>) -> Seq<char> {
    "Given time_zone is different from that of timezone aware datetimes. Given: '"@ + given
        + "', got: '"@ + got + "'."@
}

/// The error for a time zone that differs from the one of the inputs.
pub fn zone_mismatch(given: &String, got: &String) -> (res: PolarsError)
    ensures
        res@ == PolarsErrorView::ComputeError(zone_mismatch_message(given@, got@)),
{
    let mut s = String::from_str(
        "Given time_zone is different from that of timezone aware datetimes. Given: '",
    );
    s.append(given.as_str());
    s.append("', got: '");
    s.append(got.as_str());
    s.append("'.");
    PolarsError::ComputeError(s)
}

/// Message of the error for an input that is neither a date nor a
/// datetime: it names the type that the input has.
pub open spec fn not_temporal_message(got: DataTypeView) -> Seq<char> {
    "expected Date or Datetime, got "@ + spec_dtype_name(got)
}

/// The error for an input that is neither a date nor a datetime.
pub fn not_temporal(got: &DataType) -> (res: PolarsError)
    ensures
        res@ == PolarsErrorView::ComputeError(not_temporal_message(got@)),
{
    let mut s = String::from_str("expected Date or Datetime, got ");
    let name = dtype_name(got);
    s.append(name.as_str());
    PolarsError::ComputeError(s)
}

/// The field of a range of dates over inputs whose supertype is `base`.
///
/// Datetimes keep their unit unless one is asked for, and take the time
/// zone that is asked for or that they have; the two may not differ.
/// Dates stay dates if the step has no part below a day. Else they
/// become datetimes in the unit asked for, or in nanoseconds if the step
/// needs them, or in microseconds.
pub open spec fn spec_date_range_inner(
    base: DataTypeView,
    nsecs: int,
    time_unit: Option<TimeUnit>,
    tz: Option<Seq<char>>,
) -> Result<DataTypeView, PolarsErrorView> {
    match base {
        DataTypeView::Datetime(tu, field_tz) => {
            let unit = match time_unit {
                Some(u) => u,
                None => tu,
            };
            match (field_tz, tz) {
                (Some(f), Some(z)) => if f != z {
                    Err(PolarsErrorView::ComputeError(zone_mismatch_message(z, f)))
                } else {
                    Ok(DataTypeView::Datetime(unit, Some(z)))
                },
                (Some(f), None) => Ok(DataTypeView::Datetime(unit, Some(f))),
                (None, z) => Ok(DataTypeView::Datetime(unit, z)),
            }
        },
        DataTypeView::Date => if nsecs == 0 {
            Ok(DataTypeView::Date)
        } else {
            match time_unit {
                Some(u) => Ok(DataTypeView::Datetime(u, tz)),
                None => if nsecs % 1000 != 0 {
                    Ok(DataTypeView::Datetime(TimeUnit::Nanoseconds, tz))
                } else {
                    Ok(DataTypeView::Datetime(TimeUnit::Microseconds, tz))
                },
            }
        },
        _ => Err(PolarsErrorView::ComputeError(not_temporal_message(base))),
    }
}

/// The field of a range of dates: named `date`, a list of what
/// [`spec_date_range_inner`] gives for the supertype of the inputs.
pub open spec fn spec_map_to_date_range_dtype(
    fields: Seq<FieldView>,
    nsecs: int,
    time_unit: Option<TimeUnit>,
    tz: Option<Seq<char>>,
) -> Result<FieldView, PolarsErrorView> {
    match spec_fold_supertype(fields[0].dtype, fields, 1) {
        None => Err(PolarsErrorView::ComputeError(no_supertype_message())),
        Some(base) => match spec_date_range_inner(base, nsecs, time_unit, tz) {
            Ok(inner) => Ok(
                FieldView { name: "date"@, dtype: DataTypeView::List(Box::new(inner)) },
            ),
            Err(e) => Err(e),
        },
    }
}

/// Message of the error for a time zone set on a type that is no
/// datetime: it names that type.
pub open spec fn not_datetime_message(got: DataTypeView) -> Seq<char> {
    "`cast-timezone` operation not supported for dtype `"@ + spec_dtype_name(got)
        + "` (expected: Datetime)"@
}

/// The error for a time zone set on a type that is no datetime.
pub fn not_datetime(got: &DataType) -> (res: PolarsError)
    ensures
        res@ == PolarsErrorView::InvalidOperation(not_datetime_message(got@)),
{
    let mut s = String::from_str("`cast-timezone` operation not supported for dtype `");
    let name = dtype_name(got);
    s.append(name.as_str());
    s.append("` (expected: Datetime)");
    PolarsError::InvalidOperation(s)
}

/// The first field as a datetime in the time zone `tz`; an error if it
/// is no datetime.
pub open spec fn spec_with_timezone(fields: Seq<FieldView>, tz: Option<Seq<char>>) -> Result<
    FieldView,
    PolarsErrorView,
> {
    match fields[0].dtype {
        DataTypeView::Datetime(tu, _) => Ok(
            FieldView { name: fields[0].name, dtype: DataTypeView::Datetime(tu, tz) },
        ),
        _ => Err(PolarsErrorView::InvalidOperation(not_datetime_message(fields[0].dtype))),
    }
}


/// The model of a result that holds a field.
pub open spec fn result_view(res: PolarsResult<Field>) -> Result<FieldView, PolarsErrorView> {
    match res {
        Ok(f) => Ok(f@),
        Err(e) => Err(e@),
    }
}

/// The first field with another type.
pub open spec fn ok_named(fields: Seq<FieldView>, dtype: DataTypeView) -> Result<
    FieldView,
    PolarsErrorView,
> {
    Ok(FieldView { name: fields[0].name, dtype })
}

/// The type of row indices and counts.
pub open spec fn idx_dtype() -> DataTypeView {
    DataTypeView::UInt32
}

/// The type of a running sum: a logical type keeps its type; booleans
/// are counted in `UInt32`; the integers of 32 bits, the unsigned
/// integers of 64 bits and the floats keep their type; all else is
/// summed in `Int64`.
pub open spec fn spec_cumsum_dtype(d: DataTypeView) -> DataTypeView {
    if spec_to_physical(d) != d {
        d
    } else {
        match d {
            DataTypeView::Boolean => DataTypeView::UInt32,
            DataTypeView::Int32 => DataTypeView::Int32,
            DataTypeView::UInt32 => DataTypeView::UInt32,
            DataTypeView::UInt64 => DataTypeView::UInt64,
            DataTypeView::Float32 => DataTypeView::Float32,
            DataTypeView::Float64 => DataTypeView::Float64,
            _ => DataTypeView::Int64,
        }
    }
}

/// The type of a running product.
pub open spec fn spec_cumprod_dtype(d: DataTypeView) -> DataTypeView {
    match d {
        DataTypeView::UInt64 => DataTypeView::UInt64,
        DataTypeView::Float32 => DataTypeView::Float32,
        DataTypeView::Float64 => DataTypeView::Float64,
        _ => DataTypeView::Int64,
    }
}

/// The type of the difference of two values: a duration for points in
/// time, a signed integer that holds the difference for unsigned ones.
pub open spec fn spec_diff_dtype(d: DataTypeView) -> DataTypeView {
    match d {
        DataTypeView::Datetime(tu, _) => DataTypeView::Duration(tu),
        DataTypeView::Date => DataTypeView::Duration(TimeUnit::Milliseconds),
        DataTypeView::Time => DataTypeView::Duration(TimeUnit::Nanoseconds),
        DataTypeView::UInt64 | DataTypeView::UInt32 => DataTypeView::Int64,
        DataTypeView::UInt16 => DataTypeView::Int32,
        DataTypeView::UInt8 => DataTypeView::Int16,
        _ => d,
    }
}

/// The smallest type that shrinking a numeric type can give.
pub open spec fn spec_shrink_dtype(d: DataTypeView) -> DataTypeView {
    if d.is_numeric() {
        if d.is_float() {
            DataTypeView::Float32
        } else if d.is_unsigned_int() {
            DataTypeView::Int8
        } else {
            DataTypeView::UInt8
        }
    } else {
        d
    }
}

/// The type of a run-length encoding: the lengths of the runs and
/// their values.
pub open spec fn spec_rle_dtype(d: DataTypeView) -> DataTypeView {
    DataTypeView::Struct(
        seq![
            FieldView { name: "lengths"@, dtype: DataTypeView::UInt64 },
            FieldView { name: "values"@, dtype: d },
        ],
    )
}

/// The position that an index denotes in a list of `len` items: a
/// negative index counts from the end; what lies before the list
/// denotes its start, what lies after it its end.
pub open spec fn spec_field_index(index: int, len: int) -> int {
    let start = if index < 0 {
        index + len
    } else {
        index
    };
    if start < 0 {
        0
    } else if start > len {
        len
    } else {
        start
    }
}

/// The first of the first `k` fields that has the name `name`.
pub open spec fn spec_field_named(fields: Seq<FieldView>, name: Seq<char>, k: nat) -> Option<
    FieldView,
>
    decreases k,
{
    if k == 0 {
        None
    } else {
        match spec_field_named(fields, name, (k - 1) as nat) {
            Some(f) => Some(f),
            None => if fields[k - 1].name == name {
                Some(fields[k - 1])
            } else {
                None
            },
        }
    }
}

/// The field that a string function gives.
pub open spec fn spec_string_field(f: StringFunction, fields: Seq<FieldView>) -> Result<
    FieldView,
    PolarsErrorView,
> {
    match f {
        StringFunction::Contains
        | StringFunction::StartsWith
        | StringFunction::EndsWith => ok_named(fields, DataTypeView::Boolean),
        StringFunction::CountMatch
        | StringFunction::NChars
        | StringFunction::Length => ok_named(fields, DataTypeView::UInt32),
        StringFunction::ExtractAll => ok_named(
            fields,
            DataTypeView::List(Box::new(DataTypeView::Utf8)),
        ),
        StringFunction::Extract => ok_named(fields, DataTypeView::Utf8),
        StringFunction::Lowercase
        | StringFunction::Uppercase
        | StringFunction::Strip
        | StringFunction::Zfill => ok_named(fields, fields[0].dtype),
    }
}

/// The field that a function on categorical values gives.
pub open spec fn spec_categorical_field(f: CategoricalFunction, fields: Seq<FieldView>) -> Result<
    FieldView,
    PolarsErrorView,
> {
    match f {
        CategoricalFunction::SetOrdering => ok_named(fields, DataTypeView::Categorical),
        CategoricalFunction::GetCategories => ok_named(fields, DataTypeView::Utf8),
    }
}

/// Message of the error for a function of datetimes on another type:
/// it names that type.
pub open spec fn expected_datetime_message(got: DataTypeView) -> Seq<char> {
    "expected Datetime, got "@ + spec_dtype_name(got)
}

/// The error for a function of datetimes on another type.
pub fn expected_datetime(got: &DataType) -> (res: PolarsError)
    ensures
        res@ == PolarsErrorView::ComputeError(expected_datetime_message(got@)),
{
    let mut s = String::from_str("expected Datetime, got ");
    let name = dtype_name(got);
    s.append(name.as_str());
    PolarsError::ComputeError(s)
}

/// The field that a function on dates and times gives.
pub open spec fn spec_temporal_field(f: TemporalFunction, fields: Seq<FieldView>) -> Result<
    FieldView,
    PolarsErrorView,
> {
    match f {
        TemporalFunction::Year | TemporalFunction::IsoYear => ok_named(
            fields,
            DataTypeView::Int32,
        ),
        TemporalFunction::Month
        | TemporalFunction::Quarter
        | TemporalFunction::Week
        | TemporalFunction::WeekDay
        | TemporalFunction::Day
        | TemporalFunction::OrdinalDay
        | TemporalFunction::Hour
        | TemporalFunction::Minute
        | TemporalFunction::Millisecond
        | TemporalFunction::Microsecond
        | TemporalFunction::Nanosecond
        | TemporalFunction::Second => ok_named(fields, DataTypeView::UInt32),
        TemporalFunction::TimeStamp(_) => ok_named(fields, DataTypeView::Int64),
        TemporalFunction::IsLeapYear => ok_named(fields, DataTypeView::Boolean),
        TemporalFunction::Time => ok_named(fields, DataTypeView::Time),
        TemporalFunction::Date => ok_named(fields, DataTypeView::Date),
        TemporalFunction::Datetime => match fields[0].dtype {
            DataTypeView::Datetime(tu, _) => ok_named(fields, DataTypeView::Datetime(tu, None)),
            _ => Err(PolarsErrorView::ComputeError(expected_datetime_message(fields[0].dtype))),
        },
        TemporalFunction::Truncate
        | TemporalFunction::MonthStart
        | TemporalFunction::MonthEnd
        | TemporalFunction::Round => ok_named(fields, fields[0].dtype),
        TemporalFunction::BaseUtcOffset | TemporalFunction::DSTOffset => ok_named(
            fields,
            DataTypeView::Duration(TimeUnit::Milliseconds),
        ),
        TemporalFunction::CastTimezone(tz) => spec_with_timezone(fields, opt_string_view(tz)),
        TemporalFunction::TzLocalize(tz) => spec_with_timezone(fields, Some(tz@)),
        TemporalFunction::DateRange { every, time_unit, tz } => spec_map_to_date_range_dtype(
            fields,
            every.nsecs as int,
            time_unit,
            opt_string_view(tz),
        ),
        TemporalFunction::TimeRange { .. } => Ok(
            FieldView { name: "time"@, dtype: DataTypeView::List(Box::new(DataTypeView::Time)) },
        ),
        TemporalFunction::Combine(tu) => match fields[0].dtype {
            DataTypeView::Datetime(_, tz) => ok_named(fields, DataTypeView::Datetime(tu, tz)),
            DataTypeView::Date => ok_named(fields, DataTypeView::Datetime(tu, None)),
            _ => Err(PolarsErrorView::ComputeError(not_temporal_message(fields[0].dtype))),
        },
    }
}

/// The supertype of all inputs as the type of the first, or the error
/// for inputs without one.
pub open spec fn spec_supertype_field(fields: Seq<FieldView>) -> Result<FieldView, PolarsErrorView> {
    match spec_fold_supertype(fields[0].dtype, fields, 1) {
        Some(st) => ok_named(fields, st),
        None => Err(PolarsErrorView::ComputeError(no_supertype_message())),
    }
}

/// The field that a function on lists gives.
pub open spec fn spec_list_field(f: ListFunction, fields: Seq<FieldView>) -> Result<
    FieldView,
    PolarsErrorView,
> {
    match f {
        ListFunction::Concat => match spec_list_supertype(field_dtypes(fields)) {
            Some(st) => ok_named(fields, DataTypeView::List(Box::new(st))),
            None => Err(PolarsErrorView::ComputeError(no_supertype_message())),
        },
        ListFunction::Contains | ListFunction::Any | ListFunction::All => ok_named(
            fields,
            DataTypeView::Boolean,
        ),
        ListFunction::Slice | ListFunction::Take | ListFunction::SetOperation => ok_named(
            fields,
            fields[0].dtype,
        ),
        ListFunction::Get => ok_named(fields, spec_inner_or_unknown(fields[0].dtype)),
        ListFunction::CountMatch => ok_named(fields, idx_dtype()),
        ListFunction::Sum => ok_named(fields, spec_nested_sum_dtype(fields[0].dtype)),
    }
}

/// Message of the error for a function of arrays on another type.
pub open spec fn expected_array_message() -> Seq<char> {
    "expected array dtype"@
}

/// The field that a function on lists of fixed width gives.
pub open spec fn spec_array_field(f: ArrayFunction, fields: Seq<FieldView>) -> Result<
    FieldView,
    PolarsErrorView,
> {
    match f {
        ArrayFunction::Min | ArrayFunction::Max => ok_named(fields, fields[0].dtype),
        ArrayFunction::Sum => ok_named(fields, spec_nested_sum_dtype(fields[0].dtype)),
        ArrayFunction::Unique => match fields[0].dtype {
            DataTypeView::Array(inner, _) => ok_named(fields, DataTypeView::List(inner)),
            _ => Err(PolarsErrorView::ComputeError(expected_array_message())),
        },
    }
}

/// A data type, or the reason why there is none.
pub type DtypeResult = PolarsResult<DataType>;

/// The list type with the element type of an array type.
pub fn list_of_array(dt: &DataType) -> (r: DtypeResult)
    ensures
        is_list_of_array(dt@, r),
{
    match dt {
        DataType::Array(inner, _) => Ok(DataType::List(Box::new(clone_dtype(&**inner)))),
        _ => Err(PolarsError::compute("expected array dtype")),
    }
}

/// Whether `r` is the list type with the element type of the array
/// type `d`, or the error for a type that is no array.
pub open spec fn is_list_of_array(d: DataTypeView, r: PolarsResult<DataType>) -> bool {
    match d {
        DataTypeView::Array(inner, _) => r matches Ok(l) && l@ == DataTypeView::List(inner),
        _ => r matches Err(e) && e@ == PolarsErrorView::ComputeError(expected_array_message()),
    }
}

/// Message of the error for a position outside a struct.
pub open spec fn index_out_of_bounds_message() -> Seq<char> {
    "index out of bounds in `struct.field`"@
}

/// The field that a function on structs gives: the input at the
/// position, or the field of the first input that has the name.
pub open spec fn spec_struct_field(f: StructFunction, fields: Seq<FieldView>) -> Result<
    FieldView,
    PolarsErrorView,
> {
    match f {
        StructFunction::FieldByIndex(index) => {
            let at = spec_field_index(index as int, fields.len() as int);
            if at < fields.len() {
                Ok(fields[at])
            } else {
                Err(PolarsErrorView::ComputeError(index_out_of_bounds_message()))
            }
        },
        StructFunction::FieldByName(name) => match fields[0].dtype {
            DataTypeView::Struct(inner) => match spec_field_named(inner, name@, inner.len()) {
                Some(f) => Ok(f),
                None => Err(PolarsErrorView::StructFieldNotFound(name@)),
            },
            _ => Err(PolarsErrorView::StructFieldNotFound(name@)),
        },
    }
}

/// The field that the function gives for inputs with the fields
/// `fields`.
pub open spec fn spec_get_field(f: FunctionExpr, fields: Seq<FieldView>) -> Result<
    FieldView,
    PolarsErrorView,
> {
    match f {
        FunctionExpr::Abs
        | FunctionExpr::DateOffset
        | FunctionExpr::ShiftAndFill
        | FunctionExpr::DropNans
        | FunctionExpr::Clip
        | FunctionExpr::TopK
        | FunctionExpr::Shift
        | FunctionExpr::Reverse
        | FunctionExpr::Cummin
        | FunctionExpr::Cummax
        | FunctionExpr::Interpolate
        | FunctionExpr::Unique
        | FunctionExpr::Round
        | FunctionExpr::Floor
        | FunctionExpr::Ceil
        | FunctionExpr::UpperBound
        | FunctionExpr::LowerBound
        | FunctionExpr::Random
        | FunctionExpr::SetSortedFlag => ok_named(fields, fields[0].dtype),
        FunctionExpr::NullCount
        | FunctionExpr::ArgWhere
        | FunctionExpr::SearchSorted
        | FunctionExpr::Cumcount
        | FunctionExpr::ApproxUnique => ok_named(fields, idx_dtype()),
        FunctionExpr::Pow
        | FunctionExpr::Trigonometry
        | FunctionExpr::RollingSkew
        | FunctionExpr::Entropy
        | FunctionExpr::Log
        | FunctionExpr::Log1p
        | FunctionExpr::Exp
        | FunctionExpr::Correlation => ok_named(fields, spec_float_dtype(fields[0].dtype)),
        FunctionExpr::Coalesce | FunctionExpr::Fused | FunctionExpr::ConcatExpr => {
            spec_supertype_field(fields)
        },
        FunctionExpr::Hash => ok_named(fields, DataTypeView::UInt64),
        FunctionExpr::StringExpr(s) => spec_string_field(s, fields),
        FunctionExpr::BinaryExpr(_) => ok_named(fields, DataTypeView::Boolean),
        FunctionExpr::TemporalExpr(fun) => spec_temporal_field(fun, fields),
        FunctionExpr::Range(fun) => match fun {
            RangeFunction::ARange => Ok(FieldView { name: "arange"@, dtype: DataTypeView::Int64 }),
            RangeFunction::IntRange => Ok(FieldView { name: "int"@, dtype: DataTypeView::Int64 }),
            RangeFunction::IntRanges => Ok(
                FieldView {
                    name: "int_range"@,
                    dtype: DataTypeView::List(Box::new(DataTypeView::Int64)),
                },
            ),
        },
        FunctionExpr::Sign => ok_named(fields, DataTypeView::Int64),
        FunctionExpr::FillNull { super_type } => ok_named(fields, super_type@),
        FunctionExpr::ListExpr(l) => spec_list_field(l, fields),
        FunctionExpr::ArrayExpr(af) => spec_array_field(af, fields),
        FunctionExpr::StructExpr(s) => spec_struct_field(s, fields),
        FunctionExpr::Boolean(_) => ok_named(fields, DataTypeView::Boolean),
        FunctionExpr::Categorical(func) => spec_categorical_field(func, fields),
        FunctionExpr::Cumsum => ok_named(fields, spec_cumsum_dtype(fields[0].dtype)),
        FunctionExpr::Cumprod => ok_named(fields, spec_cumprod_dtype(fields[0].dtype)),
        FunctionExpr::Diff => ok_named(fields, spec_diff_dtype(fields[0].dtype)),
        FunctionExpr::ShrinkType => ok_named(fields, spec_shrink_dtype(fields[0].dtype)),
        FunctionExpr::Cut | FunctionExpr::QCut => ok_named(fields, DataTypeView::Categorical),
        FunctionExpr::RLE => ok_named(fields, spec_rle_dtype(fields[0].dtype)),
        FunctionExpr::RLEID => ok_named(fields, DataTypeView::UInt32),
        FunctionExpr::ToPhysical => ok_named(fields, spec_to_physical(fields[0].dtype)),
    }
}

/// Whether the function gives a field without looking at the first
/// input.
pub open spec fn spec_needs_no_input(f: FunctionExpr) -> bool {
    ||| f is Range
    ||| f matches FunctionExpr::TemporalExpr(TemporalFunction::TimeRange { .. })
    ||| f matches FunctionExpr::StructExpr(StructFunction::FieldByIndex(_))
}


/// The type of a running sum.
pub fn cumsum_dtype(dt: &DataType) -> (res: DataType)
    ensures
        res@ == spec_cumsum_dtype(dt@),
{
    let physical = to_physical(dt);
    if !crate::datatypes::eq_dtype(&physical, dt) {
        clone_dtype(dt)
    } else {
        match dt {
            DataType::Boolean => DataType::UInt32,
            DataType::Int32 => DataType::Int32,
            DataType::UInt32 => DataType::UInt32,
            DataType::UInt64 => DataType::UInt64,
            DataType::Float32 => DataType::Float32,
            DataType::Float64 => DataType::Float64,
            _ => DataType::Int64,
        }
    }
}

/// The type of a running product.
pub fn cumprod_dtype(dt: &DataType) -> (res: DataType)
    ensures
        res@ == spec_cumprod_dtype(dt@),
{
    match dt {
        DataType::UInt64 => DataType::UInt64,
        DataType::Float32 => DataType::Float32,
        DataType::Float64 => DataType::Float64,
        _ => DataType::Int64,
    }
}

/// The type of the difference of two values.
pub fn diff_dtype(dt: &DataType) -> (res: DataType)
    ensures
        res@ == spec_diff_dtype(dt@),
{
    match dt {
        DataType::Datetime(tu, _) => DataType::Duration(*tu),
        DataType::Date => DataType::Duration(TimeUnit::Milliseconds),
        DataType::Time => DataType::Duration(TimeUnit::Nanoseconds),
        DataType::UInt64 | DataType::UInt32 => DataType::Int64,
        DataType::UInt16 => DataType::Int32,
        DataType::UInt8 => DataType::Int16,
        dt => clone_dtype(dt),
    }
}

/// The smallest type that shrinking a numeric type can give.
pub fn shrink_dtype(dt: &DataType) -> (res: DataType)
    ensures
        res@ == spec_shrink_dtype(dt@),
{
    // we return the smallest type this can return
    // this might not be correct once the actual data
    // comes in, but if we set the smallest datatype
    // we have the least chance that the smaller dtypes
    // get cast to larger types in type-coercion
    let float = matches!(dt, DataType::Float32 | DataType::Float64);
    let unsigned = matches!(
        dt,
        DataType::UInt8 | DataType::UInt16 | DataType::UInt32 | DataType::UInt64
    );
    let signed = matches!(dt, DataType::Int8 | DataType::Int16 | DataType::Int32 | DataType::Int64);
    if float || unsigned || signed {
        if float {
            DataType::Float32
        } else if unsigned {
            DataType::Int8
        } else {
            DataType::UInt8
        }
    } else {
        clone_dtype(dt)
    }
}

/// The type of a run-length encoding.
pub fn rle_dtype(dt: &DataType) -> (res: DataType)
    ensures
        res@ == spec_rle_dtype(dt@),
{
    let mut inner: Vec<Field> = Vec::new();
    inner.push(Field::new("lengths", DataType::UInt64));
    inner.push(Field::new("values", clone_dtype(dt)));
    let res = DataType::Struct(inner);
    assert(res@ == spec_rle_dtype(dt@)) by {
        assert(res@->Struct_0 =~= spec_rle_dtype(dt@)->Struct_0);
    }
    res
}

/// The position that an index denotes in a list of `len` items.
pub fn field_index(index: i64, len: usize) -> (res: usize)
    ensures
        res == spec_field_index(index as int, len as int),
{
    if index >= 0 {
        if (index as u64) < (len as u64) {
            index as usize
        } else {
            len
        }
    } else {
        let back: u64 = ((-(index + 1)) as u64) + 1;
        if back >= len as u64 {
            0
        } else {
            len - (back as usize)
        }
    }
}

impl StringFunction {
    /// The field that the function gives.
    pub fn get_field(&self, mapper: FieldsMapper) -> (res: PolarsResult<Field>)
        requires
            mapper.fields@.len() > 0,
        ensures
            result_view(res) == spec_string_field(*self, mapper.inputs()),
    {
        match self {
            StringFunction::Contains
            | StringFunction::StartsWith
            | StringFunction::EndsWith => mapper.with_dtype(DataType::Boolean),
            StringFunction::CountMatch
            | StringFunction::NChars
            | StringFunction::Length => mapper.with_dtype(DataType::UInt32),
            StringFunction::ExtractAll => {
                let dtype = DataType::List(Box::new(DataType::Utf8));
                assert(dtype@ == DataTypeView::List(Box::new(DataTypeView::Utf8))) by {
                    reveal_with_fuel(crate::datatypes::dtype_view, 2);
                }
                mapper.with_dtype(dtype)
            },
            StringFunction::Extract => mapper.with_dtype(DataType::Utf8),
            StringFunction::Lowercase
            | StringFunction::Uppercase
            | StringFunction::Strip
            | StringFunction::Zfill => mapper.with_same_dtype(),
        }
    }
}

impl BooleanFunction {
    /// The field that the function gives: a truth value.
    pub fn get_field(&self, mapper: FieldsMapper) -> (res: PolarsResult<Field>)
        requires
            mapper.fields@.len() > 0,
        ensures
            result_view(res) == ok_named(mapper.inputs(), DataTypeView::Boolean),
    {
        mapper.with_dtype(DataType::Boolean)
    }
}

impl CategoricalFunction {
    /// The field that the function gives.
    pub fn get_field(&self, mapper: FieldsMapper) -> (res: PolarsResult<Field>)
        requires
            mapper.fields@.len() > 0,
        ensures
            result_view(res) == spec_categorical_field(*self, mapper.inputs()),
    {
        match self {
            CategoricalFunction::SetOrdering => mapper.with_dtype(DataType::Categorical),
            CategoricalFunction::GetCategories => mapper.with_dtype(DataType::Utf8),
        }
    }
}

impl TemporalFunction {
    /// The field that the function gives.
    pub fn get_field(&self, mapper: FieldsMapper) -> (res: PolarsResult<Field>)
        requires
            !(self is TimeRange) ==> mapper.fields@.len() > 0,
        ensures
            result_view(res) == spec_temporal_field(*self, mapper.inputs()),
    {
        let dtype = match self {
            TemporalFunction::Year | TemporalFunction::IsoYear => DataType::Int32,
            TemporalFunction::Month
            | TemporalFunction::Quarter
            | TemporalFunction::Week
            | TemporalFunction::WeekDay
            | TemporalFunction::Day
            | TemporalFunction::OrdinalDay
            | TemporalFunction::Hour
            | TemporalFunction::Minute
            | TemporalFunction::Millisecond
            | TemporalFunction::Microsecond
            | TemporalFunction::Nanosecond
            | TemporalFunction::Second => DataType::UInt32,
            TemporalFunction::TimeStamp(_) => DataType::Int64,
            TemporalFunction::IsLeapYear => DataType::Boolean,
            TemporalFunction::Time => DataType::Time,
            TemporalFunction::Date => DataType::Date,
            TemporalFunction::Datetime => match &mapper.fields[0].dtype {
                DataType::Datetime(tu, _) => DataType::Datetime(*tu, None),
                _ => {
                    return Err(expected_datetime(&mapper.fields[0].dtype));
                },
            },
            TemporalFunction::Truncate
            | TemporalFunction::MonthStart
            | TemporalFunction::MonthEnd
            | TemporalFunction::Round => {
                return mapper.with_same_dtype();
            },
            TemporalFunction::BaseUtcOffset | TemporalFunction::DSTOffset => DataType::Duration(
                TimeUnit::Milliseconds,
            ),
            TemporalFunction::CastTimezone(tz) => {
                return mapper.map_datetime_dtype_timezone(tz.as_ref());
            },
            TemporalFunction::TzLocalize(tz) => {
                return mapper.map_datetime_dtype_timezone(Some(tz));
            },
            TemporalFunction::DateRange { every, time_unit, tz } => {
                // output dtype may change based on `every`, `tz`, and `time_unit`
                return mapper.map_to_date_range_dtype(every, time_unit, tz);
            },
            TemporalFunction::TimeRange { .. } => {
                let dtype = DataType::List(Box::new(DataType::Time));
                assert(dtype@ == DataTypeView::List(Box::new(DataTypeView::Time))) by {
                    reveal_with_fuel(crate::datatypes::dtype_view, 2);
                }
                return Ok(Field::new("time", dtype));
            },
            TemporalFunction::Combine(tu) => match &mapper.fields[0].dtype {
                DataType::Datetime(_, tz) => DataType::Datetime(*tu, clone_opt_string(tz)),
                DataType::Date => DataType::Datetime(*tu, None),
                _ => {
                    return Err(not_temporal(&mapper.fields[0].dtype));
                },
            },
        };
        mapper.with_dtype(dtype)
    }
}

impl ListFunction {
    /// The field that the function gives.
    pub fn get_field(&self, mapper: FieldsMapper) -> (res: PolarsResult<Field>)
        requires
            mapper.fields@.len() > 0,
        ensures
            result_view(res) == spec_list_field(*self, mapper.inputs()),
    {
        match self {
            ListFunction::Concat => mapper.map_to_list_supertype(),
            ListFunction::Contains => mapper.with_dtype(DataType::Boolean),
            ListFunction::Slice => mapper.with_same_dtype(),
            ListFunction::Get => mapper.map_to_list_inner_dtype(),
            ListFunction::Take => mapper.with_same_dtype(),
            ListFunction::CountMatch => mapper.with_dtype(DataType::UInt32),
            ListFunction::Sum => mapper.nested_sum_type(),
            ListFunction::SetOperation => mapper.with_same_dtype(),
            ListFunction::Any => mapper.with_dtype(DataType::Boolean),
            ListFunction::All => mapper.with_dtype(DataType::Boolean),
        }
    }
}

impl ArrayFunction {
    /// The field that the function gives.
    pub fn get_field(&self, mapper: FieldsMapper) -> (res: PolarsResult<Field>)
        requires
            mapper.fields@.len() > 0,
        ensures
            result_view(res) == spec_array_field(*self, mapper.inputs()),
    {
        match self {
            ArrayFunction::Min | ArrayFunction::Max => mapper.with_same_dtype(),
            ArrayFunction::Sum => mapper.nested_sum_type(),
            ArrayFunction::Unique => mapper.try_map_dtype(list_of_array),
        }
    }
}

impl StructFunction {
    /// The field that the function gives.
    pub fn get_field(&self, fields: &[Field]) -> (res: PolarsResult<Field>)
        requires
            !(self is FieldByIndex) ==> fields@.len() > 0,
        ensures
            result_view(res) == spec_struct_field(*self, field_views(fields@)),
    {
        match self {
            StructFunction::FieldByIndex(index) => {
                let at = field_index(*index, fields.len());
                if at < fields.len() {
                    Ok(fields[at].clone())
                } else {
                    Err(PolarsError::compute("index out of bounds in `struct.field`"))
                }
            },
            StructFunction::FieldByName(name) => {
                match &fields[0].dtype {
                    DataType::Struct(flds) => {
                        let ghost inner = fields@[0].dtype@->Struct_0;
                        let mut i: usize = 0;
                        while i < flds.len()
                            invariant
                                i <= flds@.len(),
                                fields@.len() > 0,
                                fields@[0].dtype == DataType::Struct(*flds),
                                inner == fields@[0].dtype@->Struct_0,
                                inner.len() == flds@.len(),
                                forall|j: int| 0 <= j < flds@.len() ==> inner[j] == flds@[j]@,
                                spec_field_named(inner, name@, i as nat) is None,
                                *self == StructFunction::FieldByName(*name),
                            decreases flds@.len() - i,
                        {
                            if flds[i].name == *name {
                                proof {
                                    assert(inner[i as int] == flds@[i as int]@);
                                    assert(inner[i as int].name == name@);
                                    lemma_field_named_found(inner, name@, i as nat, inner.len());
                                    assert(field_views(fields@)[0].dtype == DataTypeView::Struct(
                                        inner,
                                    ));
                                }
                                return Ok(flds[i].clone());
                            }
                            i += 1;
                        }
                        proof {
                            assert(field_views(fields@)[0].dtype == DataTypeView::Struct(inner));
                        }
                        Err(PolarsError::struct_field_not_found(name.as_str()))
                    },
                    _ => Err(PolarsError::struct_field_not_found(name.as_str())),
                }
            },
        }
    }
}

/// The first field of a name, once it is found, stays the first.
pub proof fn lemma_field_named_found(fields: Seq<FieldView>, name: Seq<char>, i: nat, k: nat)
    requires
        i < k,
        spec_field_named(fields, name, i) is None,
        fields[i as int].name == name,
    ensures
        spec_field_named(fields, name, k) == Some(fields[i as int]),
    decreases k,
{
    if k > i + 1 {
        lemma_field_named_found(fields, name, i, (k - 1) as nat);
    }
}

impl FunctionExpr {
    /// The field that the function gives for inputs with the fields
    /// `fields`: mostly the name of the first input with a type that
    /// depends on the function.
    pub fn get_field(&self, _input_schema: &Vec<Field>, _cntxt: Context, fields: &[Field]) -> (res:
        PolarsResult<Field>)
        requires
            !spec_needs_no_input(*self) ==> fields@.len() > 0,
        ensures
            result_view(res) == spec_get_field(*self, field_views(fields@)),
    {
        let mapper = FieldsMapper { fields };
        match self {
            FunctionExpr::Abs => mapper.with_same_dtype(),
            FunctionExpr::NullCount => mapper.with_dtype(DataType::UInt32),
            FunctionExpr::Pow => mapper.map_to_float_dtype(),
            FunctionExpr::Coalesce => mapper.map_to_supertype(),
            FunctionExpr::Hash => mapper.with_dtype(DataType::UInt64),
            FunctionExpr::ArgWhere => mapper.with_dtype(DataType::UInt32),
            FunctionExpr::SearchSorted => mapper.with_dtype(DataType::UInt32),
            FunctionExpr::StringExpr(s) => s.get_field(mapper),
            FunctionExpr::BinaryExpr(s) => {
                match s {
                    BinaryFunction::Contains
                    | BinaryFunction::EndsWith
                    | BinaryFunction::StartsWith => mapper.with_dtype(DataType::Boolean),
                }
            },
            FunctionExpr::TemporalExpr(fun) => fun.get_field(mapper),
            FunctionExpr::Range(fun) => {
                let field = match fun {
                    RangeFunction::ARange => Field::new("arange", DataType::Int64),
                    RangeFunction::IntRange => Field::new("int", DataType::Int64),
                    RangeFunction::IntRanges => Field::new(
                        "int_range",
                        DataType::List(Box::new(DataType::Int64)),
                    ),
                };
                Ok(field)
            },
            FunctionExpr::DateOffset => mapper.with_same_dtype(),
            FunctionExpr::Trigonometry => mapper.map_to_float_dtype(),
            FunctionExpr::Sign => mapper.with_dtype(DataType::Int64),
            FunctionExpr::FillNull { super_type } => mapper.with_dtype(clone_dtype(super_type)),
            FunctionExpr::RollingSkew => mapper.map_to_float_dtype(),
            FunctionExpr::ShiftAndFill => mapper.with_same_dtype(),
            FunctionExpr::DropNans => mapper.with_same_dtype(),
            FunctionExpr::Clip => mapper.with_same_dtype(),
            FunctionExpr::ListExpr(l) => l.get_field(mapper),
            FunctionExpr::ArrayExpr(af) => af.get_field(mapper),
            FunctionExpr::StructExpr(s) => s.get_field(fields),
            FunctionExpr::TopK => mapper.with_same_dtype(),
            FunctionExpr::Shift | FunctionExpr::Reverse => mapper.with_same_dtype(),
            FunctionExpr::Boolean(func) => func.get_field(mapper),
            FunctionExpr::Categorical(func) => func.get_field(mapper),
            FunctionExpr::Cumcount => mapper.with_dtype(DataType::UInt32),
            FunctionExpr::Cumsum => mapper.with_dtype(cumsum_dtype(&fields[0].dtype)),
            FunctionExpr::Cumprod => mapper.with_dtype(cumprod_dtype(&fields[0].dtype)),
            FunctionExpr::Cummin => mapper.with_same_dtype(),
            FunctionExpr::Cummax => mapper.with_same_dtype(),
            FunctionExpr::ApproxUnique => mapper.with_dtype(DataType::UInt32),
            FunctionExpr::Diff => mapper.with_dtype(diff_dtype(&fields[0].dtype)),
            FunctionExpr::Interpolate => mapper.with_same_dtype(),
            FunctionExpr::ShrinkType => mapper.with_dtype(shrink_dtype(&fields[0].dtype)),
            FunctionExpr::Entropy
            | FunctionExpr::Log
            | FunctionExpr::Log1p
            | FunctionExpr::Exp => mapper.map_to_float_dtype(),
            FunctionExpr::Unique => mapper.with_same_dtype(),
            FunctionExpr::Round | FunctionExpr::Floor | FunctionExpr::Ceil => {
                mapper.with_same_dtype()
            },
            FunctionExpr::UpperBound | FunctionExpr::LowerBound => mapper.with_same_dtype(),
            FunctionExpr::Fused => mapper.map_to_supertype(),
            FunctionExpr::ConcatExpr => mapper.map_to_supertype(),
            FunctionExpr::Correlation => mapper.map_to_float_dtype(),
            FunctionExpr::Cut => mapper.with_dtype(DataType::Categorical),
            FunctionExpr::QCut => mapper.with_dtype(DataType::Categorical),
            FunctionExpr::RLE => mapper.with_dtype(rle_dtype(&fields[0].dtype)),
            FunctionExpr::RLEID => mapper.with_dtype(DataType::UInt32),
            FunctionExpr::ToPhysical => mapper.to_physical_type(),
            FunctionExpr::Random => mapper.with_same_dtype(),
            FunctionExpr::SetSortedFlag => mapper.with_same_dtype(),
        }
    }
}

} // verus!
