use query_plan::type_names::dtype_name;
use query_plan::datatypes::{eq_dtype, DataType, Field, TimeUnit};
use query_plan::error::PolarsError;
use query_plan::function_expr::schema::{field_index, FieldsMapper};
use query_plan::function_expr::{
    ArrayFunction, Context, Duration, FunctionExpr, ListFunction, RangeFunction, StringFunction,
    StructFunction, TemporalFunction,
};

fn field(name: &str, dtype: DataType) -> Field {
    Field::new(name, dtype)
}

fn list(inner: DataType) -> DataType {
    DataType::List(Box::new(inner))
}

fn output(f: FunctionExpr, fields: &[Field]) -> Result<Field, PolarsError> {
    f.get_field(&Vec::new(), Context::Default, fields)
}

fn assert_field(f: &Field, name: &str, dtype: DataType) {
    assert_eq!(f.name().as_str(), name);
    assert!(eq_dtype(f.data_type(), &dtype), "got {:?}, expected {:?}", f.data_type(), dtype);
}

fn every(nsecs: i64) -> Duration {
    Duration { months: 0, weeks: 0, days: 0, nsecs, negative: false }
}

#[test]
fn functions_that_keep_the_type() {
    let fields = vec![field("a", DataType::Int16)];
    assert_field(&output(FunctionExpr::Abs, &fields).unwrap(), "a", DataType::Int16);
    assert_field(&output(FunctionExpr::Reverse, &fields).unwrap(), "a", DataType::Int16);
    assert_field(&output(FunctionExpr::Cummax, &fields).unwrap(), "a", DataType::Int16);
}

#[test]
fn functions_with_a_fixed_type() {
    let fields = vec![field("a", DataType::Utf8)];
    assert_field(&output(FunctionExpr::NullCount, &fields).unwrap(), "a", DataType::UInt32);
    assert_field(&output(FunctionExpr::Hash, &fields).unwrap(), "a", DataType::UInt64);
    assert_field(&output(FunctionExpr::Sign, &fields).unwrap(), "a", DataType::Int64);
    assert_field(&output(FunctionExpr::RLEID, &fields).unwrap(), "a", DataType::UInt32);
    assert_field(&output(FunctionExpr::Cut, &fields).unwrap(), "a", DataType::Categorical);
    assert_field(
        &output(FunctionExpr::FillNull { super_type: DataType::Float64 }, &fields).unwrap(),
        "a",
        DataType::Float64,
    );
}

#[test]
fn float_functions_keep_float32_only() {
    let fields = vec![field("a", DataType::Float32)];
    assert_field(&output(FunctionExpr::Pow, &fields).unwrap(), "a", DataType::Float32);
    let fields = vec![field("a", DataType::Int8)];
    assert_field(&output(FunctionExpr::Exp, &fields).unwrap(), "a", DataType::Float64);
    let out = FieldsMapper::new(&fields).map_to_float_dtype().unwrap();
    assert_field(&out, "a", DataType::Float64);
}

#[test]
fn cumulative_functions() {
    let cases = [
        (DataType::Boolean, DataType::UInt32, DataType::Int64),
        (DataType::Int8, DataType::Int64, DataType::Int64),
        (DataType::Int32, DataType::Int32, DataType::Int64),
        (DataType::UInt64, DataType::UInt64, DataType::UInt64),
        (DataType::Float32, DataType::Float32, DataType::Float32),
    ];
    for (input, sum, product) in cases {
        let fields = vec![field("a", input)];
        assert_field(&output(FunctionExpr::Cumsum, &fields).unwrap(), "a", sum);
        assert_field(&output(FunctionExpr::Cumprod, &fields).unwrap(), "a", product);
    }
    // a logical type keeps its type under a running sum
    let fields = vec![field("d", DataType::Duration(TimeUnit::Milliseconds))];
    assert_field(
        &output(FunctionExpr::Cumsum, &fields).unwrap(),
        "d",
        DataType::Duration(TimeUnit::Milliseconds),
    );
    assert_field(&output(FunctionExpr::Cumcount, &fields).unwrap(), "d", DataType::UInt32);
}

#[test]
fn diff_of_points_in_time_and_of_unsigned_integers() {
    let cases = [
        (
            DataType::Datetime(TimeUnit::Microseconds, Some("UTC".to_string())),
            DataType::Duration(TimeUnit::Microseconds),
        ),
        (DataType::Date, DataType::Duration(TimeUnit::Milliseconds)),
        (DataType::Time, DataType::Duration(TimeUnit::Nanoseconds)),
        (DataType::UInt64, DataType::Int64),
        (DataType::UInt32, DataType::Int64),
        (DataType::UInt16, DataType::Int32),
        (DataType::UInt8, DataType::Int16),
        (DataType::Int8, DataType::Int8),
        (DataType::Utf8, DataType::Utf8),
    ];
    for (input, expected) in cases {
        let fields = vec![field("a", input)];
        assert_field(&output(FunctionExpr::Diff, &fields).unwrap(), "a", expected);
    }
}

#[test]
fn shrink_type_gives_the_smallest_type() {
    let cases = [
        (DataType::Float64, DataType::Float32),
        (DataType::UInt32, DataType::Int8),
        (DataType::Int64, DataType::UInt8),
        (DataType::Utf8, DataType::Utf8),
        (DataType::Boolean, DataType::Boolean),
    ];
    for (input, expected) in cases {
        let fields = vec![field("a", input)];
        assert_field(&output(FunctionExpr::ShrinkType, &fields).unwrap(), "a", expected);
    }
}

#[test]
fn rle_gives_a_struct_of_lengths_and_values() {
    let fields = vec![field("a", DataType::Utf8)];
    let expected = DataType::Struct(vec![
        field("lengths", DataType::UInt64),
        field("values", DataType::Utf8),
    ]);
    assert_field(&output(FunctionExpr::RLE, &fields).unwrap(), "a", expected);
}

#[test]
fn supertype_functions() {
    let fields = vec![field("a", DataType::Int32), field("b", DataType::Float32)];
    assert_field(&output(FunctionExpr::Coalesce, &fields).unwrap(), "a", DataType::Float64);
    assert_field(&output(FunctionExpr::ConcatExpr, &fields).unwrap(), "a", DataType::Float64);
    let fields = vec![field("a", DataType::Binary), field("b", DataType::Boolean)];
    assert!(matches!(output(FunctionExpr::Fused, &fields), Err(PolarsError::ComputeError(_))));
}

#[test]
fn string_and_boolean_functions() {
    let fields = vec![field("s", DataType::Utf8)];
    let f = |s| output(FunctionExpr::StringExpr(s), &fields).unwrap();
    assert_field(&f(StringFunction::Contains), "s", DataType::Boolean);
    assert_field(&f(StringFunction::NChars), "s", DataType::UInt32);
    assert_field(&f(StringFunction::Uppercase), "s", DataType::Utf8);
    assert_field(&f(StringFunction::ExtractAll), "s", list(DataType::Utf8));
    let out = output(
        FunctionExpr::Boolean(query_plan::function_expr::BooleanFunction::IsNull),
        &fields,
    );
    assert_field(&out.unwrap(), "s", DataType::Boolean);
    let out = output(
        FunctionExpr::BinaryExpr(query_plan::function_expr::BinaryFunction::StartsWith),
        &fields,
    );
    assert_field(&out.unwrap(), "s", DataType::Boolean);
}

#[test]
fn temporal_parts_and_conversions() {
    let zoned = DataType::Datetime(TimeUnit::Milliseconds, Some("Europe/Vienna".to_string()));
    let fields = vec![field("t", zoned.clone())];
    let f = |fun| output(FunctionExpr::TemporalExpr(fun), &fields);
    assert_field(&f(TemporalFunction::Year).unwrap(), "t", DataType::Int32);
    assert_field(&f(TemporalFunction::Hour).unwrap(), "t", DataType::UInt32);
    assert_field(&f(TemporalFunction::TimeStamp(TimeUnit::Nanoseconds)).unwrap(), "t", DataType::Int64);
    assert_field(&f(TemporalFunction::IsLeapYear).unwrap(), "t", DataType::Boolean);
    assert_field(&f(TemporalFunction::Truncate).unwrap(), "t", zoned.clone());
    assert_field(
        &f(TemporalFunction::Datetime).unwrap(),
        "t",
        DataType::Datetime(TimeUnit::Milliseconds, None),
    );
    assert_field(
        &f(TemporalFunction::DSTOffset).unwrap(),
        "t",
        DataType::Duration(TimeUnit::Milliseconds),
    );
    assert_field(
        &f(TemporalFunction::CastTimezone(Some("UTC".to_string()))).unwrap(),
        "t",
        DataType::Datetime(TimeUnit::Milliseconds, Some("UTC".to_string())),
    );
    assert_field(
        &f(TemporalFunction::Combine(TimeUnit::Nanoseconds)).unwrap(),
        "t",
        DataType::Datetime(TimeUnit::Nanoseconds, Some("Europe/Vienna".to_string())),
    );
    assert_field(
        &f(TemporalFunction::TimeRange { every: every(1) }).unwrap(),
        "time",
        list(DataType::Time),
    );
}

#[test]
fn temporal_functions_reject_other_types() {
    let fields = vec![field("n", DataType::Int32)];
    let f = |fun| output(FunctionExpr::TemporalExpr(fun), &fields);
    match f(TemporalFunction::Datetime) {
        Err(PolarsError::ComputeError(msg)) => assert_eq!(msg, "expected Datetime, got i32"),
        other => panic!("unexpected {:?}", other),
    }
    match f(TemporalFunction::Combine(TimeUnit::Milliseconds)) {
        Err(PolarsError::ComputeError(msg)) => {
            assert_eq!(msg, "expected Date or Datetime, got i32")
        }
        other => panic!("unexpected {:?}", other),
    }
    match f(TemporalFunction::TzLocalize("UTC".to_string())) {
        Err(PolarsError::InvalidOperation(msg)) => assert_eq!(
            msg,
            "`cast-timezone` operation not supported for dtype `i32` (expected: Datetime)"
        ),
        other => panic!("unexpected {:?}", other),
    }
}

#[test]
fn date_range_of_dates() {
    let fields = vec![field("start", DataType::Date), field("end", DataType::Date)];
    let mapper = FieldsMapper::new(&fields);
    // whole days: dates
    let out = mapper.map_to_date_range_dtype(&every(0), &None, &None).unwrap();
    assert_field(&out, "date", list(DataType::Date));
    // a step of microseconds
    let out = mapper.map_to_date_range_dtype(&every(5_000), &None, &None).unwrap();
    assert_field(&out, "date", list(DataType::Datetime(TimeUnit::Microseconds, None)));
    // a step that needs nanoseconds
    let out = mapper.map_to_date_range_dtype(&every(5_001), &None, &Some("UTC".to_string())).unwrap();
    assert_field(
        &out,
        "date",
        list(DataType::Datetime(TimeUnit::Nanoseconds, Some("UTC".to_string()))),
    );
    // the unit that is asked for
    let out = mapper
        .map_to_date_range_dtype(&every(1), &Some(TimeUnit::Milliseconds), &None)
        .unwrap();
    assert_field(&out, "date", list(DataType::Datetime(TimeUnit::Milliseconds, None)));
}

#[test]
fn date_range_of_datetimes() {
    let zoned = DataType::Datetime(TimeUnit::Microseconds, Some("UTC".to_string()));
    let fields = vec![field("start", zoned.clone()), field("end", zoned.clone())];
    let mapper = FieldsMapper::new(&fields);
    let out = mapper.map_to_date_range_dtype(&every(1), &None, &None).unwrap();
    assert_field(&out, "date", list(zoned.clone()));
    let out = mapper
        .map_to_date_range_dtype(&every(1), &Some(TimeUnit::Nanoseconds), &Some("UTC".to_string()))
        .unwrap();
    assert_field(
        &out,
        "date",
        list(DataType::Datetime(TimeUnit::Nanoseconds, Some("UTC".to_string()))),
    );
    match mapper.map_to_date_range_dtype(&every(1), &None, &Some("Asia/Tokyo".to_string())) {
        Err(PolarsError::ComputeError(msg)) => assert_eq!(
            msg,
            "Given time_zone is different from that of timezone aware datetimes. Given: 'Asia/Tokyo', got: 'UTC'."
        ),
        other => panic!("unexpected {:?}", other),
    }
    let naive = DataType::Datetime(TimeUnit::Milliseconds, None);
    let fields = vec![field("start", naive.clone())];
    let out = FieldsMapper::new(&fields)
        .map_to_date_range_dtype(&every(1), &None, &Some("UTC".to_string()))
        .unwrap();
    assert_field(
        &out,
        "date",
        list(DataType::Datetime(TimeUnit::Milliseconds, Some("UTC".to_string()))),
    );
    let fields = vec![field("start", DataType::Int64)];
    match FieldsMapper::new(&fields).map_to_date_range_dtype(&every(1), &None, &None) {
        Err(PolarsError::ComputeError(msg)) => {
            assert_eq!(msg, "expected Date or Datetime, got i64")
        }
        other => panic!("unexpected {:?}", other),
    }
}

#[test]
fn range_functions_need_no_input() {
    let none: Vec<Field> = Vec::new();
    assert_field(
        &output(FunctionExpr::Range(RangeFunction::ARange), &none).unwrap(),
        "arange",
        DataType::Int64,
    );
    assert_field(
        &output(FunctionExpr::Range(RangeFunction::IntRange), &none).unwrap(),
        "int",
        DataType::Int64,
    );
    assert_field(
        &output(FunctionExpr::Range(RangeFunction::IntRanges), &none).unwrap(),
        "int_range",
        list(DataType::Int64),
    );
}

#[test]
fn list_functions() {
    let fields = vec![field("l", list(DataType::Int16)), field("m", DataType::Int32)];
    let f = |fun| output(FunctionExpr::ListExpr(fun), &fields).unwrap();
    assert_field(&f(ListFunction::Concat), "l", list(DataType::Int32));
    assert_field(&f(ListFunction::Contains), "l", DataType::Boolean);
    assert_field(&f(ListFunction::Slice), "l", list(DataType::Int16));
    assert_field(&f(ListFunction::Get), "l", DataType::Int16);
    assert_field(&f(ListFunction::CountMatch), "l", DataType::UInt32);
    assert_field(&f(ListFunction::Sum), "l", DataType::Int64);
    let fields = vec![field("l", list(DataType::Float32))];
    assert_field(
        &output(FunctionExpr::ListExpr(ListFunction::Sum), &fields).unwrap(),
        "l",
        DataType::Float32,
    );
    let fields = vec![field("x", DataType::Int32)];
    let mapper = FieldsMapper::new(&fields);
    assert_field(&mapper.map_to_list_inner_dtype().unwrap(), "x", DataType::Unknown);
    assert_field(&mapper.nested_sum_type().unwrap(), "x", DataType::Unknown);
    assert_field(&mapper.map_to_list_supertype().unwrap(), "x", list(DataType::Int32));
}

#[test]
fn array_functions() {
    let array = DataType::Array(Box::new(DataType::UInt8), 3);
    let fields = vec![field("a", array.clone())];
    let f = |fun| output(FunctionExpr::ArrayExpr(fun), &fields);
    assert_field(&f(ArrayFunction::Max).unwrap(), "a", array.clone());
    assert_field(&f(ArrayFunction::Unique).unwrap(), "a", list(DataType::UInt8));
    // the sum of small integers is wide
    assert_field(&f(ArrayFunction::Sum).unwrap(), "a", DataType::Int64);
    let fields = vec![field("a", DataType::Array(Box::new(DataType::Float32), 3))];
    assert_field(
        &output(FunctionExpr::ArrayExpr(ArrayFunction::Sum), &fields).unwrap(),
        "a",
        DataType::Float32,
    );
    let fields = vec![field("a", DataType::Int8)];
    match output(FunctionExpr::ArrayExpr(ArrayFunction::Unique), &fields) {
        Err(PolarsError::ComputeError(msg)) => assert_eq!(msg, "expected array dtype"),
        other => panic!("unexpected {:?}", other),
    }
}

#[test]
fn struct_field_by_index() {
    let fields = vec![field("a", DataType::Int8), field("b", DataType::Utf8)];
    let f = |i| output(FunctionExpr::StructExpr(StructFunction::FieldByIndex(i)), &fields);
    assert_field(&f(0).unwrap(), "a", DataType::Int8);
    assert_field(&f(1).unwrap(), "b", DataType::Utf8);
    assert_field(&f(-1).unwrap(), "b", DataType::Utf8);
    assert_field(&f(-2).unwrap(), "a", DataType::Int8);
    // before the start: the start
    assert_field(&f(-7).unwrap(), "a", DataType::Int8);
    match f(2) {
        Err(PolarsError::ComputeError(msg)) => {
            assert_eq!(msg, "index out of bounds in `struct.field`")
        }
        other => panic!("unexpected {:?}", other),
    }
    assert_eq!(field_index(i64::MIN, 4), 0);
    assert_eq!(field_index(i64::MAX, 4), 4);
    assert_eq!(field_index(-1, 0), 0);
}

#[test]
fn struct_field_by_name() {
    let inner = vec![field("x", DataType::Int8), field("y", DataType::Utf8)];
    let fields = vec![field("s", DataType::Struct(inner))];
    let f = |n: &str| {
        output(FunctionExpr::StructExpr(StructFunction::FieldByName(n.to_string())), &fields)
    };
    assert_field(&f("y").unwrap(), "y", DataType::Utf8);
    match f("z") {
        Err(PolarsError::StructFieldNotFound(name)) => assert_eq!(name, "z"),
        other => panic!("unexpected {:?}", other),
    }
    let fields = vec![field("s", DataType::Int8)];
    match output(FunctionExpr::StructExpr(StructFunction::FieldByName("x".to_string())), &fields) {
        Err(PolarsError::StructFieldNotFound(name)) => assert_eq!(name, "x"),
        other => panic!("unexpected {:?}", other),
    }
}

#[test]
fn timezone_and_optional_types() {
    let fields = vec![field("t", DataType::Datetime(TimeUnit::Nanoseconds, None))];
    let mapper = FieldsMapper::new(&fields);
    let zone = "UTC".to_string();
    assert_field(
        &mapper.map_datetime_dtype_timezone(Some(&zone)).unwrap(),
        "t",
        DataType::Datetime(TimeUnit::Nanoseconds, Some("UTC".to_string())),
    );
    assert_field(
        &mapper.map_datetime_dtype_timezone(None).unwrap(),
        "t",
        DataType::Datetime(TimeUnit::Nanoseconds, None),
    );
    assert_field(&mapper.with_opt_dtype(None).unwrap(), "t", DataType::Unknown);
    assert_field(&mapper.with_opt_dtype(Some(DataType::Date)).unwrap(), "t", DataType::Date);
    assert_field(
        &output(FunctionExpr::ToPhysical, &fields).unwrap(),
        "t",
        DataType::Int64,
    );
}

#[test]
fn types_have_names() {
    assert_eq!(dtype_name(&DataType::Boolean), "bool");
    assert_eq!(dtype_name(&DataType::UInt16), "u16");
    assert_eq!(dtype_name(&DataType::Float64), "f64");
    assert_eq!(dtype_name(&DataType::Utf8), "str");
    assert_eq!(dtype_name(&DataType::Datetime(TimeUnit::Milliseconds, None)), "datetime[ms]");
    assert_eq!(
        dtype_name(&DataType::Datetime(TimeUnit::Microseconds, Some("UTC".to_string()))),
        "datetime[\u{3bc}s, UTC]"
    );
    assert_eq!(dtype_name(&DataType::Duration(TimeUnit::Nanoseconds)), "duration[ns]");
    assert_eq!(dtype_name(&list(list(DataType::Int8))), "list[list[i8]]");
    assert_eq!(dtype_name(&DataType::Array(Box::new(DataType::Date), 12)), "array[date, 12]");
    assert_eq!(
        dtype_name(&DataType::Struct(vec![field("a", DataType::Null), field("b", DataType::Time)])),
        "struct[2]"
    );
    assert_eq!(dtype_name(&DataType::Categorical), "cat");
    assert_eq!(dtype_name(&DataType::Unknown), "unknown");
}
