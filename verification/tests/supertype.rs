use query_plan::datatypes::{clone_dtype, eq_dtype, DataType, Field, TimeUnit};
use query_plan::function_expr::schema::to_physical;
use query_plan::supertype::{get_supertype, get_time_units, try_get_supertype};

fn list(inner: DataType) -> DataType {
    DataType::List(Box::new(inner))
}

fn assert_supertype(l: DataType, r: DataType, expected: Option<DataType>) {
    for (a, b) in [(&l, &r), (&r, &l)] {
        let got = get_supertype(a, b);
        match (&got, &expected) {
            (Some(g), Some(e)) => assert!(eq_dtype(g, e), "{:?} with {:?}: got {:?}", a, b, g),
            (None, None) => {}
            _ => panic!("{:?} with {:?}: got {:?}, expected {:?}", a, b, got, expected),
        }
    }
}

#[test]
fn integers_widen() {
    assert_supertype(DataType::Int8, DataType::Int8, Some(DataType::Int8));
    assert_supertype(DataType::Int8, DataType::Int32, Some(DataType::Int32));
    assert_supertype(DataType::UInt8, DataType::UInt64, Some(DataType::UInt64));
    assert_supertype(DataType::Int8, DataType::UInt8, Some(DataType::Int16));
    assert_supertype(DataType::Int8, DataType::UInt16, Some(DataType::Int32));
    assert_supertype(DataType::Int16, DataType::UInt32, Some(DataType::Int64));
    assert_supertype(DataType::Int32, DataType::UInt8, Some(DataType::Int32));
    assert_supertype(DataType::Int64, DataType::UInt32, Some(DataType::Int64));
    assert_supertype(DataType::Int64, DataType::UInt64, Some(DataType::Float64));
    assert_supertype(DataType::Int8, DataType::UInt64, Some(DataType::Float64));
}

#[test]
fn floats_and_booleans() {
    assert_supertype(DataType::Float32, DataType::Int16, Some(DataType::Float32));
    assert_supertype(DataType::Float32, DataType::UInt8, Some(DataType::Float32));
    assert_supertype(DataType::Float32, DataType::Int32, Some(DataType::Float64));
    assert_supertype(DataType::Float32, DataType::Float64, Some(DataType::Float64));
    assert_supertype(DataType::Float64, DataType::UInt64, Some(DataType::Float64));
    assert_supertype(DataType::Boolean, DataType::Int8, Some(DataType::Int8));
    assert_supertype(DataType::Boolean, DataType::Float32, Some(DataType::Float32));
    assert_supertype(DataType::Boolean, DataType::Boolean, Some(DataType::Boolean));
}

#[test]
fn null_unknown_and_strings() {
    assert_supertype(DataType::Null, DataType::Date, Some(DataType::Date));
    assert_supertype(DataType::Unknown, DataType::Date, Some(DataType::Unknown));
    assert_supertype(DataType::Unknown, DataType::Null, Some(DataType::Unknown));
    assert_supertype(DataType::Utf8, DataType::Int32, Some(DataType::Utf8));
    assert_supertype(DataType::Utf8, DataType::Date, Some(DataType::Utf8));
    assert_supertype(DataType::Utf8, DataType::Binary, None);
    assert_supertype(DataType::Binary, DataType::Int32, None);
    assert_supertype(DataType::Categorical, DataType::Int32, None);
}

#[test]
fn temporal_types() {
    let utc = || Some("UTC".to_string());
    assert_supertype(
        DataType::Date,
        DataType::Datetime(TimeUnit::Microseconds, utc()),
        Some(DataType::Datetime(TimeUnit::Microseconds, utc())),
    );
    assert_supertype(
        DataType::Datetime(TimeUnit::Nanoseconds, None),
        DataType::Datetime(TimeUnit::Milliseconds, None),
        Some(DataType::Datetime(TimeUnit::Milliseconds, None)),
    );
    assert_supertype(
        DataType::Datetime(TimeUnit::Nanoseconds, utc()),
        DataType::Datetime(TimeUnit::Nanoseconds, None),
        None,
    );
    assert_supertype(
        DataType::Duration(TimeUnit::Nanoseconds),
        DataType::Duration(TimeUnit::Microseconds),
        Some(DataType::Duration(TimeUnit::Microseconds)),
    );
    assert_supertype(DataType::Date, DataType::Time, None);
    assert_supertype(DataType::Date, DataType::Boolean, None);
    for (l, r, expected) in [
        (TimeUnit::Nanoseconds, TimeUnit::Nanoseconds, TimeUnit::Nanoseconds),
        (TimeUnit::Nanoseconds, TimeUnit::Microseconds, TimeUnit::Microseconds),
        (TimeUnit::Microseconds, TimeUnit::Nanoseconds, TimeUnit::Microseconds),
        (TimeUnit::Milliseconds, TimeUnit::Nanoseconds, TimeUnit::Milliseconds),
        (TimeUnit::Microseconds, TimeUnit::Milliseconds, TimeUnit::Milliseconds),
    ] {
        assert_eq!(get_time_units(l, r), expected);
    }
}

#[test]
fn lists_combine_their_elements() {
    assert_supertype(list(DataType::Int8), list(DataType::UInt8), Some(list(DataType::Int16)));
    assert_supertype(list(list(DataType::Int8)), list(list(DataType::Float32)), Some(list(list(DataType::Float32))));
    assert_supertype(list(DataType::Binary), list(DataType::Utf8), None);
    assert_supertype(list(DataType::Int8), DataType::Int8, None);
    assert!(try_get_supertype(&list(DataType::Int8), &DataType::Int8).is_err());
    assert!(eq_dtype(&try_get_supertype(&DataType::Int8, &DataType::Int16).unwrap(), &DataType::Int16));
}

#[test]
fn equality_and_copies_of_nested_types() {
    let inner = vec![
        Field::new("x", DataType::Int8),
        Field::new("y", list(DataType::Datetime(TimeUnit::Nanoseconds, Some("UTC".to_string())))),
    ];
    let nested = DataType::Struct(inner);
    let copy = clone_dtype(&nested);
    assert!(eq_dtype(&nested, &copy));
    assert!(eq_dtype(&nested, &nested.clone()));
    let other = DataType::Struct(vec![Field::new("x", DataType::Int8)]);
    assert!(!eq_dtype(&nested, &other));
    let renamed = DataType::Struct(vec![
        Field::new("x", DataType::Int8),
        Field::new("z", list(DataType::Datetime(TimeUnit::Nanoseconds, Some("UTC".to_string())))),
    ]);
    assert!(!eq_dtype(&nested, &renamed));
    assert!(!eq_dtype(
        &DataType::Array(Box::new(DataType::Int8), 2),
        &DataType::Array(Box::new(DataType::Int8), 3)
    ));
    assert!(!eq_dtype(
        &DataType::Datetime(TimeUnit::Nanoseconds, None),
        &DataType::Datetime(TimeUnit::Nanoseconds, Some("UTC".to_string()))
    ));
}

#[test]
fn physical_types() {
    for (logical, physical) in [
        (DataType::Date, DataType::Int32),
        (DataType::Datetime(TimeUnit::Milliseconds, None), DataType::Int64),
        (DataType::Duration(TimeUnit::Nanoseconds), DataType::Int64),
        (DataType::Time, DataType::Int64),
        (DataType::Categorical, DataType::UInt32),
        (list(DataType::Date), list(DataType::Int32)),
        (DataType::Array(Box::new(DataType::Time), 4), DataType::Array(Box::new(DataType::Int64), 4)),
        (DataType::Float32, DataType::Float32),
        (DataType::Utf8, DataType::Utf8),
    ] {
        assert!(eq_dtype(&to_physical(&logical), &physical));
    }
}

#[test]
fn dates_and_times_with_numbers() {
    assert_supertype(DataType::Date, DataType::Int32, Some(DataType::Int32));
    assert_supertype(DataType::Int64, DataType::Date, Some(DataType::Int64));
    assert_supertype(DataType::Date, DataType::UInt32, Some(DataType::Int64));
    assert_supertype(DataType::Date, DataType::Float32, Some(DataType::Float32));
    assert_supertype(DataType::Date, DataType::Int8, None);
    let stamp = DataType::Datetime(TimeUnit::Milliseconds, Some("UTC".to_string()));
    assert_supertype(stamp.clone(), DataType::Int32, Some(DataType::Int64));
    assert_supertype(DataType::Float32, stamp.clone(), Some(DataType::Float64));
    assert_supertype(
        DataType::Duration(TimeUnit::Nanoseconds),
        DataType::UInt64,
        Some(DataType::Int64),
    );
    assert_supertype(DataType::Time, DataType::Int32, Some(DataType::Int64));
    assert_supertype(DataType::Time, DataType::UInt32, None);
    // a duration with a point in time
    assert_supertype(
        DataType::Duration(TimeUnit::Nanoseconds),
        stamp.clone(),
        Some(stamp.clone()),
    );
    assert_supertype(
        DataType::Date,
        DataType::Duration(TimeUnit::Nanoseconds),
        Some(DataType::Datetime(TimeUnit::Milliseconds, None)),
    );
}
