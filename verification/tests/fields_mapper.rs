use query_plan::datatypes::{eq_dtype, DataType, Field, TimeUnit};
use query_plan::error::PolarsError;
use query_plan::function_expr::schema::FieldsMapper;

fn field(name: &str, dtype: DataType) -> Field {
    Field::new(name, dtype)
}

#[test]
fn with_same_dtype_keeps_name_and_type() {
    let fields = vec![field("a", DataType::Int32), field("b", DataType::Utf8)];
    let out = FieldsMapper::new(&fields).with_same_dtype().unwrap();
    assert_eq!(out.name().as_str(), "a");
    assert!(eq_dtype(out.data_type(), &DataType::Int32));
}

#[test]
fn with_dtype_sets_the_type() {
    let fields = vec![field("a", DataType::Int32)];
    let out = FieldsMapper::new(&fields).with_dtype(DataType::Boolean).unwrap();
    assert_eq!(out.name().as_str(), "a");
    assert!(eq_dtype(out.data_type(), &DataType::Boolean));
}

#[test]
fn to_physical_type_of_temporal_types() {
    let fields = vec![field("d", DataType::Date)];
    let out = FieldsMapper::new(&fields).to_physical_type().unwrap();
    assert_eq!(out.name().as_str(), "d");
    assert!(eq_dtype(out.data_type(), &DataType::Int32));

    let fields = vec![field("t", DataType::Datetime(TimeUnit::Microseconds, Some("UTC".to_string())))];
    let out = FieldsMapper::new(&fields).to_physical_type().unwrap();
    assert!(eq_dtype(out.data_type(), &DataType::Int64));

    let fields = vec![field("l", DataType::List(Box::new(DataType::Duration(TimeUnit::Nanoseconds))))];
    let out = FieldsMapper::new(&fields).to_physical_type().unwrap();
    assert!(eq_dtype(out.data_type(), &DataType::List(Box::new(DataType::Int64))));

    let fields = vec![field("s", DataType::Utf8)];
    let out = FieldsMapper::new(&fields).to_physical_type().unwrap();
    assert!(eq_dtype(out.data_type(), &DataType::Utf8));
}

#[test]
fn map_to_supertype_folds_from_the_left() {
    let fields = vec![
        field("x", DataType::Int8),
        field("y", DataType::UInt8),
        field("z", DataType::Float32),
    ];
    let out = FieldsMapper::new(&fields).map_to_supertype().unwrap();
    assert_eq!(out.name().as_str(), "x");
    // Int8 with UInt8 is Int16, and Int16 with Float32 is Float32
    assert!(eq_dtype(out.data_type(), &DataType::Float32));
}

#[test]
fn map_to_supertype_of_one_field_is_its_type() {
    let fields = vec![field("x", DataType::Time)];
    let out = FieldsMapper::new(&fields).map_to_supertype().unwrap();
    assert!(eq_dtype(out.data_type(), &DataType::Time));
}

#[test]
fn map_to_supertype_fails_without_common_type() {
    let fields = vec![field("x", DataType::Binary), field("y", DataType::Int32)];
    match FieldsMapper::new(&fields).map_to_supertype() {
        Err(PolarsError::ComputeError(msg)) => assert_eq!(msg, "failed to determine supertype"),
        _ => panic!("expected a compute error"),
    }
}

#[test]
fn map_dtype_applies_the_function_to_the_first_type() {
    let fields = vec![field("a", DataType::Int8), field("b", DataType::Utf8)];
    let mapper = FieldsMapper::new(&fields);
    let out = mapper.map_dtype(|d: &DataType| DataType::List(Box::new(d.clone()))).unwrap();
    assert_eq!(out.name().as_str(), "a");
    assert!(eq_dtype(out.data_type(), &DataType::List(Box::new(DataType::Int8))));
    let out = mapper.try_map_dtype(|_: &DataType| Ok(DataType::Date)).unwrap();
    assert!(eq_dtype(out.data_type(), &DataType::Date));
    match mapper.try_map_dtype(|_: &DataType| Err(PolarsError::compute("no"))) {
        Err(PolarsError::ComputeError(msg)) => assert_eq!(msg, "no"),
        _ => panic!("expected a compute error"),
    }
}

#[test]
fn try_map_dtypes_sees_the_types_of_all_fields() {
    let fields = vec![field("a", DataType::Int8), field("b", DataType::Utf8), field("c", DataType::Date)];
    let mapper = FieldsMapper::new(&fields);
    let out = mapper
        .try_map_dtypes(|dtypes: &Vec<&DataType>| {
            assert_eq!(dtypes.len(), 3);
            Ok(dtypes[2].clone())
        })
        .unwrap();
    assert_eq!(out.name().as_str(), "a");
    assert!(eq_dtype(out.data_type(), &DataType::Date));
    assert!(mapper.try_map_dtypes(|_: &Vec<&DataType>| Err(PolarsError::compute("no"))).is_err());
}
