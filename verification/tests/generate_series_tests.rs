use rw_core::catalog::{DataType, Field};
use rw_core::generate_series::{type_check, BindError, Binder, ExprImpl};

fn e(t: DataType) -> ExprImpl {
    ExprImpl { return_type: t }
}

fn bind_as_is(arg: Vec<ExprImpl>) -> Result<Vec<ExprImpl>, BindError> {
    Ok(arg)
}

#[test]
fn type_check_int_and_timestamp_series() {
    assert_eq!(type_check(&[e(DataType::Int32), e(DataType::Int32), e(DataType::Int32)]), Ok(DataType::Int32));
    assert_eq!(
        type_check(&[e(DataType::Timestamp), e(DataType::Timestamp), e(DataType::Interval)]),
        Ok(DataType::Timestamp)
    );
}

#[test]
fn type_check_rejects_other_types_and_short_lists() {
    assert_eq!(
        type_check(&[e(DataType::Int64), e(DataType::Int32), e(DataType::Int32)]),
        Err(BindError::GenerateSeriesInvalidArguments)
    );
    assert_eq!(
        type_check(&[e(DataType::Timestamp), e(DataType::Timestamp), e(DataType::Timestamp)]),
        Err(BindError::GenerateSeriesInvalidArguments)
    );
    assert_eq!(type_check(&[e(DataType::Int32), e(DataType::Int32)]), Err(BindError::GenerateSeriesInvalidArguments));
}

#[test]
fn type_check_ignores_extra_expressions() {
    assert_eq!(
        type_check(&[e(DataType::Int32), e(DataType::Int32), e(DataType::Int32), e(DataType::Varchar)]),
        Ok(DataType::Int32)
    );
}

#[test]
fn bind_checks_arity_before_binding() {
    let mut binder = Binder::new();
    let r = binder.bind_generate_series_function(vec![1u32, 2], |_: u32| -> Result<Vec<ExprImpl>, BindError> {
        panic!("no argument is bound when the arity is wrong")
    });
    assert_eq!(r.err(), Some(BindError::GenerateSeriesArgCount));
    assert!(binder.context.columns.is_empty());
}

#[test]
fn bind_registers_generate_series_table() {
    let mut binder = Binder::new();
    let r = binder
        .bind_generate_series_function(
            vec![vec![e(DataType::Int32)], vec![e(DataType::Int32)], vec![e(DataType::Int32)]],
            bind_as_is,
        )
        .unwrap();
    assert_eq!(r.data_type, DataType::Int32);
    assert_eq!(r.args.len(), 3);
    assert_eq!(binder.context.columns.len(), 1);
    assert_eq!(binder.context.columns[0].field.name, "generate_series");
    assert_eq!(binder.context.columns[0].field.data_type, DataType::Int32);
    assert_eq!(binder.context.columns[0].table_name, "generate_series");
    assert_eq!(binder.context.range_of.len(), 1);
    assert_eq!((binder.context.range_of[0].begin, binder.context.range_of[0].end), (0, 1));
    // A second series in the same scope clashes on the table name.
    let again = binder.bind_generate_series_function(
        vec![vec![e(DataType::Int32)], vec![e(DataType::Int32)], vec![e(DataType::Int32)]],
        bind_as_is,
    );
    assert_eq!(again.err(), Some(BindError::DuplicatedTableName));
    // Its column came into scope all the same; no second table was added.
    assert_eq!(binder.context.columns.len(), 2);
    assert_eq!(binder.context.columns[1].index, 1);
    assert_eq!(binder.context.range_of.len(), 1);
}

#[test]
fn bind_flattens_argument_expressions() {
    let mut binder = Binder::new();
    let r = binder
        .bind_generate_series_function(
            vec![vec![], vec![e(DataType::Timestamp), e(DataType::Timestamp)], vec![e(DataType::Interval)]],
            bind_as_is,
        )
        .unwrap();
    assert_eq!(r.data_type, DataType::Timestamp);
    assert_eq!(r.args.len(), 3);
    let mut binder = Binder::new();
    let r = binder.bind_generate_series_function(
        vec![vec![], vec![e(DataType::Int32)], vec![e(DataType::Int32)]],
        bind_as_is,
    );
    assert_eq!(r.err(), Some(BindError::GenerateSeriesInvalidArguments));
    assert!(binder.context.columns.is_empty());
}

#[test]
fn bind_reports_argument_binding_error() {
    let mut binder = Binder::new();
    let r = binder.bind_generate_series_function(vec![0u32, 1, 2], |i: u32| {
        if i == 1 {
            Err(BindError::ColumnNotFound)
        } else {
            Ok(vec![ExprImpl { return_type: DataType::Int32 }])
        }
    });
    assert_eq!(r.err(), Some(BindError::ColumnNotFound));
    assert_eq!(binder.context.columns.len(), 0);
    assert_eq!(binder.context.range_of.len(), 0);
}

#[test]
fn bind_stops_at_first_failing_argument() {
    let mut binder = Binder::new();
    let r = binder.bind_generate_series_function(vec![0u32, 1, 2], |i: u32| {
        match i {
            0 => Ok(vec![ExprImpl { return_type: DataType::Int32 }]),
            1 => Err(BindError::ColumnNotFound),
            _ => panic!("no argument is bound after the first that fails"),
        }
    });
    assert_eq!(r.err(), Some(BindError::ColumnNotFound));
}

#[test]
fn bind_type_error_leaves_context_unchanged() {
    let mut binder = Binder::new();
    let r = binder.bind_generate_series_function(
        vec![vec![e(DataType::Int32)], vec![e(DataType::Int64)], vec![e(DataType::Int32)]],
        bind_as_is,
    );
    assert_eq!(r.err(), Some(BindError::GenerateSeriesInvalidArguments));
    assert_eq!(binder.context.columns.len(), 0);
    assert_eq!(binder.context.range_of.len(), 0);
}

#[test]
fn bind_context_adds_columns_and_table() {
    let mut binder = Binder::new();
    let fields = vec![
        Field::with_name(DataType::Int64, "x".to_string()),
        Field::with_name(DataType::Varchar, "y".to_string()),
    ];
    assert_eq!(binder.bind_context(fields, "t".to_string()), Ok(()));
    assert_eq!(binder.context.columns.len(), 2);
    assert_eq!(binder.context.columns[1].index, 1);
    assert_eq!(binder.context.columns[1].field.name, "y");
    let more = vec![Field::with_name(DataType::Int64, "z".to_string())];
    assert_eq!(binder.bind_context(more, "t".to_string()), Err(BindError::DuplicatedTableName));
    assert_eq!(binder.context.columns.len(), 3);
    assert_eq!(binder.context.range_of.len(), 1);
}
