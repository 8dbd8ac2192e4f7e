use pyfunc::executor::DuckDBValue;
use pyfunc::parser::{FunctionDefinition, FunctionParameter};
use pyfunc::registry::{get_function, FunctionRegistry};
use pyfunc::create_function_vtab::{
    argument_kind, call_arguments, integer_text, read_arguments, render_result, resolve_call,
    CreateFunctionVTab, ResultRow,
    ListFunctionsVTab, PyCallVTab,
};
use pyfunc::types::{
    logical_type_of_upper, logical_type_to_string, string_to_logical_type, LogicalTypeId,
};
use pyfunc::values::{parse_string_to_value, IntErrorKind, ValueKind};

fn create(registry: &mut FunctionRegistry, name: &str, params: &str, ret: &str, body: &str) {
    let bound = CreateFunctionVTab::bind(
        registry,
        name.to_string(),
        params.to_string(),
        ret.to_string(),
        body.to_string(),
    );
    assert!(bound.is_ok());
}

#[test]
fn define_then_call() {
    let mut registry = FunctionRegistry::new();
    let bind = CreateFunctionVTab::bind(
        &mut registry,
        "Greet".to_string(),
        "name string".to_string(),
        "string".to_string(),
        "return 'hi ' + name".to_string(),
    )
    .unwrap();
    assert_eq!(bind.message, "Function 'Greet' created successfully");
    assert_eq!(bind.func_name, "Greet");
    assert_eq!(bind.params_str, "name string");
    assert_eq!(bind.return_type, "string");
    let def = get_function(&registry, "greet").unwrap();
    assert_eq!(def.name, "Greet");
    assert_eq!(def.return_type, "VARCHAR");
    assert_eq!(def.language, "PYTHON");
    assert_eq!(def.parameters[0].data_type, "VARCHAR");
    let (found, ty) = resolve_call(&registry, "GREET").unwrap();
    assert_eq!(found.body, "return 'hi ' + name");
    assert_eq!(ty, LogicalTypeId::Varchar);
}

#[test]
fn define_with_bad_parameters_registers_nothing() {
    let mut registry = FunctionRegistry::new();
    let err = CreateFunctionVTab::bind(
        &mut registry,
        "f".to_string(),
        "x".to_string(),
        "int".to_string(),
        "return 1".to_string(),
    )
    .err()
    .unwrap();
    assert_eq!(err, "Invalid parameter definition: 'x'. Expected 'name TYPE'");
    assert_eq!(registry.len(), 0);
}

#[test]
fn call_of_unknown_function() {
    let registry = FunctionRegistry::new();
    assert_eq!(resolve_call(&registry, "nope").unwrap_err(), "Function 'nope' not found");
}

#[test]
fn argument_kinds() {
    let def = FunctionDefinition {
        name: "f".to_string(),
        parameters: vec![
            FunctionParameter { name: "a".to_string(), data_type: "INTEGER".to_string() },
            FunctionParameter { name: "b".to_string(), data_type: "DOUBLE".to_string() },
        ],
        return_type: "INTEGER".to_string(),
        language: "PYTHON".to_string(),
        body: "return a".to_string(),
    };
    assert_eq!(argument_kind(&def, 0), ValueKind::Integer);
    assert_eq!(argument_kind(&def, 1), ValueKind::Double);
    assert_eq!(argument_kind(&def, 2), ValueKind::Varchar);
}

#[test]
fn rendering_results() {
    assert_eq!(render_result(&DuckDBValue::Null, LogicalTypeId::Integer), ResultRow::NoRow);
    assert_eq!(render_result(&DuckDBValue::Integer(30), LogicalTypeId::Integer), ResultRow::Integer(30));
    assert_eq!(render_result(&DuckDBValue::SmallInt(7), LogicalTypeId::Smallint), ResultRow::SmallInt(7));
    assert_eq!(render_result(&DuckDBValue::TinyInt(-3), LogicalTypeId::Tinyint), ResultRow::TinyInt(-3));
    assert_eq!(render_result(&DuckDBValue::BigInt(i64::MIN), LogicalTypeId::Bigint), ResultRow::BigInt(i64::MIN));
    assert_eq!(render_result(&DuckDBValue::Boolean(true), LogicalTypeId::Boolean), ResultRow::Boolean(true));
    assert_eq!(
        render_result(&DuckDBValue::Float(1.5f32.to_bits()), LogicalTypeId::Float),
        ResultRow::Float(1.5f32.to_bits())
    );
    assert_eq!(
        render_result(&DuckDBValue::Double(2.5f64.to_bits()), LogicalTypeId::Double),
        ResultRow::Double(2.5f64.to_bits())
    );
    assert_eq!(render_result(&DuckDBValue::Blob(vec![1, 2]), LogicalTypeId::Blob), ResultRow::Blob(vec![1, 2]));
    assert_eq!(
        render_result(&DuckDBValue::Varchar("x".to_string()), LogicalTypeId::Varchar),
        ResultRow::Text("x".to_string())
    );
    assert_eq!(render_result(&DuckDBValue::Integer(-42), LogicalTypeId::Varchar), ResultRow::Text("-42".to_string()));
    assert_eq!(render_result(&DuckDBValue::Boolean(false), LogicalTypeId::Varchar), ResultRow::Text("false".to_string()));
    assert_eq!(
        render_result(&DuckDBValue::Double(2.5f64.to_bits()), LogicalTypeId::Varchar),
        ResultRow::DoubleText(2.5f64.to_bits())
    );
    assert_eq!(
        render_result(&DuckDBValue::Blob(vec![1]), LogicalTypeId::Varchar),
        ResultRow::Text("Unsupported return type".to_string())
    );
    assert_eq!(
        render_result(&DuckDBValue::Varchar("2024-01-01".to_string()), LogicalTypeId::Date),
        ResultRow::Text("2024-01-01".to_string())
    );
    assert_eq!(
        render_result(&DuckDBValue::Integer(1), LogicalTypeId::Bigint),
        ResultRow::Text("1".to_string())
    );
    assert_eq!(
        render_result(&DuckDBValue::TinyInt(3), LogicalTypeId::Varchar),
        ResultRow::Text("Unsupported return type".to_string())
    );
    assert_eq!(
        render_result(&DuckDBValue::Float(1.5f32.to_bits()), LogicalTypeId::Varchar),
        ResultRow::Text("Unsupported return type".to_string())
    );
}

#[test]
fn call_arguments_stop_at_first_error() {
    let ok = call_arguments(vec![Ok(DuckDBValue::Integer(1)), Ok(DuckDBValue::Boolean(true))]);
    assert_eq!(ok, Ok(vec![DuckDBValue::Integer(1), DuckDBValue::Boolean(true)]));
    let bad = call_arguments(vec![
        Ok(DuckDBValue::Integer(1)),
        Err("first".to_string()),
        Err("second".to_string()),
    ]);
    assert_eq!(bad, Err("first".to_string()));
    assert_eq!(call_arguments(vec![]), Ok(vec![]));
}

#[test]
fn py_call_arguments_come_as_a_named_list() {
    assert_eq!(PyCallVTab::arguments_parameter(), "args");
}

#[test]
fn integer_text_matches_std() {
    for n in [0i64, 7, -7, 10, 120, -1000, i64::MAX, i64::MIN, 1234567890123] {
        assert_eq!(integer_text(n), n.to_string());
    }
}

#[test]
fn integer_text_reads_back() {
    for n in [0i64, 5, -31, i32::MAX as i64, i32::MIN as i64] {
        assert_eq!(
            parse_string_to_value(&integer_text(n), ValueKind::Integer),
            Ok(Some(DuckDBValue::Integer(n as i32)))
        );
    }
    assert_eq!(
        parse_string_to_value(&integer_text(i64::MIN), ValueKind::BigInt),
        Ok(Some(DuckDBValue::BigInt(i64::MIN)))
    );
}

#[test]
fn listing_rows() {
    let mut registry = FunctionRegistry::new();
    create(&mut registry, "add", "a int, b bigint", "int", "return a + b");
    create(&mut registry, "Now", "", "timestamp", "return 0");
    let rows = ListFunctionsVTab::bind(&registry).functions;
    assert_eq!(
        rows,
        vec![
            ("add".to_string(), "a INTEGER, b BIGINT".to_string(), "INTEGER".to_string()),
            ("now".to_string(), "".to_string(), "TIMESTAMP".to_string()),
        ]
    );
}

#[test]
fn logical_types() {
    assert_eq!(string_to_logical_type("bool"), LogicalTypeId::Boolean);
    assert_eq!(string_to_logical_type("int8"), LogicalTypeId::Tinyint);
    assert_eq!(string_to_logical_type("INT16"), LogicalTypeId::Smallint);
    assert_eq!(string_to_logical_type("int"), LogicalTypeId::Integer);
    assert_eq!(string_to_logical_type("int64"), LogicalTypeId::Bigint);
    assert_eq!(string_to_logical_type("float32"), LogicalTypeId::Float);
    assert_eq!(string_to_logical_type("float64"), LogicalTypeId::Double);
    assert_eq!(string_to_logical_type("text"), LogicalTypeId::Varchar);
    assert_eq!(string_to_logical_type("binary"), LogicalTypeId::Blob);
    assert_eq!(string_to_logical_type("date"), LogicalTypeId::Date);
    assert_eq!(string_to_logical_type("timestamp"), LogicalTypeId::Timestamp);
    assert_eq!(string_to_logical_type("uuid"), LogicalTypeId::Varchar);
    assert_eq!(logical_type_to_string(LogicalTypeId::Smallint), "SMALLINT");
    assert_eq!(logical_type_to_string(LogicalTypeId::Other), "VARCHAR");
    for t in [
        LogicalTypeId::Boolean,
        LogicalTypeId::Tinyint,
        LogicalTypeId::Smallint,
        LogicalTypeId::Integer,
        LogicalTypeId::Bigint,
        LogicalTypeId::Float,
        LogicalTypeId::Double,
        LogicalTypeId::Varchar,
        LogicalTypeId::Blob,
        LogicalTypeId::Date,
        LogicalTypeId::Timestamp,
    ] {
        assert_eq!(string_to_logical_type(logical_type_to_string(t)), t);
        assert_eq!(string_to_logical_type(&logical_type_to_string(t).to_lowercase()), t);
    }
}

#[test]
fn create_rows_then_done() {
    let mut registry = FunctionRegistry::new();
    let bind = CreateFunctionVTab::bind(
        &mut registry,
        "one".to_string(),
        "".to_string(),
        "int".to_string(),
        "return 1".to_string(),
    )
    .unwrap();
    let mut state = CreateFunctionVTab::init();
    assert!(!state.done);
    assert_eq!(
        CreateFunctionVTab::func(&mut state, &bind),
        Some("Function 'one' created successfully".to_string())
    );
    assert!(state.done);
    assert_eq!(CreateFunctionVTab::func(&mut state, &bind), None);
    assert_eq!(CreateFunctionVTab::parameters(), vec![LogicalTypeId::Varchar; 4]);
}

#[test]
fn py_call_steps() {
    let mut registry = FunctionRegistry::new();
    create(&mut registry, "Add", "a int, b int", "bigint", "return a + b");
    let (bind, ty) =
        PyCallVTab::bind(&registry, "add".to_string(), vec!["1".to_string(), "2".to_string()])
            .ok()
            .unwrap();
    assert_eq!(ty, LogicalTypeId::Bigint);
    assert_eq!(bind.result_type, LogicalTypeId::Bigint);
    assert_eq!(bind.func_name, "add");
    assert_eq!(bind.args, vec!["1".to_string(), "2".to_string()]);
    let mut state = PyCallVTab::init();
    assert!(!state.done);
    let def = PyCallVTab::start_call(&mut state, &registry, &bind).unwrap().unwrap();
    assert_eq!(def.name, "Add");
    assert_eq!(def.body, "return a + b");
    assert!(state.done);
    assert!(PyCallVTab::start_call(&mut state, &registry, &bind).unwrap().is_none());
    assert_eq!(PyCallVTab::parameters(), vec![LogicalTypeId::Varchar]);
}

#[test]
fn py_call_of_unknown_function() {
    let registry = FunctionRegistry::new();
    let err = PyCallVTab::bind(&registry, "missing".to_string(), vec![]).err().unwrap();
    assert_eq!(err, "Function 'missing' not found");
}

#[test]
fn py_call_function_removed_after_bind() {
    let mut registry = FunctionRegistry::new();
    create(&mut registry, "gone", "", "int", "return 1");
    let (bind, _) = PyCallVTab::bind(&registry, "gone".to_string(), vec![]).ok().unwrap();
    let empty = FunctionRegistry::new();
    let mut state = PyCallVTab::init();
    let err = PyCallVTab::start_call(&mut state, &empty, &bind).err().unwrap();
    assert_eq!(err, "Function 'gone' not found");
    assert!(state.done);
}

#[test]
fn list_rows_one_at_a_time() {
    let mut registry = FunctionRegistry::new();
    create(&mut registry, "f", "x varchar", "text", "return x");
    create(&mut registry, "g", "", "bool", "return True");
    let bind = ListFunctionsVTab::bind(&registry);
    let mut state = ListFunctionsVTab::init();
    assert_eq!(state.current_index, 0);
    assert_eq!(
        ListFunctionsVTab::func(&mut state, &bind),
        Some(("f".to_string(), "x VARCHAR".to_string(), "VARCHAR".to_string()))
    );
    assert_eq!(
        ListFunctionsVTab::func(&mut state, &bind),
        Some(("g".to_string(), "".to_string(), "BOOLEAN".to_string()))
    );
    assert_eq!(ListFunctionsVTab::func(&mut state, &bind), None);
    assert_eq!(state.current_index, 3);
    assert_eq!(ListFunctionsVTab::parameters(), vec![]);
}

#[test]
fn logical_types_from_uppercase_names() {
    assert_eq!(logical_type_of_upper("FLOAT64"), LogicalTypeId::Double);
    assert_eq!(logical_type_of_upper("BINARY"), LogicalTypeId::Blob);
    assert_eq!(logical_type_of_upper("bool"), LogicalTypeId::Varchar);
}

#[test]
fn reading_call_arguments() {
    let def = FunctionDefinition {
        name: "f".to_string(),
        parameters: vec![
            FunctionParameter { name: "a".to_string(), data_type: "TINYINT".to_string() },
            FunctionParameter { name: "b".to_string(), data_type: "DOUBLE".to_string() },
            FunctionParameter { name: "c".to_string(), data_type: "BOOLEAN".to_string() },
        ],
        return_type: "INTEGER".to_string(),
        language: "PYTHON".to_string(),
        body: "return a".to_string(),
    };
    let args = vec!["-5".to_string(), "2.5".to_string(), "YES".to_string(), "extra".to_string()];
    assert_eq!(
        read_arguments(&def, &args),
        vec![
            Ok(Some(DuckDBValue::TinyInt(-5))),
            Ok(None),
            Ok(Some(DuckDBValue::Boolean(true))),
            Ok(Some(DuckDBValue::Varchar("extra".to_string()))),
        ]
    );
    let bad = vec!["300".to_string()];
    assert_eq!(read_arguments(&def, &bad), vec![Err(IntErrorKind::PosOverflow)]);
    assert!(read_arguments(&def, &vec![]).is_empty());
}
