use pyfunc::executor::{
    integer_value, result_kind, result_kind_of_upper, DuckDBValue, PythonExecutor, ResultKind,
};
use pyfunc::parser::{FunctionDefinition, FunctionParameter};

fn def_with(params: &[&str], body: &str) -> FunctionDefinition {
    FunctionDefinition {
        name: "f".to_string(),
        parameters: params
            .iter()
            .map(|p| FunctionParameter { name: p.to_string(), data_type: "INTEGER".to_string() })
            .collect(),
        return_type: "INTEGER".to_string(),
        language: "PYTHON".to_string(),
        body: body.to_string(),
    }
}

#[test]
fn test_create_wrapper_code() {
    let func_def = FunctionDefinition {
        name: "greet".to_string(),
        parameters: vec![FunctionParameter {
            name: "name".to_string(),
            data_type: "VARCHAR".to_string(),
        }],
        return_type: "VARCHAR".to_string(),
        language: "PYTHON".to_string(),
        body: "return 'Hello ' + name".to_string(),
    };

    let code = PythonExecutor::create_wrapper_code(&func_def);
    assert!(code.contains("def __pyfunc_wrapper__(name)"));
    assert!(code.contains("Hello"));
}

#[test]
fn wrapper_code_exact_text() {
    let code = PythonExecutor::create_wrapper_code(&def_with(&["a", "b"], "x = a + b\r\nreturn x\n"));
    assert_eq!(
        code,
        "def __pyfunc_wrapper__(a, b):\n    x = a + b\n    return x\n\n__pyfunc_result__ = __pyfunc_wrapper__(a, b)\n"
    );
}

#[test]
fn wrapper_code_without_parameters_or_body() {
    let code = PythonExecutor::create_wrapper_code(&def_with(&[], ""));
    assert_eq!(code, "def __pyfunc_wrapper__():\n\n\n__pyfunc_result__ = __pyfunc_wrapper__()\n");
}

#[test]
fn wrapper_code_keeps_blank_lines_and_bare_cr() {
    let code = PythonExecutor::create_wrapper_code(&def_with(&["n"], "a\n\nb\r"));
    assert_eq!(
        code,
        "def __pyfunc_wrapper__(n):\n    a\n    \n    b\r\n\n__pyfunc_result__ = __pyfunc_wrapper__(n)\n"
    );
}

#[test]
fn value_type_names() {
    assert_eq!(DuckDBValue::Null.value_type_name(), "NULL");
    assert_eq!(DuckDBValue::Boolean(true).value_type_name(), "BOOLEAN");
    assert_eq!(DuckDBValue::TinyInt(1).value_type_name(), "TINYINT");
    assert_eq!(DuckDBValue::SmallInt(1).value_type_name(), "SMALLINT");
    assert_eq!(DuckDBValue::Integer(1).value_type_name(), "INTEGER");
    assert_eq!(DuckDBValue::BigInt(1).value_type_name(), "BIGINT");
    assert_eq!(DuckDBValue::Float(1.5f32.to_bits()).value_type_name(), "FLOAT");
    assert_eq!(DuckDBValue::Double(2.5f64.to_bits()).value_type_name(), "DOUBLE");
    assert_eq!(DuckDBValue::Varchar("x".to_string()).value_type_name(), "VARCHAR");
    assert_eq!(DuckDBValue::Blob(vec![1, 2]).value_type_name(), "BLOB");
}

#[test]
fn result_kinds_by_type_name() {
    assert_eq!(result_kind("boolean"), ResultKind::Boolean);
    assert_eq!(result_kind("tinyint"), ResultKind::TinyInt);
    assert_eq!(result_kind("SmallInt"), ResultKind::SmallInt);
    assert_eq!(result_kind("int"), ResultKind::Integer);
    assert_eq!(result_kind("INTEGER"), ResultKind::Integer);
    assert_eq!(result_kind("bigint"), ResultKind::BigInt);
    assert_eq!(result_kind("real"), ResultKind::Float);
    assert_eq!(result_kind("double"), ResultKind::Double);
    assert_eq!(result_kind("text"), ResultKind::Varchar);
    assert_eq!(result_kind("binary"), ResultKind::Blob);
    assert_eq!(result_kind("DATE"), ResultKind::Inferred);
    assert_eq!(result_kind(" INTEGER"), ResultKind::Inferred);
}

#[test]
fn inferred_integers_narrow_to_32_bits() {
    assert_eq!(integer_value(42), DuckDBValue::Integer(42));
    assert_eq!(integer_value(-2147483648), DuckDBValue::Integer(i32::MIN));
    assert_eq!(integer_value(2147483647), DuckDBValue::Integer(i32::MAX));
    assert_eq!(integer_value(2147483648), DuckDBValue::BigInt(2147483648));
    assert_eq!(integer_value(-2147483649), DuckDBValue::BigInt(-2147483649));
}

#[test]
fn result_kinds_from_uppercase_names() {
    assert_eq!(result_kind_of_upper("INT"), ResultKind::Integer);
    assert_eq!(result_kind_of_upper("TEXT"), ResultKind::Varchar);
    assert_eq!(result_kind_of_upper("DATE"), ResultKind::Inferred);
    assert_eq!(result_kind_of_upper("double"), ResultKind::Inferred);
}
