use pyfunc::executor::DuckDBValue;
use pyfunc::values::{
    is_truthy, parse_string_to_value, value_kind, value_kind_of_upper, IntErrorKind, ValueKind,
};

#[test]
fn kinds_by_type_name() {
    assert_eq!(value_kind("bool"), ValueKind::Boolean);
    assert_eq!(value_kind("INT8"), ValueKind::TinyInt);
    assert_eq!(value_kind("int16"), ValueKind::SmallInt);
    assert_eq!(value_kind("Int32"), ValueKind::Integer);
    assert_eq!(value_kind("int64"), ValueKind::BigInt);
    assert_eq!(value_kind("real"), ValueKind::Float);
    assert_eq!(value_kind("double"), ValueKind::Double);
    assert_eq!(value_kind("float64"), ValueKind::Varchar);
    assert_eq!(value_kind("varchar"), ValueKind::Varchar);
    assert_eq!(value_kind("DATE"), ValueKind::Varchar);
}

#[test]
fn booleans() {
    for t in ["true", "TRUE", "1", "Yes"] {
        assert_eq!(parse_string_to_value(t, ValueKind::Boolean), Ok(Some(DuckDBValue::Boolean(true))));
    }
    for f in ["false", "0", "no", " true", ""] {
        assert_eq!(parse_string_to_value(f, ValueKind::Boolean), Ok(Some(DuckDBValue::Boolean(false))));
    }
}

#[test]
fn integers_in_range() {
    assert_eq!(parse_string_to_value("-128", ValueKind::TinyInt), Ok(Some(DuckDBValue::TinyInt(-128))));
    assert_eq!(parse_string_to_value("+127", ValueKind::TinyInt), Ok(Some(DuckDBValue::TinyInt(127))));
    assert_eq!(parse_string_to_value("32767", ValueKind::SmallInt), Ok(Some(DuckDBValue::SmallInt(32767))));
    assert_eq!(parse_string_to_value("007", ValueKind::Integer), Ok(Some(DuckDBValue::Integer(7))));
    assert_eq!(parse_string_to_value("-0", ValueKind::Integer), Ok(Some(DuckDBValue::Integer(0))));
    assert_eq!(
        parse_string_to_value("-9223372036854775808", ValueKind::BigInt),
        Ok(Some(DuckDBValue::BigInt(i64::MIN)))
    );
    assert_eq!(
        parse_string_to_value("9223372036854775807", ValueKind::BigInt),
        Ok(Some(DuckDBValue::BigInt(i64::MAX)))
    );
}

#[test]
fn integer_errors_match_std() {
    let cases: [(&str, ValueKind); 8] = [
        ("", ValueKind::Integer),
        ("-", ValueKind::Integer),
        ("+", ValueKind::SmallInt),
        (" 1", ValueKind::Integer),
        ("12a", ValueKind::Integer),
        ("128", ValueKind::TinyInt),
        ("-129", ValueKind::TinyInt),
        ("99999999999999999999x", ValueKind::BigInt),
    ];
    for (text, kind) in cases {
        let ours = parse_string_to_value(text, kind).unwrap_err();
        let std_err = match kind {
            ValueKind::TinyInt => text.parse::<i8>().unwrap_err(),
            ValueKind::SmallInt => text.parse::<i16>().unwrap_err(),
            ValueKind::Integer => text.parse::<i32>().unwrap_err(),
            _ => text.parse::<i64>().unwrap_err(),
        };
        assert_eq!(ours.message(), std_err.to_string(), "text {:?}", text);
    }
}

#[test]
fn each_error_kind() {
    assert_eq!(parse_string_to_value("", ValueKind::Integer), Err(IntErrorKind::Empty));
    assert_eq!(parse_string_to_value("1.5", ValueKind::Integer), Err(IntErrorKind::InvalidDigit));
    assert_eq!(parse_string_to_value("40000", ValueKind::SmallInt), Err(IntErrorKind::PosOverflow));
    assert_eq!(parse_string_to_value("-40000", ValueKind::SmallInt), Err(IntErrorKind::NegOverflow));
    assert_eq!(IntErrorKind::Empty.message(), "cannot parse integer from empty string");
}

#[test]
fn text_stays_text() {
    assert_eq!(
        parse_string_to_value(" any text ", ValueKind::Varchar),
        Ok(Some(DuckDBValue::Varchar(" any text ".to_string())))
    );
}

#[test]
fn floats_are_left_to_the_caller() {
    assert_eq!(parse_string_to_value("1.5", ValueKind::Float), Ok(None));
    assert_eq!(parse_string_to_value("not a number", ValueKind::Double), Ok(None));
}

#[test]
fn kinds_from_uppercase_names() {
    assert_eq!(value_kind_of_upper("BOOL"), ValueKind::Boolean);
    assert_eq!(value_kind_of_upper("INT32"), ValueKind::Integer);
    assert_eq!(value_kind_of_upper("REAL"), ValueKind::Float);
    assert_eq!(value_kind_of_upper("int"), ValueKind::Varchar);
}

#[test]
fn truthy_texts() {
    assert!(is_truthy("true") && is_truthy("1") && is_truthy("yes"));
    assert!(!is_truthy("TRUE") && !is_truthy("y") && !is_truthy(""));
}
