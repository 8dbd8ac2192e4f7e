use pyfunc::parser::{
    extract_body, normalize_sql_type, normalize_upper_type, parse_create_function,
    parse_parameters, parse_params_string, parse_with_uppercase, try_parse_create_function,
};

#[test]
fn normalize_folds_aliases() {
    assert_eq!(normalize_sql_type("string"), "VARCHAR");
    assert_eq!(normalize_sql_type("  Text "), "VARCHAR");
    assert_eq!(normalize_sql_type("int"), "INTEGER");
    assert_eq!(normalize_sql_type("INT32"), "INTEGER");
    assert_eq!(normalize_sql_type("long"), "BIGINT");
    assert_eq!(normalize_sql_type("short"), "SMALLINT");
    assert_eq!(normalize_sql_type("byte"), "TINYINT");
    assert_eq!(normalize_sql_type("real"), "FLOAT");
    assert_eq!(normalize_sql_type("float64"), "DOUBLE");
    assert_eq!(normalize_sql_type("bool"), "BOOLEAN");
    assert_eq!(normalize_sql_type("date"), "DATE");
    assert_eq!(normalize_sql_type("datetime"), "TIMESTAMP");
    assert_eq!(normalize_sql_type("bytes"), "BLOB");
}

#[test]
fn normalize_keeps_unknown_types_uppercase() {
    assert_eq!(normalize_sql_type(" decimal(10, 2)\t"), "DECIMAL(10, 2)");
    assert_eq!(normalize_sql_type(""), "");
    assert_eq!(normalize_sql_type("\u{3000}uuid\u{a0}"), "UUID");
}

#[test]
fn parameters_empty_list() {
    assert!(parse_parameters("").unwrap().is_empty());
    assert!(parse_parameters("   \n").unwrap().is_empty());
    assert!(parse_parameters(" , ,").unwrap().is_empty());
}

#[test]
fn parameters_with_types() {
    let ps = parse_parameters("name STRING, count int ,flag  bool,").unwrap();
    assert_eq!(ps.len(), 3);
    assert_eq!(ps[0].name, "name");
    assert_eq!(ps[0].data_type, "VARCHAR");
    assert_eq!(ps[1].name, "count");
    assert_eq!(ps[1].data_type, "INTEGER");
    assert_eq!(ps[2].name, "flag");
    assert_eq!(ps[2].data_type, "BOOLEAN");
}

#[test]
fn parameters_multi_word_type() {
    let ps = parse_parameters("x double   precision").unwrap();
    assert_eq!(ps.len(), 1);
    assert_eq!(ps[0].name, "x");
    assert_eq!(ps[0].data_type, "DOUBLE PRECISION");
}

#[test]
fn parameters_without_type_are_refused() {
    assert_eq!(
        parse_parameters("a INT, b").unwrap_err(),
        "Invalid parameter definition: 'b'"
    );
    assert_eq!(
        parse_params_string("a INT,  b ,c INT").unwrap_err(),
        "Invalid parameter definition: 'b'. Expected 'name TYPE'"
    );
}

#[test]
fn first_bad_parameter_is_reported() {
    assert_eq!(
        parse_parameters("a, b").unwrap_err(),
        "Invalid parameter definition: 'a'"
    );
}

#[test]
fn body_in_dollars() {
    let (body, end) = extract_body("AS $$ return 1 $$ rest", 2).unwrap();
    assert_eq!(body, " return 1 ");
    assert_eq!(end, 17);
}

#[test]
fn body_in_quotes_with_escapes() {
    let sql = "  'it''s ok' tail";
    let (body, end) = extract_body(sql, 0).unwrap();
    assert_eq!(body, "it's ok");
    assert_eq!(end, 12);
    assert_eq!(&sql[end..], " tail");
}

#[test]
fn body_with_unicode() {
    let sql = "$$ return 'héllo ✓' $$";
    let (body, end) = extract_body(sql, 0).unwrap();
    assert_eq!(body, " return 'héllo ✓' ");
    assert_eq!(end, sql.len());
}

#[test]
fn body_errors() {
    assert_eq!(extract_body("$$ never closed", 0).unwrap_err(), "Unclosed $$ delimiter");
    assert_eq!(extract_body("'never closed''", 0).unwrap_err(), "Unclosed single quote");
    assert_eq!(
        extract_body("return 1", 0).unwrap_err(),
        "Function body must be enclosed in $$ or single quotes"
    );
}

#[test]
fn test_parse_simple_function() {
    let sql = r#"
            CREATE FUNCTION greet(name STRING)
            RETURNS STRING
            LANGUAGE PYTHON
            AS $$
                return "Hello " + name + "!"
            $$
        "#;

    let result = parse_create_function(sql).unwrap();
    assert_eq!(result.name, "greet");
    assert_eq!(result.parameters.len(), 1);
    assert_eq!(result.parameters[0].name, "name");
    assert_eq!(result.parameters[0].data_type, "VARCHAR");
    assert_eq!(result.return_type, "VARCHAR");
    assert_eq!(result.language, "PYTHON");
    assert!(result.body.contains("Hello"));
}

#[test]
fn test_parse_multi_param_function() {
    let sql = r#"
            CREATE FUNCTION add_numbers(a INT, b INT)
            RETURNS INT
            LANGUAGE PYTHON
            AS $$
                return a + b
            $$
        "#;

    let result = parse_create_function(sql).unwrap();
    assert_eq!(result.name, "add_numbers");
    assert_eq!(result.parameters.len(), 2);
    assert_eq!(result.return_type, "INTEGER");
}

#[test]
fn test_parse_or_replace() {
    let sql = r#"
            CREATE OR REPLACE FUNCTION my_func()
            RETURNS BOOLEAN
            LANGUAGE PYTHON
            AS $$
                return True
            $$
        "#;

    let result = parse_create_function(sql).unwrap();
    assert_eq!(result.name, "my_func");
    assert_eq!(result.parameters.len(), 0);
    assert_eq!(result.return_type, "BOOLEAN");
}

#[test]
fn parse_gives_the_exact_body() {
    let sql = "CREATE FUNCTION twice(x BIGINT)\nRETURNS bigint\nLANGUAGE python\nAS $$\nreturn 2 * x\n$$";
    let result = parse_create_function(sql).unwrap();
    assert_eq!(result.name, "twice");
    assert_eq!(result.parameters[0].name, "x");
    assert_eq!(result.parameters[0].data_type, "BIGINT");
    assert_eq!(result.return_type, "BIGINT");
    assert_eq!(result.language, "PYTHON");
    assert_eq!(result.body, "\nreturn 2 * x\n");
}

#[test]
fn parse_with_quoted_body_and_tab() {
    let sql = "create function q() returns text language python\tAS 'return ''ok'''";
    let result = parse_create_function(sql).unwrap();
    assert_eq!(result.name, "q");
    assert!(result.parameters.is_empty());
    assert_eq!(result.return_type, "VARCHAR");
    assert_eq!(result.body, "return 'ok'");
}

#[test]
fn parse_body_errors() {
    assert_eq!(
        parse_create_function("CREATE FUNCTION f() RETURNS INT LANGUAGE PYTHON AS return 1")
            .unwrap_err(),
        "Function body must be enclosed in $$ or single quotes"
    );
    assert_eq!(
        parse_create_function("CREATE FUNCTION f() RETURNS INT LANGUAGE PYTHON AS $$ return 1")
            .unwrap_err(),
        "Unclosed $$ delimiter"
    );
}

#[test]
fn parse_errors_in_order() {
    assert_eq!(parse_create_function("SELECT 1").unwrap_err(), "Expected CREATE keyword");
    assert_eq!(parse_create_function("create table t").unwrap_err(), "Expected FUNCTION keyword");
    assert_eq!(
        parse_create_function("CREATE FUNCTION f").unwrap_err(),
        "Expected '(' after function name"
    );
    assert_eq!(
        parse_create_function("CREATE FUNCTION f(a INT").unwrap_err(),
        "Expected ')' after parameters"
    );
    assert_eq!(
        parse_create_function("CREATE FUNCTION f(a) RETURNS INT").unwrap_err(),
        "Invalid parameter definition: 'a'"
    );
    assert_eq!(
        parse_create_function("CREATE FUNCTION f(a INT) GIVES INT").unwrap_err(),
        "Expected RETURNS keyword"
    );
    assert_eq!(
        parse_create_function("CREATE FUNCTION f(a INT) RETURNS INT AS $$x$$").unwrap_err(),
        "Expected LANGUAGE keyword"
    );
    assert_eq!(
        parse_create_function("CREATE FUNCTION f(a INT) RETURNS INT LANGUAGE PYTHON").unwrap_err(),
        "Expected AS keyword"
    );
    assert_eq!(
        parse_create_function("CREATE FUNCTION f(a INT) RETURNS INT LANGUAGE sql AS $$x$$")
            .unwrap_err(),
        "Unsupported language: SQL. Only PYTHON is supported."
    );
}

#[test]
fn try_parse_gives_the_same_answer() {
    let r = try_parse_create_function("create function g() returns int language python as 'x'");
    let def = r.unwrap().unwrap();
    assert_eq!(def.name, "g");
    assert_eq!(def.return_type, "INTEGER");
    assert_eq!(def.language, "PYTHON");
    assert_eq!(def.body, "x");
    assert_eq!(
        try_parse_create_function("DROP FUNCTION g").unwrap().unwrap_err(),
        "Expected CREATE keyword"
    );
}

#[test]
fn dollar_body_read_back() {
    for (pre, body, post) in [
        ("x = ", "return a$b", " tail"),
        ("", "", ""),
        ("é ", "print('$ é')", "$$ more"),
    ] {
        let sql = format!("{pre}$${body}$${post}");
        let (got, end) = extract_body(&sql, pre.len()).unwrap();
        assert_eq!(got, body);
        assert_eq!(end, pre.len() + body.len() + 4);
    }
}

#[test]
fn quoted_body_read_back() {
    for (pre, body, post) in [
        ("AS ", "return 'it''s'", ";"),
        ("", "", ""),
        ("ü", "''", " x'"),
    ] {
        let escaped = body.replace('\'', "''");
        let sql = format!("{pre}'{escaped}'{post}");
        let (got, end) = extract_body(&sql, pre.len()).unwrap();
        assert_eq!(got, body);
        assert_eq!(end, pre.len() + escaped.len() + 2);
    }
}

#[test]
fn parameter_parsers_agree() {
    for text in ["", "a int, b varchar", " x  double precision ,, y bool ", "a", "a int, b", ","] {
        match (parse_parameters(text), parse_params_string(text)) {
            (Ok(a), Ok(b)) => {
                assert_eq!(a.len(), b.len());
                for (p, q) in a.iter().zip(b.iter()) {
                    assert_eq!(p.name, q.name);
                    assert_eq!(p.data_type, q.data_type);
                }
            }
            (Err(a), Err(b)) => {
                assert_eq!(b, format!("{a}. Expected 'name TYPE'"));
            }
            _ => panic!("the two parsers disagree on {text:?}"),
        }
    }
    // Only `parse_parameters` takes off parentheses around the whole list.
    assert_eq!(parse_parameters("(a INT)").unwrap()[0].name, "a");
    assert_eq!(parse_params_string("(a INT)").unwrap()[0].name, "(a");
}

#[test]
fn normalize_from_uppercase_text() {
    assert_eq!(normalize_upper_type("  INT "), "INTEGER");
    assert_eq!(normalize_upper_type("DATETIME"), "TIMESTAMP");
    assert_eq!(normalize_upper_type("int"), "int");
    assert_eq!(normalize_upper_type(" GEOMETRY "), "GEOMETRY");
}

#[test]
fn parse_with_given_uppercase_text() {
    let sql = "create function f(x int) returns int language python as $$return x$$";
    let up = sql.to_uppercase();
    let def = parse_with_uppercase(sql, &up).unwrap().unwrap();
    assert_eq!(def.name, "f");
    assert_eq!(def.parameters[0].data_type, "INTEGER");
    assert_eq!(def.body, "return x");
    assert_eq!(
        parse_with_uppercase(sql, sql).unwrap().unwrap_err(),
        "Expected CREATE keyword"
    );
}

#[test]
fn parameters_in_parentheses() {
    let ps = parse_parameters("(a INT, b TEXT)").unwrap();
    assert_eq!(ps.len(), 2);
    assert_eq!(ps[0].name, "a");
    assert_eq!(ps[0].data_type, "INTEGER");
    assert_eq!(ps[1].name, "b");
    assert_eq!(ps[1].data_type, "VARCHAR");
    assert!(parse_parameters("  ( )  ").unwrap().is_empty());
    assert!(parse_parameters("()").unwrap().is_empty());
    let one = parse_parameters("(x double)").unwrap();
    assert_eq!(one[0].name, "x");
    assert_eq!(one[0].data_type, "DOUBLE");
    assert_eq!(parse_parameters("(a)").unwrap_err(), "Invalid parameter definition: 'a'");
}

#[test]
fn padding_changes_nothing() {
    let sql = "CREATE FUNCTION f(a INT) RETURNS INT LANGUAGE PYTHON AS $$return a$$";
    let padded = format!(" \n\t\u{3000}{sql}\u{a0} \r\n");
    let a = parse_create_function(sql).unwrap();
    let b = parse_create_function(&padded).unwrap();
    assert_eq!(a.name, b.name);
    assert_eq!(a.return_type, b.return_type);
    assert_eq!(a.body, b.body);
    assert_eq!(
        parse_create_function("  SELECT 1 \n").unwrap_err(),
        parse_create_function("SELECT 1").unwrap_err()
    );
}

#[test]
fn normalize_is_idempotent() {
    for t in ["int", " text ", "Long", "datetime", "geometry", "double precision", "", "  "] {
        let once = normalize_sql_type(t);
        assert_eq!(normalize_sql_type(&once), once);
    }
}

#[test]
fn statement_read_back() {
    let parts = [
        ("f", "a INT", "INT", "return a"),
        ("add_two", "x bigint, y bigint", "Long", "return x + y"),
        ("Greet", "", "text", "return 'hi $ there'"),
    ];
    for (name, params, rt, body) in parts {
        let sql = format!(
            "CREATE FUNCTION {name}({params}) RETURNS {rt} LANGUAGE PYTHON AS $${body}$$"
        );
        let d = parse_create_function(&sql).unwrap();
        assert_eq!(d.name, name);
        assert_eq!(d.return_type, normalize_sql_type(rt));
        assert_eq!(d.language, "PYTHON");
        assert_eq!(d.body, body);
        let expected = parse_parameters(params).unwrap();
        assert_eq!(d.parameters.len(), expected.len());
        for (got, want) in d.parameters.iter().zip(expected.iter()) {
            assert_eq!(got.name, want.name);
            assert_eq!(got.data_type, want.data_type);
        }
    }
    assert_eq!(
        parse_create_function("CREATE FUNCTION f(a) RETURNS INT LANGUAGE PYTHON AS $$x$$")
            .unwrap_err(),
        "Invalid parameter definition: 'a'"
    );
}
