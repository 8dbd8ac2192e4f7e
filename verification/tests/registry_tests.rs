use pyfunc::parser::{FunctionDefinition, FunctionParameter};
use pyfunc::registry::{
    function_exists, get_function, list_functions, register_function, unregister_function,
    FunctionRegistry,
};

fn definition(name: &str, return_type: &str, body: &str) -> FunctionDefinition {
    FunctionDefinition {
        name: name.to_string(),
        parameters: vec![],
        return_type: return_type.to_string(),
        language: "PYTHON".to_string(),
        body: body.to_string(),
    }
}

#[test]
fn test_register_and_get_function() {
    let mut registry = FunctionRegistry::new();
    let func_def = FunctionDefinition {
        name: "test_func".to_string(),
        parameters: vec![],
        return_type: "INTEGER".to_string(),
        language: "PYTHON".to_string(),
        body: "return 42".to_string(),
    };

    register_function(&mut registry, func_def.clone()).unwrap();

    let retrieved = get_function(&registry, "test_func").unwrap();
    assert_eq!(retrieved.name, "test_func");
    assert_eq!(retrieved.return_type, "INTEGER");
}

#[test]
fn lookup_ignores_case() {
    let mut registry = FunctionRegistry::new();
    register_function(&mut registry, definition("MyFunc", "VARCHAR", "return 'x'")).unwrap();
    let found = get_function(&registry, "MYFUNC").unwrap();
    assert_eq!(found.name, "MyFunc");
    assert!(function_exists(&registry, "myfunc"));
    assert_eq!(list_functions(&registry), vec!["myfunc".to_string()]);
}

#[test]
fn register_replaces_same_name() {
    let mut registry = FunctionRegistry::new();
    register_function(&mut registry, definition("f", "INTEGER", "return 1")).unwrap();
    register_function(&mut registry, definition("F", "BIGINT", "return 2")).unwrap();
    assert_eq!(registry.len(), 1);
    let found = get_function(&registry, "f").unwrap();
    assert_eq!(found.return_type, "BIGINT");
    assert_eq!(found.body, "return 2");
}

#[test]
fn register_keeps_parameters() {
    let mut registry = FunctionRegistry::new();
    let mut def = definition("add", "INTEGER", "return a + b");
    def.parameters = vec![
        FunctionParameter { name: "a".to_string(), data_type: "INTEGER".to_string() },
        FunctionParameter { name: "b".to_string(), data_type: "INTEGER".to_string() },
    ];
    register_function(&mut registry, def).unwrap();
    let found = get_function(&registry, "add").unwrap();
    assert_eq!(found.parameters.len(), 2);
    assert_eq!(found.parameters[1].name, "b");
    assert_eq!(found.parameters[1].data_type, "INTEGER");
}

#[test]
fn unregister_removes_and_returns() {
    let mut registry = FunctionRegistry::new();
    register_function(&mut registry, definition("a", "INTEGER", "return 1")).unwrap();
    register_function(&mut registry, definition("b", "INTEGER", "return 2")).unwrap();
    register_function(&mut registry, definition("c", "INTEGER", "return 3")).unwrap();
    let removed = unregister_function(&mut registry, "B").unwrap();
    assert_eq!(removed.body, "return 2");
    assert!(!function_exists(&registry, "b"));
    assert!(get_function(&registry, "b").is_none());
    assert_eq!(list_functions(&registry), vec!["a".to_string(), "c".to_string()]);
    assert!(unregister_function(&mut registry, "b").is_none());
    assert_eq!(registry.len(), 2);
}

#[test]
fn missing_function_is_not_found() {
    let registry = FunctionRegistry::new();
    assert!(get_function(&registry, "nothing").is_none());
    assert!(!function_exists(&registry, "nothing"));
    assert!(list_functions(&registry).is_empty());
}

#[test]
fn list_in_registration_order() {
    let mut registry = FunctionRegistry::new();
    for name in ["zeta", "Alpha", "mid"] {
        register_function(&mut registry, definition(name, "INTEGER", "return 0")).unwrap();
    }
    assert_eq!(
        list_functions(&registry),
        vec!["zeta".to_string(), "alpha".to_string(), "mid".to_string()]
    );
}

#[test]
fn entry_gives_name_and_definition() {
    let mut registry = FunctionRegistry::new();
    register_function(&mut registry, definition("Shout", "VARCHAR", "return s.upper()")).unwrap();
    let (name, def) = registry.entry(0);
    assert_eq!(name, "shout");
    assert_eq!(def.name, "Shout");
}

#[test]
fn keyed_operations() {
    let mut registry = FunctionRegistry::new();
    registry.insert("k".to_string(), definition("K", "INTEGER", "return 1"));
    registry.insert("k".to_string(), definition("K", "BIGINT", "return 2"));
    assert!(registry.contains("k"));
    assert!(!registry.contains("K"));
    assert_eq!(registry.get("k").unwrap().return_type, "BIGINT");
    assert!(registry.get("K").is_none());
    assert_eq!(registry.len(), 1);
    assert_eq!(registry.remove("k").unwrap().body, "return 2");
    assert!(registry.remove("k").is_none());
    assert_eq!(registry.len(), 0);
}

#[test]
fn lookup_after_history() {
    let mut registry = FunctionRegistry::new();
    register_function(&mut registry, definition("F", "INTEGER", "return 1")).unwrap();
    register_function(&mut registry, definition("g", "INTEGER", "return 2")).unwrap();
    register_function(&mut registry, definition("f", "BIGINT", "return 3")).unwrap();
    assert_eq!(get_function(&registry, "F").unwrap().body, "return 3");
    unregister_function(&mut registry, "f");
    assert!(get_function(&registry, "f").is_none());
    register_function(&mut registry, definition("F", "DOUBLE", "return 4")).unwrap();
    let found = get_function(&registry, "f").unwrap();
    assert_eq!(found.name, "F");
    assert_eq!(found.return_type, "DOUBLE");
    assert_eq!(get_function(&registry, "G").unwrap().body, "return 2");
}
