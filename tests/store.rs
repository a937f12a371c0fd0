use bugland::error::Error;
use bugland::variables::{Value, VarManager, Variable};

fn int_var(i: i64) -> Variable {
    Variable { value: Value::Integer(i) }
}

#[test]
fn define_then_get() {
    let mut vm = VarManager::new();
    assert!(vm.get("x").is_none());
    vm.define("x".to_string(), int_var(3));
    assert_eq!(vm.get("x").unwrap().value, Value::Integer(3));
    vm.define("x".to_string(), int_var(4));
    assert_eq!(vm.get("x").unwrap().value, Value::Integer(4));
}

#[test]
fn inner_scope_hides_outer_until_popped() {
    let mut vm = VarManager::new();
    vm.define("x".to_string(), int_var(1));
    vm.push_scope();
    assert_eq!(vm.depth(), 2);
    assert_eq!(vm.get("x").unwrap().value, Value::Integer(1));
    vm.define("x".to_string(), int_var(2));
    assert_eq!(vm.get("x").unwrap().value, Value::Integer(2));
    vm.pop_scope();
    assert_eq!(vm.depth(), 1);
    assert_eq!(vm.get("x").unwrap().value, Value::Integer(1));
}

#[test]
fn assign_reaches_outer_scope() {
    let mut vm = VarManager::new();
    vm.define("x".to_string(), int_var(1));
    vm.push_scope();
    assert_eq!(vm.assign("x", "9"), Ok(()));
    vm.pop_scope();
    assert_eq!(vm.get("x").unwrap().value, Value::Integer(9));
}

#[test]
fn assign_undefined_is_an_error() {
    let mut vm = VarManager::new();
    assert_eq!(vm.assign("nope", "1"), Err(Error::UndefinedVariable("nope".to_string())));
}

#[test]
fn assign_keeps_tag_and_ignores_bad_text() {
    let mut vm = VarManager::new();
    vm.define("i".to_string(), int_var(5));
    assert_eq!(vm.assign("i", "abc"), Ok(()));
    assert_eq!(vm.get("i").unwrap().value, Value::Integer(5));
    assert_eq!(vm.assign("i", "-12"), Ok(()));
    assert_eq!(vm.get("i").unwrap().value, Value::Integer(-12));

    vm.define("f".to_string(), Variable { value: Value::Float("1.5".to_string()) });
    assert_eq!(vm.assign("f", "x1"), Ok(()));
    assert_eq!(vm.get("f").unwrap().value, Value::Float("1.5".to_string()));
    assert_eq!(vm.assign("f", "7"), Ok(()));
    assert_eq!(vm.get("f").unwrap().value, Value::Float("7".to_string()));
    assert_eq!(vm.assign("f", "1e5"), Ok(()));
    assert_eq!(vm.get("f").unwrap().value, Value::Float("1e5".to_string()));

    vm.define("b".to_string(), Variable { value: Value::Boolean(false) });
    assert_eq!(vm.assign("b", "TRUE"), Ok(()));
    assert_eq!(vm.get("b").unwrap().value, Value::Boolean(false));
    assert_eq!(vm.assign("b", "true"), Ok(()));
    assert_eq!(vm.get("b").unwrap().value, Value::Boolean(true));

    vm.define("s".to_string(), Variable { value: Value::String("a".to_string()) });
    assert_eq!(vm.assign("s", "12"), Ok(()));
    assert_eq!(vm.get("s").unwrap().value, Value::String("12".to_string()));
}

#[test]
fn parse_value_order() {
    let vm = VarManager::new();
    assert_eq!(vm.parse_value("42"), Some(Value::Integer(42)));
    assert_eq!(vm.parse_value("+7"), Some(Value::Integer(7)));
    assert_eq!(vm.parse_value("-7"), Some(Value::Integer(-7)));
    assert_eq!(vm.parse_value("2.5"), Some(Value::Float("2.5".to_string())));
    assert_eq!(vm.parse_value(".5"), Some(Value::Float(".5".to_string())));
    assert_eq!(
        vm.parse_value("99999999999999999999"),
        Some(Value::Float("99999999999999999999".to_string()))
    );
    assert_eq!(vm.parse_value("1e5"), Some(Value::Float("1e5".to_string())));
    assert_eq!(vm.parse_value("2.5E-3"), Some(Value::Float("2.5E-3".to_string())));
    assert_eq!(vm.parse_value("inf"), Some(Value::Float("inf".to_string())));
    assert_eq!(vm.parse_value("NaN"), Some(Value::Float("NaN".to_string())));
    assert_eq!(vm.parse_value("TRUE"), Some(Value::Boolean(true)));
    assert_eq!(vm.parse_value("False"), Some(Value::Boolean(false)));
    assert_eq!(vm.parse_value("hello"), Some(Value::String("hello".to_string())));
    assert_eq!(vm.parse_value(""), Some(Value::String("".to_string())));
    assert_eq!(vm.parse_value("-"), Some(Value::String("-".to_string())));
}
