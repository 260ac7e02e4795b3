use axiom_native::parser::parse;
use axiom_native::semantic::analyze;

#[test]
fn accepts_hello_program() {
    analyze(&parse("fn main() { print(\"Hello AXIOM\") }").unwrap()).unwrap();
}

#[test]
fn requires_main() {
    let error = analyze(&parse("fn start() { print(\"Hello AXIOM\") }").unwrap()).unwrap_err();
    assert_eq!(error.message, "program must define 'main'");
}

#[test]
fn rejects_mismatched_variable_type() {
    let error = analyze(&parse("fn main() { let value: Int = true }").unwrap()).unwrap_err();
    assert!(error.message.contains("incompatible type"));
}

#[test]
fn rejects_non_boolean_condition() {
    let error = analyze(&parse("fn main() { if 1 { print(\"no\") } }").unwrap()).unwrap_err();
    assert_eq!(error.message, "condition requires Bool");
}

#[test]
fn rejects_break_outside_loop() {
    let error = analyze(&parse("fn main() { break }").unwrap()).unwrap_err();
    assert_eq!(error.message, "'break' outside of a loop");
}

#[test]
fn rejects_unknown_variable() {
    let error = analyze(&parse("fn main() { print(missing) }").unwrap()).unwrap_err();
    assert_eq!(error.message, "unknown variable 'missing'");
}
