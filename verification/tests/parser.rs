use axiom_native::ast::{BinaryOperator, Expression, Statement, Type};
use axiom_native::parser::parse;

#[test]
fn parses_minimal_program() {
    let program = parse("fn main() { print(\"Hello AXIOM\") }").unwrap();
    assert_eq!(program.functions[0].name, "main");
    assert_eq!(program.functions[0].body.len(), 1);
}

#[test]
fn reports_missing_body() {
    let error = parse("fn main()").unwrap_err();
    assert_eq!(error.message, "expected '{'");
    assert_eq!(error.line, 1);
}

#[test]
fn parses_operator_precedence() {
    let program = parse("fn main() { let x = 1 + 2 * 3 }").unwrap();
    match &program.functions[0].body[0] {
        Statement::Let { value: Expression::Binary { operator, right, .. }, .. } => {
            assert_eq!(*operator, BinaryOperator::Add);
            match &**right {
                Expression::Binary { operator, .. } => assert_eq!(*operator, BinaryOperator::Multiply),
                _ => panic!("expected a product on the right"),
            }
        }
        _ => panic!("expected a let statement"),
    }
}

#[test]
fn parses_typed_parameters_and_arrays() {
    let program = parse("fn f(a: Int[], b: Bool) -> String { return \"x\" }").unwrap();
    let f = &program.functions[0];
    assert_eq!(f.parameters.len(), 2);
    assert_eq!(f.parameters[0].declared_type, Some(Type::Array(Box::new(Type::Int))));
    assert_eq!(f.parameters[1].declared_type, Some(Type::Bool));
    assert_eq!(f.return_type, Some(Type::String));
}

#[test]
fn reports_missing_expression_position() {
    let error = parse("fn main() { let value = }").unwrap_err();
    assert_eq!(error.message, "expected literal");
    assert_eq!(error.line, 1);
}

#[test]
fn rejects_integer_literal_out_of_range() {
    assert!(parse("fn main() { print(99999999999999999999) }").is_err());
}

#[test]
fn syntax_errors_sit_at_a_token() {
    let error = parse("fn main() {\n  let = 1 }").unwrap_err();
    assert_eq!((error.line, error.column), (2, 7));
}
