use axiom_native::parser::parse;
use axiom_native::runtime::{execute, run};
use axiom_native::vm::execute_program;

#[test]
fn runs_hello_program() {
    assert_eq!(run("fn main() { print(\"Hello AXIOM\") }").unwrap(), "Hello AXIOM\n");
}

#[test]
fn runs_typed_literals() {
    assert_eq!(run("fn main() { print(42); print(true) }").unwrap(), "42\ntrue\n");
}

#[test]
fn runs_variable_and_addition() {
    assert_eq!(run("fn main() { let total = 20 + 22; print(total) }").unwrap(), "42\n");
}

#[test]
fn runs_function_with_parameters_and_return() {
    assert_eq!(
        run("fn add(a, b) -> Int { return a + b } fn main() { print(add(20, 22)) }").unwrap(),
        "42\n"
    );
}

#[test]
fn runs_string_concatenation() {
    assert_eq!(
        run("fn main() { print(\"Hello\" + \" \" + \"AXIOM\") }").unwrap(),
        "Hello AXIOM\n"
    );
}

#[test]
fn runs_if_else_with_comparison() {
    assert_eq!(
        run("fn main() { if 2 > 1 { print(\"yes\") } else { print(\"no\") } }").unwrap(),
        "yes\n"
    );
}

#[test]
fn runs_while_with_assignment() {
    assert_eq!(
        run("fn main() { let count = 0; while count == 0 { print(count); count = count + 1 } }")
            .unwrap(),
        "0\n"
    );
}

#[test]
fn runs_for_with_break_and_continue() {
    assert_eq!(
        run("fn main() { for (let i: Int = 0; i < 5; i = i + 1) { if i == 2 { continue } if i == 4 { break } print(i) } }").unwrap(),
        "0\n1\n3\n"
    );
}

#[test]
fn runs_else_if_chains() {
    assert_eq!(
        run("fn main() { let value = 2; if value == 1 { print(\"one\") } else if value == 2 { print(\"two\") } else { print(\"other\") } }")
            .unwrap(),
        "two\n"
    );
}

#[test]
fn runs_array_literal_and_indexing() {
    assert_eq!(
        run("fn main() { let values = [10, 20, 30]; print(values[1]) }").unwrap(),
        "20\n"
    );
}

#[test]
fn runs_indexed_assignment() {
    assert_eq!(
        run("fn main() { let values = [10, 20, 30]; values[1] = 99; print(values[1]) }").unwrap(),
        "99\n"
    );
}

#[test]
fn runs_nested_indexed_assignment() {
    assert_eq!(
        run("fn main() { let matrix = [[10, 20], [30, 40]]; matrix[1][0] = 99; print(matrix[1][0]) }")
            .unwrap(),
        "99\n"
    );
}

#[test]
fn runs_chained_array_indexing() {
    assert_eq!(run("fn main() { print([[10, 20]][0][1]) }").unwrap(), "20\n");
}

#[test]
fn runs_arithmetic_operators() {
    assert_eq!(run("fn main() { print(2 + 3 * 4 - 2) }").unwrap(), "12\n");
}

#[test]
fn rejects_division_by_zero() {
    assert_eq!(run("fn main() { print(4 / 0) }").unwrap_err().message, "division by zero");
}

#[test]
fn runs_boolean_operators() {
    assert_eq!(run("fn main() { print(!false && true || false) }").unwrap(), "true\n");
}

#[test]
fn runs_typed_function_syntax() {
    assert_eq!(
        run("fn add(a: Int, b: Int) -> Int { return a + b } fn main() { let total: Int = add(20, 22); print(total) }").unwrap(),
        "42\n"
    );
}

#[test]
fn reports_parse_errors_with_position() {
    assert_eq!(run("fn main()").unwrap_err().message, "expected '{' at 1:10");
}

#[test]
fn reports_semantic_errors() {
    assert_eq!(
        run("fn start() { print(1) }").unwrap_err().message,
        "program must define 'main'"
    );
}

#[test]
fn prints_arrays_and_negative_numbers() {
    assert_eq!(
        run("fn main() { let xs = [1, -2, 3]; print(xs); print(-(2 + 3)); print(-2 * 3) }").unwrap(),
        "[1, -2, 3]\n-5\n-6\n"
    );
}

#[test]
fn computes_truncating_division_and_remainder() {
    assert_eq!(
        run("fn main() { print(7 / 2); print(-7 / 2); print(7 % 3); print(-7 % 3) }").unwrap(),
        "3\n-3\n1\n-1\n"
    );
}

#[test]
fn short_circuits_logical_operators() {
    assert_eq!(
        run("fn loud() -> Bool { print(\"called\"); return true } fn main() { print(false && loud()); print(true || loud()) }")
            .unwrap(),
        "false\ntrue\n"
    );
}

#[test]
fn reports_index_out_of_bounds() {
    assert_eq!(
        run("fn main() { let xs = [1, 2]; print(xs[2]) }").unwrap_err().message,
        "index out of bounds"
    );
}

#[test]
fn reports_integer_overflow() {
    assert_eq!(
        run("fn main() { print(9223372036854775807 + 1) }").unwrap_err().message,
        "integer overflow"
    );
}

#[test]
fn reports_unsupported_float_arithmetic() {
    assert_eq!(
        run("fn main() { let value: Float = 1.5 + 2.5; print(value) }").unwrap_err().message,
        "floating-point arithmetic is not supported"
    );
}

#[test]
fn prints_float_literals_as_written() {
    assert_eq!(run("fn main() { print(2.50) }").unwrap(), "2.50\n");
}

#[test]
fn executes_parsed_program_directly() {
    let program = parse("fn main() { for (let i = 0; i < 3; i = i + 1) { print(i) } }").unwrap();
    assert_eq!(execute(&program).unwrap(), "0\n1\n2\n");
}

#[test]
fn execute_reports_missing_main() {
    let program = parse("fn other() { }").unwrap();
    assert_eq!(execute(&program).unwrap_err().message, "unknown function 'main'");
}

#[test]
fn execute_reports_value_less_call_in_expression() {
    let program = parse("fn nothing() { } fn main() { print(nothing()) }").unwrap();
    assert_eq!(
        execute(&program).unwrap_err().message,
        "function 'nothing' returned no value"
    );
}

#[test]
fn recursion_computes_factorial() {
    assert_eq!(
        run("fn fact(n: Int) -> Int { if n < 2 { return 1 } return n * fact(n - 1) } fn main() { print(fact(10)) }")
            .unwrap(),
        "3628800\n"
    );
}

#[test]
fn concatenates_strings_that_look_like_numbers() {
    assert_eq!(run("fn main() { print(\"1\" + \"2\") }").unwrap(), "12\n");
}

#[test]
fn array_elements_keep_their_commas() {
    assert_eq!(
        run("fn main() { let xs = [\"a,b\"]; print(xs[0]) }").unwrap(),
        "a,b\n"
    );
    assert_eq!(
        run("fn main() { let xs = [\"a,b\"]; print(xs[1]) }").unwrap_err().message,
        "index out of bounds"
    );
}

#[test]
fn interpreter_and_machine_agree() {
    let sources = [
        "fn main() { print(\"1\" + \"2\") }",
        "fn main() { let xs = [\"a,b\", \"c\"]; xs[1] = \"d\"; print(xs) }",
        "fn main() { let i = 0; while i < 3 { print(-i); i = i + 1 } }",
        "fn main() { print(1 < 2); print([1, 2] == [1, 2]) }",
        "fn main() { print(1, 2) }",
        "fn main() { for (let i = 0; i < 6; i = i + 1) { if i == 1 { continue } if i == 4 { break } print(i) } return 0 }",
        "fn main() { let n = 3; while n > 0 { print(n * n); n = n - 1 } print(n / 0) }",
        "fn main() { let xs = [[1], [2, 3]]; print(xs[1][0] + xs[0][0]); print(xs[2]) }",
        "fn g() -> Int { return 1 } fn f() -> Int { g(); return 5 } fn main() { print(2 + f()) }",
        "fn add(a: Int, b: Int) -> Int { return a + b } fn main() { print(add(20, add(1, 1))) }",
        "fn fact(n: Int) -> Int { if n < 2 { return 1 } return n * fact(n - 1) } fn main() { print(fact(10)) }",
        "fn loud(s: String) -> Bool { print(s); return true } fn main() { print(false && loud(\"a\")); print(loud(\"b\") || loud(\"c\")) }",
        "fn main() { missing(1) }",
        "fn print() { } fn main() { print() }",
    ];
    for source in sources {
        let program = parse(source).unwrap();
        let interpreted = execute(&program).map_err(|e| e.message);
        let machine = execute_program(&program).map_err(|e| e.message);
        assert_eq!(interpreted, machine, "{}", source);
    }
    let program = parse("fn main() { print(1, 2) }").unwrap();
    assert_eq!(execute(&program).unwrap(), "1\n");
}

#[test]
fn reports_print_without_argument_when_run() {
    let program = parse("fn main() { print() }").unwrap();
    assert_eq!(execute(&program).unwrap_err().message, "index out of bounds");
    assert_eq!(execute_program(&program).unwrap_err().message, "index out of bounds");
}

#[test]
fn unexecuted_print_without_argument_is_harmless() {
    let program = parse("fn print() { } fn main() { if false { print() } print(7) }").unwrap();
    assert_eq!(execute(&program).unwrap(), "7\n");
    assert_eq!(execute_program(&program).unwrap(), "7\n");
}

#[test]
fn print_is_the_builtin_even_beside_a_function_of_that_name() {
    let program = parse("fn print() { } fn main() { print() }").unwrap();
    assert_eq!(axiom_native::semantic::analyze(&program), Ok(()));
    assert_eq!(execute(&program).unwrap_err().message, "index out of bounds");
    assert_eq!(execute_program(&program).unwrap_err().message, "index out of bounds");
}

#[test]
fn conditions_must_be_booleans() {
    let program = parse("fn main() { if 1 { print(1) } }").unwrap();
    assert_eq!(execute(&program).unwrap_err().message, "expected Bool value");
}

#[test]
fn float_literals_compare_by_text() {
    assert_eq!(run("fn main() { print(2.5 == 2.5) }").unwrap(), "true\n");
}

#[test]
fn output_only_grows_across_calls() {
    assert_eq!(
        run("fn f() -> Int { print(\"a\"); return 1 } fn main() { print(\"b\"); print(f() + f()) }")
            .unwrap(),
        "b\na\na\n2\n"
    );
}

#[test]
fn indexed_write_then_read() {
    assert_eq!(
        run("fn main() { let xs = [1, 2, 3]; xs[1] = 9; print(xs[1]); print(xs[0]); print(xs) }")
            .unwrap(),
        "9\n1\n[1, 9, 3]\n"
    );
}

#[test]
fn a_missing_value_stops_only_the_interpreter() {
    let program = parse("fn f() { } fn main() { print(f()) }").unwrap();
    assert_eq!(execute(&program).unwrap_err().message, "function 'f' returned no value");
    assert_eq!(execute_program(&program).unwrap_err().message, "stack underflow");
}

#[test]
fn a_called_function_keeps_its_stack_to_itself() {
    let source = "fn g() -> Int { return 1 } fn f() -> Int { g(); return 5 } fn main() { print(2 + f()) }";
    let program = parse(source).unwrap();
    assert_eq!(execute_program(&program).unwrap(), "7\n");
    assert_eq!(run(source).unwrap(), "7\n");
}
