use axiom_native::parser::parse;
use axiom_native::runtime::run;
use axiom_native::vm::{build_artifact, compile_program, execute_artifact, execute_program, Artifact};

#[test]
fn executes_print_and_arithmetic() {
    let program = parse("fn main() { let total: Int = 20 + 22; print(total) }").unwrap();
    let output = execute_program(&program).unwrap();
    assert_eq!(output, "42\n");
}

#[test]
fn builds_ir_artifact() {
    let program = parse("fn main() { print(42) }").unwrap();
    let artifact = build_artifact(&program);
    assert!(artifact.contains("FUNCTION:"));
}

#[test]
fn serializes_and_round_trips_artifact() {
    let program = parse("fn main() { print(42) }").unwrap();
    let artifact = compile_program(&program);
    let encoded = artifact.serialize();
    let decoded = Artifact::deserialize(&encoded).unwrap();
    assert_eq!(decoded.functions[0].name, "main");
    assert!(!decoded.functions[0].instructions.is_empty());
}

#[test]
fn executes_deserialized_artifact() {
    let program = parse("fn main() { print(42) }").unwrap();
    let artifact = compile_program(&program);
    let encoded = artifact.serialize();
    let decoded = Artifact::deserialize(&encoded).unwrap();
    let output = execute_artifact(&decoded).unwrap();
    assert_eq!(output, "42\n");
}

#[test]
fn executes_compiled_function_calls() {
    let program =
        parse("fn add(a: Int, b: Int) -> Int { return a + b } fn main() { print(add(20, 22)) }")
            .unwrap();
    let artifact = compile_program(&program);
    let encoded = artifact.serialize();
    let decoded = Artifact::deserialize(&encoded).unwrap();
    let output = execute_artifact(&decoded).unwrap();
    assert_eq!(output, "42\n");
}

#[test]
fn executes_compiled_chained_array_indexing() {
    let program = parse("fn main() { print([[10, 20]][0][1]) }").unwrap();
    let artifact = compile_program(&program);
    let encoded = artifact.serialize();
    let decoded = Artifact::deserialize(&encoded).unwrap();
    let output = execute_artifact(&decoded).unwrap();
    assert_eq!(output, "20\n");
}

#[test]
fn executes_compiled_nested_indexed_assignment() {
    let program = parse(
        "fn main() { let matrix = [[10, 20], [30, 40]]; matrix[1][0] = 99; print(matrix[1][0]) }",
    )
    .unwrap();
    let artifact = compile_program(&program);
    let encoded = artifact.serialize();
    let decoded = Artifact::deserialize(&encoded).unwrap();
    let output = execute_artifact(&decoded).unwrap();
    assert_eq!(output, "99\n");
}

fn through_artifact(source: &str) -> String {
    let program = parse(source).unwrap();
    let decoded = Artifact::deserialize(&build_artifact(&program)).unwrap();
    execute_artifact(&decoded).unwrap()
}

#[test]
fn less_than_runs_in_source_and_compiled_artifact() {
    let source = "fn main() { let count: Int = 0; while count < 3 { print(count); count = count + 1 } }";
    assert_eq!(run(source).unwrap(), "0\n1\n2\n");
    assert_eq!(through_artifact(source), "0\n1\n2\n");
}

#[test]
fn unary_negation_runs_in_source_and_compiled_artifact() {
    let source = "fn main() { print(-(2 + 3)); print(-2 * 3) }";
    assert_eq!(run(source).unwrap(), "-5\n-6\n");
    assert_eq!(through_artifact(source), "-5\n-6\n");
}

#[test]
fn for_loops_with_break_and_continue_run_compiled() {
    let source = "fn main() { for (let i: Int = 0; i < 5; i = i + 1) { if i == 2 { continue } if i == 4 { break } print(i) } }";
    assert_eq!(through_artifact(source), "0\n1\n3\n");
}

#[test]
fn short_circuit_runs_compiled() {
    let source = "fn loud() -> Bool { print(\"called\"); return true } fn main() { print(false && loud()); print(true || loud()); print(true && loud()) }";
    assert_eq!(through_artifact(source), "false\ntrue\ncalled\ntrue\n");
}

#[test]
fn escapes_special_characters_in_strings() {
    let source = "fn main() { print(\"a;b|c[d]e:f\\g\") }";
    let program = parse(source).unwrap();
    let text = build_artifact(&program);
    assert!(text.contains("PushString:a\\;b\\|c\\[d\\]e\\:f\\\\g"));
    let decoded = Artifact::deserialize(&text).unwrap();
    assert_eq!(decoded, compile_program(&program));
}

#[test]
fn serialized_text_has_expected_layout() {
    let program = parse("fn add(a: Int, b: Int) -> Int { return a + b } fn main() { print(add(1, 2)) }").unwrap();
    let text = build_artifact(&program);
    let lines: Vec<&str> = text.lines().collect();
    assert_eq!(lines[0], "AXIOM_ARTIFACT_V1");
    assert_eq!(lines[1], "FUNCTION:add");
    assert_eq!(lines[2], "PARAMS:2");
    assert_eq!(lines[3], "PARAM:a");
    assert_eq!(lines[4], "PARAM:b");
    assert_eq!(lines[5], "INSTR:LoadVariable:a;LoadVariable:b;Binary:Add;Return");
    assert_eq!(lines[6], "FUNCTION:main");
    assert_eq!(lines[7], "PARAMS:0");
    assert_eq!(lines[8], "INSTR:PushInt:1;PushInt:2;Call:add|2;Print");
}

#[test]
fn rejects_bad_artifact_headers() {
    assert_eq!(Artifact::deserialize("").unwrap_err().message, "missing artifact header");
    assert_eq!(
        Artifact::deserialize("AXIOM_ARTIFACT_V2").unwrap_err().message,
        "unsupported artifact format"
    );
}

#[test]
fn reports_artifact_decoding_errors() {
    let bad_count = "AXIOM_ARTIFACT_V1\nFUNCTION:main\nPARAMS:x";
    assert_eq!(
        Artifact::deserialize(bad_count).unwrap_err().message,
        "invalid parameter count for 'main'"
    );
    let missing_instructions = "AXIOM_ARTIFACT_V1\nFUNCTION:main\nPARAMS:0";
    assert_eq!(
        Artifact::deserialize(missing_instructions).unwrap_err().message,
        "missing instructions for 'main'"
    );
    let bad_instruction = "AXIOM_ARTIFACT_V1\nFUNCTION:main\nPARAMS:0\nINSTR:Jump";
    assert_eq!(
        Artifact::deserialize(bad_instruction).unwrap_err().message,
        "unknown serialized instruction 'Jump'"
    );
    let bad_block = "AXIOM_ARTIFACT_V1\nFUNCTION:main\nPARAMS:0\nINSTR:If[Print";
    assert_eq!(Artifact::deserialize(bad_block).unwrap_err().message, "missing block end");
    let bad_int = "AXIOM_ARTIFACT_V1\nFUNCTION:main\nPARAMS:0\nINSTR:PushInt:12x";
    assert_eq!(
        Artifact::deserialize(bad_int).unwrap_err().message,
        "invalid integer literal '12x'"
    );
}

#[test]
fn vm_reports_runtime_errors() {
    let program = parse("fn main() { print(1 / 0) }").unwrap();
    assert_eq!(execute_program(&program).unwrap_err().message, "division by zero");
    let program = parse("fn main() { let xs = [1]; print(xs[3]) }").unwrap();
    assert_eq!(execute_program(&program).unwrap_err().message, "index out of bounds");
}

#[test]
fn vm_rejects_float_values() {
    let program = parse("fn main() { print(1.5) }").unwrap();
    assert_eq!(
        execute_program(&program).unwrap_err().message,
        "floating-point values are not supported by the virtual machine"
    );
}

#[test]
fn vm_reports_missing_main() {
    let program = parse("fn other() { print(1) }").unwrap();
    assert_eq!(execute_program(&program).unwrap_err().message, "unknown function 'main'");
}
