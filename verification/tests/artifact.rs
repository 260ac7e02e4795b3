use axiom_native::ast::{BinaryOperator, UnaryOperator};
use axiom_native::ir::Instruction;
use axiom_native::vm::{execute_artifact, Artifact, CompiledFunction};

fn every_instruction() -> Vec<Instruction> {
    vec![
        Instruction::PushInt(i64::MIN),
        Instruction::PushInt(-42),
        Instruction::PushFloat("2.5e3".to_string()),
        Instruction::PushBool(true),
        Instruction::PushBool(false),
        Instruction::PushString("a;b|c[d]e:f\\g".to_string()),
        Instruction::LoadVariable("x:y".to_string()),
        Instruction::StoreVariable("[z]".to_string()),
        Instruction::MakeArray { length: 3 },
        Instruction::Binary { op: BinaryOperator::Modulo },
        Instruction::Binary { op: BinaryOperator::NotEqual },
        Instruction::Unary { op: UnaryOperator::Negate },
        Instruction::Call { name: "f|g".to_string(), argument_count: 2 },
        Instruction::Index,
        Instruction::StoreIndex,
        Instruction::Print,
        Instruction::Return,
        Instruction::ShortCircuitAnd { right: vec![Instruction::PushBool(true)] },
        Instruction::ShortCircuitOr { right: vec![] },
        Instruction::If {
            then_body: vec![Instruction::Print, Instruction::PushString("]".to_string())],
            else_body: vec![],
        },
        Instruction::While {
            condition: vec![Instruction::PushBool(false)],
            body: vec![Instruction::Break, Instruction::Continue],
        },
        Instruction::For {
            initializer: vec![Instruction::PushInt(0), Instruction::StoreVariable("i".to_string())],
            condition: vec![Instruction::LoadVariable("i".to_string())],
            update: vec![Instruction::If { then_body: vec![Instruction::Break], else_body: vec![] }],
            body: vec![],
        },
    ]
}

#[test]
fn round_trips_every_instruction() {
    let artifact = Artifact {
        functions: vec![
            CompiledFunction {
                name: "odd;name".to_string(),
                parameters: vec!["p:1".to_string(), "q".to_string()],
                instructions: every_instruction(),
            },
            CompiledFunction { name: "main".to_string(), parameters: vec![], instructions: vec![] },
        ],
    };
    let text = artifact.serialize();
    let decoded = Artifact::deserialize(&text).unwrap();
    assert_eq!(decoded, artifact);
}

#[test]
fn round_trips_empty_artifact() {
    let artifact = Artifact { functions: vec![] };
    assert_eq!(artifact.serialize(), "AXIOM_ARTIFACT_V1");
    assert_eq!(Artifact::deserialize(&artifact.serialize()).unwrap(), artifact);
}

#[test]
fn reads_lines_with_carriage_returns() {
    let text = "AXIOM_ARTIFACT_V1\r\nFUNCTION:main\r\nPARAMS:0\r\nINSTR:PushInt:7;Print\r\n";
    let artifact = Artifact::deserialize(text).unwrap();
    assert_eq!(artifact.functions[0].name, "main");
    assert_eq!(execute_artifact(&artifact).unwrap(), "7\n");
}

#[test]
fn skips_lines_outside_function_records() {
    let text = "AXIOM_ARTIFACT_V1\nnote\nFUNCTION:main\nPARAMS:1\nPARAM:x\nINSTR:\nmore";
    let artifact = Artifact::deserialize(text).unwrap();
    assert_eq!(artifact.functions.len(), 1);
    assert_eq!(artifact.functions[0].parameters, vec!["x".to_string()]);
    assert!(artifact.functions[0].instructions.is_empty());
}

#[test]
fn reports_call_encoding_errors() {
    let text = "AXIOM_ARTIFACT_V1\nFUNCTION:main\nPARAMS:0\nINSTR:Call:f|1|2";
    assert_eq!(
        Artifact::deserialize(text).unwrap_err().message,
        "invalid call encoding 'Call:f|1|2'"
    );
    let text = "AXIOM_ARTIFACT_V1\nFUNCTION:main\nPARAMS:0\nINSTR:Call:f|x";
    assert_eq!(Artifact::deserialize(text).unwrap_err().message, "invalid call arity 'Call:f|x'");
}

#[test]
fn reports_unknown_operators() {
    let text = "AXIOM_ARTIFACT_V1\nFUNCTION:main\nPARAMS:0\nINSTR:Binary:Pow";
    assert_eq!(
        Artifact::deserialize(text).unwrap_err().message,
        "unknown binary operator 'Pow'"
    );
    let text = "AXIOM_ARTIFACT_V1\nFUNCTION:main\nPARAMS:0\nINSTR:Unary:Abs";
    assert_eq!(Artifact::deserialize(text).unwrap_err().message, "unknown unary operator 'Abs'");
}

#[test]
fn reports_parameter_errors() {
    let text = "AXIOM_ARTIFACT_V1\nFUNCTION:f\nPARAMS:2\nPARAM:a";
    assert_eq!(Artifact::deserialize(text).unwrap_err().message, "missing parameter for 'f'");
    let text = "AXIOM_ARTIFACT_V1\nFUNCTION:f\nPARAMS:1\nPARAMETER:a\nINSTR:";
    assert_eq!(Artifact::deserialize(text).unwrap_err().message, "invalid parameter entry for 'f'");
    let text = "AXIOM_ARTIFACT_V1\nFUNCTION:f";
    assert_eq!(Artifact::deserialize(text).unwrap_err().message, "missing parameter count for 'f'");
}

#[test]
fn split_pieces_join_back_to_the_text() {
    let text: Vec<char> = "a;b\\;c;[x;y];".chars().collect();
    let parts = axiom_native::artifact::split_chars(&text, ';');
    let joined: Vec<String> = parts.iter().map(|p| p.iter().collect()).collect();
    assert_eq!(joined, vec!["a", "b\\;c", "[x;y]", ""]);
    assert_eq!(joined.join(";"), "a;b\\;c;[x;y];");
}
