use axiom_native::ir::{lower_program, Instruction};
use axiom_native::parser::parse;

#[test]
fn lowers_main_function() {
    let program = parse("fn main() { print(42) }").unwrap();
    let lowered = lower_program(&program);
    assert_eq!(lowered.functions[0].name, "main");
    assert!(lowered.functions[0]
        .instructions
        .iter()
        .any(|instruction| matches!(instruction, Instruction::Print)));
}

#[test]
fn lowers_print_of_literal_to_push_and_print() {
    let program = parse("fn main() { print(42) }").unwrap();
    let lowered = lower_program(&program);
    assert_eq!(
        lowered.functions[0].instructions,
        vec![Instruction::PushInt(42), Instruction::Print]
    );
}

#[test]
fn lowers_parameters_by_name() {
    let program = parse("fn add(a: Int, b: Int) -> Int { return a + b } fn main() { }").unwrap();
    let lowered = lower_program(&program);
    assert_eq!(lowered.functions[0].parameters, vec!["a".to_string(), "b".to_string()]);
}

#[test]
fn lowering_two_statements_concatenates_their_code() {
    let both = lower_program(&parse("fn main() { print(1); print(2) }").unwrap());
    let first = lower_program(&parse("fn main() { print(1) }").unwrap());
    let second = lower_program(&parse("fn main() { print(2) }").unwrap());
    let joined: Vec<&Instruction> = first.functions[0]
        .instructions
        .iter()
        .chain(second.functions[0].instructions.iter())
        .collect();
    let whole: Vec<&Instruction> = both.functions[0].instructions.iter().collect();
    assert_eq!(whole, joined);
}

#[test]
fn print_with_several_arguments_prints_the_first() {
    let lowered = lower_program(&parse("fn main() { print(1, 2) }").unwrap());
    assert_eq!(
        lowered.functions[0].instructions,
        vec![Instruction::PushInt(1), Instruction::Print]
    );
}

#[test]
fn nested_assignment_uses_temporaries_from_the_counter() {
    let lowered = lower_program(
        &parse("fn main() { let m = [[1, 2], [3, 4]]; m[1][0] = 99; m[0][1] = 7 }").unwrap(),
    );
    let stored: Vec<&str> = lowered.functions[0]
        .instructions
        .iter()
        .filter_map(|i| match i {
            Instruction::StoreVariable(name) => Some(name.as_str()),
            _ => None,
        })
        .collect();
    assert_eq!(
        stored,
        vec!["m", "__axiom_tmp_0", "__axiom_tmp_0", "m", "__axiom_tmp_1", "__axiom_tmp_1", "m"]
    );
}
