//! The stack-machine instruction set and the lowering of programs to it.
use vstd::prelude::*;
use crate::ast::{
    BinaryOperator, Call, CallView, Expression, ExpressionView, FunctionView, Program,
    Statement, StatementView, Type, UnaryOperator, expression_view, expressions_view,
    statement_view, statements_view, function_view, lemma_expressions_view,
    lemma_statements_view, copy_optional_type,
};
use crate::text::{decimal, usize_to_chars, string_from};

verus! {

#[derive(Debug, PartialEq, Eq)]
pub enum Instruction {
    PushInt(i64),
    PushFloat(String),
    PushBool(bool),
    PushString(String),
    LoadVariable(String),
    StoreVariable(String),
    MakeArray { length: usize },
    Binary { op: BinaryOperator },
    ShortCircuitAnd { right: Vec<Instruction> },
    ShortCircuitOr { right: Vec<Instruction> },
    Unary { op: UnaryOperator },
    Call { name: String, argument_count: usize },
    Index,
    StoreIndex,
    Print,
    Return,
    If { then_body: Vec<Instruction>, else_body: Vec<Instruction> },
    While { condition: Vec<Instruction>, body: Vec<Instruction> },
    For {
        initializer: Vec<Instruction>,
        condition: Vec<Instruction>,
        update: Vec<Instruction>,
        body: Vec<Instruction>,
    },
    Break,
    Continue,
}

#[derive(Debug, PartialEq, Eq)]
pub struct LoweredFunction {
    pub name: String,
    pub parameters: Vec<String>,
    pub return_type: Option<Type>,
    pub instructions: Vec<Instruction>,
}

#[derive(Debug, PartialEq, Eq)]
pub struct LoweredProgram {
    pub functions: Vec<LoweredFunction>,
}

pub enum InstructionView {
    PushInt(i64),
    PushFloat(Seq<char>),
    PushBool(bool),
    PushString(Seq<char>),
    LoadVariable(Seq<char>),
    StoreVariable(Seq<char>),
    MakeArray { length: usize },
    Binary { op: BinaryOperator },
    ShortCircuitAnd { right: Seq<InstructionView> },
    ShortCircuitOr { right: Seq<InstructionView> },
    Unary { op: UnaryOperator },
    Call { name: Seq<char>, argument_count: usize },
    Index,
    StoreIndex,
    Print,
    Return,
    If { then_body: Seq<InstructionView>, else_body: Seq<InstructionView> },
    While { condition: Seq<InstructionView>, body: Seq<InstructionView> },
    For {
        initializer: Seq<InstructionView>,
        condition: Seq<InstructionView>,
        update: Seq<InstructionView>,
        body: Seq<InstructionView>,
    },
    Break,
    Continue,
}

pub struct LoweredFunctionView {
    pub name: Seq<char>,
    pub parameters: Seq<Seq<char>>,
    pub return_type: Option<Type>,
    pub instructions: Seq<InstructionView>,
}

pub open spec fn instruction_view(i: Instruction) -> InstructionView
    decreases i,
{
    match i {
        Instruction::PushInt(v) => InstructionView::PushInt(v),
        Instruction::PushFloat(s) => InstructionView::PushFloat(s@),
        Instruction::PushBool(b) => InstructionView::PushBool(b),
        Instruction::PushString(s) => InstructionView::PushString(s@),
        Instruction::LoadVariable(s) => InstructionView::LoadVariable(s@),
        Instruction::StoreVariable(s) => InstructionView::StoreVariable(s@),
        Instruction::MakeArray { length } => InstructionView::MakeArray { length },
        Instruction::Binary { op } => InstructionView::Binary { op },
        Instruction::ShortCircuitAnd { right } => InstructionView::ShortCircuitAnd {
            right: instructions_view(right@),
        },
        Instruction::ShortCircuitOr { right } => InstructionView::ShortCircuitOr {
            right: instructions_view(right@),
        },
        Instruction::Unary { op } => InstructionView::Unary { op },
        Instruction::Call { name, argument_count } => InstructionView::Call {
            name: name@,
            argument_count,
        },
        Instruction::Index => InstructionView::Index,
        Instruction::StoreIndex => InstructionView::StoreIndex,
        Instruction::Print => InstructionView::Print,
        Instruction::Return => InstructionView::Return,
        Instruction::If { then_body, else_body } => InstructionView::If {
            then_body: instructions_view(then_body@),
            else_body: instructions_view(else_body@),
        },
        Instruction::While { condition, body } => InstructionView::While {
            condition: instructions_view(condition@),
            body: instructions_view(body@),
        },
        Instruction::For { initializer, condition, update, body } => InstructionView::For {
            initializer: instructions_view(initializer@),
            condition: instructions_view(condition@),
            update: instructions_view(update@),
            body: instructions_view(body@),
        },
        Instruction::Break => InstructionView::Break,
        Instruction::Continue => InstructionView::Continue,
    }
}

pub open spec fn instructions_view(is: Seq<Instruction>) -> Seq<InstructionView>
    decreases is,
{
    if is.len() == 0 {
        seq![]
    } else {
        instructions_view(is.drop_last()).push(instruction_view(is.last()))
    }
}

pub open spec fn strings_view(ss: Seq<String>) -> Seq<Seq<char>> {
    ss.map_values(|s: String| s@)
}

pub open spec fn lowered_function_view(f: LoweredFunction) -> LoweredFunctionView {
    LoweredFunctionView {
        name: f.name@,
        parameters: strings_view(f.parameters@),
        return_type: f.return_type,
        instructions: instructions_view(f.instructions@),
    }
}

pub open spec fn lowered_functions_view(fs: Seq<LoweredFunction>) -> Seq<LoweredFunctionView> {
    fs.map_values(|f: LoweredFunction| lowered_function_view(f))
}

pub proof fn lemma_instructions_view(is: Seq<Instruction>)
    ensures
        instructions_view(is).len() == is.len(),
        forall|k: int| 0 <= k < is.len() ==> #[trigger] instructions_view(is)[k] == instruction_view(is[k]),
    decreases is.len(),
{
    if is.len() > 0 {
        lemma_instructions_view(is.drop_last());
    }
}

pub proof fn lemma_instructions_view_append(a: Seq<Instruction>, b: Seq<Instruction>)
    ensures
        instructions_view(a + b) == instructions_view(a) + instructions_view(b),
    decreases b.len(),
{
    if b.len() == 0 {
        assert(a + b =~= a);
        assert(instructions_view(a) + instructions_view(b) =~= instructions_view(a));
    } else {
        lemma_instructions_view_append(a, b.drop_last());
        assert((a + b).drop_last() =~= a + b.drop_last());
        assert((a + b).last() == b.last());
        assert(instructions_view(a) + instructions_view(b) =~= (instructions_view(a)
            + instructions_view(b.drop_last())).push(instruction_view(b.last())));
    }
}

pub proof fn lemma_instructions_view_push(a: Seq<Instruction>, i: Instruction)
    ensures
        instructions_view(a.push(i)) == instructions_view(a).push(instruction_view(i)),
{
    assert(a.push(i).drop_last() =~= a);
}

// ----- specification of lowering -----
/// The name of the `k`-th temporary of a function.
pub open spec fn temp_name(k: nat) -> Seq<char> {
    "__axiom_tmp_"@ + decimal(k)
}

/// The temporary counter after one more temporary; it stays put at the top of
/// its range.
pub open spec fn next_counter(k: nat) -> nat {
    if k < usize::MAX {
        k + 1
    } else {
        k
    }
}

/// A call statement of `print`, which is always the builtin: it prints its
/// first argument.
pub open spec fn is_print_call(c: CallView) -> bool {
    c.name =~= seq!['p', 'r', 'i', 'n', 't']
}

/// The code of a `print` statement that has no argument: it indexes an empty
/// list of arguments at 0, and so fails with `index out of bounds`.
pub open spec fn missing_argument_code() -> Seq<InstructionView> {
    seq![
        InstructionView::MakeArray { length: 0 },
        InstructionView::PushInt(0),
        InstructionView::Index,
    ]
}

pub open spec fn lower_expression(e: ExpressionView) -> Seq<InstructionView>
    decreases e,
{
    match e {
        ExpressionView::String(s) => seq![InstructionView::PushString(s)],
        ExpressionView::Integer(v) => seq![InstructionView::PushInt(v)],
        ExpressionView::Float(s) => seq![InstructionView::PushFloat(s)],
        ExpressionView::Boolean(b) => seq![InstructionView::PushBool(b)],
        ExpressionView::Array(values) => lower_expressions(values).push(
            InstructionView::MakeArray { length: values.len() as usize },
        ),
        ExpressionView::Variable(name) => seq![InstructionView::LoadVariable(name)],
        ExpressionView::Binary { left, operator, right } => if operator == BinaryOperator::And {
            lower_expression(*left).push(
                InstructionView::ShortCircuitAnd { right: lower_expression(*right) },
            )
        } else if operator == BinaryOperator::Or {
            lower_expression(*left).push(
                InstructionView::ShortCircuitOr { right: lower_expression(*right) },
            )
        } else {
            (lower_expression(*left) + lower_expression(*right)).push(
                InstructionView::Binary { op: operator },
            )
        },
        ExpressionView::Unary { operator, operand } => lower_expression(*operand).push(
            InstructionView::Unary { op: operator },
        ),
        ExpressionView::Index { target, index } => (lower_expression(*target) + lower_expression(
            *index,
        )).push(InstructionView::Index),
        ExpressionView::Call(c) => lower_expressions(c.arguments).push(
            InstructionView::Call { name: c.name, argument_count: c.arguments.len() as usize },
        ),
    }
}

/// The instructions of each expression, one after the other.
pub open spec fn lower_expressions(es: Seq<ExpressionView>) -> Seq<InstructionView>
    decreases es,
{
    if es.len() == 0 {
        seq![]
    } else {
        lower_expressions(es.drop_last()) + lower_expression(es.last())
    }
}

/// The innermost target of a chain of indexings, and the index expressions
/// from the innermost to the outermost.
pub open spec fn index_base(e: ExpressionView) -> ExpressionView
    decreases e,
{
    match e {
        ExpressionView::Index { target, .. } => index_base(*target),
        _ => e,
    }
}

pub open spec fn index_path(e: ExpressionView) -> Seq<ExpressionView>
    decreases e,
{
    match e {
        ExpressionView::Index { target, index } => index_path(*target).push(*index),
        _ => seq![],
    }
}

/// The counter after `n` temporaries.
pub open spec fn counter_after(counter: nat, n: nat) -> nat
    decreases n,
{
    if n == 0 {
        counter
    } else {
        next_counter(counter_after(counter, (n - 1) as nat))
    }
}

/// Loading the nested arrays down to the innermost one, `k` levels deep.
pub open spec fn descend(
    base: Seq<char>,
    counter: nat,
    path: Seq<ExpressionView>,
    k: int,
) -> Seq<InstructionView>
    decreases k,
{
    if k <= 0 {
        seq![]
    } else {
        descend(base, counter, path, k - 1) + seq![
            InstructionView::LoadVariable(temp_or_base(base, counter, k - 1)),
        ] + lower_expression(path[k - 1]) + seq![
            InstructionView::Index,
            InstructionView::StoreVariable(temp_or_base(base, counter, k)),
        ]
    }
}

/// Like `path_variable`, with the temporaries numbered from a saturating
/// counter.
pub open spec fn temp_or_base(base: Seq<char>, counter: nat, k: int) -> Seq<char> {
    if k <= 0 {
        base
    } else {
        temp_name(counter_after(counter, (k - 1) as nat))
    }
}

/// Writing the updated arrays back up, from level `k - 1` to the base.
pub open spec fn ascend(
    base: Seq<char>,
    counter: nat,
    path: Seq<ExpressionView>,
    k: int,
) -> Seq<InstructionView>
    decreases k,
{
    if k <= 0 {
        seq![]
    } else {
        seq![InstructionView::LoadVariable(temp_or_base(base, counter, k - 1))] + lower_expression(
            path[k - 1],
        ) + seq![
            InstructionView::LoadVariable(temp_or_base(base, counter, k)),
            InstructionView::StoreIndex,
            InstructionView::StoreVariable(temp_or_base(base, counter, k - 1)),
        ] + ascend(base, counter, path, k - 1)
    }
}

/// The instructions of an assignment, and the counter after it.
pub open spec fn lower_assignment(
    target: ExpressionView,
    value: ExpressionView,
    counter: nat,
) -> (Seq<InstructionView>, nat) {
    match target {
        ExpressionView::Variable(name) => (
            lower_expression(value).push(InstructionView::StoreVariable(name)),
            counter,
        ),
        ExpressionView::Index { .. } => match index_base(target) {
            ExpressionView::Variable(base) => {
                let path = index_path(target);
                let n = path.len() as int;
                let last = temp_or_base(base, counter, n - 1);
                (descend(base, counter, path, n - 1) + seq![InstructionView::LoadVariable(last)]
                    + lower_expression(path[n - 1]) + lower_expression(value) + seq![
                    InstructionView::StoreIndex,
                    InstructionView::StoreVariable(last),
                ] + ascend(base, counter, path, n - 1), counter_after(counter, (n - 1) as nat))
            },
            _ => (
                lower_expression(value).push(InstructionView::StoreVariable("_tmp"@)),
                counter,
            ),
        },
        _ => (lower_expression(value).push(InstructionView::StoreVariable("_tmp"@)), counter),
    }
}

/// The instructions of one statement, and the counter after it.
pub open spec fn lower_statement(s: StatementView, counter: nat) -> (Seq<InstructionView>, nat)
    decreases s,
{
    match s {
        StatementView::Let { name, value, .. } => (
            lower_expression(value).push(InstructionView::StoreVariable(name)),
            counter,
        ),
        StatementView::Call(c) => if is_print_call(c) {
            if c.arguments.len() == 0 {
                (missing_argument_code(), counter)
            } else {
                (lower_expression(c.arguments[0]).push(InstructionView::Print), counter)
            }
        } else {
            (
                lower_expressions(c.arguments).push(
                    InstructionView::Call {
                        name: c.name,
                        argument_count: c.arguments.len() as usize,
                    },
                ),
                counter,
            )
        },
        StatementView::Return(value) => (
            lower_expression(value).push(InstructionView::Return),
            counter,
        ),
        StatementView::If { condition, then_body, else_body } => {
            let (then_code, c1) = lower_block(then_body, counter);
            let (else_code, c2) = lower_block(else_body, c1);
            (
                lower_expression(condition).push(
                    InstructionView::If { then_body: then_code, else_body: else_code },
                ),
                c2,
            )
        },
        StatementView::Assign { target, value } => lower_assignment(target, value, counter),
        StatementView::While { condition, body } => {
            let (body_code, c1) = lower_block(body, counter);
            (
                seq![
                    InstructionView::While {
                        condition: lower_expression(condition),
                        body: body_code,
                    },
                ],
                c1,
            )
        },
        StatementView::For { initializer, condition, update, body } => {
            let (init_code, c1) = match initializer {
                Some(init) => lower_statement(*init, counter),
                None => (seq![], counter),
            };
            let (update_code, c2) = match update {
                Some(u) => lower_statement(*u, c1),
                None => (seq![], c1),
            };
            let (body_code, c3) = lower_block(body, c2);
            (
                seq![
                    InstructionView::For {
                        initializer: init_code,
                        condition: lower_expression(condition),
                        update: update_code,
                        body: body_code,
                    },
                ],
                c3,
            )
        },
        StatementView::Break => (seq![InstructionView::Break], counter),
        StatementView::Continue => (seq![InstructionView::Continue], counter),
    }
}

/// The instructions of a block, with the temporaries numbered from `counter`.
pub open spec fn lower_block(ss: Seq<StatementView>, counter: nat) -> (Seq<InstructionView>, nat)
    decreases ss,
{
    if ss.len() == 0 {
        (seq![], counter)
    } else {
        let (first, c1) = lower_statement(ss[0], counter);
        let (rest, c2) = lower_block(ss.drop_first(), c1);
        (first + rest, c2)
    }
}

pub open spec fn parameter_names(ps: Seq<crate::ast::ParameterView>) -> Seq<Seq<char>> {
    ps.map_values(|p: crate::ast::ParameterView| p.name)
}

pub open spec fn lower_functions(fs: Seq<FunctionView>) -> Seq<LoweredFunctionView> {
    fs.map_values(|f: FunctionView| lower_function(f))
}

pub open spec fn lower_function(f: FunctionView) -> LoweredFunctionView {
    LoweredFunctionView {
        name: f.name,
        parameters: parameter_names(f.parameters),
        return_type: f.return_type,
        instructions: lower_block(f.body, 0).0,
    }
}

// ----- executable lowering -----
pub proof fn lemma_lower_expressions_push(es: Seq<ExpressionView>, e: ExpressionView)
    ensures
        lower_expressions(es.push(e)) == lower_expressions(es) + lower_expression(e),
{
    assert(es.push(e).drop_last() =~= es);
}

fn temp(k: usize) -> (r: String)
    ensures
        r@ == temp_name(k as nat),
{
    let digits = usize_to_chars(k);
    let mut name = "__axiom_tmp_".to_owned();
    let text = string_from(&digits);
    name.append(text.as_str());
    name
}

fn push_code(code: &mut Vec<Instruction>, i: Instruction)
    ensures
        instructions_view(final(code)@) == instructions_view(old(code)@).push(instruction_view(i)),
{
    let ghost before = code@;
    code.push(i);
    proof {
        lemma_instructions_view_push(before, i);
    }
}

fn append_code(code: &mut Vec<Instruction>, more: Vec<Instruction>)
    ensures
        instructions_view(final(code)@) == instructions_view(old(code)@) + instructions_view(more@),
{
    let ghost before = code@;
    let mut more = more;
    let ghost added = more@;
    code.append(&mut more);
    proof {
        lemma_instructions_view_append(before, added);
    }
}

fn lower_expression_code(e: &Expression) -> (r: Vec<Instruction>)
    ensures
        instructions_view(r@) == lower_expression(expression_view(*e)),
    decreases e,
{
    match e {
        Expression::String(s) => {
            let mut code = Vec::new();
            push_code(&mut code, Instruction::PushString(s.clone()));
            proof {
                assert(instructions_view(code@) =~= seq![InstructionView::PushString(s@)]);
            }
            code
        },
        Expression::Integer(v) => {
            let mut code = Vec::new();
            push_code(&mut code, Instruction::PushInt(*v));
            proof {
                assert(instructions_view(code@) =~= seq![InstructionView::PushInt(*v)]);
            }
            code
        },
        Expression::Float(s) => {
            let mut code = Vec::new();
            push_code(&mut code, Instruction::PushFloat(s.clone()));
            proof {
                assert(instructions_view(code@) =~= seq![InstructionView::PushFloat(s@)]);
            }
            code
        },
        Expression::Boolean(b) => {
            let mut code = Vec::new();
            push_code(&mut code, Instruction::PushBool(*b));
            proof {
                assert(instructions_view(code@) =~= seq![InstructionView::PushBool(*b)]);
            }
            code
        },
        Expression::Array(values) => {
            let mut code = lower_expressions_code(values);
            proof {
                lemma_expressions_view(values@);
            }
            push_code(&mut code, Instruction::MakeArray { length: values.len() });
            code
        },
        Expression::Variable(name) => {
            let mut code = Vec::new();
            push_code(&mut code, Instruction::LoadVariable(name.clone()));
            proof {
                assert(instructions_view(code@) =~= seq![InstructionView::LoadVariable(name@)]);
            }
            code
        },
        Expression::Binary { left, operator, right } => {
            let mut code = lower_expression_code(left);
            match operator {
                BinaryOperator::And => {
                    let r = lower_expression_code(right);
                    push_code(&mut code, Instruction::ShortCircuitAnd { right: r });
                },
                BinaryOperator::Or => {
                    let r = lower_expression_code(right);
                    push_code(&mut code, Instruction::ShortCircuitOr { right: r });
                },
                _ => {
                    let r = lower_expression_code(right);
                    append_code(&mut code, r);
                    push_code(&mut code, Instruction::Binary { op: *operator });
                },
            }
            code
        },
        Expression::Unary { operator, operand } => {
            let mut code = lower_expression_code(operand);
            push_code(&mut code, Instruction::Unary { op: *operator });
            code
        },
        Expression::Index { target, index } => {
            let mut code = lower_expression_code(target);
            let i = lower_expression_code(index);
            append_code(&mut code, i);
            push_code(&mut code, Instruction::Index);
            code
        },
        Expression::Call(c) => {
            let mut code = lower_expressions_code(&c.arguments);
            proof {
                lemma_expressions_view(c.arguments@);
            }
            push_code(
                &mut code,
                Instruction::Call { name: c.name.clone(), argument_count: c.arguments.len() },
            );
            code
        },
    }
}

fn lower_expressions_code(es: &Vec<Expression>) -> (r: Vec<Instruction>)
    ensures
        instructions_view(r@) == lower_expressions(expressions_view(es@)),
    decreases es,
{
    let mut code: Vec<Instruction> = Vec::new();
    let ghost ev = expressions_view(es@);
    proof {
        lemma_expressions_view(es@);
        assert(instructions_view(code@) =~= seq![]);
        assert(ev.subrange(0, 0) =~= seq![]);
    }
    let mut i: usize = 0;
    while i < es.len()
        invariant
            i <= es@.len(),
            ev == expressions_view(es@),
            ev.len() == es@.len(),
            forall|k: int| 0 <= k < es@.len() ==> #[trigger] ev[k] == expression_view(es@[k]),
            instructions_view(code@) == lower_expressions(ev.subrange(0, i as int)),
        decreases es@.len() - i,
    {
        let more = lower_expression_code(&es[i]);
        append_code(&mut code, more);
        proof {
            assert(ev.subrange(0, i + 1) =~= ev.subrange(0, i as int).push(ev[i as int]));
            lemma_lower_expressions_push(ev.subrange(0, i as int), ev[i as int]);
        }
        i = i + 1;
    }
    proof {
        assert(ev.subrange(0, ev.len() as int) =~= ev);
    }
    code
}

pub open spec fn refs_view(es: Seq<&Expression>) -> Seq<ExpressionView> {
    es.map_values(|e: &Expression| expression_view(*e))
}

/// The base and the index path of an indexing chain.
fn index_parts(e: &Expression) -> (r: (&Expression, Vec<&Expression>))
    ensures
        expression_view(*r.0) == index_base(expression_view(*e)),
        refs_view(r.1@) == index_path(expression_view(*e)),
    decreases e,
{
    match e {
        Expression::Index { target, index } => {
            let (base, mut path) = index_parts(target);
            let ghost before = path@;
            let i: &Expression = index;
            path.push(i);
            proof {
                assert(refs_view(path@) =~= refs_view(before).push(expression_view(*i)));
            }
            (base, path)
        },
        _ => {
            let path: Vec<&Expression> = Vec::new();
            proof {
                assert(refs_view(path@) =~= seq![]);
            }
            (e, path)
        },
    }
}

pub proof fn lemma_counter_after_bound(c: nat, n: nat)
    requires
        c <= usize::MAX,
    ensures
        counter_after(c, n) <= usize::MAX,
    decreases n,
{
    if n > 0 {
        lemma_counter_after_bound(c, (n - 1) as nat);
    }
}

/// The code of an assignment to a target that is no variable: the value is
/// computed and stored in a scratch variable.
fn store_discarded(value: &Expression) -> (r: Vec<Instruction>)
    ensures
        instructions_view(r@) == lower_expression(expression_view(*value)).push(
            InstructionView::StoreVariable("_tmp"@),
        ),
{
    let mut code = lower_expression_code(value);
    push_code(&mut code, Instruction::StoreVariable("_tmp".to_owned()));
    code
}

fn lower_assignment_code(target: &Expression, value: &Expression, counter: &mut usize) -> (r: Vec<
    Instruction,
>)
    ensures
        instructions_view(r@) == lower_assignment(
            expression_view(*target),
            expression_view(*value),
            *old(counter) as nat,
        ).0,
        *final(counter) as nat == lower_assignment(
            expression_view(*target),
            expression_view(*value),
            *old(counter) as nat,
        ).1,
{
    let ghost c0 = *counter as nat;
    let ghost tv = expression_view(*target);
    match target {
        Expression::Variable(name) => {
            let mut code = lower_expression_code(value);
            push_code(&mut code, Instruction::StoreVariable(name.clone()));
            return code;
        },
        Expression::Index { .. } => {},
        _ => {
            return store_discarded(value);
        },
    }
    let (base, path) = index_parts(target);
    let base_name = match base {
        Expression::Variable(name) => name,
        _ => {
            return store_discarded(value);
        },
    };
    let ghost pv = refs_view(path@);
    let n = path.len();
    proof {
        assert(n >= 1) by {
            match target {
                Expression::Index { target: t, index: i } => {
                    assert(index_path(tv) == index_path(expression_view(**t)).push(
                        expression_view(**i),
                    ));
                },
                _ => {},
            }
        }
    }
    // Descend: load each nested array into its own temporary.
    let mut code: Vec<Instruction> = Vec::new();
    let mut names: Vec<String> = Vec::new();
    names.push(base_name.clone());
    proof {
        assert(instructions_view(code@) =~= descend(base_name@, c0, pv, 0));
    }
    let mut k: usize = 0;
    while k + 1 < n
        invariant
            n == path@.len(),
            pv == refs_view(path@),
            pv.len() == n,
            n >= 1,
            k + 1 <= n,
            names@.len() == k + 1,
            forall|j: int| 0 <= j <= k ==> #[trigger] names@[j]@ == temp_or_base(base_name@, c0, j),
            instructions_view(code@) == descend(base_name@, c0, pv, k as int),
            *counter as nat == counter_after(c0, k as nat),
            c0 <= usize::MAX,
        decreases n - k,
    {
        push_code(&mut code, Instruction::LoadVariable(names[k].clone()));
        let index_code = lower_expression_code(path[k]);
        append_code(&mut code, index_code);
        push_code(&mut code, Instruction::Index);
        let name = temp(*counter);
        push_code(&mut code, Instruction::StoreVariable(name.clone()));
        proof {
            lemma_counter_after_bound(c0, k as nat);
        }
        if *counter < usize::MAX {
            *counter = *counter + 1;
        }
        names.push(name);
        proof {
            assert(instructions_view(code@) =~= descend(base_name@, c0, pv, k + 1));
        }
        k = k + 1;
    }
    // Store into the innermost array.
    push_code(&mut code, Instruction::LoadVariable(names[n - 1].clone()));
    let last_index = lower_expression_code(path[n - 1]);
    append_code(&mut code, last_index);
    let value_code = lower_expression_code(value);
    append_code(&mut code, value_code);
    push_code(&mut code, Instruction::StoreIndex);
    push_code(&mut code, Instruction::StoreVariable(names[n - 1].clone()));
    // Ascend: write each updated array back into its parent.
    let mut up: Vec<Instruction> = Vec::new();
    let mut j: usize = n - 1;
    proof {
        assert(instructions_view(up@) + ascend(base_name@, c0, pv, (n - 1) as int) =~= ascend(
            base_name@,
            c0,
            pv,
            (n - 1) as int,
        ));
    }
    while j > 0
        invariant
            n == path@.len(),
            pv == refs_view(path@),
            pv.len() == n,
            j <= n - 1,
            names@.len() == n,
            forall|i: int| 0 <= i < n ==> #[trigger] names@[i]@ == temp_or_base(base_name@, c0, i),
            instructions_view(up@) + ascend(base_name@, c0, pv, j as int) == ascend(
                base_name@,
                c0,
                pv,
                (n - 1) as int,
            ),
        decreases j,
    {
        let ghost before = instructions_view(up@);
        push_code(&mut up, Instruction::LoadVariable(names[j - 1].clone()));
        let index_code = lower_expression_code(path[j - 1]);
        append_code(&mut up, index_code);
        push_code(&mut up, Instruction::LoadVariable(names[j].clone()));
        push_code(&mut up, Instruction::StoreIndex);
        push_code(&mut up, Instruction::StoreVariable(names[j - 1].clone()));
        proof {
            assert(instructions_view(up@) + ascend(base_name@, c0, pv, j - 1) =~= before + ascend(
                base_name@,
                c0,
                pv,
                j as int,
            ));
        }
        j = j - 1;
    }
    proof {
        assert(instructions_view(up@) =~= ascend(base_name@, c0, pv, (n - 1) as int));
    }
    append_code(&mut code, up);
    code
}

fn is_print_name(s: &String) -> (r: bool)
    ensures
        r == (s@ =~= seq!['p', 'r', 'i', 'n', 't']),
{
    let cs = crate::text::chars_of(s.as_str());
    cs.len() == 5 && cs[0] == 'p' && cs[1] == 'r' && cs[2] == 'i' && cs[3] == 'n' && cs[4] == 't'
}

fn lower_statement_code(s: &Statement, counter: &mut usize) -> (r: Vec<Instruction>)
    ensures
        instructions_view(r@) == lower_statement(statement_view(*s), *old(counter) as nat).0,
        *final(counter) as nat == lower_statement(statement_view(*s), *old(counter) as nat).1,
    decreases s,
{
    match s {
        Statement::Let { name, value, .. } => {
            let mut code = lower_expression_code(value);
            push_code(&mut code, Instruction::StoreVariable(name.clone()));
            code
        },
        Statement::Call(c) => {
            proof {
                lemma_expressions_view(c.arguments@);
            }
            if is_print_name(&c.name) {
                if c.arguments.len() == 0 {
                    let mut code: Vec<Instruction> = Vec::new();
                    proof {
                        assert(instructions_view(code@) =~= Seq::<InstructionView>::empty());
                    }
                    push_code(&mut code, Instruction::MakeArray { length: 0 });
                    push_code(&mut code, Instruction::PushInt(0));
                    push_code(&mut code, Instruction::Index);
                    proof {
                        assert(instructions_view(code@) =~= missing_argument_code());
                    }
                    return code;
                }
                let mut code = lower_expression_code(&c.arguments[0]);
                push_code(&mut code, Instruction::Print);
                code
            } else {
                let mut code = lower_expressions_code(&c.arguments);
                push_code(
                    &mut code,
                    Instruction::Call { name: c.name.clone(), argument_count: c.arguments.len() },
                );
                code
            }
        },
        Statement::Return(value) => {
            let mut code = lower_expression_code(value);
            push_code(&mut code, Instruction::Return);
            code
        },
        Statement::If { condition, then_body, else_body } => {
            let mut code = lower_expression_code(condition);
            let then_code = lower_block_code(then_body, counter);
            let else_code = lower_block_code(else_body, counter);
            push_code(&mut code, Instruction::If { then_body: then_code, else_body: else_code });
            code
        },
        Statement::Assign { target, value } => lower_assignment_code(target, value, counter),
        Statement::While { condition, body } => {
            let condition_code = lower_expression_code(condition);
            let body_code = lower_block_code(body, counter);
            let mut code = Vec::new();
            push_code(&mut code, Instruction::While { condition: condition_code, body: body_code });
            code
        },
        Statement::For { initializer, condition, update, body } => {
            let init_code = match initializer {
                Some(init) => lower_statement_code(init, counter),
                None => {
                    let v: Vec<Instruction> = Vec::new();
                    proof {
                        assert(instructions_view(v@) =~= seq![]);
                    }
                    v
                },
            };
            let condition_code = lower_expression_code(condition);
            let update_code = match update {
                Some(u) => lower_statement_code(u, counter),
                None => {
                    let v: Vec<Instruction> = Vec::new();
                    proof {
                        assert(instructions_view(v@) =~= seq![]);
                    }
                    v
                },
            };
            let body_code = lower_block_code(body, counter);
            let mut code = Vec::new();
            push_code(
                &mut code,
                Instruction::For {
                    initializer: init_code,
                    condition: condition_code,
                    update: update_code,
                    body: body_code,
                },
            );
            code
        },
        Statement::Break => {
            let mut code = Vec::new();
            push_code(&mut code, Instruction::Break);
            proof {
                assert(instructions_view(code@) =~= seq![InstructionView::Break]);
            }
            code
        },
        Statement::Continue => {
            let mut code = Vec::new();
            push_code(&mut code, Instruction::Continue);
            proof {
                assert(instructions_view(code@) =~= seq![InstructionView::Continue]);
            }
            code
        },
    }
}

pub proof fn lemma_lower_block_split(ss: Seq<StatementView>, i: int, c: nat)
    requires
        0 <= i < ss.len(),
    ensures
        lower_block(ss.subrange(i, ss.len() as int), c) == ({
            let (first, c1) = lower_statement(ss[i], c);
            let (rest, c2) = lower_block(ss.subrange(i + 1, ss.len() as int), c1);
            (first + rest, c2)
        }),
{
    assert(ss.subrange(i, ss.len() as int).drop_first() =~= ss.subrange(i + 1, ss.len() as int));
}

fn lower_block_code(statements: &Vec<Statement>, counter: &mut usize) -> (r: Vec<Instruction>)
    ensures
        instructions_view(r@) == lower_block(statements_view(statements@), *old(counter) as nat).0,
        *final(counter) as nat == lower_block(statements_view(statements@), *old(counter) as nat).1,
    decreases statements,
{
    let ghost sv = statements_view(statements@);
    let ghost c0 = *counter as nat;
    let mut code: Vec<Instruction> = Vec::new();
    proof {
        lemma_statements_view(statements@);
        assert(sv.subrange(0, sv.len() as int) =~= sv);
        assert(instructions_view(code@) + lower_block(sv, c0).0 =~= lower_block(sv, c0).0);
    }
    let mut i: usize = 0;
    while i < statements.len()
        invariant
            i <= statements@.len(),
            sv == statements_view(statements@),
            sv.len() == statements@.len(),
            forall|k: int| 0 <= k < statements@.len() ==> #[trigger] sv[k] == statement_view(
                statements@[k],
            ),
            instructions_view(code@) + lower_block(
                sv.subrange(i as int, sv.len() as int),
                *counter as nat,
            ).0 == lower_block(sv, c0).0,
            lower_block(sv.subrange(i as int, sv.len() as int), *counter as nat).1 == lower_block(
                sv,
                c0,
            ).1,
        decreases statements@.len() - i,
    {
        let ghost before = instructions_view(code@);
        let ghost ci = *counter as nat;
        proof {
            lemma_lower_block_split(sv, i as int, ci);
        }
        let more = lower_statement_code(&statements[i], counter);
        append_code(&mut code, more);
        proof {
            let rest = lower_block(sv.subrange(i + 1, sv.len() as int), *counter as nat).0;
            assert(instructions_view(code@) + rest =~= before + (instructions_view(more@) + rest));
        }
        i = i + 1;
    }
    proof {
        assert(sv.subrange(sv.len() as int, sv.len() as int) =~= seq![]);
        assert(instructions_view(code@) + seq![] =~= instructions_view(code@));
    }
    code
}

/// Lowers every function of a program to stack-machine instructions.
pub fn lower_program(program: &Program) -> (r: LoweredProgram)
    ensures
        lowered_functions_view(r.functions@) == lower_functions(program@.functions),
{
    let mut functions: Vec<LoweredFunction> = Vec::new();
    let mut i: usize = 0;
    let ghost fv = program@.functions;
    while i < program.functions.len()
        invariant
            i <= program.functions@.len(),
            fv == program@.functions,
            fv.len() == program.functions@.len(),
            lowered_functions_view(functions@) == lower_functions(fv.subrange(0, i as int)),
        decreases program.functions@.len() - i,
    {
        let f = &program.functions[i];
        let mut parameters: Vec<String> = Vec::new();
        let mut j: usize = 0;
        while j < f.parameters.len()
            invariant
                j <= f.parameters@.len(),
                strings_view(parameters@) == parameter_names(
                    crate::ast::parameters_view(f.parameters@),
                ).subrange(0, j as int),
            decreases f.parameters@.len() - j,
        {
            let ghost before = parameters@;
            parameters.push(f.parameters[j].name.clone());
            proof {
                let names = parameter_names(crate::ast::parameters_view(f.parameters@));
                assert(names[j as int] == f.parameters@[j as int].name@);
                assert(strings_view(parameters@) =~= strings_view(before).push(
                    f.parameters@[j as int].name@,
                ));
                assert(names.subrange(0, j + 1) =~= names.subrange(0, j as int).push(
                    names[j as int],
                ));
            }
            j = j + 1;
        }
        let mut counter: usize = 0;
        let instructions = lower_block_code(&f.body, &mut counter);
        let lowered = LoweredFunction {
            name: f.name.clone(),
            parameters,
            return_type: copy_optional_type(&f.return_type),
            instructions,
        };
        let ghost before = functions@;
        functions.push(lowered);
        proof {
            assert(strings_view(parameters@) =~= parameter_names(function_view(*f).parameters));
            assert(fv[i as int] == function_view(*f));
            assert(lowered_functions_view(functions@) =~= lowered_functions_view(before).push(
                lowered_function_view(lowered),
            ));
            assert(lower_functions(fv.subrange(0, i + 1)) =~= lower_functions(
                fv.subrange(0, i as int),
            ).push(lower_function(fv[i as int])));
        }
        i = i + 1;
    }
    proof {
        assert(fv.subrange(0, fv.len() as int) =~= fv);
    }
    LoweredProgram { functions }
}


/// Lowering two blocks one after the other is lowering the first, then the
/// second from the counter that the first left.
pub proof fn law_lower_block_concat(a: Seq<StatementView>, b: Seq<StatementView>, c: nat)
    ensures
        lower_block(a + b, c) == ({
            let (ca, c1) = lower_block(a, c);
            let (cb, c2) = lower_block(b, c1);
            (ca + cb, c2)
        }),
    decreases a.len(),
{
    if a.len() == 0 {
        assert(a + b =~= b);
        assert(Seq::<InstructionView>::empty() + lower_block(b, c).0 =~= lower_block(b, c).0);
    } else {
        let (first, c1) = lower_statement(a[0], c);
        assert((a + b)[0] == a[0]);
        assert((a + b).drop_first() =~= a.drop_first() + b);
        law_lower_block_concat(a.drop_first(), b, c1);
        let (ra, c2) = lower_block(a.drop_first(), c1);
        let (cb, c3) = lower_block(b, c2);
        assert(first + (ra + cb) =~= (first + ra) + cb);
    }
}

pub proof fn lemma_counter_after_grows(counter: nat, n: nat)
    ensures
        counter_after(counter, n) >= counter,
    decreases n,
{
    if n > 0 {
        lemma_counter_after_grows(counter, (n - 1) as nat);
    }
}

pub proof fn lemma_statement_counter_grows(s: StatementView, c: nat)
    ensures
        lower_statement(s, c).1 >= c,
    decreases s, 1int,
{
    match s {
        StatementView::If { then_body, else_body, .. } => {
            lemma_block_counter_grows(then_body, c);
            lemma_block_counter_grows(else_body, lower_block(then_body, c).1);
        },
        StatementView::Assign { target, .. } => {
            lemma_counter_after_grows(c, (index_path(target).len() - 1) as nat);
        },
        StatementView::While { body, .. } => {
            lemma_block_counter_grows(body, c);
        },
        StatementView::For { initializer, update, body, .. } => {
            let c1 = match initializer {
                Some(init) => {
                    lemma_statement_counter_grows(*init, c);
                    lower_statement(*init, c).1
                },
                None => c,
            };
            let c2 = match update {
                Some(u) => {
                    lemma_statement_counter_grows(*u, c1);
                    lower_statement(*u, c1).1
                },
                None => c1,
            };
            lemma_block_counter_grows(body, c2);
        },
        _ => {},
    }
}

pub proof fn lemma_block_counter_grows(ss: Seq<StatementView>, c: nat)
    ensures
        lower_block(ss, c).1 >= c,
    decreases ss, 0int,
{
    if ss.len() > 0 {
        lemma_statement_counter_grows(ss[0], c);
        lemma_block_counter_grows(ss.drop_first(), lower_statement(ss[0], c).1);
    }
}

/// Lowering a block never takes the temporary counter back.
pub proof fn law_lower_block_counter_grows(ss: Seq<StatementView>, c: nat)
    ensures
        lower_block(ss, c).1 >= c,
{
    lemma_block_counter_grows(ss, c);
}

// ----- the temporaries of lowering -----
/// Whether `code` stores into the variable `name`, at any depth.
pub open spec fn stores_into(code: Seq<InstructionView>, name: Seq<char>) -> bool
    decreases code,
{
    code.len() > 0 && (stores_into(code.drop_last(), name) || instruction_stores(code.last(), name))
}

pub open spec fn instruction_stores(i: InstructionView, name: Seq<char>) -> bool
    decreases i,
{
    match i {
        InstructionView::StoreVariable(n) => n == name,
        InstructionView::ShortCircuitAnd { right } => stores_into(right, name),
        InstructionView::ShortCircuitOr { right } => stores_into(right, name),
        InstructionView::If { then_body, else_body } => stores_into(then_body, name) || stores_into(
            else_body,
            name,
        ),
        InstructionView::While { condition, body } => stores_into(condition, name) || stores_into(
            body,
            name,
        ),
        InstructionView::For { initializer, condition, update, body } => stores_into(
            initializer,
            name,
        ) || stores_into(condition, name) || stores_into(update, name) || stores_into(body, name),
        _ => false,
    }
}

/// A name that lowering may give a temporary.
pub open spec fn is_temp_name(name: Seq<char>) -> bool {
    exists|k: nat| name == #[trigger] temp_name(k)
}

/// No variable that the statement itself stores into has the name of a
/// temporary.
pub open spec fn names_apart(s: StatementView) -> bool
    decreases s,
{
    match s {
        StatementView::Let { name, .. } => !is_temp_name(name),
        StatementView::Assign { target, .. } => match index_base(target) {
            ExpressionView::Variable(base) => !is_temp_name(base),
            _ => true,
        },
        StatementView::If { then_body, else_body, .. } => names_apart_all(then_body) && names_apart_all(
            else_body,
        ),
        StatementView::While { body, .. } => names_apart_all(body),
        StatementView::For { initializer, update, body, .. } => (match initializer {
            Some(i) => names_apart(*i),
            None => true,
        }) && (match update {
            Some(u) => names_apart(*u),
            None => true,
        }) && names_apart_all(body),
        _ => true,
    }
}

pub open spec fn names_apart_all(ss: Seq<StatementView>) -> bool
    decreases ss,
{
    ss.len() == 0 || (names_apart(ss[0]) && names_apart_all(ss.drop_first()))
}

pub proof fn lemma_stores_concat(a: Seq<InstructionView>, b: Seq<InstructionView>, name: Seq<char>)
    ensures
        stores_into(a + b, name) == (stores_into(a, name) || stores_into(b, name)),
    decreases b.len(),
{
    if b.len() == 0 {
        assert(a + b =~= a);
    } else {
        assert((a + b).drop_last() =~= a + b.drop_last());
        assert((a + b).last() == b.last());
        lemma_stores_concat(a, b.drop_last(), name);
    }
}

pub proof fn lemma_stores_single(i: InstructionView, name: Seq<char>)
    ensures
        stores_into(seq![i], name) == instruction_stores(i, name),
{
    assert(seq![i].drop_last() =~= Seq::<InstructionView>::empty());
    assert(!stores_into(Seq::<InstructionView>::empty(), name));
    assert(seq![i].last() == i);
}

pub proof fn lemma_stores_push(a: Seq<InstructionView>, i: InstructionView, name: Seq<char>)
    ensures
        stores_into(a.push(i), name) == (stores_into(a, name) || instruction_stores(i, name)),
{
    assert(a.push(i).drop_last() =~= a);
    assert(a.push(i).last() == i);
}

pub proof fn lemma_expression_stores_nothing(e: ExpressionView, name: Seq<char>)
    ensures
        !stores_into(lower_expression(e), name),
    decreases e, 1int,
{
    match e {
        ExpressionView::Array(items) => {
            lemma_expressions_store_nothing(items, name);
            lemma_stores_single(InstructionView::MakeArray { length: items.len() as usize }, name);
            lemma_stores_concat(
                lower_expressions(items),
                seq![InstructionView::MakeArray { length: items.len() as usize }],
                name,
            );
            assert(lower_expression(e) =~= lower_expressions(items) + seq![
                InstructionView::MakeArray { length: items.len() as usize },
            ]);
        },
        ExpressionView::Call(c) => {
            let call = InstructionView::Call {
                name: c.name,
                argument_count: c.arguments.len() as usize,
            };
            lemma_expressions_store_nothing(c.arguments, name);
            lemma_stores_single(call, name);
            lemma_stores_concat(lower_expressions(c.arguments), seq![call], name);
            assert(lower_expression(e) =~= lower_expressions(c.arguments) + seq![call]);
        },
        ExpressionView::Binary { left, operator, right } => {
            lemma_expression_stores_nothing(*left, name);
            lemma_expression_stores_nothing(*right, name);
            let last = lower_expression(e).last();
            lemma_stores_single(last, name);
            if operator == BinaryOperator::And || operator == BinaryOperator::Or {
                lemma_stores_concat(lower_expression(*left), seq![last], name);
                assert(lower_expression(e) =~= lower_expression(*left) + seq![last]);
            } else {
                lemma_stores_concat(lower_expression(*left), lower_expression(*right), name);
                lemma_stores_concat(
                    lower_expression(*left) + lower_expression(*right),
                    seq![last],
                    name,
                );
                assert(lower_expression(e) =~= (lower_expression(*left) + lower_expression(*right))
                    + seq![last]);
            }
        },
        ExpressionView::Unary { operand, .. } => {
            lemma_expression_stores_nothing(*operand, name);
            let last = lower_expression(e).last();
            lemma_stores_single(last, name);
            lemma_stores_concat(lower_expression(*operand), seq![last], name);
            assert(lower_expression(e) =~= lower_expression(*operand) + seq![last]);
        },
        ExpressionView::Index { target, index } => {
            lemma_expression_stores_nothing(*target, name);
            lemma_expression_stores_nothing(*index, name);
            lemma_stores_single(InstructionView::Index, name);
            lemma_stores_concat(lower_expression(*target), lower_expression(*index), name);
            lemma_stores_concat(
                lower_expression(*target) + lower_expression(*index),
                seq![InstructionView::Index],
                name,
            );
            assert(lower_expression(e) =~= (lower_expression(*target) + lower_expression(*index))
                + seq![InstructionView::Index]);
        },
        _ => {
            lemma_stores_single(lower_expression(e)[0], name);
            assert(lower_expression(e) =~= seq![lower_expression(e)[0]]);
        },
    }
}

pub proof fn lemma_expressions_store_nothing(es: Seq<ExpressionView>, name: Seq<char>)
    ensures
        !stores_into(lower_expressions(es), name),
    decreases es, 0int,
{
    if es.len() > 0 {
        lemma_expressions_store_nothing(es.drop_last(), name);
        lemma_expression_stores_nothing(es.last(), name);
        lemma_stores_concat(lower_expressions(es.drop_last()), lower_expression(es.last()), name);
    }
}

pub proof fn lemma_temp_name_injective(a: nat, b: nat)
    requires
        temp_name(a) == temp_name(b),
    ensures
        a == b,
{
    let p = "__axiom_tmp_"@;
    assert(temp_name(a).subrange(p.len() as int, temp_name(a).len() as int) =~= decimal(a));
    assert(temp_name(b).subrange(p.len() as int, temp_name(b).len() as int) =~= decimal(b));
    crate::text::lemma_decimal(a);
    crate::text::lemma_decimal(b);
}

pub proof fn lemma_counter_after_exact(c: nat, m: nat)
    requires
        counter_after(c, m) < usize::MAX,
    ensures
        counter_after(c, m) == c + m,
        forall|j: nat| j <= m ==> #[trigger] counter_after(c, j) == c + j,
    decreases m,
{
    if m > 0 {
        lemma_counter_after_grows(counter_after(c, (m - 1) as nat), 1);
        assert(counter_after(c, (m - 1) as nat) < usize::MAX);
        lemma_counter_after_exact(c, (m - 1) as nat);
    }
}

/// What a chain of indexings stores into: the temporaries of its levels.
pub proof fn lemma_descend_stores(
    base: Seq<char>,
    c: nat,
    path: Seq<ExpressionView>,
    k: int,
    name: Seq<char>,
)
    requires
        stores_into(descend(base, c, path, k), name),
    ensures
        exists|j: int| 1 <= j <= k && name == #[trigger] temp_or_base(base, c, j),
    decreases k,
{
    if k > 0 {
        let d = descend(base, c, path, k - 1);
        let load = seq![InstructionView::LoadVariable(temp_or_base(base, c, k - 1))];
        let ix = lower_expression(path[k - 1]);
        let tail = seq![
            InstructionView::Index,
            InstructionView::StoreVariable(temp_or_base(base, c, k)),
        ];
        lemma_stores_concat(d, load, name);
        lemma_stores_concat(d + load, ix, name);
        lemma_stores_concat(d + load + ix, tail, name);
        lemma_stores_single(load[0], name);
        assert(load =~= seq![load[0]]);
        lemma_expression_stores_nothing(path[k - 1], name);
        assert(tail =~= seq![InstructionView::Index].push(
            InstructionView::StoreVariable(temp_or_base(base, c, k)),
        ));
        lemma_stores_push(
            seq![InstructionView::Index],
            InstructionView::StoreVariable(temp_or_base(base, c, k)),
            name,
        );
        lemma_stores_single(InstructionView::Index, name);
        if stores_into(d, name) {
            lemma_descend_stores(base, c, path, k - 1, name);
        } else {
            assert(name == temp_or_base(base, c, k));
        }
    }
}

pub proof fn lemma_ascend_stores(
    base: Seq<char>,
    c: nat,
    path: Seq<ExpressionView>,
    k: int,
    name: Seq<char>,
)
    requires
        stores_into(ascend(base, c, path, k), name),
    ensures
        exists|j: int| 0 <= j < k && name == #[trigger] temp_or_base(base, c, j),
    decreases k,
{
    if k > 0 {
        let load = seq![InstructionView::LoadVariable(temp_or_base(base, c, k - 1))];
        let ix = lower_expression(path[k - 1]);
        let mid = seq![
            InstructionView::LoadVariable(temp_or_base(base, c, k)),
            InstructionView::StoreIndex,
            InstructionView::StoreVariable(temp_or_base(base, c, k - 1)),
        ];
        let rest = ascend(base, c, path, k - 1);
        lemma_stores_concat(load, ix, name);
        lemma_stores_concat(load + ix, mid, name);
        lemma_stores_concat(load + ix + mid, rest, name);
        lemma_stores_single(load[0], name);
        assert(load =~= seq![load[0]]);
        lemma_expression_stores_nothing(path[k - 1], name);
        assert(mid =~= seq![mid[0]].push(mid[1]).push(mid[2]));
        lemma_stores_push(seq![mid[0]].push(mid[1]), mid[2], name);
        lemma_stores_push(seq![mid[0]], mid[1], name);
        lemma_stores_single(mid[0], name);
        if stores_into(rest, name) {
            lemma_ascend_stores(base, c, path, k - 1, name);
        } else {
            assert(name == temp_or_base(base, c, k - 1));
        }
    }
}

pub proof fn lemma_assignment_temps(target: ExpressionView, value: ExpressionView, c: nat, k: nat)
    requires
        match index_base(target) {
            ExpressionView::Variable(base) => !is_temp_name(base),
            _ => true,
        },
        lower_assignment(target, value, c).1 < usize::MAX,
        stores_into(lower_assignment(target, value, c).0, temp_name(k)),
    ensures
        c <= k < lower_assignment(target, value, c).1,
{
    let name = temp_name(k);
    reveal_strlit("_tmp");
    reveal_strlit("__axiom_tmp_");
    lemma_expression_stores_nothing(value, name);
    let code = lower_assignment(target, value, c).0;
    let store = |n: Seq<char>| seq![InstructionView::StoreVariable(n)];
    match target {
        ExpressionView::Variable(n) => {
            lemma_stores_concat(lower_expression(value), store(n), name);
            assert(code =~= lower_expression(value) + store(n));
            lemma_stores_single(InstructionView::StoreVariable(n), name);
            assert(n == name);
            assert(is_temp_name(n));
        },
        ExpressionView::Index { .. } => match index_base(target) {
            ExpressionView::Variable(base) => {
                let path = index_path(target);
                let n = path.len() as int;
                assert(n >= 1);
                let last = temp_or_base(base, c, n - 1);
                let d = descend(base, c, path, n - 1);
                let a = ascend(base, c, path, n - 1);
                let mid1 = seq![InstructionView::LoadVariable(last)];
                let ie = lower_expression(path[n - 1]);
                let ve = lower_expression(value);
                let mid2 = seq![InstructionView::StoreIndex, InstructionView::StoreVariable(last)];
                assert(code =~= d + mid1 + ie + ve + mid2 + a);
                lemma_stores_concat(d, mid1, name);
                lemma_stores_concat(d + mid1, ie, name);
                lemma_stores_concat(d + mid1 + ie, ve, name);
                lemma_stores_concat(d + mid1 + ie + ve, mid2, name);
                lemma_stores_concat(d + mid1 + ie + ve + mid2, a, name);
                lemma_stores_single(mid1[0], name);
                assert(mid1 =~= seq![mid1[0]]);
                lemma_expression_stores_nothing(path[n - 1], name);
                assert(mid2 =~= seq![InstructionView::StoreIndex].push(
                    InstructionView::StoreVariable(last),
                ));
                lemma_stores_push(
                    seq![InstructionView::StoreIndex],
                    InstructionView::StoreVariable(last),
                    name,
                );
                lemma_stores_single(InstructionView::StoreIndex, name);
                lemma_counter_after_exact(c, (n - 1) as nat);
                let j = if stores_into(d, name) {
                    lemma_descend_stores(base, c, path, n - 1, name);
                    choose|j: int| 1 <= j <= n - 1 && name == #[trigger] temp_or_base(base, c, j)
                } else if stores_into(a, name) {
                    lemma_ascend_stores(base, c, path, n - 1, name);
                    choose|j: int| 0 <= j < n - 1 && name == #[trigger] temp_or_base(base, c, j)
                } else {
                    n - 1
                };
                assert(name == temp_or_base(base, c, j));
                if j <= 0 {
                    assert(base == temp_name(k));
                    assert(is_temp_name(base));
                } else {
                    assert(counter_after(c, (j - 1) as nat) == c + (j - 1));
                    lemma_temp_name_injective(k, counter_after(c, (j - 1) as nat));
                }
            },
            _ => {
                lemma_stores_concat(lower_expression(value), store("_tmp"@), name);
                assert(code =~= lower_expression(value) + store("_tmp"@));
                lemma_stores_single(InstructionView::StoreVariable("_tmp"@), name);
                assert("_tmp"@[1] != name[1]);
            },
        },
        _ => {
            lemma_stores_concat(lower_expression(value), store("_tmp"@), name);
            assert(code =~= lower_expression(value) + store("_tmp"@));
            lemma_stores_single(InstructionView::StoreVariable("_tmp"@), name);
            assert("_tmp"@[1] != name[1]);
        },
    }
}

pub proof fn lemma_statement_temps(s: StatementView, c: nat, k: nat)
    requires
        names_apart(s),
        lower_statement(s, c).1 < usize::MAX,
        stores_into(lower_statement(s, c).0, temp_name(k)),
    ensures
        c <= k < lower_statement(s, c).1,
    decreases s, 1int,
{
    let name = temp_name(k);
    let code = lower_statement(s, c).0;
    lemma_statement_counter_grows(s, c);
    match s {
        StatementView::Let { name: n, value, .. } => {
            lemma_expression_stores_nothing(value, name);
            let st = InstructionView::StoreVariable(n);
            lemma_stores_concat(lower_expression(value), seq![st], name);
            assert(code =~= lower_expression(value) + seq![st]);
            lemma_stores_single(st, name);
            assert(is_temp_name(n));
        },
        StatementView::Call(cv) => {
            if is_print_call(cv) {
                if cv.arguments.len() == 0 {
                    assert(code =~= seq![code[0]].push(code[1]).push(code[2]));
                    lemma_stores_push(seq![code[0]].push(code[1]), code[2], name);
                    lemma_stores_push(seq![code[0]], code[1], name);
                    lemma_stores_single(code[0], name);
                } else {
                    lemma_expression_stores_nothing(cv.arguments[0], name);
                    lemma_stores_concat(lower_expression(cv.arguments[0]), seq![InstructionView::Print], name);
                    assert(code =~= lower_expression(cv.arguments[0]) + seq![InstructionView::Print]);
                    lemma_stores_single(InstructionView::Print, name);
                }
            } else {
                let call = code.last();
                lemma_expressions_store_nothing(cv.arguments, name);
                lemma_stores_concat(lower_expressions(cv.arguments), seq![call], name);
                assert(code =~= lower_expressions(cv.arguments) + seq![call]);
                lemma_stores_single(call, name);
            }
        },
        StatementView::Return(e) => {
            lemma_expression_stores_nothing(e, name);
            lemma_stores_concat(lower_expression(e), seq![InstructionView::Return], name);
            assert(code =~= lower_expression(e) + seq![InstructionView::Return]);
            lemma_stores_single(InstructionView::Return, name);
        },
        StatementView::Assign { target, value } => {
            lemma_assignment_temps(target, value, c, k);
        },
        StatementView::If { condition, then_body, else_body } => {
            let (then_code, c1) = lower_block(then_body, c);
            let (else_code, c2) = lower_block(else_body, c1);
            let branch = InstructionView::If { then_body: then_code, else_body: else_code };
            lemma_expression_stores_nothing(condition, name);
            lemma_stores_concat(lower_expression(condition), seq![branch], name);
            assert(code =~= lower_expression(condition) + seq![branch]);
            lemma_stores_single(branch, name);
            lemma_block_counter_grows(then_body, c);
            lemma_block_counter_grows(else_body, c1);
            if stores_into(then_code, name) {
                lemma_block_temps(then_body, c, k);
            } else {
                lemma_block_temps(else_body, c1, k);
            }
        },
        StatementView::While { condition, body } => {
            let l = code[0];
            assert(code =~= seq![l]);
            lemma_stores_single(l, name);
            lemma_expression_stores_nothing(condition, name);
            lemma_block_temps(body, c, k);
        },
        StatementView::For { initializer, condition, update, body } => {
            let l = code[0];
            assert(code =~= seq![l]);
            lemma_stores_single(l, name);
            lemma_expression_stores_nothing(condition, name);
            let (init_code, c1) = match initializer {
                Some(i) => lower_statement(*i, c),
                None => (seq![], c),
            };
            let (update_code, c2) = match update {
                Some(u) => lower_statement(*u, c1),
                None => (seq![], c1),
            };
            let (body_code, c3) = lower_block(body, c2);
            match initializer {
                Some(i) => {
                    lemma_statement_counter_grows(*i, c);
                },
                None => {},
            }
            match update {
                Some(u) => {
                    lemma_statement_counter_grows(*u, c1);
                },
                None => {},
            }
            lemma_block_counter_grows(body, c2);
            if stores_into(init_code, name) {
                match initializer {
                    Some(i) => {
                        lemma_statement_temps(*i, c, k);
                    },
                    None => {},
                }
            } else if stores_into(update_code, name) {
                match update {
                    Some(u) => {
                        lemma_statement_temps(*u, c1, k);
                    },
                    None => {},
                }
            } else {
                lemma_block_temps(body, c2, k);
            }
        },
        _ => {
            lemma_stores_single(code[0], name);
            assert(code =~= seq![code[0]]);
        },
    }
}

pub proof fn lemma_block_temps(ss: Seq<StatementView>, c: nat, k: nat)
    requires
        names_apart_all(ss),
        lower_block(ss, c).1 < usize::MAX,
        stores_into(lower_block(ss, c).0, temp_name(k)),
    ensures
        c <= k < lower_block(ss, c).1,
    decreases ss, 0int,
{
    if ss.len() > 0 {
        let (first, c1) = lower_statement(ss[0], c);
        let (rest, c2) = lower_block(ss.drop_first(), c1);
        lemma_block_counter_grows(ss.drop_first(), c1);
        lemma_statement_counter_grows(ss[0], c);
        lemma_stores_concat(first, rest, temp_name(k));
        if stores_into(first, temp_name(k)) {
            lemma_statement_temps(ss[0], c, k);
        } else {
            lemma_block_temps(ss.drop_first(), c1, k);
        }
    }
}

/// Every temporary that the code of a block stores into was taken from the
/// counter while the block was lowered: its number lies between the counter
/// before and the counter after. This holds where the program names none of
/// its own variables like a temporary and the counter did not reach the top
/// of its range.
pub proof fn law_lower_block_temporaries(ss: Seq<StatementView>, c: nat, k: nat)
    requires
        names_apart_all(ss),
        lower_block(ss, c).1 < usize::MAX,
        stores_into(lower_block(ss, c).0, temp_name(k)),
    ensures
        c <= k < lower_block(ss, c).1,
{
    lemma_block_temps(ss, c, k);
}
} // verus!
