//! The virtual machine: executes lowered programs and compiled artifacts on
//! an operand stack, with per-call local variables.
use vstd::prelude::*;
use crate::ast::{BinaryOperator, Program, UnaryOperator};
use crate::ir::{
    Instruction, InstructionView, LoweredFunctionView, instruction_view, instructions_view,
    lowered_functions_view, lemma_instructions_view, lower_program, lower_functions,
    strings_view,
};
use crate::text::{int_text, int_to_chars, string_from};

verus! {

#[derive(Debug, PartialEq, Eq)]
pub enum Value {
    Int(i64),
    Bool(bool),
    String(String),
    Array(Vec<Value>),
    /// The text of a floating-point literal; the machine itself makes none.
    Float(String),
}

pub enum ValueView {
    Int(i64),
    Bool(bool),
    Str(Seq<char>),
    Array(Seq<ValueView>),
    Float(Seq<char>),
}

pub open spec fn value_view(v: Value) -> ValueView
    decreases v,
{
    match v {
        Value::Int(i) => ValueView::Int(i),
        Value::Bool(b) => ValueView::Bool(b),
        Value::String(s) => ValueView::Str(s@),
        Value::Array(vs) => ValueView::Array(values_view(vs@)),
        Value::Float(t) => ValueView::Float(t@),
    }
}

pub open spec fn values_view(vs: Seq<Value>) -> Seq<ValueView>
    decreases vs,
{
    if vs.len() == 0 {
        seq![]
    } else {
        values_view(vs.drop_last()).push(value_view(vs.last()))
    }
}

#[derive(Debug, Clone, PartialEq, Eq)]
pub struct VmError {
    pub message: String,
}

/// A function of an artifact: its name, the names of its parameters and its
/// code.
#[derive(Debug, PartialEq, Eq)]
pub struct CompiledFunction {
    pub name: String,
    pub parameters: Vec<String>,
    pub instructions: Vec<Instruction>,
}

/// A compiled program, as it is written to and read from `.axm` files.
#[derive(Debug, PartialEq, Eq)]
pub struct Artifact {
    pub functions: Vec<CompiledFunction>,
}

pub struct CompiledFunctionView {
    pub name: Seq<char>,
    pub parameters: Seq<Seq<char>>,
    pub instructions: Seq<InstructionView>,
}

pub open spec fn compiled_function_view(f: CompiledFunction) -> CompiledFunctionView {
    CompiledFunctionView {
        name: f.name@,
        parameters: strings_view(f.parameters@),
        instructions: instructions_view(f.instructions@),
    }
}

pub open spec fn compiled_functions_view(fs: Seq<CompiledFunction>) -> Seq<CompiledFunctionView> {
    fs.map_values(|f: CompiledFunction| compiled_function_view(f))
}

impl View for Artifact {
    type V = Seq<CompiledFunctionView>;

    open spec fn view(&self) -> Seq<CompiledFunctionView> {
        compiled_functions_view(self.functions@)
    }
}

/// A lowered function as it is kept in an artifact (its return type is not).
pub open spec fn compiled_of(f: LoweredFunctionView) -> CompiledFunctionView {
    CompiledFunctionView { name: f.name, parameters: f.parameters, instructions: f.instructions }
}

pub open spec fn compile_functions(fs: Seq<LoweredFunctionView>) -> Seq<CompiledFunctionView> {
    fs.map_values(|f: LoweredFunctionView| compiled_of(f))
}

/// What running a sequence of instructions ended with.
pub enum Outcome {
    Normal,
    Returned(ValueView),
    Break,
    Continue,
    Failed(Seq<char>),
}

/// The state of a running function: its locals, the shared operand stack and
/// the output printed so far.
#[verifier::ext_equal]
pub struct VmState {
    pub locals: Seq<(Seq<char>, ValueView)>,
    pub stack: Seq<ValueView>,
    pub output: Seq<char>,
}

/// The text that `print` writes for a value.
pub open spec fn display(v: ValueView) -> Seq<char>
    decreases v,
{
    match v {
        ValueView::Int(i) => int_text(i as int),
        ValueView::Bool(b) => if b {
            "true"@
        } else {
            "false"@
        },
        ValueView::Str(s) => s,
        ValueView::Array(items) => "["@ + display_items(items) + "]"@,
        ValueView::Float(t) => t,
    }
}

/// The displays of `items`, separated by `, `.
pub open spec fn display_items(items: Seq<ValueView>) -> Seq<char>
    decreases items,
{
    if items.len() == 0 {
        seq![]
    } else if items.len() == 1 {
        display(items[0])
    } else {
        display_items(items.drop_last()) + ", "@ + display(items.last())
    }
}

pub open spec fn find_local(locals: Seq<(Seq<char>, ValueView)>, name: Seq<char>) -> Option<int>
    decreases locals.len(),
{
    if locals.len() == 0 {
        None
    } else if locals[0].0 == name {
        Some(0)
    } else {
        match find_local(locals.drop_first(), name) {
            Some(i) => Some(i + 1),
            None => None,
        }
    }
}

/// The locals after setting `name` to `v`.
pub open spec fn store_local(
    locals: Seq<(Seq<char>, ValueView)>,
    name: Seq<char>,
    v: ValueView,
) -> Seq<(Seq<char>, ValueView)> {
    match find_local(locals, name) {
        Some(i) => locals.update(i, (name, v)),
        None => locals.push((name, v)),
    }
}

pub open spec fn fail(st: VmState, message: Seq<char>) -> (Outcome, VmState) {
    (Outcome::Failed(message), st)
}

pub open spec fn with_stack(st: VmState, stack: Seq<ValueView>) -> VmState {
    VmState { stack, ..st }
}

/// Rust's truncating division and remainder, from the magnitudes.
pub open spec fn abs(a: int) -> int {
    if a < 0 {
        -a
    } else {
        a
    }
}

pub open spec fn trunc_div(a: int, b: int) -> int {
    if (a < 0) == (b < 0) {
        abs(a) / abs(b)
    } else {
        -(abs(a) / abs(b))
    }
}

pub open spec fn trunc_rem(a: int, b: int) -> int {
    if a < 0 {
        -(abs(a) % abs(b))
    } else {
        abs(a) % abs(b)
    }
}

pub open spec fn int_result(v: int) -> Result<ValueView, Seq<char>> {
    if i64::MIN <= v <= i64::MAX {
        Ok(ValueView::Int(v as i64))
    } else {
        Err("integer overflow"@)
    }
}

pub open spec fn expected_int() -> Seq<char> {
    "expected Int value"@
}

pub open spec fn expected_bool() -> Seq<char> {
    "expected Bool value"@
}

/// The value of a binary operation on two operands.
pub open spec fn binary_value(op: BinaryOperator, left: ValueView, right: ValueView) -> Result<
    ValueView,
    Seq<char>,
> {
    match op {
        BinaryOperator::Add => match (left, right) {
            (ValueView::Int(a), ValueView::Int(b)) => int_result(a + b),
            (ValueView::Str(a), ValueView::Str(b)) => Ok(ValueView::Str(a + b)),
            _ => Err(expected_int()),
        },
        BinaryOperator::Subtract => match (left, right) {
            (ValueView::Int(a), ValueView::Int(b)) => int_result(a - b),
            _ => Err(expected_int()),
        },
        BinaryOperator::Multiply => match (left, right) {
            (ValueView::Int(a), ValueView::Int(b)) => int_result(a * b),
            _ => Err(expected_int()),
        },
        BinaryOperator::Divide | BinaryOperator::Modulo => match right {
            ValueView::Int(b) => if b == 0 {
                Err("division by zero"@)
            } else {
                match left {
                    ValueView::Int(a) => if op == BinaryOperator::Divide {
                        int_result(trunc_div(a as int, b as int))
                    } else if a == i64::MIN && b == -1 {
                        Err("integer overflow"@)
                    } else {
                        Ok(ValueView::Int(trunc_rem(a as int, b as int) as i64))
                    },
                    _ => Err(expected_int()),
                }
            },
            _ => Err(expected_int()),
        },
        BinaryOperator::Greater | BinaryOperator::GreaterEqual | BinaryOperator::Less
        | BinaryOperator::LessEqual => match (left, right) {
            (ValueView::Int(a), ValueView::Int(b)) => Ok(
                ValueView::Bool(
                    match op {
                        BinaryOperator::Greater => a > b,
                        BinaryOperator::GreaterEqual => a >= b,
                        BinaryOperator::Less => a < b,
                        _ => a <= b,
                    },
                ),
            ),
            _ => Err(expected_int()),
        },
        BinaryOperator::Equal => Ok(ValueView::Bool(left == right)),
        BinaryOperator::NotEqual => Ok(ValueView::Bool(left != right)),
        BinaryOperator::And | BinaryOperator::Or => match (left, right) {
            (ValueView::Bool(a), ValueView::Bool(b)) => Ok(
                ValueView::Bool(
                    if op == BinaryOperator::And {
                        a && b
                    } else {
                        a || b
                    },
                ),
            ),
            _ => Err(expected_bool()),
        },
    }
}

pub open spec fn unary_value(op: UnaryOperator, v: ValueView) -> Result<ValueView, Seq<char>> {
    match op {
        UnaryOperator::Not => match v {
            ValueView::Bool(b) => Ok(ValueView::Bool(!b)),
            _ => Err(expected_bool()),
        },
        UnaryOperator::Negate => match v {
            ValueView::Int(i) => int_result(-(i as int)),
            _ => Err(expected_int()),
        },
    }
}

/// The element of `array` at `index`.
pub open spec fn index_value(array: ValueView, index: ValueView) -> Result<ValueView, Seq<char>> {
    match index {
        ValueView::Int(i) => match array {
            ValueView::Array(items) => if 0 <= i < items.len() {
                Ok(items[i as int])
            } else {
                Err("index out of bounds"@)
            },
            _ => Err("expected Array value"@),
        },
        _ => Err(expected_int()),
    }
}

/// `array` with the element at `index` replaced by `v`.
pub open spec fn store_index_value(array: ValueView, index: ValueView, v: ValueView) -> Result<
    ValueView,
    Seq<char>,
> {
    match index {
        ValueView::Int(i) => match array {
            ValueView::Array(items) => if 0 <= i < items.len() {
                Ok(ValueView::Array(items.update(i as int, v)))
            } else {
                Err("index out of bounds"@)
            },
            _ => Err("expected Array value"@),
        },
        _ => Err(expected_int()),
    }
}

/// The first function called `name`.
pub open spec fn find_function(fns: Seq<CompiledFunctionView>, name: Seq<char>) -> Option<int>
    decreases fns.len(),
{
    if fns.len() == 0 {
        None
    } else if fns[0].name == name {
        Some(0)
    } else {
        match find_function(fns.drop_first(), name) {
            Some(i) => Some(i + 1),
            None => None,
        }
    }
}

/// The locals of a new call: each parameter bound to its argument, in order
/// (extra parameters or arguments are ignored).
pub open spec fn bind_parameters(
    params: Seq<Seq<char>>,
    args: Seq<ValueView>,
) -> Seq<(Seq<char>, ValueView)> {
    bind_prefix(params, args, if params.len() < args.len() {
        params.len()
    } else {
        args.len()
    })
}

pub open spec fn bind_prefix(
    params: Seq<Seq<char>>,
    args: Seq<ValueView>,
    k: nat,
) -> Seq<(Seq<char>, ValueView)>
    decreases k,
{
    if k == 0 {
        seq![]
    } else {
        store_local(
            bind_prefix(params, args, (k - 1) as nat),
            params[k - 1],
            args[k - 1],
        )
    }
}

pub open spec fn execution_limit() -> Seq<char> {
    "execution limit exceeded"@
}

pub open spec fn escaped() -> Seq<char> {
    "loop control escaped its loop"@
}

/// The effect of a simple instruction, one that runs no nested code.
pub open spec fn simple_step(i: InstructionView, st: VmState) -> (Outcome, VmState) {
    let stack = st.stack;
    let n = stack.len();
    match i {
        InstructionView::PushInt(v) => (Outcome::Normal, with_stack(st, stack.push(ValueView::Int(v)))),
        InstructionView::PushBool(b) => (
            Outcome::Normal,
            with_stack(st, stack.push(ValueView::Bool(b))),
        ),
        InstructionView::PushString(s) => (
            Outcome::Normal,
            with_stack(st, stack.push(ValueView::Str(s))),
        ),
        InstructionView::PushFloat(_) => fail(
            st,
            "floating-point values are not supported by the virtual machine"@,
        ),
        InstructionView::LoadVariable(name) => match find_local(st.locals, name) {
            Some(k) => (Outcome::Normal, with_stack(st, stack.push(st.locals[k].1))),
            None => fail(st, "unknown variable '"@ + name + "'"@),
        },
        InstructionView::StoreVariable(name) => if n == 0 {
            fail(st, "stack underflow"@)
        } else {
            (
                Outcome::Normal,
                VmState {
                    locals: store_local(st.locals, name, stack[n - 1]),
                    stack: stack.drop_last(),
                    output: st.output,
                },
            )
        },
        InstructionView::MakeArray { length } => if n < length {
            fail(st, "stack underflow"@)
        } else {
            (
                Outcome::Normal,
                with_stack(
                    st,
                    stack.subrange(0, n - length).push(
                        ValueView::Array(stack.subrange(n - length, n as int)),
                    ),
                ),
            )
        },
        InstructionView::Binary { op } => if n < 2 {
            fail(st, "stack underflow"@)
        } else {
            match binary_value(op, stack[n - 2], stack[n - 1]) {
                Ok(v) => (Outcome::Normal, with_stack(st, stack.subrange(0, n - 2).push(v))),
                Err(m) => fail(st, m),
            }
        },
        InstructionView::Unary { op } => if n == 0 {
            fail(st, "stack underflow"@)
        } else {
            match unary_value(op, stack[n - 1]) {
                Ok(v) => (Outcome::Normal, with_stack(st, stack.drop_last().push(v))),
                Err(m) => fail(st, m),
            }
        },
        InstructionView::Index => if n < 2 {
            fail(st, "stack underflow"@)
        } else {
            match index_value(stack[n - 2], stack[n - 1]) {
                Ok(v) => (Outcome::Normal, with_stack(st, stack.subrange(0, n - 2).push(v))),
                Err(m) => fail(st, m),
            }
        },
        InstructionView::StoreIndex => if n < 3 {
            fail(st, "stack underflow"@)
        } else {
            match store_index_value(stack[n - 3], stack[n - 2], stack[n - 1]) {
                Ok(v) => (Outcome::Normal, with_stack(st, stack.subrange(0, n - 3).push(v))),
                Err(m) => fail(st, m),
            }
        },
        InstructionView::Print => if n == 0 {
            fail(st, "stack underflow"@)
        } else {
            (
                Outcome::Normal,
                VmState {
                    locals: st.locals,
                    stack: stack.drop_last(),
                    output: st.output + display(stack[n - 1]) + "\n"@,
                },
            )
        },
        InstructionView::Return => if n == 0 {
            fail(st, "stack underflow"@)
        } else {
            (Outcome::Returned(stack[n - 1]), with_stack(st, stack.drop_last()))
        },
        InstructionView::Break => (Outcome::Break, st),
        InstructionView::Continue => (Outcome::Continue, st),
        _ => (Outcome::Normal, st),
    }
}

pub open spec fn is_simple(i: InstructionView) -> bool {
    match i {
        InstructionView::ShortCircuitAnd { .. } | InstructionView::ShortCircuitOr { .. }
        | InstructionView::Call { .. } | InstructionView::If { .. } | InstructionView::While { .. }
        | InstructionView::For { .. } => false,
        _ => true,
    }
}

/// Runs `code` from instruction `idx` on.  `fuel` bounds the depth of calls
/// and the number of iterations of each loop.
pub open spec fn run(
    fns: Seq<CompiledFunctionView>,
    code: Seq<InstructionView>,
    idx: int,
    fuel: nat,
    st: VmState,
) -> (Outcome, VmState)
    decreases fuel, code, code.len() - idx + 2,
{
    if idx < 0 || idx >= code.len() {
        (Outcome::Normal, st)
    } else {
        let (outcome, next) = run_instruction(fns, code, idx, fuel, st);
        match outcome {
            Outcome::Normal => run(fns, code, idx + 1, fuel, next),
            _ => (outcome, next),
        }
    }
}

/// Runs the instruction `code[idx]`. A call runs its callee on an operand
/// stack of its own; the caller gets its stack back without the arguments,
/// with the returned value, if any, on top.
pub open spec fn run_instruction(
    fns: Seq<CompiledFunctionView>,
    code: Seq<InstructionView>,
    idx: int,
    fuel: nat,
    st: VmState,
) -> (Outcome, VmState)
    decreases fuel, code, 1int,
{
    if idx < 0 || idx >= code.len() {
        (Outcome::Normal, st)
    } else {
        let i = code[idx];
        let n = st.stack.len();
        match i {
            InstructionView::ShortCircuitAnd { right } | InstructionView::ShortCircuitOr {
                right,
            } => {
                let is_and = i is ShortCircuitAnd;
                if n == 0 {
                    fail(st, "stack underflow"@)
                } else {
                    match st.stack[n - 1] {
                        ValueView::Bool(b) => {
                            let popped = with_stack(st, st.stack.drop_last());
                            if b != is_and {
                                (
                                    Outcome::Normal,
                                    with_stack(popped, popped.stack.push(ValueView::Bool(b))),
                                )
                            } else {
                                let (o, s2) = run(fns, right, 0, fuel, popped);
                                match o {
                                    Outcome::Normal => {
                                        let m = s2.stack.len();
                                        if m == 0 {
                                            fail(s2, "stack underflow"@)
                                        } else {
                                            match s2.stack[m - 1] {
                                                ValueView::Bool(r) => (
                                                    Outcome::Normal,
                                                    with_stack(
                                                        s2,
                                                        s2.stack.drop_last().push(ValueView::Bool(r)),
                                                    ),
                                                ),
                                                _ => fail(s2, expected_bool()),
                                            }
                                        }
                                    },
                                    _ => (o, s2),
                                }
                            }
                        },
                        _ => fail(st, expected_bool()),
                    }
                }
            },
            InstructionView::Call { name, argument_count } => if n < argument_count {
                fail(st, "stack underflow"@)
            } else if fuel == 0 {
                fail(st, execution_limit())
            } else {
                match find_function(fns, name) {
                    None => fail(st, "unknown function '"@ + name + "'"@),
                    Some(k) => {
                        let args = st.stack.subrange(n - argument_count, n as int);
                        let callee = VmState {
                            locals: bind_parameters(fns[k].parameters, args),
                            stack: seq![],
                            output: st.output,
                        };
                        let (o, s2) = run(fns, fns[k].instructions, 0, (fuel - 1) as nat, callee);
                        let back = VmState {
                            locals: st.locals,
                            stack: st.stack.subrange(0, n - argument_count),
                            output: s2.output,
                        };
                        match o {
                            Outcome::Normal => (Outcome::Normal, back),
                            Outcome::Returned(v) => (
                                Outcome::Normal,
                                with_stack(back, back.stack.push(v)),
                            ),
                            Outcome::Failed(m) => fail(back, m),
                            _ => fail(back, escaped()),
                        }
                    },
                }
            },
            InstructionView::If { then_body, else_body } => if n == 0 {
                fail(st, "stack underflow"@)
            } else {
                match st.stack[n - 1] {
                    ValueView::Bool(b) => {
                        let popped = with_stack(st, st.stack.drop_last());
                        if b {
                            run(fns, then_body, 0, fuel, popped)
                        } else {
                            run(fns, else_body, 0, fuel, popped)
                        }
                    },
                    _ => fail(st, expected_bool()),
                }
            },
            InstructionView::While { .. } => run_loop(fns, code, idx, fuel, st),
            InstructionView::For { initializer, condition, update, body } => {
                let (o, s1) = run(fns, initializer, 0, fuel, st);
                match o {
                    Outcome::Normal => run_loop(fns, code, idx, fuel, s1),
                    Outcome::Break | Outcome::Continue => fail(s1, escaped()),
                    _ => (o, s1),
                }
            },
            _ => simple_step(i, st),
        }
    }
}

/// The condition, update and body of the loop instruction `i`.
pub open spec fn loop_parts(i: InstructionView) -> (
    Seq<InstructionView>,
    Seq<InstructionView>,
    Seq<InstructionView>,
) {
    match i {
        InstructionView::While { condition, body } => (condition, seq![], body),
        InstructionView::For { condition, update, body, .. } => (condition, update, body),
        _ => (seq![], seq![], seq![]),
    }
}

/// Part `part` of the loop instruction `i`: condition (0), update (1) or
/// body (2).
pub open spec fn loop_part(i: InstructionView, part: u8) -> Seq<InstructionView> {
    if part == 0 {
        loop_parts(i).0
    } else if part == 1 {
        loop_parts(i).1
    } else {
        loop_parts(i).2
    }
}

/// Iterations of the loop `code[idx]`: the condition, then the body, then
/// the update; each further iteration takes one unit of fuel.
pub open spec fn run_loop(
    fns: Seq<CompiledFunctionView>,
    code: Seq<InstructionView>,
    idx: int,
    fuel: nat,
    st: VmState,
) -> (Outcome, VmState)
    decreases fuel, code, 0int,
{
    if idx < 0 || idx >= code.len() || !(code[idx] is While || code[idx] is For) {
        (Outcome::Normal, st)
    } else {
    let (condition, update, body) = loop_parts(code[idx]);
    let (o, s1) = run(fns, condition, 0, fuel, st);
    match o {
        Outcome::Normal => {
            let n = s1.stack.len();
            if n == 0 {
                fail(s1, "stack underflow"@)
            } else {
                match s1.stack[n - 1] {
                    ValueView::Bool(b) => {
                        let s2 = with_stack(s1, s1.stack.drop_last());
                        if !b {
                            (Outcome::Normal, s2)
                        } else {
                            let (o2, s3) = run(fns, body, 0, fuel, s2);
                            match o2 {
                                Outcome::Break => (Outcome::Normal, s3),
                                Outcome::Normal | Outcome::Continue => {
                                    let (o3, s4) = if update.len() == 0 {
                                        (Outcome::Normal, s3)
                                    } else {
                                        run(fns, update, 0, fuel, s3)
                                    };
                                    match o3 {
                                        Outcome::Normal => if fuel == 0 {
                                            fail(s4, execution_limit())
                                        } else {
                                            run_loop(fns, code, idx, (fuel - 1) as nat, s4)
                                        },
                                        Outcome::Break | Outcome::Continue => fail(s4, escaped()),
                                        _ => (o3, s4),
                                    }
                                },
                                _ => (o2, s3),
                            }
                        }
                    },
                    _ => fail(s1, expected_bool()),
                }
            }
        },
        Outcome::Break | Outcome::Continue => fail(s1, escaped()),
        _ => (o, s1),
    }
    }
}

// ----- executable machine -----
pub proof fn lemma_values_view(vs: Seq<Value>)
    ensures
        values_view(vs).len() == vs.len(),
        forall|k: int| 0 <= k < vs.len() ==> #[trigger] values_view(vs)[k] == value_view(vs[k]),
    decreases vs.len(),
{
    if vs.len() > 0 {
        lemma_values_view(vs.drop_last());
    }
}

pub proof fn lemma_values_view_subrange(vs: Seq<Value>, a: int, b: int)
    requires
        0 <= a <= b <= vs.len(),
    ensures
        values_view(vs.subrange(a, b)) == values_view(vs).subrange(a, b),
{
    lemma_values_view(vs);
    lemma_values_view(vs.subrange(a, b));
    assert(values_view(vs.subrange(a, b)) =~= values_view(vs).subrange(a, b));
}

pub proof fn lemma_values_view_push(vs: Seq<Value>, v: Value)
    ensures
        values_view(vs.push(v)) == values_view(vs).push(value_view(v)),
{
    assert(vs.push(v).drop_last() =~= vs);
}

pub proof fn lemma_values_view_update(vs: Seq<Value>, i: int, v: Value)
    requires
        0 <= i < vs.len(),
    ensures
        values_view(vs.update(i, v)) == values_view(vs).update(i, value_view(v)),
{
    lemma_values_view(vs);
    lemma_values_view(vs.update(i, v));
    assert(values_view(vs.update(i, v)) =~= values_view(vs).update(i, value_view(v)));
}

pub open spec fn locals_view(ls: Seq<(String, Value)>) -> Seq<(Seq<char>, ValueView)> {
    ls.map_values(|b: (String, Value)| (b.0@, value_view(b.1)))
}

/// A deep copy of a value.
pub fn copy_value(v: &Value) -> (r: Value)
    ensures
        value_view(r) == value_view(*v),
    decreases v,
{
    match v {
        Value::Int(i) => Value::Int(*i),
        Value::Bool(b) => Value::Bool(*b),
        Value::String(s) => Value::String(s.clone()),
        Value::Array(items) => Value::Array(copy_values(items)),
        Value::Float(t) => Value::Float(t.clone()),
    }
}

fn copy_values(items: &Vec<Value>) -> (r: Vec<Value>)
    ensures
        values_view(r@) == values_view(items@),
    decreases items,
{
    let mut out: Vec<Value> = Vec::new();
    let mut i: usize = 0;
    proof {
        lemma_values_view(items@);
    }
    while i < items.len()
        invariant
            i <= items@.len(),
            values_view(out@) == values_view(items@).subrange(0, i as int),
            values_view(items@).len() == items@.len(),
            forall|k: int| 0 <= k < items@.len() ==> #[trigger] values_view(items@)[k] == value_view(
                items@[k],
            ),
        decreases items@.len() - i,
    {
        let c = copy_value(&items[i]);
        let ghost before = out@;
        out.push(c);
        proof {
            lemma_values_view_push(before, c);
            assert(values_view(items@).subrange(0, i + 1) =~= values_view(items@).subrange(
                0,
                i as int,
            ).push(values_view(items@)[i as int]));
        }
        i = i + 1;
    }
    proof {
        assert(values_view(items@).subrange(0, items@.len() as int) =~= values_view(items@));
    }
    out
}

/// Structural equality of values.
pub fn values_equal(a: &Value, b: &Value) -> (r: bool)
    ensures
        r == (value_view(*a) == value_view(*b)),
    decreases a,
{
    match (a, b) {
        (Value::Int(x), Value::Int(y)) => *x == *y,
        (Value::Bool(x), Value::Bool(y)) => *x == *y,
        (Value::String(x), Value::String(y)) => *x == *y,
        (Value::Array(xs), Value::Array(ys)) => arrays_equal(xs, ys),
        (Value::Float(x), Value::Float(y)) => *x == *y,
        _ => false,
    }
}

fn arrays_equal(xs: &Vec<Value>, ys: &Vec<Value>) -> (r: bool)
    ensures
        r == (values_view(xs@) == values_view(ys@)),
    decreases xs,
{
    proof {
        lemma_values_view(xs@);
        lemma_values_view(ys@);
    }
    if xs.len() != ys.len() {
        return false;
    }
    let mut i: usize = 0;
    while i < xs.len()
        invariant
            i <= xs@.len(),
            xs@.len() == ys@.len(),
            values_view(xs@).len() == xs@.len(),
            values_view(ys@).len() == ys@.len(),
            forall|k: int| 0 <= k < xs@.len() ==> #[trigger] values_view(xs@)[k] == value_view(
                xs@[k],
            ),
            forall|k: int| 0 <= k < ys@.len() ==> #[trigger] values_view(ys@)[k] == value_view(
                ys@[k],
            ),
            forall|k: int| 0 <= k < i ==> #[trigger] values_view(xs@)[k] == values_view(ys@)[k],
        decreases xs@.len() - i,
    {
        if !values_equal(&xs[i], &ys[i]) {
            proof {
                assert(values_view(xs@)[i as int] != values_view(ys@)[i as int]);
            }
            return false;
        }
        i = i + 1;
    }
    proof {
        assert(values_view(xs@) =~= values_view(ys@));
    }
    true
}

/// Appends the text that `print` writes for `v`.
pub(crate) fn display_into(v: &Value, out: &mut String)
    ensures
        final(out)@ == old(out)@ + display(value_view(*v)),
    decreases v,
{
    match v {
        Value::Int(i) => {
            let digits = int_to_chars(*i);
            let text = string_from(&digits);
            out.append(text.as_str());
        },
        Value::Bool(b) => {
            if *b {
                out.append("true");
            } else {
                out.append("false");
            }
        },
        Value::String(s) => {
            out.append(s.as_str());
        },
        Value::Array(items) => display_array_into(items, out),
        Value::Float(t) => {
            out.append(t.as_str());
        },
    }
}

fn display_array_into(items: &Vec<Value>, out: &mut String)
    ensures
        final(out)@ == old(out)@ + display(ValueView::Array(values_view(items@))),
    decreases items,
{
    let ghost start = out@;
    let ghost iv = values_view(items@);
    proof {
        lemma_values_view(items@);
    }
    out.append("[");
    let mut i: usize = 0;
    while i < items.len()
        invariant
            i <= items@.len(),
            iv == values_view(items@),
            iv.len() == items@.len(),
            forall|k: int| 0 <= k < items@.len() ==> #[trigger] iv[k] == value_view(items@[k]),
            out@ == start + "["@ + display_items(iv.subrange(0, i as int)),
        decreases items@.len() - i,
    {
        let ghost before = out@;
        if i > 0 {
            out.append(", ");
        }
        display_into(&items[i], out);
        proof {
            let pre = iv.subrange(0, i as int);
            let next = iv.subrange(0, i + 1);
            assert(next.drop_last() =~= pre);
            assert(next.last() == iv[i as int]);
            if i == 0 {
                assert(display_items(pre) =~= seq![]);
                assert(next =~= seq![iv[0]]);
            }
        }
        i = i + 1;
    }
    out.append("]");
    proof {
        assert(iv.subrange(0, iv.len() as int) =~= iv);
    }
}

pub proof fn lemma_find_local(locals: Seq<(Seq<char>, ValueView)>, name: Seq<char>)
    ensures
        match find_local(locals, name) {
            Some(i) => 0 <= i < locals.len() && locals[i].0 == name && forall|j: int|
                0 <= j < i ==> #[trigger] locals[j].0 != name,
            None => forall|j: int| 0 <= j < locals.len() ==> #[trigger] locals[j].0 != name,
        },
    decreases locals.len(),
{
    if locals.len() > 0 {
        lemma_find_local(locals.drop_first(), name);
        if locals[0].0 != name {
            match find_local(locals.drop_first(), name) {
                Some(i) => {
                    assert forall|j: int| 0 <= j < i + 1 implies #[trigger] locals[j].0 != name by {
                        if j > 0 {
                            assert(locals[j] == locals.drop_first()[j - 1]);
                        }
                    }
                },
                None => {
                    assert forall|j: int| 0 <= j < locals.len() implies #[trigger] locals[j].0
                        != name by {
                        if j > 0 {
                            assert(locals[j] == locals.drop_first()[j - 1]);
                        }
                    }
                },
            }
        }
    }
}

pub proof fn lemma_find_local_first(locals: Seq<(Seq<char>, ValueView)>, name: Seq<char>, i: int)
    requires
        0 <= i < locals.len(),
        locals[i].0 == name,
        forall|j: int| 0 <= j < i ==> #[trigger] locals[j].0 != name,
    ensures
        find_local(locals, name) == Some(i),
{
    lemma_find_local(locals, name);
    match find_local(locals, name) {
        Some(k) => {
            if k < i {
                assert(locals[k].0 != name);
            } else if k > i {
                assert(locals[i].0 != name);
            }
        },
        None => {
            assert(locals[i].0 != name);
        },
    }
}

pub(crate) fn find_local_index(locals: &Vec<(String, Value)>, name: &String) -> (r: Option<usize>)
    ensures
        match r {
            Some(i) => find_local(locals_view(locals@), name@) == Some(i as int),
            None => find_local(locals_view(locals@), name@) is None,
        },
{
    let ghost lv = locals_view(locals@);
    let mut i: usize = 0;
    while i < locals.len()
        invariant
            i <= locals@.len(),
            lv == locals_view(locals@),
            forall|j: int| 0 <= j < i ==> #[trigger] lv[j].0 != name@,
        decreases locals@.len() - i,
    {
        if locals[i].0 == *name {
            proof {
                lemma_find_local_first(lv, name@, i as int);
            }
            return Some(i);
        }
        i = i + 1;
    }
    proof {
        lemma_find_local(lv, name@);
    }
    None
}

pub(crate) fn store(locals: &mut Vec<(String, Value)>, name: String, v: Value)
    ensures
        locals_view(final(locals)@) == store_local(locals_view(old(locals)@), name@, value_view(v)),
{
    let ghost before = locals@;
    proof {
        lemma_find_local(locals_view(locals@), name@);
    }
    match find_local_index(locals, &name) {
        Some(i) => {
            locals.set(i, (name, v));
            proof {
                assert(locals_view(locals@) =~= locals_view(before).update(
                    i as int,
                    (name@, value_view(v)),
                ));
            }
        },
        None => {
            locals.push((name, v));
            proof {
                assert(locals_view(locals@) =~= locals_view(before).push((name@, value_view(v))));
            }
        },
    }
}

fn checked_int(v: Option<i64>) -> (r: Result<Value, String>)
    ensures
        v is Some ==> r == Ok::<Value, String>(Value::Int(v->0)),
        v is None ==> r is Err && r->Err_0@ == "integer overflow"@,
{
    match v {
        Some(x) => Ok(Value::Int(x)),
        None => Err("integer overflow".to_owned()),
    }
}

pub open spec fn result_view(r: Result<Value, String>) -> Result<ValueView, Seq<char>> {
    match r {
        Ok(v) => Ok(value_view(v)),
        Err(m) => Err(m@),
    }
}

fn magnitude(a: i64) -> (r: u64)
    ensures
        r as int == abs(a as int),
{
    if a < 0 {
        (-(a as i128)) as u64
    } else {
        a as u64
    }
}

pub(crate) fn binary(op: BinaryOperator, left: Value, right: Value) -> (r: Result<Value, String>)
    ensures
        result_view(r) == binary_value(op, value_view(left), value_view(right)),
{
    match op {
        BinaryOperator::Add => match (left, right) {
            (Value::Int(a), Value::Int(b)) => checked_int(a.checked_add(b)),
            (Value::String(a), Value::String(b)) => {
                let mut s = a;
                s.append(b.as_str());
                Ok(Value::String(s))
            },
            _ => Err("expected Int value".to_owned()),
        },
        BinaryOperator::Subtract => match (left, right) {
            (Value::Int(a), Value::Int(b)) => checked_int(a.checked_sub(b)),
            _ => Err("expected Int value".to_owned()),
        },
        BinaryOperator::Multiply => match (left, right) {
            (Value::Int(a), Value::Int(b)) => checked_int(a.checked_mul(b)),
            _ => Err("expected Int value".to_owned()),
        },
        BinaryOperator::Divide | BinaryOperator::Modulo => match right {
            Value::Int(b) => {
                if b == 0 {
                    return Err("division by zero".to_owned());
                }
                match left {
                    Value::Int(a) => {
                        let ma = magnitude(a);
                        let mb = magnitude(b);
                        if op == BinaryOperator::Divide {
                            let q = (ma / mb) as i128;
                            let signed = if (a < 0) == (b < 0) {
                                q
                            } else {
                                -q
                            };
                            if signed > i64::MAX as i128 {
                                Err("integer overflow".to_owned())
                            } else {
                                Ok(Value::Int(signed as i64))
                            }
                        } else if a == i64::MIN && b == -1 {
                            Err("integer overflow".to_owned())
                        } else {
                            let m = (ma % mb) as i128;
                            let signed = if a < 0 {
                                -m
                            } else {
                                m
                            };
                            Ok(Value::Int(signed as i64))
                        }
                    },
                    _ => Err("expected Int value".to_owned()),
                }
            },
            _ => Err("expected Int value".to_owned()),
        },
        BinaryOperator::Greater | BinaryOperator::GreaterEqual | BinaryOperator::Less
        | BinaryOperator::LessEqual => match (left, right) {
            (Value::Int(a), Value::Int(b)) => Ok(
                Value::Bool(
                    match op {
                        BinaryOperator::Greater => a > b,
                        BinaryOperator::GreaterEqual => a >= b,
                        BinaryOperator::Less => a < b,
                        _ => a <= b,
                    },
                ),
            ),
            _ => Err("expected Int value".to_owned()),
        },
        BinaryOperator::Equal => Ok(Value::Bool(values_equal(&left, &right))),
        BinaryOperator::NotEqual => Ok(Value::Bool(!values_equal(&left, &right))),
        BinaryOperator::And | BinaryOperator::Or => match (left, right) {
            (Value::Bool(a), Value::Bool(b)) => Ok(
                Value::Bool(
                    if op == BinaryOperator::And {
                        a && b
                    } else {
                        a || b
                    },
                ),
            ),
            _ => Err("expected Bool value".to_owned()),
        },
    }
}

pub(crate) fn unary(op: UnaryOperator, v: Value) -> (r: Result<Value, String>)
    ensures
        result_view(r) == unary_value(op, value_view(v)),
{
    match op {
        UnaryOperator::Not => match v {
            Value::Bool(b) => Ok(Value::Bool(!b)),
            _ => Err("expected Bool value".to_owned()),
        },
        UnaryOperator::Negate => match v {
            Value::Int(i) => if i == i64::MIN {
                Err("integer overflow".to_owned())
            } else {
                Ok(Value::Int(-i))
            },
            _ => Err("expected Int value".to_owned()),
        },
    }
}

pub(crate) fn index_into(array: Value, index: Value) -> (r: Result<Value, String>)
    ensures
        result_view(r) == index_value(value_view(array), value_view(index)),
{
    match index {
        Value::Int(i) => match array {
            Value::Array(items) => {
                proof {
                    lemma_values_view(items@);
                }
                if i < 0 || (i as u64) >= (items.len() as u64) {
                    Err("index out of bounds".to_owned())
                } else {
                    Ok(copy_value(&items[i as usize]))
                }
            },
            _ => Err("expected Array value".to_owned()),
        },
        _ => Err("expected Int value".to_owned()),
    }
}

pub(crate) fn store_index(array: Value, index: Value, v: Value) -> (r: Result<Value, String>)
    ensures
        result_view(r) == store_index_value(value_view(array), value_view(index), value_view(v)),
{
    match index {
        Value::Int(i) => match array {
            Value::Array(items) => {
                proof {
                    lemma_values_view(items@);
                }
                if i < 0 || (i as u64) >= (items.len() as u64) {
                    Err("index out of bounds".to_owned())
                } else {
                    let mut items = items;
                    let ghost before = items@;
                    items.set(i as usize, v);
                    proof {
                        lemma_values_view_update(before, i as int, v);
                    }
                    Ok(Value::Array(items))
                }
            },
            _ => Err("expected Array value".to_owned()),
        },
        _ => Err("expected Int value".to_owned()),
    }
}

/// How running instructions ended, in the executable machine.
pub enum Flow {
    Normal,
    Returned(Value),
    Break,
    Continue,
    Failed(String),
}

pub open spec fn flow_view(f: Flow) -> Outcome {
    match f {
        Flow::Normal => Outcome::Normal,
        Flow::Returned(v) => Outcome::Returned(value_view(v)),
        Flow::Break => Outcome::Break,
        Flow::Continue => Outcome::Continue,
        Flow::Failed(m) => Outcome::Failed(m@),
    }
}

/// Two runs that end alike: the same outcome and, unless it is a failure,
/// the same state.  After a failure the state is never looked at again.
pub open spec fn same_run(a: (Outcome, VmState), b: (Outcome, VmState)) -> bool {
    a.0 == b.0 && (a.0 is Failed || a.1 == b.1)
}

struct Machine {
    stack: Vec<Value>,
    output: String,
}

pub open spec fn state_of(
    stack: Seq<Value>,
    output: Seq<char>,
    locals: Seq<(String, Value)>,
) -> VmState {
    VmState { locals: locals_view(locals), stack: values_view(stack), output }
}

fn failed(message: &str) -> (f: Flow)
    ensures
        flow_view(f) == Outcome::Failed(message@),
{
    Flow::Failed(message.to_owned())
}

fn find_function_index(fns: &Vec<CompiledFunction>, name: &String) -> (r: Option<usize>)
    ensures
        match r {
            Some(i) => find_function(compiled_functions_view(fns@), name@) == Some(i as int) && i
                < fns@.len(),
            None => find_function(compiled_functions_view(fns@), name@) is None,
        },
{
    let ghost fv = compiled_functions_view(fns@);
    let mut i: usize = 0;
    while i < fns.len()
        invariant
            i <= fns@.len(),
            fv == compiled_functions_view(fns@),
            forall|j: int| 0 <= j < i ==> #[trigger] fv[j].name != name@,
        decreases fns@.len() - i,
    {
        if fns[i].name == *name {
            proof {
                lemma_find_function_first(fv, name@, i as int);
            }
            return Some(i);
        }
        i = i + 1;
    }
    proof {
        lemma_find_function(fv, name@);
    }
    None
}

pub proof fn lemma_find_function(fns: Seq<CompiledFunctionView>, name: Seq<char>)
    ensures
        match find_function(fns, name) {
            Some(i) => 0 <= i < fns.len() && fns[i].name == name && forall|j: int|
                0 <= j < i ==> #[trigger] fns[j].name != name,
            None => forall|j: int| 0 <= j < fns.len() ==> #[trigger] fns[j].name != name,
        },
    decreases fns.len(),
{
    if fns.len() > 0 {
        lemma_find_function(fns.drop_first(), name);
        if fns[0].name != name {
            match find_function(fns.drop_first(), name) {
                Some(i) => {
                    assert forall|j: int| 0 <= j < i + 1 implies #[trigger] fns[j].name != name by {
                        if j > 0 {
                            assert(fns[j] == fns.drop_first()[j - 1]);
                        }
                    }
                },
                None => {
                    assert forall|j: int| 0 <= j < fns.len() implies #[trigger] fns[j].name
                        != name by {
                        if j > 0 {
                            assert(fns[j] == fns.drop_first()[j - 1]);
                        }
                    }
                },
            }
        }
    }
}

pub proof fn lemma_find_function_first(fns: Seq<CompiledFunctionView>, name: Seq<char>, i: int)
    requires
        0 <= i < fns.len(),
        fns[i].name == name,
        forall|j: int| 0 <= j < i ==> #[trigger] fns[j].name != name,
    ensures
        find_function(fns, name) == Some(i),
{
    lemma_find_function(fns, name);
    match find_function(fns, name) {
        Some(k) => {
            if k < i {
                assert(fns[k].name != name);
            } else if k > i {
                assert(fns[i].name != name);
            }
        },
        None => {
            assert(fns[i].name != name);
        },
    }
}

/// The locals of a call of a function with `params` on `args`.
fn bind(params: &Vec<String>, args: Vec<Value>) -> (r: Vec<(String, Value)>)
    ensures
        locals_view(r@) == bind_parameters(strings_view(params@), values_view(args@)),
{
    let ghost pv = strings_view(params@);
    let ghost av = values_view(args@);
    proof {
        lemma_values_view(args@);
    }
    let n = if params.len() < args.len() {
        params.len()
    } else {
        args.len()
    };
    let mut locals: Vec<(String, Value)> = Vec::new();
    let mut remaining = args;
    // Take the arguments from the back so that each can be moved out.
    let mut taken: Vec<Value> = Vec::new();
    while remaining.len() > n
        invariant
            n <= remaining@.len(),
            values_view(remaining@) == av.subrange(0, remaining@.len() as int),
            remaining@.len() <= av.len(),
        decreases remaining@.len(),
    {
        let ghost before = remaining@;
        remaining.pop();
        proof {
            lemma_values_view_subrange(before, 0, before.len() - 1);
        }
    }
    // `remaining` now holds the first `n` arguments, in order.
    let mut values: Vec<Value> = Vec::new();
    while remaining.len() > 0
        invariant
            remaining@.len() + values@.len() == n,
            n <= av.len(),
            values_view(remaining@) == av.subrange(0, remaining@.len() as int),
            forall|k: int| 0 <= k < values@.len() ==> #[trigger] value_view(values@[k]) == av[n - 1
                - k],
        decreases remaining@.len(),
    {
        let ghost before = remaining@;
        let v = remaining.pop().unwrap();
        proof {
            lemma_values_view(before);
            lemma_values_view_subrange(before, 0, before.len() - 1);
            assert(value_view(v) == values_view(before)[before.len() - 1]);
        }
        values.push(v);
    }
    // `values` holds the first `n` arguments in reverse order.
    let mut k: usize = 0;
    while k < n
        invariant
            k <= n,
            n <= pv.len(),
            n <= av.len(),
            pv == strings_view(params@),
            values@.len() == n - k,
            forall|j: int| 0 <= j < values@.len() ==> #[trigger] value_view(values@[j]) == av[n - 1
                - j],
            locals_view(locals@) == bind_prefix(pv, av, k as nat),
        decreases n - k,
    {
        let v = values.pop().unwrap();
        let name = params[k].clone();
        store(&mut locals, name, v);
        k = k + 1;
    }
    locals
}

impl Machine {
    spec fn state(&self, locals: Seq<(String, Value)>) -> VmState {
        state_of(self.stack@, self.output@, locals)
    }

    fn pop(&mut self) -> (r: Option<Value>)
        ensures
            old(self).output == final(self).output,
            old(self).stack@.len() > 0 ==> r is Some && value_view(r->0) == values_view(
                old(self).stack@,
            ).last() && values_view(final(self).stack@) == values_view(old(self).stack@).drop_last(),
            old(self).stack@.len() == 0 ==> r is None && final(self).stack@ == old(self).stack@,
    {
        let ghost before = self.stack@;
        let r = self.stack.pop();
        proof {
            if before.len() > 0 {
                lemma_values_view(before);
                lemma_values_view_subrange(before, 0, before.len() - 1);
            }
        }
        r
    }

    fn push(&mut self, v: Value)
        ensures
            final(self).output == old(self).output,
            values_view(final(self).stack@) == values_view(old(self).stack@).push(value_view(v)),
    {
        let ghost before = self.stack@;
        self.stack.push(v);
        proof {
            lemma_values_view_push(before, v);
        }
    }

    /// Runs an instruction that runs no nested code.
    fn simple_step(&mut self, i: &Instruction, locals: &mut Vec<(String, Value)>) -> (r: Flow)
        requires
            is_simple(instruction_view(*i)),
        ensures
            same_run(
                (flow_view(r), final(self).state(final(locals)@)),
                simple_step(instruction_view(*i), old(self).state(old(locals)@)),
            ),
    {
        let ghost st = self.state(locals@);
        let ghost stack = st.stack;
        let ghost n = stack.len();
        proof {
            lemma_values_view(self.stack@);
        }
        match i {
            Instruction::PushInt(v) => {
                self.push(Value::Int(*v));
                Flow::Normal
            },
            Instruction::PushBool(b) => {
                self.push(Value::Bool(*b));
                Flow::Normal
            },
            Instruction::PushString(s) => {
                self.push(Value::String(s.clone()));
                Flow::Normal
            },
            Instruction::PushFloat(_) => failed(
                "floating-point values are not supported by the virtual machine",
            ),
            Instruction::LoadVariable(name) => {
                proof {
                    lemma_find_local(locals_view(locals@), name@);
                }
                match find_local_index(locals, name) {
                    Some(k) => {
                        let v = copy_value(&locals[k].1);
                        self.push(v);
                        Flow::Normal
                    },
                    None => {
                        let mut message = "unknown variable '".to_owned();
                        message.append(name.as_str());
                        message.append("'");
                        Flow::Failed(message)
                    },
                }
            },
            Instruction::StoreVariable(name) => {
                match self.pop() {
                    Some(v) => {
                        store(locals, name.clone(), v);
                        Flow::Normal
                    },
                    None => failed("stack underflow"),
                }
            },
            Instruction::MakeArray { length } => {
                let len = self.stack.len();
                if len < *length {
                    return failed("stack underflow");
                }
                let ghost before = self.stack@;
                let items = self.stack.split_off(len - *length);
                proof {
                    lemma_values_view_subrange(before, 0, len - *length);
                    lemma_values_view_subrange(before, len - *length, len as int);
                }
                self.push(Value::Array(items));
                Flow::Normal
            },
            Instruction::Binary { op } => {
                if self.stack.len() < 2 {
                    return failed("stack underflow");
                }
                let right = self.pop().unwrap();
                let left = self.pop().unwrap();
                proof {
                    assert(values_view(self.stack@) =~= stack.subrange(0, n - 2));
                    assert(value_view(left) == stack[n - 2]);
                }
                match binary(*op, left, right) {
                    Ok(v) => {
                        self.push(v);
                        Flow::Normal
                    },
                    Err(m) => Flow::Failed(m),
                }
            },
            Instruction::Unary { op } => {
                match self.pop() {
                    Some(v) => match unary(*op, v) {
                        Ok(r) => {
                            self.push(r);
                            Flow::Normal
                        },
                        Err(m) => Flow::Failed(m),
                    },
                    None => failed("stack underflow"),
                }
            },
            Instruction::Index => {
                if self.stack.len() < 2 {
                    return failed("stack underflow");
                }
                let index = self.pop().unwrap();
                let array = self.pop().unwrap();
                proof {
                    assert(values_view(self.stack@) =~= stack.subrange(0, n - 2));
                    assert(value_view(array) == stack[n - 2]);
                }
                match index_into(array, index) {
                    Ok(v) => {
                        self.push(v);
                        Flow::Normal
                    },
                    Err(m) => Flow::Failed(m),
                }
            },
            Instruction::StoreIndex => {
                if self.stack.len() < 3 {
                    return failed("stack underflow");
                }
                let v = self.pop().unwrap();
                let index = self.pop().unwrap();
                let array = self.pop().unwrap();
                proof {
                    assert(values_view(self.stack@) =~= stack.subrange(0, n - 3));
                    assert(value_view(array) == stack[n - 3]);
                    assert(value_view(index) == stack[n - 2]);
                }
                match store_index(array, index, v) {
                    Ok(r) => {
                        self.push(r);
                        Flow::Normal
                    },
                    Err(m) => Flow::Failed(m),
                }
            },
            Instruction::Print => {
                match self.pop() {
                    Some(v) => {
                        display_into(&v, &mut self.output);
                        self.output.append("\n");
                        Flow::Normal
                    },
                    None => failed("stack underflow"),
                }
            },
            Instruction::Return => {
                match self.pop() {
                    Some(v) => Flow::Returned(v),
                    None => failed("stack underflow"),
                }
            },
            Instruction::Break => Flow::Break,
            Instruction::Continue => Flow::Continue,
            _ => Flow::Normal,
        }
    }
}

impl Machine {
    /// Runs `code` from its first instruction.
    fn run_code(
        &mut self,
        fns: &Vec<CompiledFunction>,
        code: &Vec<Instruction>,
        fuel: u64,
        locals: &mut Vec<(String, Value)>,
    ) -> (r: Flow)
        ensures
            same_run(
                (flow_view(r), final(self).state(final(locals)@)),
                run(
                    compiled_functions_view(fns@),
                    instructions_view(code@),
                    0,
                    fuel as nat,
                    old(self).state(old(locals)@),
                ),
            ),
        decreases fuel, code, code@.len() + 3,
    {
        let ghost fv = compiled_functions_view(fns@);
        let ghost cv = instructions_view(code@);
        let ghost s0 = self.state(locals@);
        proof {
            lemma_instructions_view(code@);
        }
        let mut idx: usize = 0;
        while idx < code.len()
            invariant
                idx <= code@.len(),
                fv == compiled_functions_view(fns@),
                cv == instructions_view(code@),
                cv.len() == code@.len(),
                s0 == old(self).state(old(locals)@),
                run(fv, cv, 0, fuel as nat, s0) == run(
                    fv,
                    cv,
                    idx as int,
                    fuel as nat,
                    self.state(locals@),
                ),
            decreases code@.len() - idx,
        {
            let flow = self.run_instruction(fns, code, idx, fuel, locals);
            match flow {
                Flow::Normal => {},
                _ => {
                    return flow;
                },
            }
            idx = idx + 1;
        }
        Flow::Normal
    }

    /// Runs the instruction `code[idx]`.
    fn run_instruction(
        &mut self,
        fns: &Vec<CompiledFunction>,
        code: &Vec<Instruction>,
        idx: usize,
        fuel: u64,
        locals: &mut Vec<(String, Value)>,
    ) -> (r: Flow)
        requires
            idx < code@.len(),
        ensures
            same_run(
                (flow_view(r), final(self).state(final(locals)@)),
                run_instruction(
                    compiled_functions_view(fns@),
                    instructions_view(code@),
                    idx as int,
                    fuel as nat,
                    old(self).state(old(locals)@),
                ),
            ),
        decreases fuel, code, 2int,
    {
        let ghost st = self.state(locals@);
        proof {
            lemma_instructions_view(code@);
            lemma_values_view(self.stack@);
        }
        let instruction = &code[idx];
        match instruction {
            Instruction::ShortCircuitAnd { right } | Instruction::ShortCircuitOr { right } => {
                let is_and = match instruction {
                    Instruction::ShortCircuitAnd { .. } => true,
                    _ => false,
                };
                let left = match self.pop() {
                    Some(v) => v,
                    None => {
                        return failed("stack underflow");
                    },
                };
                let b = match left {
                    Value::Bool(b) => b,
                    _ => {
                        return failed("expected Bool value");
                    },
                };
                if b != is_and {
                    self.push(Value::Bool(b));
                    return Flow::Normal;
                }
                let flow = self.run_code(fns, right, fuel, locals);
                match flow {
                    Flow::Normal => {},
                    _ => {
                        return flow;
                    },
                }
                proof {
                    lemma_values_view(self.stack@);
                }
                match self.pop() {
                    Some(Value::Bool(r)) => {
                        self.push(Value::Bool(r));
                        Flow::Normal
                    },
                    Some(_) => failed("expected Bool value"),
                    None => failed("stack underflow"),
                }
            },
            Instruction::Call { name, argument_count } => {
                let n = self.stack.len();
                if n < *argument_count {
                    return failed("stack underflow");
                }
                if fuel == 0 {
                    return failed("execution limit exceeded");
                }
                match find_function_index(fns, name) {
                    None => {
                        let mut message = "unknown function '".to_owned();
                        message.append(name.as_str());
                        message.append("'");
                        Flow::Failed(message)
                    },
                    Some(k) => {
                        let ghost before = self.stack@;
                        let args = self.stack.split_off(n - *argument_count);
                        proof {
                            lemma_values_view_subrange(before, 0, n - *argument_count);
                            lemma_values_view_subrange(before, n - *argument_count, n as int);
                        }
                        let mut callee_locals = bind(&fns[k].parameters, args);
                        let mut caller_stack: Vec<Value> = Vec::new();
                        std::mem::swap(&mut caller_stack, &mut self.stack);
                        proof {
                            assert(values_view(self.stack@) =~= Seq::<ValueView>::empty());
                        }
                        let flow = self.run_code(
                            fns,
                            &fns[k].instructions,
                            fuel - 1,
                            &mut callee_locals,
                        );
                        self.stack = caller_stack;
                        match flow {
                            Flow::Normal => Flow::Normal,
                            Flow::Returned(v) => {
                                self.push(v);
                                Flow::Normal
                            },
                            Flow::Failed(m) => Flow::Failed(m),
                            _ => failed("loop control escaped its loop"),
                        }
                    },
                }
            },
            Instruction::If { then_body, else_body } => {
                let condition = match self.pop() {
                    Some(v) => v,
                    None => {
                        return failed("stack underflow");
                    },
                };
                match condition {
                    Value::Bool(b) => {
                        if b {
                            self.run_code(fns, then_body, fuel, locals)
                        } else {
                            self.run_code(fns, else_body, fuel, locals)
                        }
                    },
                    _ => failed("expected Bool value"),
                }
            },
            Instruction::While { .. } => self.run_loop(fns, code, idx, fuel, locals),
            Instruction::For { initializer, .. } => {
                let flow = self.run_code(fns, initializer, fuel, locals);
                match flow {
                    Flow::Normal => self.run_loop(fns, code, idx, fuel, locals),
                    Flow::Break | Flow::Continue => failed("loop control escaped its loop"),
                    _ => flow,
                }
            },
            _ => self.simple_step(instruction, locals),
        }
    }

    /// Runs one part of the loop `code[idx]`: its condition (0), update (1)
    /// or body (2).
    fn run_part(
        &mut self,
        fns: &Vec<CompiledFunction>,
        code: &Vec<Instruction>,
        idx: usize,
        part: u8,
        fuel: u64,
        locals: &mut Vec<(String, Value)>,
    ) -> (r: Flow)
        requires
            idx < code@.len(),
            part <= 2,
        ensures
            same_run(
                (flow_view(r), final(self).state(final(locals)@)),
                run(
                    compiled_functions_view(fns@),
                    loop_part(instructions_view(code@)[idx as int], part),
                    0,
                    fuel as nat,
                    old(self).state(old(locals)@),
                ),
            ),
        decreases fuel, code, 0int,
    {
        proof {
            lemma_instructions_view(code@);
        }
        match &code[idx] {
            Instruction::While { condition, body } => {
                if part == 0 {
                    self.run_code(fns, condition, fuel, locals)
                } else if part == 2 {
                    self.run_code(fns, body, fuel, locals)
                } else {
                    Flow::Normal
                }
            },
            Instruction::For { condition, update, body, .. } => {
                if part == 0 {
                    self.run_code(fns, condition, fuel, locals)
                } else if part == 1 {
                    self.run_code(fns, update, fuel, locals)
                } else {
                    self.run_code(fns, body, fuel, locals)
                }
            },
            _ => Flow::Normal,
        }
    }

    /// Runs the loop `code[idx]` to its end.
    fn run_loop(
        &mut self,
        fns: &Vec<CompiledFunction>,
        code: &Vec<Instruction>,
        idx: usize,
        fuel: u64,
        locals: &mut Vec<(String, Value)>,
    ) -> (r: Flow)
        requires
            idx < code@.len(),
        ensures
            same_run(
                (flow_view(r), final(self).state(final(locals)@)),
                run_loop(
                    compiled_functions_view(fns@),
                    instructions_view(code@),
                    idx as int,
                    fuel as nat,
                    old(self).state(old(locals)@),
                ),
            ),
        decreases fuel, code, 1int,
    {
        let ghost fv = compiled_functions_view(fns@);
        let ghost cv = instructions_view(code@);
        let ghost s0 = self.state(locals@);
        proof {
            lemma_instructions_view(code@);
        }
        let has_update = match &code[idx] {
            Instruction::While { .. } => false,
            Instruction::For { update, .. } => {
                proof {
                    lemma_instructions_view(update@);
                }
                update.len() > 0
            },
            _ => {
                return Flow::Normal;
            },
        };
        let mut f = fuel;
        loop
            invariant
                f <= fuel,
                idx < code@.len(),
                fv == compiled_functions_view(fns@),
                cv == instructions_view(code@),
                cv.len() == code@.len(),
                cv[idx as int] is While || cv[idx as int] is For,
                has_update == (loop_parts(cv[idx as int]).1.len() > 0),
                s0 == old(self).state(old(locals)@),
                run_loop(fv, cv, idx as int, fuel as nat, s0) == run_loop(
                    fv,
                    cv,
                    idx as int,
                    f as nat,
                    self.state(locals@),
                ),
            decreases f,
        {
            let flow = self.run_part(fns, code, idx, 0, f, locals);
            match flow {
                Flow::Normal => {},
                Flow::Break | Flow::Continue => {
                    return failed("loop control escaped its loop");
                },
                _ => {
                    return flow;
                },
            }
            proof {
                lemma_values_view(self.stack@);
            }
            let b = match self.pop() {
                Some(Value::Bool(b)) => b,
                Some(_) => {
                    return failed("expected Bool value");
                },
                None => {
                    return failed("stack underflow");
                },
            };
            if !b {
                return Flow::Normal;
            }
            let flow = self.run_part(fns, code, idx, 2, f, locals);
            match flow {
                Flow::Break => {
                    return Flow::Normal;
                },
                Flow::Normal | Flow::Continue => {},
                _ => {
                    return flow;
                },
            }
            if has_update {
                let flow = self.run_part(fns, code, idx, 1, f, locals);
                match flow {
                    Flow::Normal => {},
                    Flow::Break | Flow::Continue => {
                        return failed("loop control escaped its loop");
                    },
                    _ => {
                        return flow;
                    },
                }
            }
            if f == 0 {
                return failed("execution limit exceeded");
            }
            f = f - 1;
        }
    }
}


/// The fuel that a program starts with: it bounds the depth of calls and the
/// number of iterations of each loop.
pub const EXECUTION_FUEL: u64 = 18446744073709551615;

/// What running `main` of `fns` gives: the text that it printed, or the
/// message of the failure that stopped it.
pub open spec fn program_output(fns: Seq<CompiledFunctionView>, fuel: nat) -> Result<
    Seq<char>,
    Seq<char>,
> {
    match find_function(fns, "main"@) {
        None => Err("unknown function 'main'"@),
        Some(k) => {
            let start = VmState { locals: seq![], stack: seq![], output: seq![] };
            let (o, s) = run(fns, fns[k].instructions, 0, fuel, start);
            match o {
                Outcome::Normal | Outcome::Returned(_) => Ok(s.output),
                Outcome::Failed(m) => Err(m),
                _ => Err(escaped()),
            }
        },
    }
}

pub open spec fn vm_result_view(r: Result<String, VmError>) -> Result<Seq<char>, Seq<char>> {
    match r {
        Ok(s) => Ok(s@),
        Err(e) => Err(e.message@),
    }
}

/// Runs `main` of `fns` with no arguments.
fn run_main(fns: &Vec<CompiledFunction>) -> (r: Result<String, VmError>)
    ensures
        vm_result_view(r) == program_output(compiled_functions_view(fns@), EXECUTION_FUEL as nat),
{
    let main = "main".to_owned();
    match find_function_index(fns, &main) {
        None => Err(VmError { message: "unknown function 'main'".to_owned() }),
        Some(k) => {
            let mut machine = Machine { stack: Vec::new(), output: String::new() };
            let mut locals: Vec<(String, Value)> = Vec::new();
            proof {
                assert(values_view(machine.stack@) =~= seq![]);
                assert(locals_view(locals@) =~= seq![]);
            }
            let flow = machine.run_code(fns, &fns[k].instructions, EXECUTION_FUEL, &mut locals);
            match flow {
                Flow::Normal | Flow::Returned(_) => Ok(machine.output),
                Flow::Failed(m) => Err(VmError { message: m }),
                _ => Err(VmError { message: "loop control escaped its loop".to_owned() }),
            }
        },
    }
}

/// Lowers a program and keeps, of each function, what an artifact holds.
pub fn compile_program(program: &Program) -> (r: Artifact)
    ensures
        r@ == compile_functions(lower_functions(program@.functions)),
{
    let lowered = lower_program(program);
    let ghost lv = lowered_functions_view(lowered.functions@);
    let mut source = lowered.functions;
    let mut functions: Vec<CompiledFunction> = Vec::new();
    proof {
        assert(lv.subrange(0, 0) =~= seq![]);
        assert(compiled_functions_view(functions@) =~= compile_functions(lv.subrange(0, 0)));
        assert(lowered_functions_view(source@) =~= lv.subrange(0, lv.len() as int));
    }
    while source.len() > 0
        invariant
            source@.len() <= lv.len(),
            lowered_functions_view(source@) == lv.subrange(
                lv.len() - source@.len(),
                lv.len() as int,
            ),
            compiled_functions_view(functions@) == compile_functions(
                lv.subrange(0, lv.len() - source@.len()),
            ),
        decreases source@.len(),
    {
        let ghost k = lv.len() - source@.len();
        let ghost before = source@;
        let f = source.remove(0);
        proof {
            assert(lowered_functions_view(before)[0] == lv[k]);
            assert(lowered_functions_view(source@) =~= lv.subrange(k + 1, lv.len() as int)) by {
                assert forall|j: int| 0 <= j < source@.len() implies lowered_functions_view(
                    source@,
                )[j] == lv.subrange(k + 1, lv.len() as int)[j] by {
                    assert(source@[j] == before[j + 1]);
                    assert(lowered_functions_view(before)[j + 1] == lv[k + 1 + j]);
                }
            }
        }
        let ghost done = functions@;
        functions.push(
            CompiledFunction { name: f.name, parameters: f.parameters, instructions: f.instructions },
        );
        proof {
            assert(compiled_functions_view(functions@) =~= compiled_functions_view(done).push(
                compiled_of(lv[k]),
            ));
            assert(lv.subrange(0, k + 1) =~= lv.subrange(0, k).push(lv[k]));
            assert(compile_functions(lv.subrange(0, k + 1)) =~= compile_functions(
                lv.subrange(0, k),
            ).push(compiled_of(lv[k])));
        }
    }
    proof {
        assert(lv.subrange(0, lv.len() as int) =~= lv);
    }
    Artifact { functions }
}

/// Compiles `program` and runs its `main` function on the virtual machine.
pub fn execute_program(program: &Program) -> (r: Result<String, VmError>)
    ensures
        vm_result_view(r) == program_output(
            compile_functions(lower_functions(program@.functions)),
            EXECUTION_FUEL as nat,
        ),
{
    let artifact = compile_program(program);
    run_main(&artifact.functions)
}

/// Runs the `main` function of an artifact on the virtual machine.
pub fn execute_artifact(artifact: &Artifact) -> (r: Result<String, VmError>)
    ensures
        vm_result_view(r) == program_output(artifact@, EXECUTION_FUEL as nat),
{
    run_main(&artifact.functions)
}

/// The `.axm` text of the artifact of `program`.
pub fn build_artifact(program: &Program) -> (r: String)
    ensures
        r@ == crate::artifact::serialize_text(compile_functions(lower_functions(program@.functions))),
{
    compile_program(program).serialize()
}


// ----- laws -----
/// Loading a local after storing it gives the value stored, and storing a
/// local leaves every other one as it was.
pub proof fn law_load_after_store(
    locals: Seq<(Seq<char>, ValueView)>,
    name: Seq<char>,
    v: ValueView,
    other: Seq<char>,
)
    requires
        other != name,
    ensures
        find_local(store_local(locals, name, v), name) matches Some(k) && store_local(
            locals,
            name,
            v,
        )[k].1 == v,
        match find_local(locals, other) {
            Some(k) => find_local(store_local(locals, name, v), other) == Some(k) && store_local(
                locals,
                name,
                v,
            )[k].1 == locals[k].1,
            None => find_local(store_local(locals, name, v), other) is None,
        },
{
    lemma_find_local(locals, name);
    lemma_find_local(locals, other);
    let after = store_local(locals, name, v);
    lemma_find_local(after, other);
    match find_local(locals, name) {
        Some(i) => {
            assert forall|j: int| 0 <= j < i implies #[trigger] after[j].0 != name by {
                assert(after[j] == locals[j]);
            }
            lemma_find_local_first(after, name, i);
        },
        None => {
            assert forall|j: int| 0 <= j < locals.len() implies #[trigger] after[j].0 != name by {
                assert(after[j] == locals[j]);
            }
            lemma_find_local_first(after, name, locals.len() as int);
        },
    }
    match find_local(locals, other) {
        Some(k) => {
            assert(after[k] == locals[k]);
            assert forall|j: int| 0 <= j < k implies #[trigger] after[j].0 != other by {
                assert(locals[j].0 != other);
                if after[j] != locals[j] {
                    assert(after[j].0 == name);
                }
            }
            lemma_find_local_first(after, other, k);
        },
        None => {
            assert forall|j: int| 0 <= j < after.len() implies #[trigger] after[j].0 != other by {
                if j < locals.len() {
                    assert(locals[j].0 != other);
                    if after[j] != locals[j] {
                        assert(after[j].0 == name);
                    }
                } else {
                    assert(after[j].0 == name);
                }
            }
        },
    }
}

/// A short-circuit instruction whose left operand decides the result leaves
/// that operand and runs none of its right-hand code.
pub proof fn law_short_circuit_skips_right(
    fns: Seq<CompiledFunctionView>,
    right: Seq<InstructionView>,
    fuel: nat,
    st: VmState,
)
    requires
        st.stack.len() > 0,
    ensures
        st.stack.last() == ValueView::Bool(false) ==> run_instruction(
            fns,
            seq![InstructionView::ShortCircuitAnd { right }],
            0,
            fuel,
            st,
        ) == (Outcome::Normal, st),
        st.stack.last() == ValueView::Bool(true) ==> run_instruction(
            fns,
            seq![InstructionView::ShortCircuitOr { right }],
            0,
            fuel,
            st,
        ) == (Outcome::Normal, st),
{
    let popped = with_stack(st, st.stack.drop_last());
    assert(popped.stack.push(st.stack.last()) =~= st.stack);
    assert(with_stack(popped, popped.stack.push(st.stack.last())) =~= st);
}

/// After a `continue`, a compiled `for` loop runs its update before the next
/// test of its condition.
pub proof fn law_update_after_continue(
    fns: Seq<CompiledFunctionView>,
    code: Seq<InstructionView>,
    idx: int,
    fuel: nat,
    st: VmState,
)
    requires
        0 <= idx < code.len(),
        code[idx] is For,
        loop_parts(code[idx]).1.len() > 0,
    ensures
        ({
            let (condition, update, body) = loop_parts(code[idx]);
            let (o, s1) = run(fns, condition, 0, fuel, st);
            let n = s1.stack.len();
            let s2 = with_stack(s1, s1.stack.drop_last());
            let (o2, s3) = run(fns, body, 0, fuel, s2);
            (o == Outcome::Normal && n > 0 && s1.stack[n - 1] == ValueView::Bool(true) && o2
                == Outcome::Continue) ==> run_loop(fns, code, idx, fuel, st) == ({
                let (o3, s4) = run(fns, update, 0, fuel, s3);
                match o3 {
                    Outcome::Normal => if fuel == 0 {
                        fail(s4, execution_limit())
                    } else {
                        run_loop(fns, code, idx, (fuel - 1) as nat, s4)
                    },
                    Outcome::Break | Outcome::Continue => fail(s4, escaped()),
                    _ => (o3, s4),
                }
            })
        }),
{
}
/// Reading an array element after writing it gives the value written, and
/// writing one element leaves the others and the length as they were.
pub proof fn law_index_after_store_index(array: ValueView, i: i64, v: ValueView, j: i64)
    requires
        store_index_value(array, ValueView::Int(i), v) is Ok,
    ensures
        ({
            let updated = store_index_value(array, ValueView::Int(i), v)->Ok_0;
            &&& index_value(updated, ValueView::Int(i)) == Ok::<ValueView, Seq<char>>(v)
            &&& j != i ==> index_value(updated, ValueView::Int(j)) == index_value(
                array,
                ValueView::Int(j),
            )
        }),
{
}

// ----- running code that is put together -----
/// A loop instruction runs the same wherever it stands.
pub proof fn lemma_run_loop_local(
    fns: Seq<CompiledFunctionView>,
    a: Seq<InstructionView>,
    i: int,
    b: Seq<InstructionView>,
    j: int,
    fuel: nat,
    st: VmState,
)
    requires
        0 <= i < a.len(),
        0 <= j < b.len(),
        a[i] == b[j],
    ensures
        run_loop(fns, a, i, fuel, st) == run_loop(fns, b, j, fuel, st),
    decreases fuel,
{
    if a[i] is While || a[i] is For {
        let (condition, update, body) = loop_parts(a[i]);
        let (o, s1) = run(fns, condition, 0, fuel, st);
        if o == Outcome::Normal && s1.stack.len() > 0 {
            let n = s1.stack.len();
            if s1.stack[n - 1] == ValueView::Bool(true) {
                let s2 = with_stack(s1, s1.stack.drop_last());
                let (o2, s3) = run(fns, body, 0, fuel, s2);
                if o2 == Outcome::Normal || o2 == Outcome::Continue {
                    let (o3, s4) = if update.len() == 0 {
                        (Outcome::Normal, s3)
                    } else {
                        run(fns, update, 0, fuel, s3)
                    };
                    if o3 == Outcome::Normal && fuel > 0 {
                        lemma_run_loop_local(fns, a, i, b, j, (fuel - 1) as nat, s4);
                    }
                }
            }
        }
    }
}

/// An instruction runs the same wherever it stands.
pub proof fn lemma_run_instruction_local(
    fns: Seq<CompiledFunctionView>,
    a: Seq<InstructionView>,
    i: int,
    b: Seq<InstructionView>,
    j: int,
    fuel: nat,
    st: VmState,
)
    requires
        0 <= i < a.len(),
        0 <= j < b.len(),
        a[i] == b[j],
    ensures
        run_instruction(fns, a, i, fuel, st) == run_instruction(fns, b, j, fuel, st),
{
    lemma_run_loop_local(fns, a, i, b, j, fuel, st);
    if a[i] is For {
        let (o, s1) = run(fns, a[i]->For_initializer, 0, fuel, st);
        lemma_run_loop_local(fns, a, i, b, j, fuel, s1);
    }
}

/// Running the second part of a concatenation from its start.
pub proof fn lemma_run_shift(
    fns: Seq<CompiledFunctionView>,
    c1: Seq<InstructionView>,
    c2: Seq<InstructionView>,
    k: int,
    fuel: nat,
    st: VmState,
)
    requires
        0 <= k <= c2.len(),
    ensures
        run(fns, c1 + c2, c1.len() + k, fuel, st) == run(fns, c2, k, fuel, st),
    decreases c2.len() - k,
{
    if k < c2.len() {
        let c = c1 + c2;
        assert(c[c1.len() + k] == c2[k]);
        lemma_run_instruction_local(fns, c, c1.len() + k, c2, k, fuel, st);
        let (o, next) = run_instruction(fns, c2, k, fuel, st);
        lemma_run_shift(fns, c1, c2, k + 1, fuel, next);
    }
}

/// Running a concatenation runs its first part, then its second from the
/// state the first left, unless the first ended otherwise than normally.
pub proof fn lemma_run_concat(
    fns: Seq<CompiledFunctionView>,
    c1: Seq<InstructionView>,
    c2: Seq<InstructionView>,
    k: int,
    fuel: nat,
    st: VmState,
)
    requires
        0 <= k <= c1.len(),
    ensures
        run(fns, c1 + c2, k, fuel, st) == ({
            let (o, s) = run(fns, c1, k, fuel, st);
            if o == Outcome::Normal {
                run(fns, c2, 0, fuel, s)
            } else {
                (o, s)
            }
        }),
    decreases c1.len() - k,
{
    if k == c1.len() {
        lemma_run_shift(fns, c1, c2, 0, fuel, st);
    } else {
        let c = c1 + c2;
        assert(c[k] == c1[k]);
        lemma_run_instruction_local(fns, c, k, c1, k, fuel, st);
        let (o, next) = run_instruction(fns, c1, k, fuel, st);
        lemma_run_concat(fns, c1, c2, k + 1, fuel, next);
    }
}

/// Each operator on two integers means what it names: the comparisons follow
/// the order of the integers, equality compares them, and the arithmetic
/// operators give the exact result when it fits in 64 bits and fail with an
/// overflow when it does not.
pub proof fn law_integer_operators(a: i64, b: i64)
    ensures
        binary_value(BinaryOperator::Greater, ValueView::Int(a), ValueView::Int(b)) == Ok::<
            ValueView,
            Seq<char>,
        >(ValueView::Bool(a > b)),
        binary_value(BinaryOperator::GreaterEqual, ValueView::Int(a), ValueView::Int(b)) == Ok::<
            ValueView,
            Seq<char>,
        >(ValueView::Bool(a >= b)),
        binary_value(BinaryOperator::Less, ValueView::Int(a), ValueView::Int(b)) == Ok::<
            ValueView,
            Seq<char>,
        >(ValueView::Bool(a < b)),
        binary_value(BinaryOperator::LessEqual, ValueView::Int(a), ValueView::Int(b)) == Ok::<
            ValueView,
            Seq<char>,
        >(ValueView::Bool(a <= b)),
        binary_value(BinaryOperator::Equal, ValueView::Int(a), ValueView::Int(b)) == Ok::<
            ValueView,
            Seq<char>,
        >(ValueView::Bool(a == b)),
        binary_value(BinaryOperator::NotEqual, ValueView::Int(a), ValueView::Int(b)) == Ok::<
            ValueView,
            Seq<char>,
        >(ValueView::Bool(a != b)),
        i64::MIN <= a + b <= i64::MAX ==> binary_value(
            BinaryOperator::Add,
            ValueView::Int(a),
            ValueView::Int(b),
        ) == Ok::<ValueView, Seq<char>>(ValueView::Int((a + b) as i64)),
        i64::MIN <= a - b <= i64::MAX ==> binary_value(
            BinaryOperator::Subtract,
            ValueView::Int(a),
            ValueView::Int(b),
        ) == Ok::<ValueView, Seq<char>>(ValueView::Int((a - b) as i64)),
        i64::MIN <= a * b <= i64::MAX ==> binary_value(
            BinaryOperator::Multiply,
            ValueView::Int(a),
            ValueView::Int(b),
        ) == Ok::<ValueView, Seq<char>>(ValueView::Int((a * b) as i64)),
        !(i64::MIN <= a + b <= i64::MAX) ==> binary_value(
            BinaryOperator::Add,
            ValueView::Int(a),
            ValueView::Int(b),
        ) == Err::<ValueView, Seq<char>>("integer overflow"@),
        0 <= a && 0 < b ==> binary_value(BinaryOperator::Divide, ValueView::Int(a), ValueView::Int(b))
            == Ok::<ValueView, Seq<char>>(ValueView::Int((a / b) as i64)),
        0 <= a && 0 < b ==> binary_value(BinaryOperator::Modulo, ValueView::Int(a), ValueView::Int(b))
            == Ok::<ValueView, Seq<char>>(ValueView::Int((a % b) as i64)),
        binary_value(BinaryOperator::Divide, ValueView::Int(a), ValueView::Int(0)) == Err::<
            ValueView,
            Seq<char>,
        >("division by zero"@),
{
    if 0 <= a && 0 < b {
        assert(a / b <= a) by (nonlinear_arith)
            requires
                0 <= a,
                0 < b,
        ;
        assert(a % b < b) by (nonlinear_arith)
            requires
                0 <= a,
                0 < b,
        ;
    }
}

/// The logical operators on two booleans are conjunction and disjunction,
/// and `!` negates.
pub proof fn law_boolean_operators(a: bool, b: bool)
    ensures
        binary_value(BinaryOperator::And, ValueView::Bool(a), ValueView::Bool(b)) == Ok::<
            ValueView,
            Seq<char>,
        >(ValueView::Bool(a && b)),
        binary_value(BinaryOperator::Or, ValueView::Bool(a), ValueView::Bool(b)) == Ok::<
            ValueView,
            Seq<char>,
        >(ValueView::Bool(a || b)),
        unary_value(UnaryOperator::Not, ValueView::Bool(a)) == Ok::<ValueView, Seq<char>>(
            ValueView::Bool(!a),
        ),
{
}

/// Division of integers truncates toward zero: where the quotient fits, `/`
/// and `%` give a quotient and a remainder that make up the dividend, the
/// remainder smaller than the divisor in magnitude and of the dividend's
/// sign; dividing the least integer by `-1` overflows, and dividing by zero
/// fails.  Subtraction and multiplication fail with an overflow where the
/// exact result does not fit, and negation negates.
pub proof fn law_integer_division(a: i64, b: i64)
    ensures
        b != 0 && !(a == i64::MIN && b == -1) ==> (binary_value(
            BinaryOperator::Divide,
            ValueView::Int(a),
            ValueView::Int(b),
        ) matches Ok(ValueView::Int(q)) && (binary_value(
            BinaryOperator::Modulo,
            ValueView::Int(a),
            ValueView::Int(b),
        ) matches Ok(ValueView::Int(r)) && q * b + r == a && abs(r as int) < abs(b as int) && (r
            == 0 || (r < 0) == (a < 0)))),
        a == i64::MIN && b == -1 ==> binary_value(
            BinaryOperator::Divide,
            ValueView::Int(a),
            ValueView::Int(b),
        ) == Err::<ValueView, Seq<char>>("integer overflow"@) && binary_value(
            BinaryOperator::Modulo,
            ValueView::Int(a),
            ValueView::Int(b),
        ) == Err::<ValueView, Seq<char>>("integer overflow"@),
        binary_value(BinaryOperator::Modulo, ValueView::Int(a), ValueView::Int(0)) == Err::<
            ValueView,
            Seq<char>,
        >("division by zero"@),
        !(i64::MIN <= a - b <= i64::MAX) ==> binary_value(
            BinaryOperator::Subtract,
            ValueView::Int(a),
            ValueView::Int(b),
        ) == Err::<ValueView, Seq<char>>("integer overflow"@),
        !(i64::MIN <= a * b <= i64::MAX) ==> binary_value(
            BinaryOperator::Multiply,
            ValueView::Int(a),
            ValueView::Int(b),
        ) == Err::<ValueView, Seq<char>>("integer overflow"@),
        unary_value(UnaryOperator::Negate, ValueView::Int(a)) == if a == i64::MIN {
            Err::<ValueView, Seq<char>>("integer overflow"@)
        } else {
            Ok(ValueView::Int((-a) as i64))
        },
{
    if b != 0 {
        let x = abs(a as int);
        let y = abs(b as int);
        assert(x == (x / y) * y + x % y && 0 <= x % y < y && x / y <= x) by (nonlinear_arith)
            requires
                x >= 0,
                y > 0,
        ;
        let q = trunc_div(a as int, b as int);
        let r = trunc_rem(a as int, b as int);
        assert(q * b + r == a) by (nonlinear_arith)
            requires
                x == (x / y) * y + x % y,
                x == abs(a as int),
                y == abs(b as int),
                q == (if (a < 0) == (b < 0) { x / y } else { -(x / y) }),
                r == (if a < 0 { -(x % y) } else { x % y }),
        ;
        if !(a == i64::MIN && b == -1) {
            if a == i64::MIN && y >= 2 {
                assert(x / y <= x / 2) by (nonlinear_arith)
                    requires
                        y >= 2,
                        x >= 0,
                ;
            }
            assert(i64::MIN <= q <= i64::MAX);
        }
    }
}

/// `+` on two strings concatenates them, `==` and `!=` compare any two
/// values, and the ordering comparisons want two integers.
pub proof fn law_value_operators(op: BinaryOperator, x: Seq<char>, y: Seq<char>, l: ValueView, r: ValueView)
    ensures
        binary_value(BinaryOperator::Add, ValueView::Str(x), ValueView::Str(y)) == Ok::<
            ValueView,
            Seq<char>,
        >(ValueView::Str(x + y)),
        binary_value(BinaryOperator::Equal, l, r) == Ok::<ValueView, Seq<char>>(
            ValueView::Bool(l == r),
        ),
        binary_value(BinaryOperator::NotEqual, l, r) == Ok::<ValueView, Seq<char>>(
            ValueView::Bool(l != r),
        ),
        (op == BinaryOperator::Greater || op == BinaryOperator::GreaterEqual || op
            == BinaryOperator::Less || op == BinaryOperator::LessEqual) && !(l is Int && r is Int)
            ==> binary_value(op, l, r) == Err::<ValueView, Seq<char>>(expected_int()),
{
}
} // verus!
