//! The reference interpreter: runs a program straight from its syntax tree.
//!
//! Values are those of the virtual machine (integers, booleans, strings and
//! arrays), and every operator means what the machine's instruction for it
//! means. A floating-point literal evaluates to its text, which can be
//! printed, stored and compared for equality; arithmetic on it is refused.
use vstd::prelude::*;
use crate::ast::{
    BinaryOperator, Expression, ExpressionView, Function, FunctionView, ParameterView, Program,
    Statement, StatementView, UnaryOperator, expression_view, expressions_view, functions_view,
    lemma_expressions_view, lemma_statements_view, statement_view, statements_view,
};
use crate::artifact::append_chars;
use crate::semantic::{find_function, find_function_index, is_print_name, lemma_find_function};
use crate::parser::spec_parse;
use crate::semantic::spec_analyze;
use crate::vm::{
    EXECUTION_FUEL, Value, ValueView, binary, binary_value, unary_value, display, display_into, escaped,
    execution_limit, expected_bool, find_local, find_local_index, index_into, index_value,
    lemma_values_view_push, locals_view, result_view, store, store_index, store_index_value, store_local,
    unary, value_view, values_view, copy_value,
};
use crate::text::{decimal, usize_to_chars};

verus! {

/// How a statement or block ended.
pub enum Control {
    Normal,
    Returned(ValueView),
    Break,
    Continue,
}

/// The variables of a running function, and the text printed so far.
#[verifier::ext_equal]
pub struct Env {
    pub vars: Seq<(Seq<char>, ValueView)>,
    pub output: Seq<char>,
}

/// The variables of a new call: each parameter bound to its argument, in
/// order (extra parameters or arguments are ignored).
pub open spec fn bind_arguments(
    params: Seq<ParameterView>,
    args: Seq<ValueView>,
    k: nat,
) -> Seq<(Seq<char>, ValueView)>
    decreases k,
{
    if k == 0 {
        seq![]
    } else {
        store_local(bind_arguments(params, args, (k - 1) as nat), params[k - 1].name, args[k - 1])
    }
}

pub open spec fn min_len(a: nat, b: nat) -> nat {
    if a < b {
        a
    } else {
        b
    }
}

/// The failure of arithmetic, ordering or negation on a floating-point value.
pub open spec fn float_arithmetic() -> Seq<char> {
    "floating-point arithmetic is not supported"@
}

/// A binary operator other than `&&` and `||` on two values: what the
/// machine's instruction gives, but a floating-point operand is only ever
/// compared for equality.
pub open spec fn apply_binary(op: BinaryOperator, l: ValueView, r: ValueView) -> Result<
    ValueView,
    Seq<char>,
> {
    if (l is Float || r is Float) && op != BinaryOperator::Equal && op != BinaryOperator::NotEqual {
        Err(float_arithmetic())
    } else {
        binary_value(op, l, r)
    }
}

/// A unary operator on a value: what the machine's instruction gives, but a
/// floating-point value is not negated.
pub open spec fn apply_unary(op: UnaryOperator, v: ValueView) -> Result<ValueView, Seq<char>> {
    if v is Float && op == UnaryOperator::Negate {
        Err(float_arithmetic())
    } else {
        unary_value(op, v)
    }
}

/// The failure of running a `print` statement that has nothing to print: its
/// missing first argument is out of bounds.
pub open spec fn print_without_argument() -> Seq<char> {
    "index out of bounds"@
}

/// The number of nodes of an expression.
pub open spec fn expr_size(e: ExpressionView) -> nat
    decreases e,
{
    1 + match e {
        ExpressionView::Array(items) => list_size(items),
        ExpressionView::Binary { left, right, .. } => expr_size(*left) + expr_size(*right),
        ExpressionView::Unary { operand, .. } => expr_size(*operand),
        ExpressionView::Index { target, index } => expr_size(*target) + expr_size(*index),
        ExpressionView::Call(c) => list_size(c.arguments),
        _ => 0,
    }
}

pub open spec fn list_size(es: Seq<ExpressionView>) -> nat
    decreases es,
{
    if es.len() == 0 {
        0
    } else {
        expr_size(es[0]) + list_size(es.drop_first())
    }
}

/// The number of nodes of a statement, its expressions included.
pub open spec fn stmt_size(s: StatementView) -> nat
    decreases s,
{
    1 + match s {
        StatementView::Call(c) => list_size(c.arguments),
        StatementView::Let { value, .. } => expr_size(value),
        StatementView::Assign { target, value } => expr_size(target) + expr_size(value),
        StatementView::Return(e) => expr_size(e),
        StatementView::If { condition, then_body, else_body } => expr_size(condition) + block_size(
            then_body,
        ) + block_size(else_body),
        StatementView::While { condition, body } => expr_size(condition) + block_size(body),
        StatementView::For { initializer, condition, update, body } => (match initializer {
            Some(i) => stmt_size(*i),
            None => 0,
        }) + expr_size(condition) + (match update {
            Some(u) => stmt_size(*u),
            None => 0,
        }) + block_size(body),
        _ => 0,
    }
}

pub open spec fn block_size(ss: Seq<StatementView>) -> nat
    decreases ss,
{
    if ss.len() == 0 {
        0
    } else {
        stmt_size(ss[0]) + block_size(ss.drop_first())
    }
}

pub proof fn lemma_list_size(es: Seq<ExpressionView>)
    requires
        es.len() > 0,
    ensures
        list_size(es.drop_first()) < list_size(es),
{
    assert(expr_size(es[0]) >= 1);
}

pub proof fn lemma_block_size(ss: Seq<StatementView>)
    requires
        ss.len() > 0,
    ensures
        block_size(ss.drop_first()) < block_size(ss),
{
    assert(stmt_size(ss[0]) >= 1);
}

/// Whether a call statement is a `print`.
pub open spec fn is_print_call(name: Seq<char>) -> bool {
    name =~= seq!['p', 'r', 'i', 'n', 't']
}

pub open spec fn loop_condition(s: StatementView) -> ExpressionView {
    match s {
        StatementView::While { condition, .. } => condition,
        StatementView::For { condition, .. } => condition,
        _ => ExpressionView::Boolean(false),
    }
}

pub open spec fn loop_body(s: StatementView) -> Seq<StatementView> {
    match s {
        StatementView::While { body, .. } => body,
        StatementView::For { body, .. } => body,
        _ => seq![],
    }
}

pub open spec fn loop_update(s: StatementView) -> Option<Box<StatementView>> {
    match s {
        StatementView::For { update, .. } => update,
        _ => None,
    }
}

pub open spec fn with_output(env: Env, output: Seq<char>) -> Env {
    Env { vars: env.vars, output }
}

/// Evaluates `e`; calls may print, so the output is threaded through.
/// `fuel` bounds the depth of calls and the iterations of each loop.
pub open spec fn eval(
    fns: Seq<FunctionView>,
    e: ExpressionView,
    fuel: nat,
    vars: Seq<(Seq<char>, ValueView)>,
    out: Seq<char>,
) -> (Result<ValueView, Seq<char>>, Seq<char>)
    decreases fuel, expr_size(e), 0int,
{
    match e {
        ExpressionView::String(s) => (Ok(ValueView::Str(s)), out),
        ExpressionView::Integer(v) => (Ok(ValueView::Int(v)), out),
        ExpressionView::Float(t) => (Ok(ValueView::Float(t)), out),
        ExpressionView::Boolean(b) => (Ok(ValueView::Bool(b)), out),
        ExpressionView::Array(items) => {
            let (r, o) = eval_list(fns, items, fuel, vars, out);
            match r {
                Ok(vs) => (Ok(ValueView::Array(vs)), o),
                Err(m) => (Err(m), o),
            }
        },
        ExpressionView::Variable(name) => match find_local(vars, name) {
            Some(k) => (Ok(vars[k].1), out),
            None => (Err("unknown variable '"@ + name + "'"@), out),
        },
        ExpressionView::Binary { left, operator, right } => {
            let (l, o1) = eval(fns, *left, fuel, vars, out);
            match l {
                Err(m) => (Err(m), o1),
                Ok(lv) => if operator == BinaryOperator::And || operator == BinaryOperator::Or {
                    match lv {
                        ValueView::Bool(b) => if b != (operator == BinaryOperator::And) {
                            (Ok(ValueView::Bool(b)), o1)
                        } else {
                            let (r, o2) = eval(fns, *right, fuel, vars, o1);
                            match r {
                                Err(m) => (Err(m), o2),
                                Ok(ValueView::Bool(c)) => (Ok(ValueView::Bool(c)), o2),
                                Ok(_) => (Err(expected_bool()), o2),
                            }
                        },
                        _ => (Err(expected_bool()), o1),
                    }
                } else {
                    let (r, o2) = eval(fns, *right, fuel, vars, o1);
                    match r {
                        Err(m) => (Err(m), o2),
                        Ok(rv) => (apply_binary(operator, lv, rv), o2),
                    }
                },
            }
        },
        ExpressionView::Unary { operator, operand } => {
            let (r, o) = eval(fns, *operand, fuel, vars, out);
            match r {
                Err(m) => (Err(m), o),
                Ok(v) => (apply_unary(operator, v), o),
            }
        },
        ExpressionView::Index { target, index } => {
            let (t, o1) = eval(fns, *target, fuel, vars, out);
            match t {
                Err(m) => (Err(m), o1),
                Ok(tv) => {
                    let (i, o2) = eval(fns, *index, fuel, vars, o1);
                    match i {
                        Err(m) => (Err(m), o2),
                        Ok(iv) => (index_value(tv, iv), o2),
                    }
                },
            }
        },
        ExpressionView::Call(c) => {
            let (r, o) = eval_list(fns, c.arguments, fuel, vars, out);
            match r {
                Err(m) => (Err(m), o),
                Ok(args) => if fuel == 0 {
                    (Err(execution_limit()), o)
                } else {
                    match find_function(fns, c.name) {
                    None => (Err("unknown function '"@ + c.name + "'"@), o),
                    Some(k) => {
                        let (res, o2) = call_body(
                            fns,
                            fns[k].body,
                            fns[k].parameters,
                            args,
                            (fuel - 1) as nat,
                            o,
                        );
                        match res {
                            Ok(Some(v)) => (Ok(v), o2),
                            Ok(None) => (
                                Err("function '"@ + c.name + "' returned no value"@),
                                o2,
                            ),
                            Err(m) => (Err(m), o2),
                        }
                    },
                    }
                },
            }
        },
    }
}

/// Evaluates `es` in order.
pub open spec fn eval_list(
    fns: Seq<FunctionView>,
    es: Seq<ExpressionView>,
    fuel: nat,
    vars: Seq<(Seq<char>, ValueView)>,
    out: Seq<char>,
) -> (Result<Seq<ValueView>, Seq<char>>, Seq<char>)
    decreases fuel, list_size(es), 1int,
{
    if es.len() == 0 {
        (Ok(seq![]), out)
    } else {
        let (r, o) = eval(fns, es[0], fuel, vars, out);
        match r {
            Err(m) => (Err(m), o),
            Ok(v) => {
                proof {
                    lemma_list_size(es);
                }
                let (rest, o2) = eval_list(fns, es.drop_first(), fuel, vars, o);
                match rest {
                    Err(m) => (Err(m), o2),
                    Ok(vs) => (Ok(seq![v] + vs), o2),
                }
            },
        }
    }
}

/// Runs a function body on the arguments; the result is the returned value,
/// if any.
pub open spec fn call_body(
    fns: Seq<FunctionView>,
    body: Seq<StatementView>,
    params: Seq<ParameterView>,
    args: Seq<ValueView>,
    fuel: nat,
    out: Seq<char>,
) -> (Result<Option<ValueView>, Seq<char>>, Seq<char>)
    decreases fuel, block_size(body), 4int,
{
    let vars = bind_arguments(params, args, min_len(params.len(), args.len()));
    let (r, env) = exec_block(fns, body, fuel, Env { vars, output: out });
    match r {
        Ok(Control::Normal) => (Ok(None), env.output),
        Ok(Control::Returned(v)) => (Ok(Some(v)), env.output),
        Ok(_) => (Err(escaped()), env.output),
        Err(m) => (Err(m), env.output),
    }
}

/// Runs the statements of a block until one ends otherwise than normally.
pub open spec fn exec_block(
    fns: Seq<FunctionView>,
    ss: Seq<StatementView>,
    fuel: nat,
    env: Env,
) -> (Result<Control, Seq<char>>, Env)
    decreases fuel, block_size(ss), 3int,
{
    if ss.len() == 0 {
        (Ok(Control::Normal), env)
    } else {
        let (r, e1) = exec_stmt(fns, ss[0], fuel, env);
        match r {
            Ok(Control::Normal) => {
                proof {
                    lemma_block_size(ss);
                }
                exec_block(fns, ss.drop_first(), fuel, e1)
            },
            _ => (r, e1),
        }
    }
}

/// Runs one statement.
pub open spec fn exec_stmt(fns: Seq<FunctionView>, s: StatementView, fuel: nat, env: Env) -> (
    Result<Control, Seq<char>>,
    Env,
)
    decreases fuel, stmt_size(s), 2int,
{
    match s {
        StatementView::Let { name, value, .. } => {
            let (r, o) = eval(fns, value, fuel, env.vars, env.output);
            match r {
                Ok(v) => (Ok(Control::Normal), Env { vars: store_local(env.vars, name, v), output: o }),
                Err(m) => (Err(m), with_output(env, o)),
            }
        },
        StatementView::Assign { target, value } => {
            let (r, o) = eval(fns, value, fuel, env.vars, env.output);
            match r {
                Ok(v) => {
                    let (a, e2) = assign(fns, target, v, fuel, with_output(env, o));
                    match a {
                        Ok(_) => (Ok(Control::Normal), e2),
                        Err(m) => (Err(m), e2),
                    }
                },
                Err(m) => (Err(m), with_output(env, o)),
            }
        },
        StatementView::Return(e) => {
            let (r, o) = eval(fns, e, fuel, env.vars, env.output);
            match r {
                Ok(v) => (Ok(Control::Returned(v)), with_output(env, o)),
                Err(m) => (Err(m), with_output(env, o)),
            }
        },
        StatementView::Call(c) => if is_print_call(c.name) {
            if c.arguments.len() == 0 {
                (Err(print_without_argument()), env)
            } else {
                let (r, o) = eval(fns, c.arguments[0], fuel, env.vars, env.output);
                match r {
                    Ok(v) => (Ok(Control::Normal), with_output(env, o + display(v) + "\n"@)),
                    Err(m) => (Err(m), with_output(env, o)),
                }
            }
        } else {
            let (r, o) = eval_list(fns, c.arguments, fuel, env.vars, env.output);
            match r {
                Err(m) => (Err(m), with_output(env, o)),
                Ok(args) => if fuel == 0 {
                    (Err(execution_limit()), with_output(env, o))
                } else {
                    match find_function(fns, c.name) {
                    None => (Err("unknown function '"@ + c.name + "'"@), with_output(env, o)),
                    Some(k) => {
                        let (res, o2) = call_body(
                            fns,
                            fns[k].body,
                            fns[k].parameters,
                            args,
                            (fuel - 1) as nat,
                            o,
                        );
                        match res {
                            Ok(_) => (Ok(Control::Normal), with_output(env, o2)),
                            Err(m) => (Err(m), with_output(env, o2)),
                        }
                    },
                    }
                },
            }
        },
        StatementView::If { condition, then_body, else_body } => {
            let (r, o) = eval(fns, condition, fuel, env.vars, env.output);
            match r {
                Ok(ValueView::Bool(b)) => if b {
                    exec_block(fns, then_body, fuel, with_output(env, o))
                } else {
                    exec_block(fns, else_body, fuel, with_output(env, o))
                },
                Ok(_) => (Err(expected_bool()), with_output(env, o)),
                Err(m) => (Err(m), with_output(env, o)),
            }
        },
        StatementView::While { .. } => run_loop(fns, s, fuel, env),
        StatementView::For { initializer, .. } => match initializer {
            Some(i) => {
                let (r, e1) = exec_stmt(fns, *i, fuel, env);
                match r {
                    Ok(Control::Normal) => run_loop(fns, s, fuel, e1),
                    _ => (r, e1),
                }
            },
            None => run_loop(fns, s, fuel, env),
        },
        StatementView::Break => (Ok(Control::Break), env),
        StatementView::Continue => (Ok(Control::Continue), env),
    }
}

/// Iterations of the loop `s`: the condition, the body, then the update;
/// each further iteration takes one unit of fuel.
pub open spec fn run_loop(fns: Seq<FunctionView>, s: StatementView, fuel: nat, env: Env) -> (
    Result<Control, Seq<char>>,
    Env,
)
    decreases fuel, stmt_size(s), 1int,
{
    if !(s is While || s is For) {
        (Ok(Control::Normal), env)
    } else {
        let (c, o) = eval(fns, loop_condition(s), fuel, env.vars, env.output);
        match c {
            Err(m) => (Err(m), with_output(env, o)),
            Ok(ValueView::Bool(false)) => (Ok(Control::Normal), with_output(env, o)),
            Ok(ValueView::Bool(true)) => {
                let (r, e1) = exec_block(fns, loop_body(s), fuel, with_output(env, o));
                match r {
                    Ok(Control::Break) => (Ok(Control::Normal), e1),
                    Ok(Control::Normal) | Ok(Control::Continue) => {
                        let (u, e2) = match loop_update(s) {
                            Some(st) => exec_stmt(fns, *st, fuel, e1),
                            None => (Ok(Control::Normal), e1),
                        };
                        match u {
                            Ok(Control::Normal) => if fuel == 0 {
                                (Err(execution_limit()), e2)
                            } else {
                                run_loop(fns, s, (fuel - 1) as nat, e2)
                            },
                            _ => (u, e2),
                        }
                    },
                    _ => (r, e1),
                }
            },
            Ok(_) => (Err(expected_bool()), with_output(env, o)),
        }
    }
}

/// Stores `value` into the place that `target` names.
pub open spec fn assign(
    fns: Seq<FunctionView>,
    target: ExpressionView,
    value: ValueView,
    fuel: nat,
    env: Env,
) -> (Result<(), Seq<char>>, Env)
    decreases fuel, expr_size(target), 0int,
{
    match target {
        ExpressionView::Variable(name) => (
            Ok(()),
            Env { vars: store_local(env.vars, name, value), output: env.output },
        ),
        ExpressionView::Index { target: t, index } => {
            let (tr, o1) = eval(fns, *t, fuel, env.vars, env.output);
            match tr {
                Err(m) => (Err(m), with_output(env, o1)),
                Ok(tv) => {
                    let (ir, o2) = eval(fns, *index, fuel, env.vars, o1);
                    match ir {
                        Err(m) => (Err(m), with_output(env, o2)),
                        Ok(iv) => match store_index_value(tv, iv, value) {
                            Err(m) => (Err(m), with_output(env, o2)),
                            Ok(updated) => match *t {
                                ExpressionView::Variable(name) => (
                                    Ok(()),
                                    Env { vars: store_local(env.vars, name, updated), output: o2 },
                                ),
                                _ => assign(fns, *t, updated, fuel, with_output(env, o2)),
                            },
                        },
                    }
                },
            }
        },
        _ => (Err("invalid assignment target"@), env),
    }
}

/// What running `main` gives: the printed text, or the message of the
/// failure that stopped it.
pub open spec fn program_output(fns: Seq<FunctionView>, fuel: nat) -> Result<Seq<char>, Seq<char>> {
    match find_function(fns, "main"@) {
        None => Err("unknown function 'main'"@),
        Some(k) => {
            let (r, out) = call_body(fns, fns[k].body, fns[k].parameters, seq![], fuel, seq![]);
            match r {
                Ok(_) => Ok(out),
                Err(m) => Err(m),
            }
        },
    }
}

pub proof fn lemma_list_size_element(es: Seq<ExpressionView>, k: int)
    requires
        0 <= k < es.len(),
    ensures
        expr_size(es[k]) <= list_size(es),
    decreases k,
{
    if k > 0 {
        lemma_list_size_element(es.drop_first(), k - 1);
    }
}

pub proof fn lemma_block_size_element(ss: Seq<StatementView>, k: int)
    requires
        0 <= k < ss.len(),
    ensures
        stmt_size(ss[k]) <= block_size(ss),
    decreases k,
{
    if k > 0 {
        lemma_block_size_element(ss.drop_first(), k - 1);
    }
}


// ----- the executable interpreter -----
pub enum Ctl {
    Normal,
    Returned(Value),
    Break,
    Continue,
}

pub open spec fn ctl_view(c: Ctl) -> Control {
    match c {
        Ctl::Normal => Control::Normal,
        Ctl::Returned(v) => Control::Returned(value_view(v)),
        Ctl::Break => Control::Break,
        Ctl::Continue => Control::Continue,
    }
}

/// An evaluation agrees with its specification: the same value and output,
/// or the same failure.
pub open spec fn same_eval(
    r: Result<Value, String>,
    out: Seq<char>,
    spec: (Result<ValueView, Seq<char>>, Seq<char>),
) -> bool {
    match (r, spec.0) {
        (Ok(v), Ok(w)) => value_view(v) == w && out == spec.1,
        (Err(m), Err(n)) => m@ == n,
        _ => false,
    }
}

pub open spec fn same_list(
    r: Result<Vec<Value>, String>,
    out: Seq<char>,
    spec: (Result<Seq<ValueView>, Seq<char>>, Seq<char>),
) -> bool {
    match (r, spec.0) {
        (Ok(v), Ok(w)) => values_view(v@) == w && out == spec.1,
        (Err(m), Err(n)) => m@ == n,
        _ => false,
    }
}

/// A run of statements agrees with its specification.
pub open spec fn same_exec(
    r: Result<Ctl, String>,
    vars: Seq<(Seq<char>, ValueView)>,
    out: Seq<char>,
    spec: (Result<Control, Seq<char>>, Env),
) -> bool {
    match (r, spec.0) {
        (Ok(c), Ok(d)) => ctl_view(c) == d && vars == spec.1.vars && out == spec.1.output,
        (Err(m), Err(n)) => m@ == n,
        _ => false,
    }
}

pub open spec fn same_call(
    r: Result<Option<Value>, String>,
    out: Seq<char>,
    spec: (Result<Option<ValueView>, Seq<char>>, Seq<char>),
) -> bool {
    match (r, spec.0) {
        (Ok(Some(v)), Ok(Some(w))) => value_view(v) == w && out == spec.1,
        (Ok(None), Ok(None)) => out == spec.1,
        (Err(m), Err(n)) => m@ == n,
        _ => false,
    }
}

pub open spec fn same_assign(
    r: Result<(), String>,
    vars: Seq<(Seq<char>, ValueView)>,
    out: Seq<char>,
    spec: (Result<(), Seq<char>>, Env),
) -> bool {
    match (r, spec.0) {
        (Ok(_), Ok(_)) => vars == spec.1.vars && out == spec.1.output,
        (Err(m), Err(n)) => m@ == n,
        _ => false,
    }
}

/// `done`, then the values of a list evaluation that continues it.
pub open spec fn prepend(
    done: Seq<ValueView>,
    rest: (Result<Seq<ValueView>, Seq<char>>, Seq<char>),
) -> (Result<Seq<ValueView>, Seq<char>>, Seq<char>) {
    match rest.0 {
        Ok(vs) => (Ok(done + vs), rest.1),
        Err(m) => (Err(m), rest.1),
    }
}

fn unknown(prefix: &str, name: &String, suffix: &str) -> (r: String)
    ensures
        r@ == prefix@ + name@ + suffix@,
{
    let mut m = prefix.to_owned();
    m.append(name.as_str());
    m.append(suffix);
    m
}

fn apply_binary_exec(op: BinaryOperator, l: Value, r: Value) -> (res: Result<Value, String>)
    ensures
        result_view(res) == apply_binary(op, value_view(l), value_view(r)),
{
    let float = match (&l, &r) {
        (Value::Float(_), _) | (_, Value::Float(_)) => true,
        _ => false,
    };
    if float && op != BinaryOperator::Equal && op != BinaryOperator::NotEqual {
        Err("floating-point arithmetic is not supported".to_owned())
    } else {
        binary(op, l, r)
    }
}

fn apply_unary_exec(op: UnaryOperator, v: Value) -> (res: Result<Value, String>)
    ensures
        result_view(res) == apply_unary(op, value_view(v)),
{
    let float = match &v {
        Value::Float(_) => true,
        _ => false,
    };
    if float && op == UnaryOperator::Negate {
        Err("floating-point arithmetic is not supported".to_owned())
    } else {
        unary(op, v)
    }
}

/// Evaluates `e`.
fn eval_exec(
    fns: &Vec<Function>,
    e: &Expression,
    fuel: u64,
    vars: &Vec<(String, Value)>,
    out: &mut String,
) -> (r: Result<Value, String>)
    ensures
        same_eval(
            r,
            final(out)@,
            eval(functions_view(fns@), expression_view(*e), fuel as nat, locals_view(vars@), old(out)@),
        ),
    decreases fuel, expr_size(expression_view(*e)), 0int,
{
    match e {
        Expression::String(t) => Ok(Value::String(t.clone())),
        Expression::Integer(v) => Ok(Value::Int(*v)),
        Expression::Float(t) => Ok(Value::Float(t.clone())),
        Expression::Boolean(b) => Ok(Value::Bool(*b)),
        Expression::Array(items) => match eval_list_exec(fns, items, fuel, vars, out) {
            Ok(vs) => Ok(Value::Array(vs)),
            Err(m) => Err(m),
        },
        Expression::Variable(name) => match find_local_index(vars, name) {
            Some(k) => {
                proof {
                    crate::vm::lemma_find_local(locals_view(vars@), name@);
                }
                Ok(copy_value(&vars[k].1))
            },
            None => Err(unknown("unknown variable '", name, "'")),
        },
        Expression::Binary { left, operator, right } => {
            let lv = match eval_exec(fns, left, fuel, vars, out) {
                Ok(v) => v,
                Err(m) => {
                    return Err(m);
                },
            };
            if *operator == BinaryOperator::And || *operator == BinaryOperator::Or {
                let b = match lv {
                    Value::Bool(b) => b,
                    _ => {
                        return Err("expected Bool value".to_owned());
                    },
                };
                if b != (*operator == BinaryOperator::And) {
                    return Ok(Value::Bool(b));
                }
                match eval_exec(fns, right, fuel, vars, out) {
                    Ok(Value::Bool(c)) => Ok(Value::Bool(c)),
                    Ok(_) => Err("expected Bool value".to_owned()),
                    Err(m) => Err(m),
                }
            } else {
                let rv = match eval_exec(fns, right, fuel, vars, out) {
                    Ok(v) => v,
                    Err(m) => {
                        return Err(m);
                    },
                };
                apply_binary_exec(*operator, lv, rv)
            }
        },
        Expression::Unary { operator, operand } => match eval_exec(fns, operand, fuel, vars, out) {
            Ok(v) => apply_unary_exec(*operator, v),
            Err(m) => Err(m),
        },
        Expression::Index { target, index } => {
            let tv = match eval_exec(fns, target, fuel, vars, out) {
                Ok(v) => v,
                Err(m) => {
                    return Err(m);
                },
            };
            let iv = match eval_exec(fns, index, fuel, vars, out) {
                Ok(v) => v,
                Err(m) => {
                    return Err(m);
                },
            };
            index_into(tv, iv)
        },
        Expression::Call(c) => {
            let args = match eval_list_exec(fns, &c.arguments, fuel, vars, out) {
                Ok(vs) => vs,
                Err(m) => {
                    return Err(m);
                },
            };
            if fuel == 0 {
                return Err("execution limit exceeded".to_owned());
            }
            match find_function_index(fns, &c.name) {
                None => Err(unknown("unknown function '", &c.name, "'")),
                Some(k) => {
                    proof {
                        lemma_find_function(functions_view(fns@), c.name@);
                        assert(functions_view(fns@)[k as int] == crate::ast::function_view(
                            fns@[k as int],
                        ));
                    }
                    match call_exec(fns, &fns[k], args, fuel - 1, out) {
                        Ok(Some(v)) => Ok(v),
                        Ok(None) => Err(unknown("function '", &c.name, "' returned no value")),
                        Err(m) => Err(m),
                    }
                },
            }
        },
    }
}

/// Evaluates `es` in order.
fn eval_list_exec(
    fns: &Vec<Function>,
    es: &Vec<Expression>,
    fuel: u64,
    vars: &Vec<(String, Value)>,
    out: &mut String,
) -> (r: Result<Vec<Value>, String>)
    ensures
        same_list(
            r,
            final(out)@,
            eval_list(
                functions_view(fns@),
                expressions_view(es@),
                fuel as nat,
                locals_view(vars@),
                old(out)@,
            ),
        ),
    decreases fuel, list_size(expressions_view(es@)), 1int,
{
    let ghost fv = functions_view(fns@);
    let ghost ev = expressions_view(es@);
    let ghost vv = locals_view(vars@);
    let ghost o0 = out@;
    proof {
        lemma_expressions_view(es@);
        assert(ev.subrange(0, ev.len() as int) =~= ev);
    }
    let mut done: Vec<Value> = Vec::new();
    proof {
        assert(values_view(done@) =~= seq![]);
        let rest = eval_list(fv, ev, fuel as nat, vv, o0);
        match rest.0 {
            Ok(vs) => {
                assert(values_view(done@) + vs =~= vs);
            },
            Err(_) => {},
        }
    }
    let mut k: usize = 0;
    while k < es.len()
        invariant
            k <= es@.len(),
            fv == functions_view(fns@),
            ev == expressions_view(es@),
            ev.len() == es@.len(),
            forall|j: int| 0 <= j < es@.len() ==> #[trigger] ev[j] == expression_view(es@[j]),
            vv == locals_view(vars@),
            o0 == old(out)@,
            eval_list(fv, ev, fuel as nat, vv, o0) == prepend(
                values_view(done@),
                eval_list(fv, ev.subrange(k as int, ev.len() as int), fuel as nat, vv, out@),
            ),
        decreases es@.len() - k,
    {
        let ghost sub = ev.subrange(k as int, ev.len() as int);
        proof {
            assert(sub[0] == ev[k as int]);
            assert(sub.drop_first() =~= ev.subrange(k + 1, ev.len() as int));
            lemma_list_size_element(ev, k as int);
        }
        let v = match eval_exec(fns, &es[k], fuel, vars, out) {
            Ok(v) => v,
            Err(m) => {
                return Err(m);
            },
        };
        let ghost before = done@;
        let ghost vw = value_view(v);
        done.push(v);
        proof {
            lemma_values_view_push(before, v);
            assert(values_view(done@) == values_view(before).push(vw));
            let rest = eval_list(fv, ev.subrange(k + 1, ev.len() as int), fuel as nat, vv, out@);
            match rest.0 {
                Ok(vs) => {
                    assert(values_view(before) + (seq![vw] + vs) =~= values_view(done@) + vs);
                },
                Err(_) => {},
            }
        }
        k = k + 1;
    }
    proof {
        assert(ev.subrange(ev.len() as int, ev.len() as int) =~= Seq::<ExpressionView>::empty());
        assert(values_view(done@) + Seq::<ValueView>::empty() =~= values_view(done@));
    }
    Ok(done)
}

/// Calls the function `f` on `args`.
fn call_exec(fns: &Vec<Function>, f: &Function, args: Vec<Value>, fuel: u64, out: &mut String) -> (r:
    Result<Option<Value>, String>)
    ensures
        same_call(
            r,
            final(out)@,
            call_body(
                functions_view(fns@),
                statements_view(f.body@),
                crate::ast::parameters_view(f.parameters@),
                values_view(args@),
                fuel as nat,
                old(out)@,
            ),
        ),
    decreases fuel, block_size(statements_view(f.body@)), 4int,
{
    let ghost pv = crate::ast::parameters_view(f.parameters@);
    let ghost av = values_view(args@);
    proof {
        crate::vm::lemma_values_view(args@);
    }
    let n = if f.parameters.len() < args.len() {
        f.parameters.len()
    } else {
        args.len()
    };
    let mut vars: Vec<(String, Value)> = Vec::new();
    proof {
        assert(locals_view(vars@) =~= seq![]);
    }
    let mut k: usize = 0;
    while k < n
        invariant
            k <= n,
            n <= f.parameters@.len(),
            n <= args@.len(),
            pv == crate::ast::parameters_view(f.parameters@),
            av == values_view(args@),
            av.len() == args@.len(),
            forall|j: int| 0 <= j < args@.len() ==> #[trigger] av[j] == value_view(args@[j]),
            locals_view(vars@) == bind_arguments(pv, av, k as nat),
        decreases n - k,
    {
        store(&mut vars, f.parameters[k].name.clone(), copy_value(&args[k]));
        proof {
            assert(pv[k as int].name == f.parameters@[k as int].name@);
        }
        k = k + 1;
    }
    match exec_block_exec(fns, &f.body, fuel, &mut vars, out) {
        Ok(Ctl::Normal) => Ok(None),
        Ok(Ctl::Returned(v)) => Ok(Some(v)),
        Ok(_) => Err("loop control escaped its loop".to_owned()),
        Err(m) => Err(m),
    }
}

/// Runs the statements of a block until one ends otherwise than normally.
fn exec_block_exec(
    fns: &Vec<Function>,
    ss: &Vec<Statement>,
    fuel: u64,
    vars: &mut Vec<(String, Value)>,
    out: &mut String,
) -> (r: Result<Ctl, String>)
    ensures
        same_exec(
            r,
            locals_view(final(vars)@),
            final(out)@,
            exec_block(
                functions_view(fns@),
                statements_view(ss@),
                fuel as nat,
                Env { vars: locals_view(old(vars)@), output: old(out)@ },
            ),
        ),
    decreases fuel, block_size(statements_view(ss@)), 3int,
{
    let ghost fv = functions_view(fns@);
    let ghost sv = statements_view(ss@);
    let ghost env0 = Env { vars: locals_view(vars@), output: out@ };
    proof {
        lemma_statements_view(ss@);
        assert(sv.subrange(0, sv.len() as int) =~= sv);
    }
    let mut k: usize = 0;
    while k < ss.len()
        invariant
            k <= ss@.len(),
            fv == functions_view(fns@),
            sv == statements_view(ss@),
            sv.len() == ss@.len(),
            forall|j: int| 0 <= j < ss@.len() ==> #[trigger] sv[j] == statement_view(ss@[j]),
            env0 == (Env { vars: locals_view(old(vars)@), output: old(out)@ }),
            exec_block(fv, sv, fuel as nat, env0) == exec_block(
                fv,
                sv.subrange(k as int, sv.len() as int),
                fuel as nat,
                Env { vars: locals_view(vars@), output: out@ },
            ),
        decreases ss@.len() - k,
    {
        let ghost sub = sv.subrange(k as int, sv.len() as int);
        proof {
            assert(sub[0] == sv[k as int]);
            assert(sub.drop_first() =~= sv.subrange(k + 1, sv.len() as int));
            lemma_block_size_element(sv, k as int);
        }
        let flow = exec_stmt_exec(fns, &ss[k], fuel, vars, out);
        match flow {
            Ok(Ctl::Normal) => {},
            _ => {
                return flow;
            },
        }
        k = k + 1;
    }
    Ok(Ctl::Normal)
}

/// Runs one statement.
fn exec_stmt_exec(
    fns: &Vec<Function>,
    s: &Statement,
    fuel: u64,
    vars: &mut Vec<(String, Value)>,
    out: &mut String,
) -> (r: Result<Ctl, String>)
    ensures
        same_exec(
            r,
            locals_view(final(vars)@),
            final(out)@,
            exec_stmt(
                functions_view(fns@),
                statement_view(*s),
                fuel as nat,
                Env { vars: locals_view(old(vars)@), output: old(out)@ },
            ),
        ),
    decreases fuel, stmt_size(statement_view(*s)), 2int,
{
    match s {
        Statement::Let { name, value, .. } => match eval_exec(fns, value, fuel, vars, out) {
            Ok(v) => {
                store(vars, name.clone(), v);
                Ok(Ctl::Normal)
            },
            Err(m) => Err(m),
        },
        Statement::Assign { target, value } => match eval_exec(fns, value, fuel, vars, out) {
            Ok(v) => match assign_exec(fns, target, v, fuel, vars, out) {
                Ok(_) => Ok(Ctl::Normal),
                Err(m) => Err(m),
            },
            Err(m) => Err(m),
        },
        Statement::Return(e) => match eval_exec(fns, e, fuel, vars, out) {
            Ok(v) => Ok(Ctl::Returned(v)),
            Err(m) => Err(m),
        },
        Statement::Call(c) => {
            if is_print_name(&c.name) {
                if c.arguments.len() == 0 {
                    return Err("index out of bounds".to_owned());
                }
                proof {
                    lemma_expressions_view(c.arguments@);
                    lemma_list_size_element(expressions_view(c.arguments@), 0);
                }
                match eval_exec(fns, &c.arguments[0], fuel, vars, out) {
                    Ok(v) => {
                        display_into(&v, out);
                        out.append("\n");
                        Ok(Ctl::Normal)
                    },
                    Err(m) => Err(m),
                }
            } else {
                let args = match eval_list_exec(fns, &c.arguments, fuel, vars, out) {
                    Ok(vs) => vs,
                    Err(m) => {
                        return Err(m);
                    },
                };
                if fuel == 0 {
                    return Err("execution limit exceeded".to_owned());
                }
                match find_function_index(fns, &c.name) {
                    None => Err(unknown("unknown function '", &c.name, "'")),
                    Some(k) => {
                        proof {
                            lemma_find_function(functions_view(fns@), c.name@);
                            assert(functions_view(fns@)[k as int] == crate::ast::function_view(
                                fns@[k as int],
                            ));
                        }
                        match call_exec(fns, &fns[k], args, fuel - 1, out) {
                            Ok(_) => Ok(Ctl::Normal),
                            Err(m) => Err(m),
                        }
                    },
                }
            }
        },
        Statement::If { condition, then_body, else_body } => match eval_exec(
            fns,
            condition,
            fuel,
            vars,
            out,
        ) {
            Ok(Value::Bool(b)) => if b {
                exec_block_exec(fns, then_body, fuel, vars, out)
            } else {
                exec_block_exec(fns, else_body, fuel, vars, out)
            },
            Ok(_) => Err("expected Bool value".to_owned()),
            Err(m) => Err(m),
        },
        Statement::While { .. } => run_loop_exec(fns, s, fuel, vars, out),
        Statement::For { initializer, .. } => match initializer {
            Some(i) => {
                let flow = exec_stmt_exec(fns, i, fuel, vars, out);
                match flow {
                    Ok(Ctl::Normal) => run_loop_exec(fns, s, fuel, vars, out),
                    _ => flow,
                }
            },
            None => run_loop_exec(fns, s, fuel, vars, out),
        },
        Statement::Break => Ok(Ctl::Break),
        Statement::Continue => Ok(Ctl::Continue),
    }
}

/// Runs the loop `s` to its end.
fn run_loop_exec(
    fns: &Vec<Function>,
    s: &Statement,
    fuel: u64,
    vars: &mut Vec<(String, Value)>,
    out: &mut String,
) -> (r: Result<Ctl, String>)
    ensures
        same_exec(
            r,
            locals_view(final(vars)@),
            final(out)@,
            run_loop(
                functions_view(fns@),
                statement_view(*s),
                fuel as nat,
                Env { vars: locals_view(old(vars)@), output: old(out)@ },
            ),
        ),
    decreases fuel, stmt_size(statement_view(*s)), 1int,
{
    let ghost fv = functions_view(fns@);
    let ghost sv = statement_view(*s);
    let ghost env0 = Env { vars: locals_view(vars@), output: out@ };
    let (condition, body, update): (&Expression, &Vec<Statement>, Option<&Statement>) = match s {
        Statement::While { condition, body } => (condition, body, None),
        Statement::For { condition, update, body, .. } => (
            condition,
            body,
            match update {
                Some(u) => Some(&**u),
                None => None,
            },
        ),
        _ => {
            return Ok(Ctl::Normal);
        },
    };
    proof {
        assert(expression_view(*condition) == loop_condition(sv));
        assert(statements_view(body@) == loop_body(sv));
        match update {
            Some(u) => {
                assert(loop_update(sv) == Some(Box::new(statement_view(*u))));
            },
            None => {
                assert(loop_update(sv) is None);
            },
        }
    }
    let mut f = fuel;
    loop
        invariant
            f <= fuel,
            fv == functions_view(fns@),
            sv == statement_view(*s),
            sv is While || sv is For,
            expression_view(*condition) == loop_condition(sv),
            statements_view(body@) == loop_body(sv),
            match update {
                Some(u) => loop_update(sv) == Some(Box::new(statement_view(*u))),
                None => loop_update(sv) is None,
            },
            env0 == (Env { vars: locals_view(old(vars)@), output: old(out)@ }),
            run_loop(fv, sv, fuel as nat, env0) == run_loop(
                fv,
                sv,
                f as nat,
                Env { vars: locals_view(vars@), output: out@ },
            ),
        decreases f,
    {
        let c = match eval_exec(fns, condition, f, vars, out) {
            Ok(Value::Bool(c)) => c,
            Ok(_) => {
                return Err("expected Bool value".to_owned());
            },
            Err(m) => {
                return Err(m);
            },
        };
        if !c {
            return Ok(Ctl::Normal);
        }
        let flow = exec_block_exec(fns, body, f, vars, out);
        match flow {
            Ok(Ctl::Break) => {
                return Ok(Ctl::Normal);
            },
            Ok(Ctl::Normal) | Ok(Ctl::Continue) => {},
            _ => {
                return flow;
            },
        }
        match update {
            Some(u) => {
                let flow = exec_stmt_exec(fns, u, f, vars, out);
                match flow {
                    Ok(Ctl::Normal) => {},
                    _ => {
                        return flow;
                    },
                }
            },
            None => {},
        }
        if f == 0 {
            return Err("execution limit exceeded".to_owned());
        }
        f = f - 1;
    }
}

/// Stores `value` into the place that `target` names.
fn assign_exec(
    fns: &Vec<Function>,
    target: &Expression,
    value: Value,
    fuel: u64,
    vars: &mut Vec<(String, Value)>,
    out: &mut String,
) -> (r: Result<(), String>)
    ensures
        same_assign(
            r,
            locals_view(final(vars)@),
            final(out)@,
            assign(
                functions_view(fns@),
                expression_view(*target),
                value_view(value),
                fuel as nat,
                Env { vars: locals_view(old(vars)@), output: old(out)@ },
            ),
        ),
    decreases fuel, expr_size(expression_view(*target)), 0int,
{
    match target {
        Expression::Variable(name) => {
            store(vars, name.clone(), value);
            Ok(())
        },
        Expression::Index { target: t, index } => {
            let tv = match eval_exec(fns, t, fuel, vars, out) {
                Ok(v) => v,
                Err(m) => {
                    return Err(m);
                },
            };
            let iv = match eval_exec(fns, index, fuel, vars, out) {
                Ok(v) => v,
                Err(m) => {
                    return Err(m);
                },
            };
            let updated = match store_index(tv, iv, value) {
                Ok(v) => v,
                Err(m) => {
                    return Err(m);
                },
            };
            match &**t {
                Expression::Variable(name) => {
                    store(vars, name.clone(), updated);
                    Ok(())
                },
                _ => assign_exec(fns, t, updated, fuel, vars, out),
            }
        },
        _ => Err("invalid assignment target".to_owned()),
    }
}

// ----- running programs -----
#[derive(Debug, Clone, PartialEq, Eq)]
pub struct RuntimeError {
    pub message: String,
}

pub open spec fn runtime_result_view(r: Result<String, RuntimeError>) -> Result<
    Seq<char>,
    Seq<char>,
> {
    match r {
        Ok(s) => Ok(s@),
        Err(e) => Err(e.message@),
    }
}

/// Runs the `main` function of `program` and gives what it printed, or the
/// message of the failure that stopped it. Only what runs can fail: a
/// `print` without an argument, for one, fails with `index out of bounds`
/// when it is reached.
pub fn execute(program: &Program) -> (r: Result<String, RuntimeError>)
    ensures
        runtime_result_view(r) == program_output(program@.functions, EXECUTION_FUEL as nat),
{
    let fns = &program.functions;
    let main = "main".to_owned();
    proof {
        lemma_find_function(functions_view(fns@), "main"@);
    }
    match find_function_index(fns, &main) {
        None => Err(RuntimeError { message: "unknown function 'main'".to_owned() }),
        Some(k) => {
            proof {
                assert(functions_view(fns@)[k as int] == crate::ast::function_view(fns@[k as int]));
            }
            let mut out = String::new();
            let args: Vec<Value> = Vec::new();
            proof {
                assert(values_view(args@) =~= seq![]);
                assert(bind_arguments(
                    crate::ast::parameters_view(fns@[k as int].parameters@),
                    values_view(args@),
                    0,
                ) =~= seq![]);
            }
            match call_exec(fns, &fns[k], args, EXECUTION_FUEL, &mut out) {
                Ok(_) => Ok(out),
                Err(m) => Err(RuntimeError { message: m }),
            }
        },
    }
}

/// What running a source text gives: the parse error with its position,
/// the semantic error, or what the program printed.
pub open spec fn run_text(source: Seq<char>) -> Result<Seq<char>, Seq<char>> {
    match spec_parse(source) {
        Err(e) => Err(e.message + " at "@ + decimal(e.line as nat) + ":"@ + decimal(e.column as nat)),
        Ok(p) => match spec_analyze(p) {
            Err(m) => Err(m),
            Ok(_) => program_output(p.functions, EXECUTION_FUEL as nat),
        },
    }
}

/// Parses, checks and runs a source text.
pub fn run(source: &str) -> (r: Result<String, RuntimeError>)
    requires
        source@.len() < usize::MAX,
    ensures
        runtime_result_view(r) == run_text(source@),
{
    let program = match crate::parser::parse(source) {
        Ok(p) => p,
        Err(e) => {
            let mut message = e.message.clone();
            message.append(" at ");
            append_chars(&usize_to_chars(e.line), &mut message);
            message.append(":");
            append_chars(&usize_to_chars(e.column), &mut message);
            return Err(RuntimeError { message });
        },
    };
    match crate::semantic::analyze(&program) {
        Err(e) => Err(RuntimeError { message: e.message }),
        Ok(_) => execute(&program),
    }
}

// ----- laws -----
/// `&&` evaluates its right operand only when its left one is `true`, and
/// `||` only when its left one is `false`.
pub proof fn law_short_circuit(
    fns: Seq<FunctionView>,
    left: ExpressionView,
    right: ExpressionView,
    fuel: nat,
    vars: Seq<(Seq<char>, ValueView)>,
    out: Seq<char>,
)
    ensures
        ({
            let (l, o) = eval(fns, left, fuel, vars, out);
            &&& l == Ok::<ValueView, Seq<char>>(ValueView::Bool(false)) ==> eval(
                fns,
                ExpressionView::Binary {
                    left: Box::new(left),
                    operator: BinaryOperator::And,
                    right: Box::new(right),
                },
                fuel,
                vars,
                out,
            ) == (Ok::<ValueView, Seq<char>>(ValueView::Bool(false)), o)
            &&& l == Ok::<ValueView, Seq<char>>(ValueView::Bool(true)) ==> eval(
                fns,
                ExpressionView::Binary {
                    left: Box::new(left),
                    operator: BinaryOperator::Or,
                    right: Box::new(right),
                },
                fuel,
                vars,
                out,
            ) == (Ok::<ValueView, Seq<char>>(ValueView::Bool(true)), o)
        }),
{
}

/// After a `continue`, a `for` loop still runs its update before the next
/// test of its condition.
pub proof fn law_update_after_continue(fns: Seq<FunctionView>, s: StatementView, fuel: nat, env: Env)
    requires
        s is For,
        loop_update(s) is Some,
    ensures
        ({
            let (c, o) = eval(fns, loop_condition(s), fuel, env.vars, env.output);
            let (r, e1) = exec_block(fns, loop_body(s), fuel, with_output(env, o));
            (c == Ok::<ValueView, Seq<char>>(ValueView::Bool(true)) && r == Ok::<
                Control,
                Seq<char>,
            >(Control::Continue)) ==> run_loop(fns, s, fuel, env) == ({
                let (u, e2) = exec_stmt(fns, *loop_update(s)->0, fuel, e1);
                match u {
                    Ok(Control::Normal) => if fuel == 0 {
                        (Err(execution_limit()), e2)
                    } else {
                        run_loop(fns, s, (fuel - 1) as nat, e2)
                    },
                    _ => (u, e2),
                }
            })
        }),
{
}

/// Being a prefix is transitive.
pub proof fn lemma_prefix_trans(a: Seq<char>, b: Seq<char>, c: Seq<char>)
    requires
        a.is_prefix_of(b),
        b.is_prefix_of(c),
    ensures
        a.is_prefix_of(c),
{
    assert(a =~= c.subrange(0, a.len() as int)) by {
        assert forall|k: int| 0 <= k < a.len() implies a[k] == c.subrange(0, a.len() as int)[k] by {
            assert(a[k] == b.subrange(0, a.len() as int)[k]);
            assert(b[k] == c.subrange(0, b.len() as int)[k]);
        }
    }
}

pub proof fn lemma_eval_output_grows(
    fns: Seq<FunctionView>,
    e: ExpressionView,
    fuel: nat,
    vars: Seq<(Seq<char>, ValueView)>,
    out: Seq<char>,
)
    ensures
        out.is_prefix_of(eval(fns, e, fuel, vars, out).1),
    decreases fuel, expr_size(e), 0int,
{
    match e {
        ExpressionView::Array(items) => {
            lemma_list_output_grows(fns, items, fuel, vars, out);
        },
        ExpressionView::Binary { left, operator, right } => {
            lemma_eval_output_grows(fns, *left, fuel, vars, out);
            let o1 = eval(fns, *left, fuel, vars, out).1;
            lemma_eval_output_grows(fns, *right, fuel, vars, o1);
            lemma_prefix_trans(out, o1, eval(fns, *right, fuel, vars, o1).1);
        },
        ExpressionView::Unary { operand, .. } => {
            lemma_eval_output_grows(fns, *operand, fuel, vars, out);
        },
        ExpressionView::Index { target, index } => {
            lemma_eval_output_grows(fns, *target, fuel, vars, out);
            let o1 = eval(fns, *target, fuel, vars, out).1;
            lemma_eval_output_grows(fns, *index, fuel, vars, o1);
            lemma_prefix_trans(out, o1, eval(fns, *index, fuel, vars, o1).1);
        },
        ExpressionView::Call(c) => {
            lemma_list_output_grows(fns, c.arguments, fuel, vars, out);
            let (r, o) = eval_list(fns, c.arguments, fuel, vars, out);
            if let Ok(args) = r {
                if let Some(k) = find_function(fns, c.name) {
                    if fuel > 0 {
                        lemma_call_output_grows(
                            fns,
                            fns[k].body,
                            fns[k].parameters,
                            args,
                            (fuel - 1) as nat,
                            o,
                        );
                        lemma_prefix_trans(
                            out,
                            o,
                            call_body(
                                fns,
                                fns[k].body,
                                fns[k].parameters,
                                args,
                                (fuel - 1) as nat,
                                o,
                            ).1,
                        );
                    }
                }
            }
        },
        _ => {
            assert(out =~= out.subrange(0, out.len() as int));
        },
    }
}

pub proof fn lemma_list_output_grows(
    fns: Seq<FunctionView>,
    es: Seq<ExpressionView>,
    fuel: nat,
    vars: Seq<(Seq<char>, ValueView)>,
    out: Seq<char>,
)
    ensures
        out.is_prefix_of(eval_list(fns, es, fuel, vars, out).1),
    decreases fuel, list_size(es), 1int,
{
    if es.len() == 0 {
        assert(out =~= out.subrange(0, out.len() as int));
    } else {
        lemma_eval_output_grows(fns, es[0], fuel, vars, out);
        let (r, o) = eval(fns, es[0], fuel, vars, out);
        if r is Ok {
            lemma_list_size(es);
            lemma_list_output_grows(fns, es.drop_first(), fuel, vars, o);
            lemma_prefix_trans(out, o, eval_list(fns, es.drop_first(), fuel, vars, o).1);
        }
    }
}

pub proof fn lemma_call_output_grows(
    fns: Seq<FunctionView>,
    body: Seq<StatementView>,
    params: Seq<ParameterView>,
    args: Seq<ValueView>,
    fuel: nat,
    out: Seq<char>,
)
    ensures
        out.is_prefix_of(call_body(fns, body, params, args, fuel, out).1),
    decreases fuel, block_size(body), 4int,
{
    let vars = bind_arguments(params, args, min_len(params.len(), args.len()));
    lemma_block_output_grows(fns, body, fuel, Env { vars, output: out });
}

pub proof fn lemma_block_output_grows(
    fns: Seq<FunctionView>,
    ss: Seq<StatementView>,
    fuel: nat,
    env: Env,
)
    ensures
        env.output.is_prefix_of(exec_block(fns, ss, fuel, env).1.output),
    decreases fuel, block_size(ss), 3int,
{
    if ss.len() == 0 {
        assert(env.output =~= env.output.subrange(0, env.output.len() as int));
    } else {
        lemma_stmt_output_grows(fns, ss[0], fuel, env);
        let (r, e1) = exec_stmt(fns, ss[0], fuel, env);
        if r == Ok::<Control, Seq<char>>(Control::Normal) {
            lemma_block_size(ss);
            lemma_block_output_grows(fns, ss.drop_first(), fuel, e1);
            lemma_prefix_trans(
                env.output,
                e1.output,
                exec_block(fns, ss.drop_first(), fuel, e1).1.output,
            );
        }
    }
}

pub proof fn lemma_stmt_output_grows(fns: Seq<FunctionView>, s: StatementView, fuel: nat, env: Env)
    ensures
        env.output.is_prefix_of(exec_stmt(fns, s, fuel, env).1.output),
    decreases fuel, stmt_size(s), 2int,
{
    assert(env.output =~= env.output.subrange(0, env.output.len() as int));
    match s {
        StatementView::Let { value, .. } => {
            lemma_eval_output_grows(fns, value, fuel, env.vars, env.output);
        },
        StatementView::Assign { target, value } => {
            lemma_eval_output_grows(fns, value, fuel, env.vars, env.output);
            let (r, o) = eval(fns, value, fuel, env.vars, env.output);
            if let Ok(v) = r {
                lemma_assign_output_grows(fns, target, v, fuel, with_output(env, o));
                lemma_prefix_trans(
                    env.output,
                    o,
                    assign(fns, target, v, fuel, with_output(env, o)).1.output,
                );
            }
        },
        StatementView::Return(e) => {
            lemma_eval_output_grows(fns, e, fuel, env.vars, env.output);
        },
        StatementView::Call(c) => {
            if is_print_call(c.name) {
                if c.arguments.len() > 0 {
                    lemma_list_size_element(c.arguments, 0);
                    lemma_eval_output_grows(fns, c.arguments[0], fuel, env.vars, env.output);
                    let (r, o) = eval(fns, c.arguments[0], fuel, env.vars, env.output);
                    if let Ok(v) = r {
                        let printed = o + display(v) + "\n"@;
                        assert(o =~= printed.subrange(0, o.len() as int));
                        lemma_prefix_trans(env.output, o, printed);
                    }
                }
            } else {
                lemma_list_output_grows(fns, c.arguments, fuel, env.vars, env.output);
                let (r, o) = eval_list(fns, c.arguments, fuel, env.vars, env.output);
                if let Ok(args) = r {
                    if let Some(k) = find_function(fns, c.name) {
                        if fuel > 0 {
                            lemma_call_output_grows(
                                fns,
                                fns[k].body,
                                fns[k].parameters,
                                args,
                                (fuel - 1) as nat,
                                o,
                            );
                            lemma_prefix_trans(
                                env.output,
                                o,
                                call_body(
                                    fns,
                                    fns[k].body,
                                    fns[k].parameters,
                                    args,
                                    (fuel - 1) as nat,
                                    o,
                                ).1,
                            );
                        }
                    }
                }
            }
        },
        StatementView::If { condition, then_body, else_body } => {
            lemma_eval_output_grows(fns, condition, fuel, env.vars, env.output);
            let (r, o) = eval(fns, condition, fuel, env.vars, env.output);
            if let Ok(ValueView::Bool(b)) = r {
                let branch = if b {
                    then_body
                } else {
                    else_body
                };
                lemma_block_output_grows(fns, branch, fuel, with_output(env, o));
                lemma_prefix_trans(
                    env.output,
                    o,
                    exec_block(fns, branch, fuel, with_output(env, o)).1.output,
                );
            }
        },
        StatementView::While { .. } => {
            lemma_loop_output_grows(fns, s, fuel, env);
        },
        StatementView::For { initializer, .. } => match initializer {
            Some(i) => {
                lemma_stmt_output_grows(fns, *i, fuel, env);
                let (r, e1) = exec_stmt(fns, *i, fuel, env);
                if r == Ok::<Control, Seq<char>>(Control::Normal) {
                    lemma_loop_output_grows(fns, s, fuel, e1);
                    lemma_prefix_trans(env.output, e1.output, run_loop(fns, s, fuel, e1).1.output);
                }
            },
            None => {
                lemma_loop_output_grows(fns, s, fuel, env);
            },
        },
        _ => {},
    }
}

pub proof fn lemma_loop_output_grows(fns: Seq<FunctionView>, s: StatementView, fuel: nat, env: Env)
    ensures
        env.output.is_prefix_of(run_loop(fns, s, fuel, env).1.output),
    decreases fuel, stmt_size(s), 1int,
{
    assert(env.output =~= env.output.subrange(0, env.output.len() as int));
    if s is While || s is For {
        lemma_eval_output_grows(fns, loop_condition(s), fuel, env.vars, env.output);
        let (c, o) = eval(fns, loop_condition(s), fuel, env.vars, env.output);
        if c == Ok::<ValueView, Seq<char>>(ValueView::Bool(true)) {
            lemma_block_output_grows(fns, loop_body(s), fuel, with_output(env, o));
            let (r, e1) = exec_block(fns, loop_body(s), fuel, with_output(env, o));
            lemma_prefix_trans(env.output, o, e1.output);
            if r == Ok::<Control, Seq<char>>(Control::Normal) || r == Ok::<Control, Seq<char>>(
                Control::Continue,
            ) {
                let (u, e2) = match loop_update(s) {
                    Some(st) => exec_stmt(fns, *st, fuel, e1),
                    None => (Ok(Control::Normal), e1),
                };
                if let Some(st) = loop_update(s) {
                    lemma_stmt_output_grows(fns, *st, fuel, e1);
                    lemma_prefix_trans(env.output, e1.output, e2.output);
                }
                if u == Ok::<Control, Seq<char>>(Control::Normal) && fuel > 0 {
                    lemma_loop_output_grows(fns, s, (fuel - 1) as nat, e2);
                    lemma_prefix_trans(
                        env.output,
                        e2.output,
                        run_loop(fns, s, (fuel - 1) as nat, e2).1.output,
                    );
                }
            }
        }
    }
}

pub proof fn lemma_assign_output_grows(
    fns: Seq<FunctionView>,
    target: ExpressionView,
    value: ValueView,
    fuel: nat,
    env: Env,
)
    ensures
        env.output.is_prefix_of(assign(fns, target, value, fuel, env).1.output),
    decreases fuel, expr_size(target), 0int,
{
    assert(env.output =~= env.output.subrange(0, env.output.len() as int));
    if let ExpressionView::Index { target: t, index } = target {
        lemma_eval_output_grows(fns, *t, fuel, env.vars, env.output);
        let (tr, o1) = eval(fns, *t, fuel, env.vars, env.output);
        lemma_eval_output_grows(fns, *index, fuel, env.vars, o1);
        let (ir, o2) = eval(fns, *index, fuel, env.vars, o1);
        lemma_prefix_trans(env.output, o1, o2);
        if let (Ok(tv), Ok(iv)) = (tr, ir) {
            if let Ok(updated) = store_index_value(tv, iv, value) {
                if !(*t is Variable) {
                    lemma_assign_output_grows(fns, *t, updated, fuel, with_output(env, o2));
                    lemma_prefix_trans(
                        env.output,
                        o2,
                        assign(fns, *t, updated, fuel, with_output(env, o2)).1.output,
                    );
                }
            }
        }
    }
}

/// Evaluating an expression only appends to the output: what was printed
/// before stays, whether the evaluation succeeds or fails.
pub proof fn law_eval_only_appends(
    fns: Seq<FunctionView>,
    e: ExpressionView,
    fuel: nat,
    vars: Seq<(Seq<char>, ValueView)>,
    out: Seq<char>,
)
    ensures
        out.is_prefix_of(eval(fns, e, fuel, vars, out).1),
{
    lemma_eval_output_grows(fns, e, fuel, vars, out);
}

/// Running statements only appends to the output.
pub proof fn law_exec_only_appends(fns: Seq<FunctionView>, ss: Seq<StatementView>, fuel: nat, env: Env)
    ensures
        env.output.is_prefix_of(exec_block(fns, ss, fuel, env).1.output),
{
    lemma_block_output_grows(fns, ss, fuel, env);
}

/// `a op b` on two integer literals.
pub open spec fn literal_operation(a: i64, op: BinaryOperator, b: i64) -> ExpressionView {
    ExpressionView::Binary {
        left: Box::new(ExpressionView::Integer(a)),
        operator: op,
        right: Box::new(ExpressionView::Integer(b)),
    }
}

pub proof fn lemma_literal_operation(
    fns: Seq<FunctionView>,
    a: i64,
    op: BinaryOperator,
    b: i64,
    fuel: nat,
    vars: Seq<(Seq<char>, ValueView)>,
    out: Seq<char>,
)
    requires
        op != BinaryOperator::And,
        op != BinaryOperator::Or,
    ensures
        eval(fns, literal_operation(a, op, b), fuel, vars, out) == (
            binary_value(op, ValueView::Int(a), ValueView::Int(b)),
            out,
        ),
{
    assert(eval(fns, ExpressionView::Integer(a), fuel, vars, out) == (
        Ok::<ValueView, Seq<char>>(ValueView::Int(a)),
        out,
    ));
    assert(eval(fns, ExpressionView::Integer(b), fuel, vars, out) == (
        Ok::<ValueView, Seq<char>>(ValueView::Int(b)),
        out,
    ));
}

/// The interpreter compares two integers by their order: each comparison of
/// two integer literals evaluates to whether the integers stand in the
/// relation it names, and prints nothing.
pub proof fn law_comparisons_evaluate(
    fns: Seq<FunctionView>,
    a: i64,
    b: i64,
    fuel: nat,
    vars: Seq<(Seq<char>, ValueView)>,
    out: Seq<char>,
)
    ensures
        eval(fns, literal_operation(a, BinaryOperator::Greater, b), fuel, vars, out) == (
            Ok::<ValueView, Seq<char>>(ValueView::Bool(a > b)),
            out,
        ),
        eval(fns, literal_operation(a, BinaryOperator::GreaterEqual, b), fuel, vars, out) == (
            Ok::<ValueView, Seq<char>>(ValueView::Bool(a >= b)),
            out,
        ),
        eval(fns, literal_operation(a, BinaryOperator::Less, b), fuel, vars, out) == (
            Ok::<ValueView, Seq<char>>(ValueView::Bool(a < b)),
            out,
        ),
        eval(fns, literal_operation(a, BinaryOperator::LessEqual, b), fuel, vars, out) == (
            Ok::<ValueView, Seq<char>>(ValueView::Bool(a <= b)),
            out,
        ),
        eval(fns, literal_operation(a, BinaryOperator::Equal, b), fuel, vars, out) == (
            Ok::<ValueView, Seq<char>>(ValueView::Bool(a == b)),
            out,
        ),
        eval(fns, literal_operation(a, BinaryOperator::NotEqual, b), fuel, vars, out) == (
            Ok::<ValueView, Seq<char>>(ValueView::Bool(a != b)),
            out,
        ),
{
    crate::vm::law_integer_operators(a, b);
    lemma_literal_operation(fns, a, BinaryOperator::Greater, b, fuel, vars, out);
    lemma_literal_operation(fns, a, BinaryOperator::GreaterEqual, b, fuel, vars, out);
    lemma_literal_operation(fns, a, BinaryOperator::Less, b, fuel, vars, out);
    lemma_literal_operation(fns, a, BinaryOperator::LessEqual, b, fuel, vars, out);
    lemma_literal_operation(fns, a, BinaryOperator::Equal, b, fuel, vars, out);
    lemma_literal_operation(fns, a, BinaryOperator::NotEqual, b, fuel, vars, out);
}
} // verus!
