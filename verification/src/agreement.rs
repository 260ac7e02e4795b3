//! Where the reference interpreter and the virtual machine agree: on every
//! program without floating-point literals and without assignments into
//! array elements, running `main` in the interpreter and running its
//! compiled code on the machine print the same text or fail with the same
//! message, except where the interpreter stops because a function called for
//! its value returned none (there the machine goes on without a value).
//! An assignment into array elements, whose compiled code keeps the arrays
//! of its levels in temporaries, is matched statement by statement in
//! `element_store`.
use vstd::prelude::*;
use crate::ast::{BinaryOperator, ExpressionView, FunctionView, ParameterView, StatementView};
use crate::ir::{
    InstructionView, lower_block, lower_functions, lower_expression, lower_expressions,
    lower_statement, missing_argument_code, parameter_names,
};
use crate::runtime::{
    Control, Env, apply_binary, apply_unary, bind_arguments, block_size, call_body, eval,
    eval_list, exec_block, exec_stmt, expr_size, lemma_block_size, lemma_list_size_element,
    list_size, min_len, stmt_size,
};
use crate::vm::{
    CompiledFunctionView, Outcome, ValueView, VmState, binary_value, bind_parameters, bind_prefix,
    compile_functions, escaped, execution_limit, lemma_find_local, lemma_run_concat, run,
    run_instruction, store_local, unary_value, with_stack,
};

verus! {

/// An expression without floating-point literals, whose array literals and
/// argument lists have lengths that fit in `usize`.
pub open spec fn plain(e: ExpressionView) -> bool
    decreases e,
{
    match e {
        ExpressionView::Float(_) => false,
        ExpressionView::Array(items) => items.len() <= usize::MAX && plain_all(items),
        ExpressionView::Call(c) => c.arguments.len() <= usize::MAX && plain_all(c.arguments),
        ExpressionView::Binary { left, right, .. } => plain(*left) && plain(*right),
        ExpressionView::Unary { operand, .. } => plain(*operand),
        ExpressionView::Index { target, index } => plain(*target) && plain(*index),
        _ => true,
    }
}

pub open spec fn plain_all(es: Seq<ExpressionView>) -> bool
    decreases es,
{
    es.len() == 0 || (plain_all(es.drop_last()) && plain(es.last()))
}

/// A statement that stores, prints or calls: a `let`, an assignment to a
/// variable, or a call statement, over plain expressions.
pub open spec fn plain_simple(s: StatementView) -> bool {
    match s {
        StatementView::Let { value, .. } => plain(value),
        StatementView::Assign { target, value } => target is Variable && plain(value),
        StatementView::Call(c) => if c.name =~= seq!['p', 'r', 'i', 'n', 't'] {
            c.arguments.len() >= 1 ==> plain(c.arguments[0])
        } else {
            c.arguments.len() <= usize::MAX && plain_all(c.arguments)
        },
        _ => false,
    }
}

/// A statement of the programs where the interpreter and the machine agree:
/// a simple statement, a `return` of a plain expression, `break`,
/// `continue`, and `if`, `while` and `for` with plain conditions, simple
/// headers and bodies of such statements.
pub open spec fn plain_statement(s: StatementView) -> bool
    decreases s,
{
    match s {
        StatementView::Return(e) => plain(e),
        StatementView::Break | StatementView::Continue => true,
        StatementView::If { condition, then_body, else_body } => plain(condition) && plain_block(
            then_body,
        ) && plain_block(else_body),
        StatementView::While { condition, body } => plain(condition) && plain_block(body),
        StatementView::For { initializer, condition, update, body } => (match initializer {
            Some(i) => plain_simple(*i),
            None => true,
        }) && plain(condition) && (match update {
            Some(u) => plain_simple(*u),
            None => true,
        }) && plain_block(body),
        _ => plain_simple(s),
    }
}

pub open spec fn plain_block(ss: Seq<StatementView>) -> bool
    decreases ss,
{
    ss.len() == 0 || (plain_statement(ss[0]) && plain_block(ss.drop_first()))
}

/// Every function of the program is made of plain statements.
pub open spec fn plain_program(fns: Seq<FunctionView>) -> bool {
    forall|k: int| 0 <= k < fns.len() ==> plain_block(#[trigger] fns[k].body)
}

/// The failure of the interpreter when a function called for its value
/// returns none.
pub open spec fn no_value_message(name: Seq<char>) -> Seq<char> {
    "function '"@ + name + "' returned no value"@
}

pub open spec fn missing_value(m: Seq<char>) -> bool {
    exists|name: Seq<char>| m == #[trigger] no_value_message(name)
}

/// The compiled form of the program the interpreter runs.
pub open spec fn compiled(rfns: Seq<FunctionView>) -> Seq<CompiledFunctionView> {
    compile_functions(lower_functions(rfns))
}

pub open spec fn float_free(v: ValueView) -> bool
    decreases v,
{
    match v {
        ValueView::Float(_) => false,
        ValueView::Array(items) => all_float_free(items),
        _ => true,
    }
}

pub open spec fn all_float_free(vs: Seq<ValueView>) -> bool
    decreases vs,
{
    vs.len() == 0 || (all_float_free(vs.drop_last()) && float_free(vs.last()))
}

pub open spec fn locals_float_free(locals: Seq<(Seq<char>, ValueView)>) -> bool {
    forall|k: int| 0 <= k < locals.len() ==> float_free(#[trigger] locals[k].1)
}

pub open spec fn pushed(st: VmState, v: ValueView) -> VmState {
    with_stack(st, st.stack.push(v))
}

pub proof fn lemma_all_float_free_at(vs: Seq<ValueView>, k: int)
    requires
        all_float_free(vs),
        0 <= k < vs.len(),
    ensures
        float_free(vs[k]),
    decreases vs.len(),
{
    if k < vs.len() - 1 {
        assert(vs.drop_last()[k] == vs[k]);
        lemma_all_float_free_at(vs.drop_last(), k);
    }
}

/// The evaluation of a list, seen from its last element.
pub proof fn lemma_eval_list_snoc(
    fns: Seq<FunctionView>,
    es: Seq<ExpressionView>,
    fuel: nat,
    vars: Seq<(Seq<char>, ValueView)>,
    out: Seq<char>,
)
    requires
        es.len() > 0,
    ensures
        eval_list(fns, es, fuel, vars, out) == ({
            let (r, o) = eval_list(fns, es.drop_last(), fuel, vars, out);
            match r {
                Ok(vs) => {
                    let (r2, o2) = eval(fns, es.last(), fuel, vars, o);
                    match r2 {
                        Ok(v) => (Ok(vs.push(v)), o2),
                        Err(m) => (Err(m), o2),
                    }
                },
                Err(m) => (Err(m), o),
            }
        }),
    decreases es.len(),
{
    let rest = es.drop_first();
    let (r0, o0) = eval(fns, es[0], fuel, vars, out);
    if es.len() == 1 {
        assert(es.drop_last() =~= Seq::<ExpressionView>::empty());
        assert(rest =~= Seq::<ExpressionView>::empty());
        assert(es.last() == es[0]);
        assert(eval_list(fns, es.drop_last(), fuel, vars, out) == (
            Ok::<Seq<ValueView>, Seq<char>>(Seq::<ValueView>::empty()),
            out,
        ));
        assert(eval_list(fns, rest, fuel, vars, o0) == (
            Ok::<Seq<ValueView>, Seq<char>>(Seq::<ValueView>::empty()),
            o0,
        ));
        if let Ok(v) = r0 {
            assert(seq![v] + Seq::<ValueView>::empty() =~= Seq::<ValueView>::empty().push(v));
        }
    } else {
        assert(es.drop_last()[0] == es[0]);
        assert(es.drop_last().drop_first() =~= rest.drop_last());
        assert(rest.last() == es.last());
        if let Ok(v0) = r0 {
            lemma_eval_list_snoc(fns, rest, fuel, vars, o0);
            let (r1, o1) = eval_list(fns, rest.drop_last(), fuel, vars, o0);
            if let Ok(vs) = r1 {
                let (r2, o2) = eval(fns, es.last(), fuel, vars, o1);
                if let Ok(v) = r2 {
                    assert(seq![v0] + vs.push(v) =~= (seq![v0] + vs).push(v));
                }
            }
        }
    }
}

pub proof fn lemma_run_single(
    fns: Seq<CompiledFunctionView>,
    i: InstructionView,
    fuel: nat,
    st: VmState,
)
    ensures
        run(fns, seq![i], 0, fuel, st) == run_instruction(fns, seq![i], 0, fuel, st),
{
    let (o, next) = run_instruction(fns, seq![i], 0, fuel, st);
    assert(run(fns, seq![i], 1, fuel, next) == (Outcome::Normal, next));
}


pub proof fn lemma_seq_prefix_trans<A>(a: Seq<A>, b: Seq<A>, c: Seq<A>)
    requires
        a.is_prefix_of(b),
        b.is_prefix_of(c),
    ensures
        a.is_prefix_of(c),
{
    assert forall|k: int| 0 <= k < a.len() implies a[k] == c.subrange(0, a.len() as int)[k] by {
        assert(a[k] == b.subrange(0, a.len() as int)[k]);
        assert(b[k] == c.subrange(0, b.len() as int)[k]);
    }
    assert(a =~= c.subrange(0, a.len() as int));
}

pub proof fn lemma_list_size_snoc(es: Seq<ExpressionView>)
    requires
        es.len() > 0,
    ensures
        list_size(es) == list_size(es.drop_last()) + expr_size(es.last()),
    decreases es.len(),
{
    if es.len() > 1 {
        lemma_list_size_snoc(es.drop_first());
        assert(es.drop_first().drop_last() =~= es.drop_last().drop_first());
        assert(es.drop_last()[0] == es[0]);
    } else {
        assert(es.drop_last() =~= Seq::<ExpressionView>::empty());
        assert(es.drop_first() =~= Seq::<ExpressionView>::empty());
    }
}

/// The machine binds parameters as the interpreter binds them.
pub proof fn lemma_bind_agrees(ps: Seq<ParameterView>, args: Seq<ValueView>, k: nat)
    requires
        k <= ps.len(),
        k <= args.len(),
    ensures
        bind_prefix(parameter_names(ps), args, k) == bind_arguments(ps, args, k),
    decreases k,
{
    if k > 0 {
        lemma_bind_agrees(ps, args, (k - 1) as nat);
        assert(parameter_names(ps)[k - 1] == ps[k - 1].name);
    }
}

pub proof fn lemma_bind_float_free(ps: Seq<ParameterView>, args: Seq<ValueView>, k: nat)
    requires
        k <= ps.len(),
        k <= args.len(),
        all_float_free(args),
    ensures
        locals_float_free(bind_arguments(ps, args, k)),
    decreases k,
{
    if k > 0 {
        lemma_bind_float_free(ps, args, (k - 1) as nat);
        lemma_all_float_free_at(args, k - 1);
        lemma_store_float_free(bind_arguments(ps, args, (k - 1) as nat), ps[k - 1].name, args[k - 1]);
    }
}

pub proof fn lemma_store_float_free(
    locals: Seq<(Seq<char>, ValueView)>,
    name: Seq<char>,
    v: ValueView,
)
    requires
        locals_float_free(locals),
        float_free(v),
    ensures
        locals_float_free(store_local(locals, name, v)),
{
    let after = store_local(locals, name, v);
    lemma_find_local(locals, name);
    assert forall|k: int| 0 <= k < after.len() implies float_free(#[trigger] after[k].1) by {
        match crate::vm::find_local(locals, name) {
            Some(i) => {
                if k != i {
                    assert(after[k] == locals[k]);
                }
            },
            None => {
                if k < locals.len() {
                    assert(after[k] == locals[k]);
                }
            },
        }
    }
}

pub open spec fn env_of(st: VmState) -> Env {
    Env { vars: st.locals, output: st.output }
}

/// What the interpreter gives for an expression agrees with what its code
/// does on the machine: the value pushed and the output, or the failure.
pub open spec fn agrees(
    r: (Result<ValueView, Seq<char>>, Seq<char>),
    code_run: (Outcome, VmState),
    st: VmState,
) -> bool {
    match r.0 {
        Ok(v) => float_free(v) && code_run == (
            Outcome::Normal,
            VmState { locals: st.locals, stack: st.stack.push(v), output: r.1 },
        ),
        Err(m) => missing_value(m) || code_run.0 == Outcome::Failed(m),
    }
}

/// What a call from the interpreter gives: the callee's returned value, if
/// any, or a failure.
pub open spec fn call_outcome(
    rfns: Seq<FunctionView>,
    name: Seq<char>,
    args: Seq<ValueView>,
    fuel: nat,
    out: Seq<char>,
) -> (Result<Option<ValueView>, Seq<char>>, Seq<char>) {
    if fuel == 0 {
        (Err(execution_limit()), out)
    } else {
        match crate::semantic::find_function(rfns, name) {
            None => (Err("unknown function '"@ + name + "'"@), out),
            Some(k) => call_body(
                rfns,
                rfns[k].body,
                rfns[k].parameters,
                args,
                (fuel - 1) as nat,
                out,
            ),
        }
    }
}

/// A call agrees with the machine's `Call` instruction run on the stack of
/// `st` with the arguments on top.
#[verifier::spinoff_prover]
#[verifier::rlimit(60)]
pub proof fn lemma_call_agrees(
    rfns: Seq<FunctionView>,
    name: Seq<char>,
    args: Seq<ValueView>,
    fuel: nat,
    st: VmState,
)
    requires
        plain_program(rfns),
        all_float_free(args),
        args.len() <= usize::MAX,
    ensures
        ({
            let vfns = compiled(rfns);
            let call = InstructionView::Call { name, argument_count: args.len() as usize };
            let vm = run_instruction(
                vfns,
                seq![call],
                0,
                fuel,
                VmState { locals: st.locals, stack: st.stack + args, output: st.output },
            );
            let rt = call_outcome(rfns, name, args, fuel, st.output);
            match rt.0 {
                Ok(None) => vm == (
                    Outcome::Normal,
                    VmState { locals: st.locals, stack: st.stack, output: rt.1 },
                ),
                Ok(Some(v)) => float_free(v) && vm == (
                    Outcome::Normal,
                    VmState { locals: st.locals, stack: st.stack.push(v), output: rt.1 },
                ),
                Err(m) => missing_value(m) || vm.0 == Outcome::Failed(m),
            }
        }),
    decreases fuel, 0nat, 0int,
{
    let vfns = compiled(rfns);
    let s1 = VmState { locals: st.locals, stack: st.stack + args, output: st.output };
    let n = s1.stack.len();
    assert(s1.stack.subrange(0, n - args.len()) =~= st.stack);
    assert(s1.stack.subrange(n - args.len(), n as int) =~= args);
    lemma_find_compiled(rfns, name);
    crate::semantic::lemma_find_function(rfns, name);
    if fuel > 0 {
        if let Some(k) = crate::semantic::find_function(rfns, name) {
            let f = rfns[k];
            assert(plain_block(rfns[k].body));
            assert(vfns[k].instructions == lower_block(f.body, 0).0);
            assert(vfns[k].parameters == parameter_names(f.parameters));
            let m = min_len(f.parameters.len(), args.len());
            lemma_bind_agrees(f.parameters, args, m);
            lemma_bind_float_free(f.parameters, args, m);
            let callee = VmState {
                locals: bind_parameters(vfns[k].parameters, args),
                stack: seq![],
                output: st.output,
            };
            assert(callee.locals == bind_arguments(f.parameters, args, m));
            lemma_block_agrees(rfns, f.body, 0, (fuel - 1) as nat, callee);
            assert(env_of(callee) == (Env {
                vars: bind_arguments(f.parameters, args, m),
                output: st.output,
            }));
        }
    }
}

#[verifier::spinoff_prover]
#[verifier::rlimit(80)]
pub proof fn lemma_expression_agrees(rfns: Seq<FunctionView>, e: ExpressionView, fuel: nat, st: VmState)
    requires
        plain_program(rfns),
        plain(e),
        locals_float_free(st.locals),
    ensures
        agrees(
            eval(rfns, e, fuel, st.locals, st.output),
            run(compiled(rfns), lower_expression(e), 0, fuel, st),
            st,
        ),
    decreases fuel, expr_size(e), 0int,
{
    let vfns = compiled(rfns);
    let code = lower_expression(e);
    match e {
        ExpressionView::String(t) => {
            lemma_run_single(vfns, InstructionView::PushString(t), fuel, st);
        },
        ExpressionView::Integer(v) => {
            lemma_run_single(vfns, InstructionView::PushInt(v), fuel, st);
        },
        ExpressionView::Boolean(b) => {
            lemma_run_single(vfns, InstructionView::PushBool(b), fuel, st);
        },
        ExpressionView::Variable(name) => {
            lemma_run_single(vfns, InstructionView::LoadVariable(name), fuel, st);
            lemma_find_local(st.locals, name);
            if let Some(k) = crate::vm::find_local(st.locals, name) {
                assert(float_free(st.locals[k].1));
            }
        },
        ExpressionView::Array(items) => {
            lemma_list_agrees(rfns, items, fuel, st);
            let last = InstructionView::MakeArray { length: items.len() as usize };
            assert(code =~= lower_expressions(items) + seq![last]);
            lemma_run_concat(vfns, lower_expressions(items), seq![last], 0, fuel, st);
            let (r, o) = eval_list(rfns, items, fuel, st.locals, st.output);
            if let Ok(vs) = r {
                let s1 = VmState { locals: st.locals, stack: st.stack + vs, output: o };
                lemma_run_single(vfns, last, fuel, s1);
                let n = s1.stack.len();
                assert(s1.stack.subrange(0, n - vs.len()) =~= st.stack);
                assert(s1.stack.subrange(n - vs.len(), n as int) =~= vs);
                assert(with_stack(
                    s1,
                    s1.stack.subrange(0, n - vs.len()).push(ValueView::Array(vs)),
                ) =~= VmState {
                    locals: st.locals,
                    stack: st.stack.push(ValueView::Array(vs)),
                    output: o,
                });
            }
        },
        ExpressionView::Call(c) => {
            let args = c.arguments;
            lemma_list_agrees(rfns, args, fuel, st);
            let call = InstructionView::Call { name: c.name, argument_count: args.len() as usize };
            assert(code =~= lower_expressions(args) + seq![call]);
            lemma_run_concat(vfns, lower_expressions(args), seq![call], 0, fuel, st);
            let (r, o) = eval_list(rfns, args, fuel, st.locals, st.output);
            if let Ok(vs) = r {
                let s1 = VmState { locals: st.locals, stack: st.stack, output: o };
                lemma_run_single(
                    vfns,
                    call,
                    fuel,
                    VmState { locals: st.locals, stack: st.stack + vs, output: o },
                );
                lemma_call_agrees(rfns, c.name, vs, fuel, s1);
                let rt = call_outcome(rfns, c.name, vs, fuel, o);
                if rt.0 == Ok::<Option<ValueView>, Seq<char>>(None) {
                    assert(no_value_message(c.name) == "function '"@ + c.name
                        + "' returned no value"@);
                }
            }
        },
        ExpressionView::Binary { left, operator, right } => {
            lemma_expression_agrees(rfns, *left, fuel, st);
            let l_code = lower_expression(*left);
            let r_code = lower_expression(*right);
            let (l, o1) = eval(rfns, *left, fuel, st.locals, st.output);
            if operator == BinaryOperator::And || operator == BinaryOperator::Or {
                let sc = code.last();
                assert(code =~= l_code + seq![sc]);
                lemma_run_concat(vfns, l_code, seq![sc], 0, fuel, st);
                if let Ok(lv) = l {
                    let s0 = VmState { locals: st.locals, stack: st.stack, output: o1 };
                    let s1 = pushed(s0, lv);
                    lemma_run_single(vfns, sc, fuel, s1);
                    let popped = with_stack(s1, s1.stack.drop_last());
                    assert(popped =~= s0);
                    lemma_expression_agrees(rfns, *right, fuel, s0);
                    let (r, o2) = eval(rfns, *right, fuel, st.locals, o1);
                    if let Ok(rv) = r {
                        let s2 = VmState { locals: st.locals, stack: st.stack.push(rv), output: o2 };
                        assert(with_stack(s2, s2.stack.drop_last().push(rv)) =~= s2);
                    }
                    if let ValueView::Bool(b) = lv {
                        assert(with_stack(popped, popped.stack.push(ValueView::Bool(b))) =~= s1);
                    }
                }
            } else {
                let b = code.last();
                assert(code =~= (l_code + r_code) + seq![b]);
                lemma_run_concat(vfns, l_code + r_code, seq![b], 0, fuel, st);
                lemma_run_concat(vfns, l_code, r_code, 0, fuel, st);
                if let Ok(lv) = l {
                    let s1 = VmState { locals: st.locals, stack: st.stack.push(lv), output: o1 };
                    lemma_expression_agrees(rfns, *right, fuel, s1);
                    let (r, o2) = eval(rfns, *right, fuel, st.locals, o1);
                    if let Ok(rv) = r {
                        let s2 = VmState {
                            locals: st.locals,
                            stack: st.stack.push(lv).push(rv),
                            output: o2,
                        };
                        lemma_run_single(vfns, b, fuel, s2);
                        let n = s2.stack.len();
                        assert(s2.stack.subrange(0, n - 2) =~= st.stack);
                        assert(s2.stack[n - 2] == lv);
                        assert(apply_binary(operator, lv, rv) == binary_value(operator, lv, rv));
                    }
                }
            }
        },
        ExpressionView::Unary { operator, operand } => {
            lemma_expression_agrees(rfns, *operand, fuel, st);
            let o_code = lower_expression(*operand);
            let u = code.last();
            assert(code =~= o_code + seq![u]);
            lemma_run_concat(vfns, o_code, seq![u], 0, fuel, st);
            let (r, o) = eval(rfns, *operand, fuel, st.locals, st.output);
            if let Ok(v) = r {
                let s1 = VmState { locals: st.locals, stack: st.stack.push(v), output: o };
                lemma_run_single(vfns, u, fuel, s1);
                assert(s1.stack.drop_last() =~= st.stack);
                assert(apply_unary(operator, v) == unary_value(operator, v));
            }
        },
        ExpressionView::Index { target, index } => {
            lemma_expression_agrees(rfns, *target, fuel, st);
            let t_code = lower_expression(*target);
            let i_code = lower_expression(*index);
            let ix = code.last();
            assert(code =~= (t_code + i_code) + seq![ix]);
            lemma_run_concat(vfns, t_code + i_code, seq![ix], 0, fuel, st);
            lemma_run_concat(vfns, t_code, i_code, 0, fuel, st);
            let (t, o1) = eval(rfns, *target, fuel, st.locals, st.output);
            if let Ok(tv) = t {
                let s1 = VmState { locals: st.locals, stack: st.stack.push(tv), output: o1 };
                lemma_expression_agrees(rfns, *index, fuel, s1);
                let (i, o2) = eval(rfns, *index, fuel, st.locals, o1);
                if let Ok(iv) = i {
                    let s2 = VmState {
                        locals: st.locals,
                        stack: st.stack.push(tv).push(iv),
                        output: o2,
                    };
                    lemma_run_single(vfns, ix, fuel, s2);
                    let n = s2.stack.len();
                    assert(s2.stack.subrange(0, n - 2) =~= st.stack);
                    assert(s2.stack[n - 2] == tv);
                    if let (ValueView::Array(items), ValueView::Int(k)) = (tv, iv) {
                        if 0 <= k < items.len() {
                            lemma_all_float_free_at(items, k as int);
                        }
                    }
                }
            }
        },
        _ => {},
    }
}

pub proof fn lemma_list_agrees(rfns: Seq<FunctionView>, es: Seq<ExpressionView>, fuel: nat, st: VmState)
    requires
        plain_program(rfns),
        plain_all(es),
        locals_float_free(st.locals),
    ensures
        ({
            let (r, o) = eval_list(rfns, es, fuel, st.locals, st.output);
            let code_run = run(compiled(rfns), lower_expressions(es), 0, fuel, st);
            match r {
                Ok(vs) => all_float_free(vs) && vs.len() == es.len() && code_run == (
                    Outcome::Normal,
                    VmState { locals: st.locals, stack: st.stack + vs, output: o },
                ),
                Err(m) => missing_value(m) || code_run.0 == Outcome::Failed(m),
            }
        }),
    decreases fuel, list_size(es), 1int,
{
    let vfns = compiled(rfns);
    if es.len() == 0 {
        assert(st.stack + Seq::<ValueView>::empty() =~= st.stack);
        assert(VmState { locals: st.locals, stack: st.stack, output: st.output } =~= st);
    } else {
        let init = es.drop_last();
        lemma_list_size_snoc(es);
        lemma_list_agrees(rfns, init, fuel, st);
        lemma_eval_list_snoc(rfns, es, fuel, st.locals, st.output);
        lemma_run_concat(vfns, lower_expressions(init), lower_expression(es.last()), 0, fuel, st);
        let (r, o) = eval_list(rfns, init, fuel, st.locals, st.output);
        if let Ok(vs) = r {
            let s1 = VmState { locals: st.locals, stack: st.stack + vs, output: o };
            lemma_expression_agrees(rfns, es.last(), fuel, s1);
            let (r2, o2) = eval(rfns, es.last(), fuel, st.locals, o);
            if let Ok(v) = r2 {
                assert((st.stack + vs).push(v) =~= st.stack + vs.push(v));
                assert(vs.push(v).drop_last() =~= vs);
            }
        }
    }
}

/// What the interpreter gives for statements agrees with what their code
/// does on the machine: the same ending, variables and output, with the
/// operand stack at least as it was, or the same failure.
pub open spec fn statements_agree(
    r: (Result<Control, Seq<char>>, Env),
    code_run: (Outcome, VmState),
    st: VmState,
) -> bool {
    match r.0 {
        Ok(c) => {
            &&& locals_float_free(r.1.vars)
            &&& (c matches Control::Returned(v) ==> float_free(v))
            &&& code_run.0 == outcome_of(c)
            &&& code_run.1.locals == r.1.vars
            &&& code_run.1.output == r.1.output
            &&& st.stack.is_prefix_of(code_run.1.stack)
        },
        Err(m) => missing_value(m) || code_run.0 == Outcome::Failed(m),
    }
}

/// The machine's outcome for the way the interpreter ended a statement.
pub open spec fn outcome_of(c: Control) -> Outcome {
    match c {
        Control::Normal => Outcome::Normal,
        Control::Returned(v) => Outcome::Returned(v),
        Control::Break => Outcome::Break,
        Control::Continue => Outcome::Continue,
    }
}

pub proof fn lemma_prefix_push(s: Seq<ValueView>, v: ValueView)
    ensures
        s.is_prefix_of(s),
        s.is_prefix_of(s.push(v)),
{
    assert(s =~= s.subrange(0, s.len() as int));
    assert(s =~= s.push(v).subrange(0, s.len() as int));
}

#[verifier::spinoff_prover]
#[verifier::rlimit(80)]
pub proof fn lemma_statement_agrees(
    rfns: Seq<FunctionView>,
    s: StatementView,
    counter: nat,
    fuel: nat,
    st: VmState,
)
    requires
        plain_program(rfns),
        plain_statement(s),
        locals_float_free(st.locals),
    ensures
        statements_agree(
            exec_stmt(rfns, s, fuel, env_of(st)),
            run(compiled(rfns), lower_statement(s, counter).0, 0, fuel, st),
            st,
        ),
    decreases fuel, stmt_size(s), 2int,
{
    let vfns = compiled(rfns);
    let code = lower_statement(s, counter).0;
    lemma_prefix_push(st.stack, ValueView::Bool(true));
    match s {
        StatementView::Let { name, value, .. } => {
            lemma_expression_agrees(rfns, value, fuel, st);
            let store = InstructionView::StoreVariable(name);
            assert(code =~= lower_expression(value) + seq![store]);
            lemma_run_concat(vfns, lower_expression(value), seq![store], 0, fuel, st);
            let (r, o) = eval(rfns, value, fuel, st.locals, st.output);
            if let Ok(v) = r {
                let s1 = VmState { locals: st.locals, stack: st.stack.push(v), output: o };
                lemma_run_single(vfns, store, fuel, s1);
                assert(s1.stack.drop_last() =~= st.stack);
                lemma_store_float_free(st.locals, name, v);
            }
        },
        StatementView::Assign { target, value } => {
            let name = target->Variable_0;
            lemma_expression_agrees(rfns, value, fuel, st);
            let store = InstructionView::StoreVariable(name);
            assert(code =~= lower_expression(value) + seq![store]);
            lemma_run_concat(vfns, lower_expression(value), seq![store], 0, fuel, st);
            let (r, o) = eval(rfns, value, fuel, st.locals, st.output);
            if let Ok(v) = r {
                let s1 = VmState { locals: st.locals, stack: st.stack.push(v), output: o };
                lemma_run_single(vfns, store, fuel, s1);
                assert(s1.stack.drop_last() =~= st.stack);
                lemma_store_float_free(st.locals, name, v);
                let env1 = crate::runtime::with_output(env_of(st), o);
                assert(crate::runtime::assign(rfns, target, v, fuel, env1) == (
                    Ok::<(), Seq<char>>(()),
                    Env { vars: store_local(st.locals, name, v), output: o },
                ));
            }
        },
        StatementView::Return(e) => {
            lemma_expression_agrees(rfns, e, fuel, st);
            assert(code =~= lower_expression(e) + seq![InstructionView::Return]);
            lemma_run_concat(vfns, lower_expression(e), seq![InstructionView::Return], 0, fuel, st);
            let (r, o) = eval(rfns, e, fuel, st.locals, st.output);
            if let Ok(v) = r {
                let s1 = VmState { locals: st.locals, stack: st.stack.push(v), output: o };
                lemma_run_single(vfns, InstructionView::Return, fuel, s1);
                assert(s1.stack.drop_last() =~= st.stack);
            }
        },
        StatementView::Break | StatementView::Continue => {
            lemma_run_single(vfns, code[0], fuel, st);
        },
        StatementView::Call(c) => {
            assert(crate::runtime::is_print_call(c.name) == crate::ir::is_print_call(c));
            if crate::ir::is_print_call(c) {
                if c.arguments.len() == 0 {
                    let mk = InstructionView::MakeArray { length: 0 };
                    let zero = InstructionView::PushInt(0);
                    let ix = InstructionView::Index;
                    assert(code =~= seq![mk] + (seq![zero] + seq![ix]));
                    lemma_run_concat(vfns, seq![mk], seq![zero] + seq![ix], 0, fuel, st);
                    lemma_run_single(vfns, mk, fuel, st);
                    let s1 = VmState {
                        locals: st.locals,
                        stack: st.stack.push(ValueView::Array(seq![])),
                        output: st.output,
                    };
                    assert(st.stack.subrange(0, st.stack.len() as int) =~= st.stack);
                    assert(st.stack.subrange(st.stack.len() as int, st.stack.len() as int)
                        =~= Seq::<ValueView>::empty());
                    lemma_run_concat(vfns, seq![zero], seq![ix], 0, fuel, s1);
                    lemma_run_single(vfns, zero, fuel, s1);
                    let s2 = VmState {
                        locals: st.locals,
                        stack: s1.stack.push(ValueView::Int(0)),
                        output: st.output,
                    };
                    lemma_run_single(vfns, ix, fuel, s2);
                } else {
                    let arg = c.arguments[0];
                    lemma_list_size_element(c.arguments, 0);
                    lemma_expression_agrees(rfns, arg, fuel, st);
                    assert(code =~= lower_expression(arg) + seq![InstructionView::Print]);
                    lemma_run_concat(
                        vfns,
                        lower_expression(arg),
                        seq![InstructionView::Print],
                        0,
                        fuel,
                        st,
                    );
                    let (r, o) = eval(rfns, arg, fuel, st.locals, st.output);
                    if let Ok(v) = r {
                        let s1 = VmState { locals: st.locals, stack: st.stack.push(v), output: o };
                        lemma_run_single(vfns, InstructionView::Print, fuel, s1);
                        assert(s1.stack.drop_last() =~= st.stack);
                    }
                }
            } else {
                let args = c.arguments;
                lemma_list_agrees(rfns, args, fuel, st);
                let call = InstructionView::Call {
                    name: c.name,
                    argument_count: args.len() as usize,
                };
                assert(code =~= lower_expressions(args) + seq![call]);
                lemma_run_concat(vfns, lower_expressions(args), seq![call], 0, fuel, st);
                let (r, o) = eval_list(rfns, args, fuel, st.locals, st.output);
                if let Ok(vs) = r {
                    let s1 = VmState { locals: st.locals, stack: st.stack, output: o };
                    lemma_run_single(
                        vfns,
                        call,
                        fuel,
                        VmState { locals: st.locals, stack: st.stack + vs, output: o },
                    );
                    lemma_call_agrees(rfns, c.name, vs, fuel, s1);
                }
            }
        },
        StatementView::If { condition, then_body, else_body } => {
            let (then_code, c1) = lower_block(then_body, counter);
            let else_code = lower_block(else_body, c1).0;
            let branch = InstructionView::If { then_body: then_code, else_body: else_code };
            lemma_expression_agrees(rfns, condition, fuel, st);
            assert(code =~= lower_expression(condition) + seq![branch]);
            lemma_run_concat(vfns, lower_expression(condition), seq![branch], 0, fuel, st);
            let (r, o) = eval(rfns, condition, fuel, st.locals, st.output);
            if let Ok(v) = r {
                let s0 = VmState { locals: st.locals, stack: st.stack, output: o };
                let s1 = pushed(s0, v);
                lemma_run_single(vfns, branch, fuel, s1);
                let popped = with_stack(s1, s1.stack.drop_last());
                assert(popped =~= s0);
                lemma_block_agrees(rfns, then_body, counter, fuel, s0);
                lemma_block_agrees(rfns, else_body, c1, fuel, s0);
                let (o2, s2) = run(vfns, then_code, 0, fuel, s0);
                assert(run(vfns, seq![branch], 1, fuel, s2) == (Outcome::Normal, s2));
                let (o3, s3) = run(vfns, else_code, 0, fuel, s0);
                assert(run(vfns, seq![branch], 1, fuel, s3) == (Outcome::Normal, s3));
                assert(crate::runtime::with_output(env_of(st), o) == env_of(s0));
            }
        },
        StatementView::While { .. } => {
            let l = code[0];
            assert(code =~= seq![l]);
            lemma_run_single(vfns, l, fuel, st);
            lemma_loop_agrees(rfns, s, counter, fuel, st);
            let (o, s2) = run_instruction(vfns, seq![l], 0, fuel, st);
            assert(run(vfns, seq![l], 1, fuel, s2) == (Outcome::Normal, s2));
        },
        StatementView::For { initializer, .. } => {
            let l = code[0];
            assert(code =~= seq![l]);
            lemma_run_single(vfns, l, fuel, st);
            let init_code = match initializer {
                Some(init) => lower_statement(*init, counter).0,
                None => seq![],
            };
            match initializer {
                Some(init) => {
                    lemma_statement_agrees(rfns, *init, counter, fuel, st);
                    let (ri, ei) = exec_stmt(rfns, *init, fuel, env_of(st));
                    let (oi, si) = run(vfns, init_code, 0, fuel, st);
                    if ri == Ok::<Control, Seq<char>>(Control::Normal) {
                        assert(ei == env_of(si));
                        lemma_loop_agrees(rfns, s, counter, fuel, si);
                        let (ol, sl) = crate::vm::run_loop(vfns, code, 0, fuel, si);
                        if crate::runtime::run_loop(rfns, s, fuel, ei).0 is Ok {
                            lemma_seq_prefix_trans(st.stack, si.stack, sl.stack);
                        }
                    }
                },
                None => {
                    assert(run(vfns, init_code, 0, fuel, st) == (Outcome::Normal, st));
                    lemma_loop_agrees(rfns, s, counter, fuel, st);
                },
            }
            let (o, s2) = run_instruction(vfns, seq![l], 0, fuel, st);
            assert(run(vfns, seq![l], 1, fuel, s2) == (Outcome::Normal, s2));
        },
        _ => {},
    }
}

/// The iterations of a loop agree with those of its compiled loop.
#[verifier::spinoff_prover]
#[verifier::rlimit(60)]
pub proof fn lemma_loop_agrees(
    rfns: Seq<FunctionView>,
    s: StatementView,
    counter: nat,
    fuel: nat,
    st: VmState,
)
    requires
        plain_program(rfns),
        plain_statement(s),
        s is While || s is For,
        locals_float_free(st.locals),
    ensures
        statements_agree(
            crate::runtime::run_loop(rfns, s, fuel, env_of(st)),
            crate::vm::run_loop(compiled(rfns), lower_statement(s, counter).0, 0, fuel, st),
            st,
        ),
    decreases fuel, stmt_size(s), 1int,
{
    let vfns = compiled(rfns);
    let code = lower_statement(s, counter).0;
    let condition = crate::runtime::loop_condition(s);
    let body = crate::runtime::loop_body(s);
    let cond_code = lower_expression(condition);
    let (c_body, update_code) = match s {
        StatementView::For { initializer, update, .. } => {
            let c1 = match initializer {
                Some(init) => lower_statement(*init, counter).1,
                None => counter,
            };
            match update {
                Some(u) => (lower_statement(*u, c1).1, lower_statement(*u, c1).0),
                None => (c1, Seq::<InstructionView>::empty()),
            }
        },
        _ => (counter, Seq::<InstructionView>::empty()),
    };
    let c_update = match s {
        StatementView::For { initializer, .. } => match initializer {
            Some(init) => lower_statement(*init, counter).1,
            None => counter,
        },
        _ => counter,
    };
    let body_code = lower_block(body, c_body).0;
    assert(crate::vm::loop_parts(code[0]) == (cond_code, update_code, body_code));
    lemma_prefix_push(st.stack, ValueView::Bool(true));
    lemma_expression_agrees(rfns, condition, fuel, st);
    let (r, o) = eval(rfns, condition, fuel, st.locals, st.output);
    if let Ok(v) = r {
        let s0 = VmState { locals: st.locals, stack: st.stack, output: o };
        let s1 = pushed(s0, v);
        let s2 = with_stack(s1, s1.stack.drop_last());
        assert(s2 =~= s0);
        assert(crate::runtime::with_output(env_of(st), o) == env_of(s0));
        if v == ValueView::Bool(true) {
            lemma_block_agrees(rfns, body, c_body, fuel, s0);
            let (rb, e1) = exec_block(rfns, body, fuel, env_of(s0));
            let (ob, s3) = run(vfns, body_code, 0, fuel, s0);
            if rb == Ok::<Control, Seq<char>>(Control::Normal) || rb == Ok::<Control, Seq<char>>(
                Control::Continue,
            ) {
                assert(e1 == env_of(s3));
                let (ru, e2) = match crate::runtime::loop_update(s) {
                    Some(u) => exec_stmt(rfns, *u, fuel, e1),
                    None => (Ok(Control::Normal), e1),
                };
                let (ou, s4) = if update_code.len() == 0 {
                    (Outcome::Normal, s3)
                } else {
                    run(vfns, update_code, 0, fuel, s3)
                };
                match crate::runtime::loop_update(s) {
                    Some(u) => {
                        lemma_statement_agrees(rfns, *u, c_update, fuel, s3);
                        if update_code.len() == 0 {
                            assert(run(vfns, update_code, 0, fuel, s3) == (Outcome::Normal, s3));
                        }
                    },
                    None => {
                        lemma_prefix_push(s3.stack, ValueView::Bool(true));
                    },
                }
                if ru is Ok {
                    lemma_seq_prefix_trans(st.stack, s3.stack, s4.stack);
                }
                if ru == Ok::<Control, Seq<char>>(Control::Normal) && fuel > 0 {
                    assert(e2 == env_of(s4));
                    lemma_loop_agrees(rfns, s, counter, (fuel - 1) as nat, s4);
                    let (ol, sl) = crate::vm::run_loop(vfns, code, 0, (fuel - 1) as nat, s4);
                    if crate::runtime::run_loop(rfns, s, (fuel - 1) as nat, e2).0 is Ok {
                        lemma_seq_prefix_trans(st.stack, s4.stack, sl.stack);
                    }
                }
            }
        }
    }
}

pub proof fn lemma_block_agrees(
    rfns: Seq<FunctionView>,
    ss: Seq<StatementView>,
    counter: nat,
    fuel: nat,
    st: VmState,
)
    requires
        plain_program(rfns),
        plain_block(ss),
        locals_float_free(st.locals),
    ensures
        statements_agree(
            exec_block(rfns, ss, fuel, env_of(st)),
            run(compiled(rfns), lower_block(ss, counter).0, 0, fuel, st),
            st,
        ),
    decreases fuel, block_size(ss), 3int,
{
    let vfns = compiled(rfns);
    lemma_prefix_push(st.stack, ValueView::Bool(true));
    if ss.len() == 0 {
        assert(VmState { locals: st.locals, stack: st.stack, output: st.output } =~= st);
    } else {
        let (first, c1) = lower_statement(ss[0], counter);
        let rest = lower_block(ss.drop_first(), c1).0;
        lemma_statement_agrees(rfns, ss[0], counter, fuel, st);
        lemma_run_concat(vfns, first, rest, 0, fuel, st);
        let (r, e1) = exec_stmt(rfns, ss[0], fuel, env_of(st));
        let (o1, s1) = run(vfns, first, 0, fuel, st);
        if r == Ok::<Control, Seq<char>>(Control::Normal) {
            assert(e1 == env_of(s1));
            lemma_block_size(ss);
            lemma_block_agrees(rfns, ss.drop_first(), c1, fuel, s1);
            let (o2, s2) = run(vfns, rest, 0, fuel, s1);
            if exec_block(rfns, ss.drop_first(), fuel, e1).0 is Ok {
                lemma_seq_prefix_trans(st.stack, s1.stack, s2.stack);
            }
        }
    }
}

pub proof fn lemma_find_compiled(fs: Seq<FunctionView>, name: Seq<char>)
    ensures
        crate::vm::find_function(compile_functions(lower_functions(fs)), name)
            == crate::semantic::find_function(fs, name),
    decreases fs.len(),
{
    let cf = compile_functions(lower_functions(fs));
    if fs.len() > 0 {
        assert(cf[0].name == fs[0].name);
        assert(cf.drop_first() =~= compile_functions(lower_functions(fs.drop_first())));
        lemma_find_compiled(fs.drop_first(), name);
    }
}

/// A program without floating-point literals and without assignments into
/// array elements prints the same text, or fails with the same message, in
/// the interpreter and on the virtual machine, given the same fuel; the one
/// exception is a run the interpreter stops because a function called for
/// its value returned none.
pub proof fn law_programs_agree(fns: Seq<FunctionView>, fuel: nat)
    requires
        plain_program(fns),
    ensures
        crate::runtime::program_output(fns, fuel) == crate::vm::program_output(compiled(fns), fuel)
            || (crate::runtime::program_output(fns, fuel) matches Err(m) && missing_value(m)),
{
    let cf = compiled(fns);
    lemma_find_compiled(fns, "main"@);
    crate::semantic::lemma_find_function(fns, "main"@);
    if let Some(k) = crate::semantic::find_function(fns, "main"@) {
        let start = VmState { locals: seq![], stack: seq![], output: seq![] };
        assert(plain_block(fns[k].body));
        assert(cf[k].instructions == lower_block(fns[k].body, 0).0);
        assert(bind_arguments(fns[k].parameters, seq![], 0) =~= seq![]);
        assert(env_of(start) == (Env { vars: seq![], output: seq![] }));
        lemma_block_agrees(fns, fns[k].body, 0, fuel, start);
    }
}
} // verus!
