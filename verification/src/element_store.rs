//! Assignments into array elements: storing a value at a path of indices,
//! on the machine and in the interpreter.
use vstd::prelude::*;
use crate::agreement::{compiled, env_of, lemma_run_single};
use crate::ast::{ExpressionView, FunctionView, StatementView};
use crate::ir::{
    InstructionView, ascend, counter_after, descend, index_base, index_path, is_temp_name,
    lemma_counter_after_exact, lemma_temp_name_injective, lower_assignment, lower_expression,
    lower_statement, temp_name, temp_or_base,
};
use crate::runtime::{Control, eval, exec_stmt, with_output};
use crate::vm::{
    CompiledFunctionView, Outcome, ValueView, VmState, find_local, index_value, is_simple,
    law_load_after_store, lemma_run_concat, run, run_instruction, simple_step, store_index_value,
    store_local,
};

verus! {

/// The value bound to `name`, if any.
pub open spec fn lookup(locals: Seq<(Seq<char>, ValueView)>, name: Seq<char>) -> Option<ValueView> {
    match find_local(locals, name) {
        Some(k) => Some(locals[k].1),
        None => None,
    }
}

/// An operand whose code is a single push: a literal integer, boolean or
/// string, or a variable that is bound in `locals` and is not named like a
/// temporary.
pub open spec fn simple_operand(e: ExpressionView, locals: Seq<(Seq<char>, ValueView)>) -> bool {
    match e {
        ExpressionView::Integer(_) | ExpressionView::Boolean(_) | ExpressionView::String(_) => true,
        ExpressionView::Variable(x) => !is_temp_name(x) && lookup(locals, x) is Some,
        _ => false,
    }
}

/// The value of a simple operand, its variables read in `locals`.
pub open spec fn operand_value(e: ExpressionView, locals: Seq<(Seq<char>, ValueView)>) -> ValueView {
    match e {
        ExpressionView::Integer(i) => ValueView::Int(i),
        ExpressionView::Boolean(b) => ValueView::Bool(b),
        ExpressionView::String(t) => ValueView::Str(t),
        ExpressionView::Variable(x) => lookup(locals, x)->Some_0,
        _ => ValueView::Int(0),
    }
}

/// Index expressions that are all simple operands.
pub open spec fn simple_indices(
    path: Seq<ExpressionView>,
    locals: Seq<(Seq<char>, ValueView)>,
) -> bool {
    forall|k: int| 0 <= k < path.len() ==> simple_operand(#[trigger] path[k], locals)
}

/// The values of the index expressions.
pub open spec fn index_values(
    path: Seq<ExpressionView>,
    locals: Seq<(Seq<char>, ValueView)>,
) -> Seq<ValueView> {
    path.map_values(|e: ExpressionView| operand_value(e, locals))
}

/// The element reached from `a` by indexing with each value of `path` in
/// turn.
pub open spec fn element_at(a: ValueView, path: Seq<ValueView>) -> Result<ValueView, Seq<char>>
    decreases path.len(),
{
    if path.len() == 0 {
        Ok(a)
    } else {
        match element_at(a, path.drop_last()) {
            Ok(b) => index_value(b, path.last()),
            Err(m) => Err(m),
        }
    }
}

/// `a` with the element at `path` replaced by `v`: the innermost array gets
/// its element replaced, and is then stored back at the shorter path.
pub open spec fn store_at(a: ValueView, path: Seq<ValueView>, v: ValueView) -> Result<
    ValueView,
    Seq<char>,
>
    decreases path.len(),
{
    if path.len() == 0 {
        Ok(v)
    } else {
        match element_at(a, path.drop_last()) {
            Ok(inner) => match store_index_value(inner, path.last(), v) {
                Ok(updated) => store_at(a, path.drop_last(), updated),
                Err(m) => Err(m),
            },
            Err(m) => Err(m),
        }
    }
}

/// The variables that hold the levels `0..=k` of an indexed assignment are
/// all different.
pub open spec fn levels_apart(base: Seq<char>, c: nat, k: int) -> bool {
    forall|i: int, j: int|
        0 <= i <= k && 0 <= j <= k && i != j ==> #[trigger] temp_or_base(base, c, i)
            != #[trigger] temp_or_base(base, c, j)
}

/// `x` is the temporary of one of the levels `1..=k`.
pub open spec fn among_levels(base: Seq<char>, c: nat, k: int, x: Seq<char>) -> bool {
    exists|j: int| 1 <= j <= k && x == #[trigger] temp_or_base(base, c, j)
}

pub proof fn lemma_levels_apart(base: Seq<char>, c: nat, m: nat)
    requires
        !is_temp_name(base),
        counter_after(c, m) < usize::MAX,
    ensures
        levels_apart(base, c, m + 1int),
{
    lemma_counter_after_exact(c, m);
    assert forall|i: int, j: int|
        0 <= i <= m + 1 && 0 <= j <= m + 1 && i != j implies #[trigger] temp_or_base(base, c, i)
            != #[trigger] temp_or_base(base, c, j) by {
        if i > 0 && j > 0 {
            assert(counter_after(c, (i - 1) as nat) == c + i - 1);
            assert(counter_after(c, (j - 1) as nat) == c + j - 1);
            if temp_name(counter_after(c, (i - 1) as nat)) == temp_name(
                counter_after(c, (j - 1) as nat),
            ) {
                lemma_temp_name_injective(
                    counter_after(c, (i - 1) as nat),
                    counter_after(c, (j - 1) as nat),
                );
            }
        } else if i == 0 {
            assert(temp_or_base(base, c, j) == temp_name(counter_after(c, (j - 1) as nat)));
        } else {
            assert(temp_or_base(base, c, i) == temp_name(counter_after(c, (i - 1) as nat)));
        }
    }
}

/// Looking a name up after a store.
pub proof fn lemma_lookup_store(
    locals: Seq<(Seq<char>, ValueView)>,
    name: Seq<char>,
    v: ValueView,
    x: Seq<char>,
)
    ensures
        lookup(store_local(locals, name, v), x) == if x == name {
            Some(v)
        } else {
            lookup(locals, x)
        },
{
    if x == name {
        let other = name.push('x');
        assert(other.len() != name.len());
        law_load_after_store(locals, name, v, other);
    } else {
        law_load_after_store(locals, name, v, x);
    }
}

/// Running code that starts with a simple instruction.
pub proof fn lemma_run_step(
    fns: Seq<CompiledFunctionView>,
    i: InstructionView,
    rest: Seq<InstructionView>,
    fuel: nat,
    st: VmState,
)
    requires
        is_simple(i),
    ensures
        run(fns, seq![i] + rest, 0, fuel, st) == ({
            let (o, s) = simple_step(i, st);
            if o == Outcome::Normal {
                run(fns, rest, 0, fuel, s)
            } else {
                (o, s)
            }
        }),
{
    lemma_run_concat(fns, seq![i], rest, 0, fuel, st);
    lemma_run_single(fns, i, fuel, st);
    assert(run_instruction(fns, seq![i], 0, fuel, st) == simple_step(i, st));
}

/// The element at the first `j` indices of `path`.
pub open spec fn level(
    a: ValueView,
    path: Seq<ExpressionView>,
    locals: Seq<(Seq<char>, ValueView)>,
    j: int,
) -> ValueView {
    element_at(a, index_values(path, locals).take(j))->Ok_0
}

/// The code of a simple operand pushes its value, read where the variables
/// it may name hold what they hold in `locals`.
pub proof fn lemma_operand_step(
    e: ExpressionView,
    locals: Seq<(Seq<char>, ValueView)>,
    st: VmState,
)
    requires
        simple_operand(e, locals),
        forall|x: Seq<char>| !is_temp_name(x) ==> lookup(st.locals, x) == lookup(locals, x),
    ensures
        lower_expression(e).len() == 1,
        is_simple(lower_expression(e)[0]),
        simple_step(lower_expression(e)[0], st) == (
            Outcome::Normal,
            VmState { stack: st.stack.push(operand_value(e, locals)), ..st },
        ),
{
    if let ExpressionView::Variable(x) = e {
        assert(lookup(st.locals, x) == lookup(locals, x));
    }
}

/// The temporaries of the levels are named like temporaries.
pub proof fn lemma_not_among_levels(base: Seq<char>, c: nat, k: int, x: Seq<char>)
    requires
        !is_temp_name(x),
    ensures
        !among_levels(base, c, k, x),
{
    if among_levels(base, c, k, x) {
        let j = choose|j: int| 1 <= j <= k && x == #[trigger] temp_or_base(base, c, j);
        assert(x == temp_name(counter_after(c, (j - 1) as nat)));
    }
}

pub proof fn lemma_element_step(a: ValueView, idx: Seq<ValueView>, k: int)
    requires
        0 <= k < idx.len(),
    ensures
        element_at(a, idx.take(k + 1)) == match element_at(a, idx.take(k)) {
            Ok(b) => index_value(b, idx[k]),
            Err(m) => Err(m),
        },
{
    assert(idx.take(k + 1).drop_last() =~= idx.take(k));
}

/// Running the loads of an indexed assignment down to level `k`: each level's
/// variable holds the element at its prefix of the path, and nothing else
/// changes.
pub proof fn lemma_descend_runs(
    fns: Seq<CompiledFunctionView>,
    base: Seq<char>,
    c: nat,
    path: Seq<ExpressionView>,
    k: int,
    fuel: nat,
    st: VmState,
    a: ValueView,
)
    requires
        0 <= k < path.len(),
        simple_indices(path, st.locals),
        levels_apart(base, c, k),
        lookup(st.locals, base) == Some(a),
        element_at(a, index_values(path, st.locals).take(k)) is Ok,
    ensures
        ({
            let (o, s) = run(fns, descend(base, c, path, k), 0, fuel, st);
            &&& o == Outcome::Normal
            &&& s.stack == st.stack
            &&& s.output == st.output
            &&& forall|j: int|
                0 <= j <= k ==> lookup(s.locals, #[trigger] temp_or_base(base, c, j)) == Some(
                    level(a, path, st.locals, j),
                )
            &&& forall|x: Seq<char>|
                !among_levels(base, c, k, x) ==> lookup(s.locals, x) == lookup(st.locals, x)
        }),
    decreases k,
{
    let idx = index_values(path, st.locals);
    if k == 0 {
        assert(idx.take(0) =~= Seq::<ValueView>::empty());
        assert(run(fns, descend(base, c, path, 0), 0, fuel, st) == (Outcome::Normal, st));
    } else {
        lemma_element_step(a, idx, k - 1);
        lemma_descend_runs(fns, base, c, path, k - 1, fuel, st, a);
        let (o0, s0) = run(fns, descend(base, c, path, k - 1), 0, fuel, st);
        let tk = temp_or_base(base, c, k - 1);
        let tn = temp_or_base(base, c, k);
        let i1 = InstructionView::LoadVariable(tk);
        let i2 = lower_expression(path[k - 1])[0];
        let i3 = InstructionView::Index;
        let i4 = InstructionView::StoreVariable(tn);
        let step = seq![i1, i2, i3, i4];
        lemma_operand_step(path[k - 1], st.locals, st);
        assert(lower_expression(path[k - 1]) =~= seq![i2]);
        assert(descend(base, c, path, k) =~= descend(base, c, path, k - 1) + step);
        lemma_run_concat(fns, descend(base, c, path, k - 1), step, 0, fuel, st);
        let fk = level(a, path, st.locals, k - 1);
        let fn_ = level(a, path, st.locals, k);
        assert(lookup(s0.locals, tk) == Some(fk));
        let s1 = VmState { stack: s0.stack.push(fk), ..s0 };
        let s2 = VmState { stack: s1.stack.push(idx[k - 1]), ..s0 };
        assert forall|x: Seq<char>| !is_temp_name(x) implies lookup(s1.locals, x) == lookup(
            st.locals,
            x,
        ) by {
            lemma_not_among_levels(base, c, k - 1, x);
        }
        lemma_operand_step(path[k - 1], st.locals, s1);
        let s3 = VmState { stack: s0.stack.push(fn_), ..s0 };
        let s4 = VmState { locals: store_local(s0.locals, tn, fn_), ..st };
        assert(step =~= seq![i1] + seq![i2, i3, i4]);
        assert(seq![i2, i3, i4] =~= seq![i2] + seq![i3, i4]);
        assert(seq![i3, i4] =~= seq![i3] + seq![i4]);
        assert(seq![i4] =~= seq![i4] + Seq::<InstructionView>::empty());
        lemma_run_step(fns, i1, seq![i2, i3, i4], fuel, s0);
        assert(simple_step(i1, s0) == (Outcome::Normal, s1));
        lemma_run_step(fns, i2, seq![i3, i4], fuel, s1);
        assert(simple_step(i2, s1) == (Outcome::Normal, s2));
        lemma_run_step(fns, i3, seq![i4], fuel, s2);
        assert(s2.stack.subrange(0, s2.stack.len() - 2) =~= s0.stack);
        assert(simple_step(i3, s2) == (Outcome::Normal, s3));
        lemma_run_step(fns, i4, Seq::<InstructionView>::empty(), fuel, s3);
        assert(s3.stack.drop_last() =~= st.stack);
        assert(simple_step(i4, s3) == (Outcome::Normal, s4));
        assert(run(fns, Seq::<InstructionView>::empty(), 0, fuel, s4) == (Outcome::Normal, s4));
        assert forall|j: int| 0 <= j <= k implies lookup(
            s4.locals,
            #[trigger] temp_or_base(base, c, j),
        ) == Some(level(a, path, st.locals, j)) by {
            lemma_lookup_store(s0.locals, tn, fn_, temp_or_base(base, c, j));
        }
        assert forall|x: Seq<char>| !among_levels(base, c, k, x) implies lookup(s4.locals, x)
            == lookup(st.locals, x) by {
            lemma_lookup_store(s0.locals, tn, fn_, x);
            if among_levels(base, c, k - 1, x) {
                let j = choose|j: int| 1 <= j <= k - 1 && x == #[trigger] temp_or_base(base, c, j);
                assert(1 <= j <= k && x == temp_or_base(base, c, j));
            }
            assert(x != temp_or_base(base, c, k));
        }
    }
}

/// Running the stores of an indexed assignment back up from level `k`, where
/// the variable of level `k` holds `x`: the base ends up holding the array
/// with `x` stored at the first `k` indices, and nothing but the variables of
/// the levels changes.
pub proof fn lemma_ascend_runs(
    fns: Seq<CompiledFunctionView>,
    base: Seq<char>,
    c: nat,
    path: Seq<ExpressionView>,
    k: int,
    fuel: nat,
    st: VmState,
    l0: Seq<(Seq<char>, ValueView)>,
    a: ValueView,
    x: ValueView,
)
    requires
        0 <= k < path.len(),
        simple_indices(path, l0),
        k >= 1 ==> forall|y: Seq<char>|
            !is_temp_name(y) ==> lookup(st.locals, y) == lookup(l0, y),
        levels_apart(base, c, k),
        forall|j: int|
            0 <= j < k ==> lookup(st.locals, #[trigger] temp_or_base(base, c, j)) == Some(
                level(a, path, l0, j),
            ),
        lookup(st.locals, temp_or_base(base, c, k)) == Some(x),
        store_at(a, index_values(path, l0).take(k), x) is Ok,
    ensures
        ({
            let (o, s) = run(fns, ascend(base, c, path, k), 0, fuel, st);
            &&& o == Outcome::Normal
            &&& s.stack == st.stack
            &&& s.output == st.output
            &&& lookup(s.locals, base) == Some(store_at(a, index_values(path, l0).take(k), x)->Ok_0)
            &&& forall|y: Seq<char>|
                !among_levels(base, c, k - 1, y) && y != base ==> lookup(s.locals, y) == lookup(
                    st.locals,
                    y,
                )
        }),
    decreases k,
{
    let idx = index_values(path, l0);
    if k == 0 {
        assert(idx.take(0) =~= Seq::<ValueView>::empty());
        assert(run(fns, ascend(base, c, path, 0), 0, fuel, st) == (Outcome::Normal, st));
    } else {
        assert(idx.take(k).drop_last() =~= idx.take(k - 1));
        assert(idx.take(k).last() == idx[k - 1]);
        let fk = level(a, path, l0, k - 1);
        let x2 = store_index_value(fk, idx[k - 1], x)->Ok_0;
        assert(store_at(a, idx.take(k - 1), x2) == store_at(a, idx.take(k), x));
        let tk = temp_or_base(base, c, k - 1);
        let tn = temp_or_base(base, c, k);
        let i1 = InstructionView::LoadVariable(tk);
        let i2 = lower_expression(path[k - 1])[0];
        lemma_operand_step(path[k - 1], l0, st);
        assert(lower_expression(path[k - 1]) =~= seq![i2]);
        let i3 = InstructionView::LoadVariable(tn);
        let i4 = InstructionView::StoreIndex;
        let i5 = InstructionView::StoreVariable(tk);
        let rest = ascend(base, c, path, k - 1);
        assert(ascend(base, c, path, k) =~= seq![i1] + (seq![i2] + (seq![i3] + (seq![i4] + (
        seq![i5] + rest)))));
        assert(lookup(st.locals, tk) == Some(fk));
        let s1 = VmState { stack: st.stack.push(fk), ..st };
        let s2 = VmState { stack: s1.stack.push(idx[k - 1]), ..st };
        lemma_operand_step(path[k - 1], l0, s1);
        let s3 = VmState { stack: s2.stack.push(x), ..st };
        let s4 = VmState { stack: st.stack.push(x2), ..st };
        let s5 = VmState { locals: store_local(st.locals, tk, x2), ..st };
        lemma_run_step(fns, i1, seq![i2] + (seq![i3] + (seq![i4] + (seq![i5] + rest))), fuel, st);
        assert(simple_step(i1, st) == (Outcome::Normal, s1));
        lemma_run_step(fns, i2, seq![i3] + (seq![i4] + (seq![i5] + rest)), fuel, s1);
        assert(simple_step(i2, s1) == (Outcome::Normal, s2));
        lemma_run_step(fns, i3, seq![i4] + (seq![i5] + rest), fuel, s2);
        assert(simple_step(i3, s2) == (Outcome::Normal, s3));
        lemma_run_step(fns, i4, seq![i5] + rest, fuel, s3);
        assert(s3.stack.subrange(0, s3.stack.len() - 3) =~= st.stack);
        assert(simple_step(i4, s3) == (Outcome::Normal, s4));
        lemma_run_step(fns, i5, rest, fuel, s4);
        assert(s4.stack.drop_last() =~= st.stack);
        assert(simple_step(i5, s4) == (Outcome::Normal, s5));
        assert forall|j: int| 0 <= j < k - 1 implies lookup(
            s5.locals,
            #[trigger] temp_or_base(base, c, j),
        ) == Some(level(a, path, l0, j)) by {
            lemma_lookup_store(st.locals, tk, x2, temp_or_base(base, c, j));
        }
        lemma_lookup_store(st.locals, tk, x2, tk);
        if k - 1 >= 1 {
            assert(is_temp_name(tk));
            assert forall|y: Seq<char>| !is_temp_name(y) implies lookup(s5.locals, y) == lookup(
                l0,
                y,
            ) by {
                lemma_lookup_store(st.locals, tk, x2, y);
            }
        }
        lemma_ascend_runs(fns, base, c, path, k - 1, fuel, s5, l0, a, x2);
        assert forall|y: Seq<char>| !among_levels(base, c, k - 1, y) && y != base implies lookup(
            run(fns, rest, 0, fuel, s5).1.locals,
            y,
        ) == lookup(st.locals, y) by {
            lemma_lookup_store(st.locals, tk, x2, y);
            if among_levels(base, c, k - 2, y) {
                let j = choose|j: int| 1 <= j <= k - 2 && y == #[trigger] temp_or_base(base, c, j);
                assert(1 <= j <= k - 1 && y == temp_or_base(base, c, j));
            }
            if y == tk {
                assert(k - 1 >= 1);
                assert(among_levels(base, c, k - 1, y));
            }
        }
    }
}

/// The interpreter evaluates a simple operand to its value, printing
/// nothing.
pub proof fn lemma_eval_operand(
    rfns: Seq<FunctionView>,
    e: ExpressionView,
    fuel: nat,
    vars: Seq<(Seq<char>, ValueView)>,
    out: Seq<char>,
)
    requires
        simple_operand(e, vars),
    ensures
        eval(rfns, e, fuel, vars, out) == (Ok::<ValueView, Seq<char>>(operand_value(e, vars)), out),
{
}

/// Evaluating a chain of indexings of a variable by simple operands gives
/// the element at their values.
pub proof fn lemma_eval_chain(
    rfns: Seq<FunctionView>,
    t: ExpressionView,
    fuel: nat,
    vars: Seq<(Seq<char>, ValueView)>,
    out: Seq<char>,
    base: Seq<char>,
    a: ValueView,
)
    requires
        index_base(t) == ExpressionView::Variable(base),
        simple_indices(index_path(t), vars),
        lookup(vars, base) == Some(a),
    ensures
        eval(rfns, t, fuel, vars, out) == (element_at(a, index_values(index_path(t), vars)), out),
    decreases t,
{
    match t {
        ExpressionView::Index { target, index } => {
            let p = index_path(*target);
            assert(index_path(t) == p.push(*index));
            assert forall|k: int| 0 <= k < p.len() implies simple_operand(#[trigger] p[k], vars) by {
                assert(p[k] == index_path(t)[k]);
            }
            assert(index_path(t)[p.len() as int] == *index);
            lemma_eval_chain(rfns, *target, fuel, vars, out, base, a);
            assert(index_values(index_path(t), vars).drop_last() =~= index_values(p, vars));
            lemma_eval_operand(rfns, *index, fuel, vars, out);
            assert(index_values(index_path(t), vars).last() == operand_value(*index, vars));
        },
        _ => {
            assert(index_path(t) =~= Seq::<ExpressionView>::empty());
            assert(index_values(index_path(t), vars) =~= Seq::<ValueView>::empty());
        },
    }
}

/// The interpreter's assignment through a chain of indexings of a variable
/// by simple operands stores the updated array back into the variable.
pub proof fn lemma_assign_chain(
    rfns: Seq<FunctionView>,
    target: ExpressionView,
    w: ValueView,
    fuel: nat,
    env: crate::runtime::Env,
    base: Seq<char>,
    a: ValueView,
)
    requires
        target is Index,
        index_base(target) == ExpressionView::Variable(base),
        simple_indices(index_path(target), env.vars),
        lookup(env.vars, base) == Some(a),
    ensures
        crate::runtime::assign(rfns, target, w, fuel, env) == match store_at(
            a,
            index_values(index_path(target), env.vars),
            w,
        ) {
            Ok(u) => (
                Ok(()),
                crate::runtime::Env { vars: store_local(env.vars, base, u), output: env.output },
            ),
            Err(m) => (Err(m), env),
        },
    decreases target,
{
    if let ExpressionView::Index { target: t, index } = target {
        let p = index_path(*t);
        let idx = index_values(index_path(target), env.vars);
        assert(index_path(target) == p.push(*index));
        assert forall|k: int| 0 <= k < p.len() implies simple_operand(#[trigger] p[k], env.vars) by {
            assert(p[k] == index_path(target)[k]);
        }
        assert(index_path(target)[p.len() as int] == *index);
        assert(idx.drop_last() =~= index_values(p, env.vars));
        lemma_eval_chain(rfns, *t, fuel, env.vars, env.output, base, a);
        lemma_eval_operand(rfns, *index, fuel, env.vars, env.output);
        assert(idx.last() == operand_value(*index, env.vars));
        assert(crate::runtime::with_output(env, env.output) =~= env);
        match *t {
            ExpressionView::Variable(_) => {
                assert(p =~= Seq::<ExpressionView>::empty());
                assert(index_values(p, env.vars) =~= Seq::<ValueView>::empty());
                assert(idx.drop_last() =~= Seq::<ValueView>::empty());
                assert(element_at(a, idx.drop_last()) == Ok::<ValueView, Seq<char>>(a));
                if let Ok(updated) = store_index_value(a, idx.last(), w) {
                    assert(store_at(a, idx.drop_last(), updated) == Ok::<ValueView, Seq<char>>(
                        updated,
                    ));
                }
            },
            ExpressionView::Index { .. } => {
                assert(p.len() > 0);
                if let Ok(tv) = element_at(a, index_values(p, env.vars)) {
                    if let Ok(updated) = store_index_value(tv, idx.last(), w) {
                        lemma_assign_chain(rfns, *t, updated, fuel, env, base, a);
                    }
                }
            },
            _ => {},
        }
    }
}

/// The message of a load of an unbound variable.
pub open spec fn unknown_variable(name: Seq<char>) -> Seq<char> {
    "unknown variable '"@ + name + "'"@
}

/// Where the loads of an indexed assignment fail: at the base, when it is
/// unbound, or at the first index that does not reach an element.
pub proof fn lemma_descend_fails(
    fns: Seq<CompiledFunctionView>,
    base: Seq<char>,
    c: nat,
    path: Seq<ExpressionView>,
    k: int,
    fuel: nat,
    st: VmState,
)
    requires
        0 <= k < path.len(),
        simple_indices(path, st.locals),
        levels_apart(base, c, k),
    ensures
        ({
            let o = run(fns, descend(base, c, path, k), 0, fuel, st).0;
            match lookup(st.locals, base) {
                None => k >= 1 ==> o == Outcome::Failed(unknown_variable(base)),
                Some(a) => match element_at(a, index_values(path, st.locals).take(k)) {
                    Err(m) => o == Outcome::Failed(m),
                    Ok(_) => true,
                },
            }
        }),
    decreases k,
{
    let idx = index_values(path, st.locals);
    if k >= 1 {
        lemma_element_step(a_of(st.locals, base), idx, k - 1);
        lemma_descend_fails(fns, base, c, path, k - 1, fuel, st);
        let (o0, s0) = run(fns, descend(base, c, path, k - 1), 0, fuel, st);
        let tk = temp_or_base(base, c, k - 1);
        let tn = temp_or_base(base, c, k);
        let i1 = InstructionView::LoadVariable(tk);
        let i2 = lower_expression(path[k - 1])[0];
        lemma_operand_step(path[k - 1], st.locals, st);
        assert(lower_expression(path[k - 1]) =~= seq![i2]);
        let i3 = InstructionView::Index;
        let i4 = InstructionView::StoreVariable(tn);
        let step = seq![i1, i2, i3, i4];
        assert(descend(base, c, path, k) =~= descend(base, c, path, k - 1) + step);
        lemma_run_concat(fns, descend(base, c, path, k - 1), step, 0, fuel, st);
        assert(step =~= seq![i1] + seq![i2, i3, i4]);
        assert(seq![i2, i3, i4] =~= seq![i2] + seq![i3, i4]);
        assert(seq![i3, i4] =~= seq![i3] + seq![i4]);
        lemma_run_step(fns, i1, seq![i2, i3, i4], fuel, s0);
        match lookup(st.locals, base) {
            None => {
                if k == 1 {
                    assert(idx.take(0) =~= Seq::<ValueView>::empty());
                    assert(run(fns, descend(base, c, path, 0), 0, fuel, st) == (
                        Outcome::Normal,
                        st,
                    ));
                    assert(find_local(s0.locals, base) is None);
                }
            },
            Some(a) => {
                if element_at(a, idx.take(k - 1)) is Ok && element_at(a, idx.take(k)) is Err {
                    lemma_descend_runs(fns, base, c, path, k - 1, fuel, st, a);
                    let fk = level(a, path, st.locals, k - 1);
                    let s1 = VmState { stack: s0.stack.push(fk), ..s0 };
                    let s2 = VmState { stack: s1.stack.push(idx[k - 1]), ..s0 };
                    assert forall|x: Seq<char>| !is_temp_name(x) implies lookup(s1.locals, x)
                        == lookup(st.locals, x) by {
                        lemma_not_among_levels(base, c, k - 1, x);
                    }
                    lemma_operand_step(path[k - 1], st.locals, s1);
                    assert(simple_step(i1, s0) == (Outcome::Normal, s1));
                    lemma_run_step(fns, i2, seq![i3, i4], fuel, s1);
                    assert(simple_step(i2, s1) == (Outcome::Normal, s2));
                    lemma_run_step(fns, i3, seq![i4], fuel, s2);
                }
            },
        }
    }
}

/// The value bound to `name`, or any value where it is unbound.
pub open spec fn a_of(locals: Seq<(Seq<char>, ValueView)>, name: Seq<char>) -> ValueView {
    match lookup(locals, name) {
        Some(a) => a,
        None => ValueView::Int(0),
    }
}

/// Storing at a path whose element exists always succeeds.
pub proof fn lemma_store_at_ok(a: ValueView, p: Seq<ValueView>, x: ValueView)
    requires
        element_at(a, p) is Ok,
    ensures
        store_at(a, p, x) is Ok,
    decreases p.len(),
{
    if p.len() > 0 {
        let inner = element_at(a, p.drop_last())->Ok_0;
        let updated = store_index_value(inner, p.last(), x)->Ok_0;
        lemma_store_at_ok(a, p.drop_last(), updated);
    }
}

/// Running the code of an assignment into an array element, `base[i1]..[in]
/// = v` with simple operands for the indices and for `v`: the base
/// ends up holding the array with `v` stored at those indices, and no other
/// variable but the temporaries changes; or it fails where the store fails.
pub proof fn lemma_assignment_runs(
    fns: Seq<CompiledFunctionView>,
    target: ExpressionView,
    value: ExpressionView,
    c: nat,
    fuel: nat,
    st: VmState,
    base: Seq<char>,
)
    requires
        target is Index,
        index_base(target) == ExpressionView::Variable(base),
        simple_indices(index_path(target), st.locals),
        simple_operand(value, st.locals),
        levels_apart(base, c, index_path(target).len() - 1),
    ensures
        ({
            let path = index_path(target);
            let (o, s) = run(fns, lower_assignment(target, value, c).0, 0, fuel, st);
            match lookup(st.locals, base) {
                None => o == Outcome::Failed(unknown_variable(base)),
                Some(a) => match store_at(
                    a,
                    index_values(path, st.locals),
                    operand_value(value, st.locals),
                ) {
                    Err(m) => o == Outcome::Failed(m),
                    Ok(u) => {
                        &&& o == Outcome::Normal
                        &&& s.stack == st.stack
                        &&& s.output == st.output
                        &&& lookup(s.locals, base) == Some(u)
                        &&& forall|y: Seq<char>|
                            !among_levels(base, c, path.len() - 1, y) && y != base ==> lookup(
                                s.locals,
                                y,
                            ) == lookup(st.locals, y)
                    },
                },
            }
        }),
{
    let path = index_path(target);
    if let ExpressionView::Index { target: t, index } = target {
        assert(path == index_path(*t).push(*index));
    }
    let n = path.len() as int;
    assert(n >= 1);
    let idx = index_values(path, st.locals);
    let w = operand_value(value, st.locals);
    let last = temp_or_base(base, c, n - 1);
    let d = descend(base, c, path, n - 1);
    let asc = ascend(base, c, path, n - 1);
    let m1 = InstructionView::LoadVariable(last);
    let m2 = lower_expression(path[n - 1])[0];
    lemma_operand_step(path[n - 1], st.locals, st);
    assert(lower_expression(path[n - 1]) =~= seq![m2]);
    let m3 = lower_expression(value)[0];
    let m4 = InstructionView::StoreIndex;
    let m5 = InstructionView::StoreVariable(last);
    lemma_operand_step(value, st.locals, st);
    assert(lower_expression(value) =~= seq![m3]);
    let tail = seq![m1] + (seq![m2] + (seq![m3] + (seq![m4] + (seq![m5] + asc))));
    assert(lower_assignment(target, value, c).0 =~= d + tail);
    lemma_run_concat(fns, d, tail, 0, fuel, st);
    lemma_descend_fails(fns, base, c, path, n - 1, fuel, st);
    let (o0, s0) = run(fns, d, 0, fuel, st);
    lemma_run_step(fns, m1, seq![m2] + (seq![m3] + (seq![m4] + (seq![m5] + asc))), fuel, s0);
    assert(idx.take(n) =~= idx);
    assert(idx.drop_last() =~= idx.take(n - 1));
    match lookup(st.locals, base) {
        None => {
            if n == 1 {
                assert(run(fns, d, 0, fuel, st) == (Outcome::Normal, st));
                assert(find_local(s0.locals, base) is None);
            }
        },
        Some(a) => {
            if element_at(a, idx.take(n - 1)) is Ok {
                lemma_descend_runs(fns, base, c, path, n - 1, fuel, st, a);
                let f = level(a, path, st.locals, n - 1);
                assert forall|x: Seq<char>| !is_temp_name(x) implies lookup(s0.locals, x)
                    == lookup(st.locals, x) by {
                    lemma_not_among_levels(base, c, n - 1, x);
                }
                let s1 = VmState { stack: s0.stack.push(f), ..s0 };
                let s2 = VmState { stack: s1.stack.push(idx[n - 1]), ..s0 };
                lemma_operand_step(path[n - 1], st.locals, s1);
                let s3 = VmState { stack: s2.stack.push(w), ..s0 };
                assert(simple_step(m1, s0) == (Outcome::Normal, s1));
                lemma_run_step(fns, m2, seq![m3] + (seq![m4] + (seq![m5] + asc)), fuel, s1);
                assert(simple_step(m2, s1) == (Outcome::Normal, s2));
                lemma_operand_step(value, st.locals, s2);
                lemma_run_step(fns, m3, seq![m4] + (seq![m5] + asc), fuel, s2);
                assert(simple_step(m3, s2) == (Outcome::Normal, s3));
                lemma_run_step(fns, m4, seq![m5] + asc, fuel, s3);
                assert(s3.stack.subrange(0, s3.stack.len() - 3) =~= st.stack);
                if let Ok(x) = store_index_value(f, idx[n - 1], w) {
                    let s4 = VmState { stack: st.stack.push(x), ..s0 };
                    let s5 = VmState { locals: store_local(s0.locals, last, x), ..st };
                    assert(simple_step(m4, s3) == (Outcome::Normal, s4));
                    lemma_run_step(fns, m5, asc, fuel, s4);
                    assert(s4.stack.drop_last() =~= st.stack);
                    assert(simple_step(m5, s4) == (Outcome::Normal, s5));
                    lemma_store_at_ok(a, idx.take(n - 1), x);
                    assert(store_at(a, idx.take(n - 1), x) == store_at(a, idx, w));
                    assert forall|j: int| 0 <= j < n - 1 implies lookup(
                        s5.locals,
                        #[trigger] temp_or_base(base, c, j),
                    ) == Some(level(a, path, st.locals, j)) by {
                        lemma_lookup_store(s0.locals, last, x, temp_or_base(base, c, j));
                    }
                    lemma_lookup_store(s0.locals, last, x, last);
                    if n - 1 >= 1 {
                        assert(is_temp_name(last));
                        assert forall|y: Seq<char>| !is_temp_name(y) implies lookup(s5.locals, y)
                            == lookup(st.locals, y) by {
                            lemma_lookup_store(s0.locals, last, x, y);
                        }
                    }
                    lemma_ascend_runs(fns, base, c, path, n - 1, fuel, s5, st.locals, a, x);
                    let s6 = run(fns, asc, 0, fuel, s5).1;
                    assert forall|y: Seq<char>|
                        !among_levels(base, c, n - 1, y) && y != base implies lookup(s6.locals, y)
                        == lookup(st.locals, y) by {
                        lemma_lookup_store(s0.locals, last, x, y);
                        if among_levels(base, c, n - 2, y) {
                            let j = choose|j: int|
                                1 <= j <= n - 2 && y == #[trigger] temp_or_base(base, c, j);
                            assert(1 <= j <= n - 1 && y == temp_or_base(base, c, j));
                        }
                        if y == last {
                            assert(among_levels(base, c, n - 1, y));
                        }
                    }
                }
            }
        },
    }
}

/// Evaluating a chain of indexings of an unbound variable fails at the
/// variable.
pub proof fn lemma_eval_chain_unbound(
    rfns: Seq<FunctionView>,
    t: ExpressionView,
    fuel: nat,
    vars: Seq<(Seq<char>, ValueView)>,
    out: Seq<char>,
    base: Seq<char>,
)
    requires
        index_base(t) == ExpressionView::Variable(base),
        lookup(vars, base) is None,
    ensures
        eval(rfns, t, fuel, vars, out) == (
            Err::<ValueView, Seq<char>>(unknown_variable(base)),
            out,
        ),
    decreases t,
{
    if let ExpressionView::Index { target, .. } = t {
        lemma_eval_chain_unbound(rfns, *target, fuel, vars, out, base);
    }
}

/// An assignment into an array element, `base[i1]..[in] = v`, where each
/// index and `v` is a literal or a bound variable, stores in the
/// interpreter the array with `v` put at those indices back into `base`, or
/// fails as the first index that reaches no element fails (or at `base`,
/// where it is unbound); and
/// running its compiled code on the machine ends the same way: the same
/// failure, or every variable but the compiler's temporaries holding what the
/// interpreter left in it, with the operand stack and the output unchanged.
pub proof fn law_element_assignment_agrees(
    rfns: Seq<FunctionView>,
    target: ExpressionView,
    value: ExpressionView,
    counter: nat,
    fuel: nat,
    st: VmState,
    base: Seq<char>,
)
    requires
        target is Index,
        index_base(target) == ExpressionView::Variable(base),
        !is_temp_name(base),
        simple_indices(index_path(target), st.locals),
        simple_operand(value, st.locals),
        counter_after(counter, (index_path(target).len() - 1) as nat) < usize::MAX,
    ensures
        ({
            let statement = StatementView::Assign { target, value };
            let idx = index_values(index_path(target), st.locals);
            let w = operand_value(value, st.locals);
            let (r, env) = exec_stmt(rfns, statement, fuel, env_of(st));
            let (o, after) = run(
                compiled(rfns),
                lower_statement(statement, counter).0,
                0,
                fuel,
                st,
            );
            &&& r == match lookup(st.locals, base) {
                None => Err(unknown_variable(base)),
                Some(a) => match store_at(a, idx, w) {
                    Ok(_) => Ok(Control::Normal),
                    Err(m) => Err(m),
                },
            }
            &&& env.output == st.output
            &&& r is Ok ==> env.vars == store_local(
                st.locals,
                base,
                store_at(a_of(st.locals, base), idx, w)->Ok_0,
            )
            &&& match r {
                Ok(_) => {
                    &&& o == Outcome::Normal
                    &&& after.stack == st.stack
                    &&& after.output == env.output
                    &&& forall|y: Seq<char>|
                        !is_temp_name(y) ==> lookup(after.locals, y) == lookup(env.vars, y)
                },
                Err(m) => o == Outcome::Failed(m),
            }
        }),
{
    let path = index_path(target);
    if let ExpressionView::Index { target: t, index } = target {
        assert(path == index_path(*t).push(*index));
    }
    let n = path.len() as int;
    let idx = index_values(path, st.locals);
    let w = operand_value(value, st.locals);
    let env = env_of(st);
    lemma_eval_operand(rfns, value, fuel, env.vars, env.output);
    assert(with_output(env, env.output) =~= env);
    lemma_levels_apart(base, counter, (n - 1) as nat);
    lemma_assignment_runs(compiled(rfns), target, value, counter, fuel, st, base);
    match lookup(st.locals, base) {
        None => {
            if let ExpressionView::Index { target: t, .. } = target {
                lemma_eval_chain_unbound(rfns, *t, fuel, env.vars, env.output, base);
                assert(crate::runtime::assign(rfns, target, w, fuel, env) == (
                    Err::<(), Seq<char>>(unknown_variable(base)),
                    env,
                ));
            }
        },
        Some(a) => {
            lemma_assign_chain(rfns, target, w, fuel, env, base, a);
            if let Err(m) = store_at(a, idx, w) {
                assert(crate::runtime::assign(rfns, target, w, fuel, env) == (
                    Err::<(), Seq<char>>(m),
                    env,
                ));
                assert(exec_stmt(rfns, StatementView::Assign { target, value }, fuel, env) == (
                    Err::<Control, Seq<char>>(m),
                    env,
                ));
            }
            if let Ok(u) = store_at(a, idx, w) {
                let (o, after) = run(
                    compiled(rfns),
                    lower_assignment(target, value, counter).0,
                    0,
                    fuel,
                    st,
                );
                assert forall|y: Seq<char>| !is_temp_name(y) implies lookup(after.locals, y)
                    == lookup(store_local(st.locals, base, u), y) by {
                    lemma_lookup_store(st.locals, base, u, y);
                    if among_levels(base, counter, n - 1, y) {
                        let j = choose|j: int|
                            1 <= j <= n - 1 && y == #[trigger] temp_or_base(base, counter, j);
                        assert(y == temp_name(counter_after(counter, (j - 1) as nat)));
                    }
                }
            }
        },
    }
}

/// Storing at two indices replaces the element of the row that the first
/// index reaches, and stores that row back at the first index.
pub proof fn law_store_at_two_levels(a: ValueView, i: ValueView, j: ValueView, v: ValueView)
    ensures
        store_at(a, seq![i, j], v) == match index_value(a, i) {
            Ok(row) => match store_index_value(row, j, v) {
                Ok(new_row) => store_index_value(a, i, new_row),
                Err(m) => Err(m),
            },
            Err(m) => Err(m),
        },
{
    assert(seq![i, j].drop_last() =~= seq![i]);
    assert(seq![i].drop_last() =~= Seq::<ValueView>::empty());
    assert(seq![i].last() == i);
    assert(seq![i, j].last() == j);
    assert(element_at(a, Seq::<ValueView>::empty()) == Ok::<ValueView, Seq<char>>(a));
    assert(element_at(a, seq![i]) == index_value(a, i));
    if let Ok(row) = index_value(a, i) {
        if let Ok(new_row) = store_index_value(row, j, v) {
            if let Ok(top) = store_index_value(a, i, new_row) {
                assert(store_at(a, Seq::<ValueView>::empty(), top) == Ok::<ValueView, Seq<char>>(top));
            }
            assert(store_at(a, seq![i], new_row) == store_index_value(
                a,
                i,
                new_row,
            ));
        }
    }
}

} // verus!
