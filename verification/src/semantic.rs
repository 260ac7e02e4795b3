//! Semantic analysis: type checking of expressions and statements, the
//! `main` requirement, and the placement of `break` and `continue`.
use vstd::prelude::*;
use crate::ast::{
    BinaryOperator, Call, CallView, Expression, ExpressionView, Function, FunctionView, ParameterView, Program, ProgramView, Statement, StatementView, Type, UnaryOperator,
    expression_view, expressions_view, statement_view, statements_view, parameters_view, function_view, functions_view, lemma_expressions_view, lemma_statements_view,
    same_type, same_optional_type, copy_type, copy_optional_type,
};
use crate::text::{decimal, usize_to_chars, string_from};

verus! {

#[derive(Debug, Clone, PartialEq, Eq)]
pub struct SemanticError {
    pub message: String,
}

/// The variables in scope, oldest first; a later binding hides an earlier one.
pub type Scope = Seq<(Seq<char>, Option<Type>)>;

/// What a failed check reports.
pub type Checked<T> = Result<T, Seq<char>>;

pub open spec fn lookup(scope: Scope, name: Seq<char>) -> Option<Option<Type>>
    decreases scope.len(),
{
    if scope.len() == 0 {
        None
    } else if scope.last().0 == name {
        Some(scope.last().1)
    } else {
        lookup(scope.drop_last(), name)
    }
}

/// The index of the first function called `name`.
pub open spec fn find_function(fns: Seq<FunctionView>, name: Seq<char>) -> Option<int>
    decreases fns.len(),
{
    if fns.len() == 0 {
        None
    } else if fns[0].name == name {
        Some(0)
    } else {
        match find_function(fns.drop_first(), name) {
            Some(i) => Some(i + 1),
            None => None,
        }
    }
}

pub open spec fn quoted(prefix: Seq<char>, name: Seq<char>, suffix: Seq<char>) -> Seq<char> {
    prefix + name + suffix
}

/// The message `{operation} require Some(T)` for operands that are not `T`.
pub open spec fn require_message(operation: Seq<char>, expected: Type) -> Seq<char> {
    operation + (if expected == Type::Bool {
        " require Some(Bool)"@
    } else {
        " require Some(Int)"@
    })
}

/// Both operand types, where known, must be `expected`.
pub open spec fn spec_require_types(
    left: Option<Type>,
    right: Option<Type>,
    expected: Type,
    operation: Seq<char>,
) -> Checked<()> {
    if (left is Some && left != Some(expected)) || (right is Some && right != Some(expected)) {
        Err(require_message(operation, expected))
    } else {
        Ok(())
    }
}

/// Operand types of arithmetic and comparisons: `Float` when the known types
/// are `Float` (and at least one is known), otherwise both must be `Int`.
pub open spec fn numeric_operands(
    left: Option<Type>,
    right: Option<Type>,
    operation: Seq<char>,
) -> Checked<Type> {
    if (left == Some(Type::Float) || left is None) && (right == Some(Type::Float) || right is None)
        && (left is Some || right is Some) {
        Ok(Type::Float)
    } else {
        match spec_require_types(left, right, Type::Int, operation) {
            Ok(_) => Ok(Type::Int),
            Err(e) => Err(e),
        }
    }
}

pub open spec fn binary_type(
    op: BinaryOperator,
    left: Option<Type>,
    right: Option<Type>,
) -> Checked<Option<Type>> {
    match op {
        BinaryOperator::Add => if left == right && (left == Some(Type::Int) || left == Some(
            Type::Float,
        ) || left == Some(Type::String)) {
            Ok(left)
        } else if left is None && right is None {
            Ok(Some(Type::Int))
        } else {
            Err("+ requires Int or String operands"@)
        },
        BinaryOperator::Subtract | BinaryOperator::Multiply | BinaryOperator::Divide
        | BinaryOperator::Modulo => match numeric_operands(left, right, "arithmetic operators"@) {
            Ok(t) => Ok(Some(t)),
            Err(e) => Err(e),
        },
        BinaryOperator::Greater | BinaryOperator::GreaterEqual | BinaryOperator::Less
        | BinaryOperator::LessEqual => match numeric_operands(
            left,
            right,
            "comparison operators"@,
        ) {
            Ok(_) => Ok(Some(Type::Bool)),
            Err(e) => Err(e),
        },
        BinaryOperator::Equal | BinaryOperator::NotEqual => if left is Some && right is Some
            && left != right {
            Err("== requires matching types"@)
        } else {
            Ok(Some(Type::Bool))
        },
        BinaryOperator::And | BinaryOperator::Or => match spec_require_types(
            left,
            right,
            Type::Bool,
            "logical operators"@,
        ) {
            Ok(_) => Ok(Some(Type::Bool)),
            Err(e) => Err(e),
        },
    }
}

pub open spec fn unary_type(op: UnaryOperator, operand: Option<Type>) -> Checked<Option<Type>> {
    match op {
        UnaryOperator::Not => if operand is Some && operand != Some(Type::Bool) {
            Err("! requires Bool"@)
        } else {
            Ok(Some(Type::Bool))
        },
        UnaryOperator::Negate => if operand == Some(Type::Float) {
            Ok(Some(Type::Float))
        } else if operand is Some && operand != Some(Type::Int) {
            Err("unary '-' requires Int"@)
        } else {
            Ok(Some(Type::Int))
        },
    }
}

pub open spec fn index_type(target: Option<Type>, index: Option<Type>) -> Checked<Option<Type>> {
    if index is Some && index != Some(Type::Int) {
        Err("array index requires Int"@)
    } else {
        match target {
            Some(Type::Array(inner)) => Ok(Some(*inner)),
            _ => Err("index requires an array"@),
        }
    }
}

pub open spec fn arity_message(name: Seq<char>, count: nat) -> Seq<char> {
    "function '"@ + name + "' expects "@ + decimal(count) + " arguments"@
}

/// The type of an expression in `scope`: `Some(t)` when known, `None` when it
/// depends on an unannotated parameter or variable.
pub open spec fn expression_type(e: ExpressionView, scope: Scope, fns: Seq<FunctionView>) -> Checked<
    Option<Type>,
>
    decreases e,
{
    match e {
        ExpressionView::String(_) => Ok(Some(Type::String)),
        ExpressionView::Integer(_) => Ok(Some(Type::Int)),
        ExpressionView::Float(_) => Ok(Some(Type::Float)),
        ExpressionView::Boolean(_) => Ok(Some(Type::Bool)),
        ExpressionView::Array(elements) => match elements_type(elements, scope, fns, None) {
            Ok(Some(t)) => Ok(Some(Type::Array(Box::new(t)))),
            Ok(None) => Ok(None),
            Err(m) => Err(m),
        },
        ExpressionView::Variable(name) => match lookup(scope, name) {
            Some(t) => Ok(t),
            None => Err(quoted("unknown variable '"@, name, "'"@)),
        },
        ExpressionView::Binary { left, operator, right } => match expression_type(
            *left,
            scope,
            fns,
        ) {
            Ok(lt) => match expression_type(*right, scope, fns) {
                Ok(rt) => binary_type(operator, lt, rt),
                Err(m) => Err(m),
            },
            Err(m) => Err(m),
        },
        ExpressionView::Unary { operator, operand } => match expression_type(*operand, scope, fns) {
            Ok(t) => unary_type(operator, t),
            Err(m) => Err(m),
        },
        ExpressionView::Index { target, index } => match expression_type(*target, scope, fns) {
            Ok(tt) => match expression_type(*index, scope, fns) {
                Ok(it) => index_type(tt, it),
                Err(m) => Err(m),
            },
            Err(m) => Err(m),
        },
        ExpressionView::Call(c) => call_type(c, scope, fns),
    }
}

/// The common type of array elements, given the type inferred so far.
pub open spec fn elements_type(
    es: Seq<ExpressionView>,
    scope: Scope,
    fns: Seq<FunctionView>,
    inferred: Option<Type>,
) -> Checked<Option<Type>>
    decreases es,
{
    if es.len() == 0 {
        Ok(inferred)
    } else {
        match expression_type(es[0], scope, fns) {
            Ok(Some(t)) => match inferred {
                Some(current) => if current != t {
                    Err("array elements must share the same type"@)
                } else {
                    elements_type(es.drop_first(), scope, fns, inferred)
                },
                None => elements_type(es.drop_first(), scope, fns, Some(t)),
            },
            Ok(None) => elements_type(es.drop_first(), scope, fns, inferred),
            Err(m) => Err(m),
        }
    }
}

pub open spec fn call_type(c: CallView, scope: Scope, fns: Seq<FunctionView>) -> Checked<
    Option<Type>,
>
    decreases c,
{
    match find_function(fns, c.name) {
        None => Err(quoted("unknown function '"@, c.name, "'"@)),
        Some(i) => if c.arguments.len() != fns[i].parameters.len() {
            Err(arity_message(c.name, fns[i].parameters.len()))
        } else {
            match arguments_checked(c.arguments, fns[i].parameters, scope, fns) {
                Ok(_) => Ok(fns[i].return_type),
                Err(m) => Err(m),
            }
        },
    }
}

/// Each argument checks, and its known type matches the parameter's.
pub open spec fn arguments_checked(
    args: Seq<ExpressionView>,
    params: Seq<ParameterView>,
    scope: Scope,
    fns: Seq<FunctionView>,
) -> Checked<()>
    decreases args,
{
    if args.len() == 0 || params.len() == 0 {
        Ok(())
    } else {
        match expression_type(args[0], scope, fns) {
            Ok(t) => if params[0].declared_type is Some && t is Some && params[0].declared_type
                != t {
                Err(quoted("argument for '"@, params[0].name, "' has incompatible type"@))
            } else {
                arguments_checked(args.drop_first(), params.drop_first(), scope, fns)
            },
            Err(m) => Err(m),
        }
    }
}

pub open spec fn require_bool(t: Option<Type>) -> Checked<()> {
    if t is Some && t != Some(Type::Bool) {
        Err("condition requires Bool"@)
    } else {
        Ok(())
    }
}

pub open spec fn is_print(c: CallView) -> bool {
    c.name =~= seq!['p', 'r', 'i', 'n', 't'] && c.arguments.len() == 1
}

/// Checks one statement; the result is the scope for the statements after it.
pub open spec fn statement_checked(
    s: StatementView,
    scope: Scope,
    fns: Seq<FunctionView>,
    return_type: Option<Type>,
    in_loop: bool,
) -> Checked<Scope>
    decreases s,
{
    match s {
        StatementView::Let { name, declared_type, value } => match expression_type(
            value,
            scope,
            fns,
        ) {
            Ok(vt) => match declared_type {
                Some(d) => if vt is Some && vt != Some(d) {
                    Err(quoted("variable '"@, name, "' has incompatible type"@))
                } else {
                    Ok(scope.push((name, Some(d))))
                },
                None => Ok(scope.push((name, vt))),
            },
            Err(m) => Err(m),
        },
        StatementView::Return(value) => match expression_type(value, scope, fns) {
            Ok(vt) => if return_type is Some && vt is Some && return_type != vt {
                Err("return value has incompatible type"@)
            } else {
                Ok(scope)
            },
            Err(m) => Err(m),
        },
        StatementView::If { condition, then_body, else_body } => match expression_type(
            condition,
            scope,
            fns,
        ) {
            Ok(ct) => match require_bool(ct) {
                Ok(_) => match block_checked(then_body, scope, fns, return_type, in_loop) {
                    Ok(_) => match block_checked(else_body, scope, fns, return_type, in_loop) {
                        Ok(_) => Ok(scope),
                        Err(m) => Err(m),
                    },
                    Err(m) => Err(m),
                },
                Err(m) => Err(m),
            },
            Err(m) => Err(m),
        },
        StatementView::While { condition, body } => match expression_type(condition, scope, fns) {
            Ok(ct) => match require_bool(ct) {
                Ok(_) => match block_checked(body, scope, fns, return_type, true) {
                    Ok(_) => Ok(scope),
                    Err(m) => Err(m),
                },
                Err(m) => Err(m),
            },
            Err(m) => Err(m),
        },
        StatementView::For { initializer, condition, update, body } => {
            let inner = match initializer {
                Some(init) => statement_checked(*init, scope, fns, return_type, in_loop),
                None => Ok(scope),
            };
            match inner {
                Ok(loop_scope) => match expression_type(condition, loop_scope, fns) {
                    Ok(ct) => match require_bool(ct) {
                        Ok(_) => {
                            let updated = match update {
                                Some(u) => statement_checked(
                                    *u,
                                    loop_scope,
                                    fns,
                                    return_type,
                                    in_loop,
                                ),
                                None => Ok(loop_scope),
                            };
                            match updated {
                                Ok(_) => match block_checked(
                                    body,
                                    loop_scope,
                                    fns,
                                    return_type,
                                    true,
                                ) {
                                    Ok(_) => Ok(scope),
                                    Err(m) => Err(m),
                                },
                                Err(m) => Err(m),
                            }
                        },
                        Err(m) => Err(m),
                    },
                    Err(m) => Err(m),
                },
                Err(m) => Err(m),
            }
        },
        StatementView::Assign { target, value } => match expression_type(target, scope, fns) {
            Ok(tt) => match expression_type(value, scope, fns) {
                Ok(vt) => if tt is Some && vt is Some && tt != vt {
                    Err("assignment has incompatible type"@)
                } else {
                    Ok(scope)
                },
                Err(m) => Err(m),
            },
            Err(m) => Err(m),
        },
        StatementView::Call(c) => if is_print(c) {
            match expression_type(c.arguments[0], scope, fns) {
                Ok(_) => Ok(scope),
                Err(m) => Err(m),
            }
        } else {
            match call_type(c, scope, fns) {
                Ok(_) => Ok(scope),
                Err(m) => Err(m),
            }
        },
        StatementView::Break => if in_loop {
            Ok(scope)
        } else {
            Err("'break' outside of a loop"@)
        },
        StatementView::Continue => if in_loop {
            Ok(scope)
        } else {
            Err("'continue' outside of a loop"@)
        },
    }
}

/// Checks the statements of a block in order, each in the scope left by the
/// ones before it.
pub open spec fn block_checked(
    ss: Seq<StatementView>,
    scope: Scope,
    fns: Seq<FunctionView>,
    return_type: Option<Type>,
    in_loop: bool,
) -> Checked<()>
    decreases ss,
{
    if ss.len() == 0 {
        Ok(())
    } else {
        match statement_checked(ss[0], scope, fns, return_type, in_loop) {
            Ok(next) => block_checked(ss.drop_first(), next, fns, return_type, in_loop),
            Err(m) => Err(m),
        }
    }
}

pub open spec fn parameter_scope(params: Seq<ParameterView>) -> Scope {
    params.map_values(|p: ParameterView| (p.name, p.declared_type))
}

pub open spec fn function_checked(f: FunctionView, fns: Seq<FunctionView>) -> Checked<()> {
    block_checked(f.body, parameter_scope(f.parameters), fns, f.return_type, false)
}

/// The functions from index `i` on, checked in order.
pub open spec fn functions_checked(fns: Seq<FunctionView>, i: int) -> Checked<()>
    decreases fns.len() - i,
{
    if i < 0 || i >= fns.len() {
        Ok(())
    } else {
        match function_checked(fns[i], fns) {
            Ok(_) => functions_checked(fns, i + 1),
            Err(m) => Err(m),
        }
    }
}

/// The verdict of semantic analysis on a program.
pub open spec fn spec_analyze(p: ProgramView) -> Checked<()> {
    match find_function(p.functions, "main"@) {
        None => Err("program must define 'main'"@),
        Some(_) => functions_checked(p.functions, 0),
    }
}

// ----- executable analysis -----
pub open spec fn scope_view(scope: Seq<(String, Option<Type>)>) -> Scope {
    scope.map_values(|b: (String, Option<Type>)| (b.0@, b.1))
}

/// Whether an executable check agrees with its specification.
pub open spec fn checks<T>(r: Result<T, SemanticError>, s: Checked<T>) -> bool {
    match (r, s) {
        (Ok(x), Ok(y)) => x == y,
        (Err(e), Err(m)) => e.message@ == m,
        _ => false,
    }
}

fn error_with(prefix: &str, name: &String, suffix: &str) -> (e: SemanticError)
    ensures
        e.message@ == quoted(prefix@, name@, suffix@),
{
    let mut message = prefix.to_owned();
    message.append(name.as_str());
    message.append(suffix);
    SemanticError { message }
}

fn error(message: &str) -> (e: SemanticError)
    ensures
        e.message@ == message@,
{
    SemanticError { message: message.to_owned() }
}

fn copy_scope(scope: &Vec<(String, Option<Type>)>) -> (r: Vec<(String, Option<Type>)>)
    ensures
        scope_view(r@) == scope_view(scope@),
{
    let mut r: Vec<(String, Option<Type>)> = Vec::new();
    let mut i: usize = 0;
    while i < scope.len()
        invariant
            i <= scope@.len(),
            scope_view(r@) == scope_view(scope@).subrange(0, i as int),
        decreases scope@.len() - i,
    {
        let name = scope[i].0.clone();
        let t = copy_optional_type(&scope[i].1);
        let ghost before = r@;
        r.push((name, t));
        proof {
            assert(scope_view(r@) =~= scope_view(before).push((name@, t)));
            assert(scope_view(scope@).subrange(0, i + 1) =~= scope_view(scope@).subrange(
                0,
                i as int,
            ).push(scope_view(scope@)[i as int]));
        }
        i = i + 1;
    }
    proof {
        assert(scope_view(scope@).subrange(0, scope@.len() as int) =~= scope_view(scope@));
    }
    r
}

fn lookup_variable(scope: &Vec<(String, Option<Type>)>, name: &String) -> (r: Option<Option<Type>>)
    ensures
        r == lookup(scope_view(scope@), name@),
{
    let mut i = scope.len();
    proof {
        assert(scope_view(scope@).subrange(0, i as int) =~= scope_view(scope@));
    }
    while i > 0
        invariant
            i <= scope@.len(),
            lookup(scope_view(scope@), name@) == lookup(
                scope_view(scope@).subrange(0, i as int),
                name@,
            ),
        decreases i,
    {
        let ghost prefix = scope_view(scope@).subrange(0, i as int);
        proof {
            assert(prefix.drop_last() =~= scope_view(scope@).subrange(0, i - 1));
        }
        if scope[i - 1].0 == *name {
            return Some(copy_optional_type(&scope[i - 1].1));
        }
        i = i - 1;
    }
    None
}

pub proof fn lemma_find_function(fns: Seq<FunctionView>, name: Seq<char>)
    ensures
        match find_function(fns, name) {
            Some(i) => 0 <= i < fns.len() && fns[i].name == name && forall|j: int|
                0 <= j < i ==> #[trigger] fns[j].name != name,
            None => forall|j: int| 0 <= j < fns.len() ==> #[trigger] fns[j].name != name,
        },
    decreases fns.len(),
{
    if fns.len() > 0 {
        lemma_find_function(fns.drop_first(), name);
        if fns[0].name != name {
            match find_function(fns.drop_first(), name) {
                Some(i) => {
                    assert forall|j: int| 0 <= j < i + 1 implies #[trigger] fns[j].name != name by {
                        if j > 0 {
                            assert(fns[j] == fns.drop_first()[j - 1]);
                        }
                    }
                },
                None => {
                    assert forall|j: int| 0 <= j < fns.len() implies #[trigger] fns[j].name
                        != name by {
                        if j > 0 {
                            assert(fns[j] == fns.drop_first()[j - 1]);
                        }
                    }
                },
            }
        }
    }
}

pub proof fn lemma_find_function_unique(fns: Seq<FunctionView>, name: Seq<char>, i: int)
    requires
        0 <= i < fns.len(),
        fns[i].name == name,
        forall|j: int| 0 <= j < i ==> #[trigger] fns[j].name != name,
    ensures
        find_function(fns, name) == Some(i),
{
    lemma_find_function(fns, name);
    match find_function(fns, name) {
        Some(k) => {
            if k < i {
                assert(fns[k].name != name);
            } else if k > i {
                assert(fns[i].name != name);
            }
        },
        None => {
            assert(fns[i].name != name);
        },
    }
}

pub(crate) fn find_function_index(fns: &Vec<Function>, name: &String) -> (r: Option<usize>)
    ensures
        match r {
            Some(i) => find_function(functions_view(fns@), name@) == Some(i as int),
            None => find_function(functions_view(fns@), name@) is None,
        },
{
    let ghost fv = functions_view(fns@);
    let mut i: usize = 0;
    while i < fns.len()
        invariant
            i <= fns@.len(),
            fv == functions_view(fns@),
            forall|j: int| 0 <= j < i ==> #[trigger] fv[j].name != name@,
        decreases fns@.len() - i,
    {
        if fns[i].name == *name {
            proof {
                lemma_find_function_unique(fv, name@, i as int);
            }
            return Some(i);
        }
        i = i + 1;
    }
    proof {
        lemma_find_function(fv, name@);
    }
    None
}

/// Whether `s` is the word `print`.
pub(crate) fn is_print_name(s: &String) -> (r: bool)
    ensures
        r == (s@ =~= seq!['p', 'r', 'i', 'n', 't']),
{
    let cs = crate::text::chars_of(s.as_str());
    cs.len() == 5 && cs[0] == 'p' && cs[1] == 'r' && cs[2] == 'i' && cs[3] == 'n' && cs[4] == 't'
}

fn require_types(left: &Option<Type>, right: &Option<Type>, expected: Type, operation: &str) -> (r:
    Result<(), SemanticError>)
    requires
        expected == Type::Int || expected == Type::Bool,
    ensures
        checks(r, spec_require_types(*left, *right, expected, operation@)),
{
    let e = Some(copy_type(&expected));
    let left_bad = match left {
        Some(_) => !same_optional_type(left, &e),
        None => false,
    };
    let right_bad = match right {
        Some(_) => !same_optional_type(right, &e),
        None => false,
    };
    if left_bad || right_bad {
        let mut message = operation.to_owned();
        match expected {
            Type::Bool => message.append(" require Some(Bool)"),
            _ => message.append(" require Some(Int)"),
        }
        Err(SemanticError { message })
    } else {
        Ok(())
    }
}

fn is_float_or_unknown(t: &Option<Type>) -> (r: bool)
    ensures
        r == (*t == Some(Type::Float) || t is None),
{
    match t {
        Some(Type::Float) => true,
        None => true,
        _ => false,
    }
}

fn numeric(left: &Option<Type>, right: &Option<Type>, operation: &str) -> (r: Result<
    Type,
    SemanticError,
>)
    ensures
        checks(r, numeric_operands(*left, *right, operation@)),
{
    if is_float_or_unknown(left) && is_float_or_unknown(right) && (left.is_some()
        || right.is_some()) {
        Ok(Type::Float)
    } else {
        require_types(left, right, Type::Int, operation)?;
        Ok(Type::Int)
    }
}

fn check_binary(op: BinaryOperator, left: Option<Type>, right: Option<Type>) -> (r: Result<
    Option<Type>,
    SemanticError,
>)
    ensures
        checks(r, binary_type(op, left, right)),
{
    match op {
        BinaryOperator::Add => {
            let supported = match &left {
                Some(Type::Int) => true,
                Some(Type::Float) => true,
                Some(Type::String) => true,
                _ => false,
            };
            if same_optional_type(&left, &right) && supported {
                Ok(left)
            } else if left.is_none() && right.is_none() {
                Ok(Some(Type::Int))
            } else {
                Err(error("+ requires Int or String operands"))
            }
        },
        BinaryOperator::Subtract | BinaryOperator::Multiply | BinaryOperator::Divide
        | BinaryOperator::Modulo => {
            let t = numeric(&left, &right, "arithmetic operators")?;
            Ok(Some(t))
        },
        BinaryOperator::Greater | BinaryOperator::GreaterEqual | BinaryOperator::Less
        | BinaryOperator::LessEqual => {
            numeric(&left, &right, "comparison operators")?;
            Ok(Some(Type::Bool))
        },
        BinaryOperator::Equal | BinaryOperator::NotEqual => {
            if left.is_some() && right.is_some() && !same_optional_type(&left, &right) {
                Err(error("== requires matching types"))
            } else {
                Ok(Some(Type::Bool))
            }
        },
        BinaryOperator::And | BinaryOperator::Or => {
            require_types(&left, &right, Type::Bool, "logical operators")?;
            Ok(Some(Type::Bool))
        },
    }
}

fn check_unary(op: UnaryOperator, operand: Option<Type>) -> (r: Result<
    Option<Type>,
    SemanticError,
>)
    ensures
        checks(r, unary_type(op, operand)),
{
    match op {
        UnaryOperator::Not => match operand {
            Some(Type::Bool) | None => Ok(Some(Type::Bool)),
            _ => Err(error("! requires Bool")),
        },
        UnaryOperator::Negate => match operand {
            Some(Type::Float) => Ok(Some(Type::Float)),
            Some(Type::Int) | None => Ok(Some(Type::Int)),
            _ => Err(error("unary '-' requires Int")),
        },
    }
}

fn check_index(target: Option<Type>, index: Option<Type>) -> (r: Result<
    Option<Type>,
    SemanticError,
>)
    ensures
        checks(r, index_type(target, index)),
{
    match index {
        Some(Type::Int) | None => {},
        _ => {
            return Err(error("array index requires Int"));
        },
    }
    match target {
        Some(Type::Array(inner)) => Ok(Some(*inner)),
        _ => Err(error("index requires an array")),
    }
}

fn check_expression(e: &Expression, scope: &Vec<(String, Option<Type>)>, fns: &Vec<Function>) -> (r:
    Result<Option<Type>, SemanticError>)
    ensures
        checks(r, expression_type(expression_view(*e), scope_view(scope@), functions_view(fns@))),
    decreases e,
{
    match e {
        Expression::String(_) => Ok(Some(Type::String)),
        Expression::Integer(_) => Ok(Some(Type::Int)),
        Expression::Float(_) => Ok(Some(Type::Float)),
        Expression::Boolean(_) => Ok(Some(Type::Bool)),
        Expression::Array(elements) => {
            let t = check_elements(elements, scope, fns)?;
            match t {
                Some(t) => Ok(Some(Type::Array(Box::new(t)))),
                None => Ok(None),
            }
        },
        Expression::Variable(name) => match lookup_variable(scope, name) {
            Some(t) => Ok(t),
            None => Err(error_with("unknown variable '", name, "'")),
        },
        Expression::Binary { left, operator, right } => {
            let lt = check_expression(left, scope, fns)?;
            let rt = check_expression(right, scope, fns)?;
            check_binary(*operator, lt, rt)
        },
        Expression::Unary { operator, operand } => {
            let t = check_expression(operand, scope, fns)?;
            check_unary(*operator, t)
        },
        Expression::Index { target, index } => {
            let tt = check_expression(target, scope, fns)?;
            let it = check_expression(index, scope, fns)?;
            check_index(tt, it)
        },
        Expression::Call(c) => check_call(c, scope, fns),
    }
}

fn check_elements(
    elements: &Vec<Expression>,
    scope: &Vec<(String, Option<Type>)>,
    fns: &Vec<Function>,
) -> (r: Result<Option<Type>, SemanticError>)
    ensures
        checks(
            r,
            elements_type(
                expressions_view(elements@),
                scope_view(scope@),
                functions_view(fns@),
                None,
            ),
        ),
    decreases elements,
{
    let ghost ev = expressions_view(elements@);
    let ghost sv = scope_view(scope@);
    let ghost fv = functions_view(fns@);
    proof {
        lemma_expressions_view(elements@);
        assert(ev.subrange(0, ev.len() as int) =~= ev);
    }
    let mut inferred: Option<Type> = None;
    let mut i: usize = 0;
    while i < elements.len()
        invariant
            i <= elements@.len(),
            ev == expressions_view(elements@),
            ev.len() == elements@.len(),
            forall|k: int| 0 <= k < elements@.len() ==> #[trigger] ev[k] == expression_view(
                elements@[k],
            ),
            sv == scope_view(scope@),
            fv == functions_view(fns@),
            elements_type(ev, sv, fv, None) == elements_type(
                ev.subrange(i as int, ev.len() as int),
                sv,
                fv,
                inferred,
            ),
        decreases elements@.len() - i,
    {
        let ghost rest = ev.subrange(i as int, ev.len() as int);
        proof {
            assert(rest[0] == ev[i as int]);
            assert(rest.drop_first() =~= ev.subrange(i + 1, ev.len() as int));
        }
        let t = check_expression(&elements[i], scope, fns)?;
        match t {
            Some(t) => {
                match &inferred {
                    Some(current) => {
                        if !same_type(current, &t) {
                            return Err(error("array elements must share the same type"));
                        }
                    },
                    None => {
                        inferred = Some(t);
                    },
                }
            },
            None => {},
        }
        i = i + 1;
    }
    proof {
        assert(ev.subrange(ev.len() as int, ev.len() as int) =~= seq![]);
    }
    Ok(inferred)
}

fn check_call(c: &Call, scope: &Vec<(String, Option<Type>)>, fns: &Vec<Function>) -> (r: Result<
    Option<Type>,
    SemanticError,
>)
    ensures
        checks(
            r,
            call_type(
                CallView { name: c.name@, arguments: expressions_view(c.arguments@) },
                scope_view(scope@),
                functions_view(fns@),
            ),
        ),
    decreases c,
{
    let ghost av = expressions_view(c.arguments@);
    let ghost sv = scope_view(scope@);
    let ghost fv = functions_view(fns@);
    let index = match find_function_index(fns, &c.name) {
        Some(i) => i,
        None => {
            return Err(error_with("unknown function '", &c.name, "'"));
        },
    };
    proof {
        lemma_find_function(fv, c.name@);
    }
    let function = &fns[index];
    let ghost pv = parameters_view(function.parameters@);
    proof {
        assert(fv[index as int] == function_view(fns@[index as int]));
    }
    proof {
        lemma_expressions_view(c.arguments@);
    }
    if c.arguments.len() != function.parameters.len() {
        let count = usize_to_chars(function.parameters.len());
        let mut message = "function '".to_owned();
        message.append(c.name.as_str());
        message.append("' expects ");
        let count_text = string_from(&count);
        message.append(count_text.as_str());
        message.append(" arguments");
        return Err(SemanticError { message });
    }
    let mut i: usize = 0;
    proof {
        assert(av.subrange(0, av.len() as int) =~= av);
        assert(pv.subrange(0, pv.len() as int) =~= pv);
    }
    while i < c.arguments.len()
        invariant
            i <= c.arguments@.len(),
            c.arguments@.len() == function.parameters@.len(),
            av == expressions_view(c.arguments@),
            av.len() == c.arguments@.len(),
            forall|k: int| 0 <= k < c.arguments@.len() ==> #[trigger] av[k] == expression_view(
                c.arguments@[k],
            ),
            pv == parameters_view(function.parameters@),
            find_function(fv, c.name@) == Some(index as int),
            fv[index as int].parameters == pv,
            c.arguments@.len() == pv.len(),
            sv == scope_view(scope@),
            fv == functions_view(fns@),
            arguments_checked(av, pv, sv, fv) == arguments_checked(
                av.subrange(i as int, av.len() as int),
                pv.subrange(i as int, pv.len() as int),
                sv,
                fv,
            ),
        decreases c.arguments@.len() - i,
    {
        let ghost rest_a = av.subrange(i as int, av.len() as int);
        let ghost rest_p = pv.subrange(i as int, pv.len() as int);
        proof {
            assert(rest_a.drop_first() =~= av.subrange(i + 1, av.len() as int));
            assert(rest_p.drop_first() =~= pv.subrange(i + 1, pv.len() as int));
        }
        let t = check_expression(&c.arguments[i], scope, fns)?;
        let parameter = &function.parameters[i];
        if parameter.declared_type.is_some() && t.is_some() && !same_optional_type(
            &parameter.declared_type,
            &t,
        ) {
            return Err(error_with("argument for '", &parameter.name, "' has incompatible type"));
        }
        i = i + 1;
    }
    proof {
        assert(av.subrange(av.len() as int, av.len() as int) =~= seq![]);
    }
    Ok(copy_optional_type(&function.return_type))
}

fn check_condition(t: Option<Type>) -> (r: Result<(), SemanticError>)
    ensures
        checks(r, require_bool(t)),
{
    match t {
        Some(Type::Bool) | None => Ok(()),
        _ => Err(error("condition requires Bool")),
    }
}

fn check_statement(
    s: &Statement,
    scope: &mut Vec<(String, Option<Type>)>,
    fns: &Vec<Function>,
    return_type: &Option<Type>,
    in_loop: bool,
) -> (r: Result<(), SemanticError>)
    ensures
        match (
            r,
            statement_checked(
                statement_view(*s),
                scope_view(old(scope)@),
                functions_view(fns@),
                *return_type,
                in_loop,
            ),
        ) {
            (Ok(_), Ok(next)) => scope_view(final(scope)@) == next,
            (Err(e), Err(m)) => e.message@ == m,
            _ => false,
        },
    decreases s,
{
    match s {
        Statement::Let { name, declared_type, value } => {
            let vt = check_expression(value, scope, fns)?;
            let ghost before = scope@;
            match declared_type {
                Some(d) => {
                    if vt.is_some() && !same_optional_type(&vt, declared_type) {
                        return Err(error_with("variable '", name, "' has incompatible type"));
                    }
                    scope.push((name.clone(), Some(copy_type(d))));
                },
                None => {
                    scope.push((name.clone(), vt));
                },
            }
            proof {
                assert(scope_view(scope@) =~= scope_view(before).push(
                    (scope@.last().0@, scope@.last().1),
                ));
            }
            Ok(())
        },
        Statement::Return(value) => {
            let vt = check_expression(value, scope, fns)?;
            if return_type.is_some() && vt.is_some() && !same_optional_type(return_type, &vt) {
                return Err(error("return value has incompatible type"));
            }
            Ok(())
        },
        Statement::If { condition, then_body, else_body } => {
            let ct = check_expression(condition, scope, fns)?;
            check_condition(ct)?;
            check_block(then_body, scope, fns, return_type, in_loop)?;
            check_block(else_body, scope, fns, return_type, in_loop)?;
            Ok(())
        },
        Statement::While { condition, body } => {
            let ct = check_expression(condition, scope, fns)?;
            check_condition(ct)?;
            check_block(body, scope, fns, return_type, true)?;
            Ok(())
        },
        Statement::For { initializer, condition, update, body } => {
            let mut loop_scope = copy_scope(scope);
            match initializer {
                Some(init) => {
                    check_statement(init, &mut loop_scope, fns, return_type, in_loop)?;
                },
                None => {},
            }
            let ct = check_expression(condition, &loop_scope, fns)?;
            check_condition(ct)?;
            match update {
                Some(u) => {
                    let mut update_scope = copy_scope(&loop_scope);
                    check_statement(u, &mut update_scope, fns, return_type, in_loop)?;
                },
                None => {},
            }
            check_block(body, &loop_scope, fns, return_type, true)?;
            Ok(())
        },
        Statement::Assign { target, value } => {
            let tt = check_expression(target, scope, fns)?;
            let vt = check_expression(value, scope, fns)?;
            if tt.is_some() && vt.is_some() && !same_optional_type(&tt, &vt) {
                return Err(error("assignment has incompatible type"));
            }
            Ok(())
        },
        Statement::Call(c) => {
            proof {
                lemma_expressions_view(c.arguments@);
            }
            if is_print_name(&c.name) && c.arguments.len() == 1 {
                check_expression(&c.arguments[0], scope, fns)?;
            } else {
                check_call(c, scope, fns)?;
            }
            Ok(())
        },
        Statement::Break => {
            if in_loop {
                Ok(())
            } else {
                Err(error("'break' outside of a loop"))
            }
        },
        Statement::Continue => {
            if in_loop {
                Ok(())
            } else {
                Err(error("'continue' outside of a loop"))
            }
        },
    }
}

fn check_block(
    statements: &Vec<Statement>,
    scope: &Vec<(String, Option<Type>)>,
    fns: &Vec<Function>,
    return_type: &Option<Type>,
    in_loop: bool,
) -> (r: Result<(), SemanticError>)
    ensures
        checks(
            r,
            block_checked(
                statements_view(statements@),
                scope_view(scope@),
                functions_view(fns@),
                *return_type,
                in_loop,
            ),
        ),
    decreases statements,
{
    let ghost sv = statements_view(statements@);
    let ghost fv = functions_view(fns@);
    let mut local = copy_scope(scope);
    proof {
        lemma_statements_view(statements@);
        assert(sv.subrange(0, sv.len() as int) =~= sv);
    }
    let mut i: usize = 0;
    while i < statements.len()
        invariant
            i <= statements@.len(),
            sv == statements_view(statements@),
            sv.len() == statements@.len(),
            forall|k: int| 0 <= k < statements@.len() ==> #[trigger] sv[k] == statement_view(
                statements@[k],
            ),
            fv == functions_view(fns@),
            block_checked(sv, scope_view(scope@), fv, *return_type, in_loop) == block_checked(
                sv.subrange(i as int, sv.len() as int),
                scope_view(local@),
                fv,
                *return_type,
                in_loop,
            ),
        decreases statements@.len() - i,
    {
        let ghost rest = sv.subrange(i as int, sv.len() as int);
        proof {
            assert(rest[0] == sv[i as int]);
            assert(rest.drop_first() =~= sv.subrange(i + 1, sv.len() as int));
        }
        check_statement(&statements[i], &mut local, fns, return_type, in_loop)?;
        i = i + 1;
    }
    proof {
        assert(sv.subrange(sv.len() as int, sv.len() as int) =~= seq![]);
    }
    Ok(())
}

fn check_function(function: &Function, fns: &Vec<Function>) -> (r: Result<(), SemanticError>)
    ensures
        checks(r, function_checked(function_view(*function), functions_view(fns@))),
{
    let mut scope: Vec<(String, Option<Type>)> = Vec::new();
    let mut i: usize = 0;
    let ghost pv = parameters_view(function.parameters@);
    while i < function.parameters.len()
        invariant
            i <= function.parameters@.len(),
            pv == parameters_view(function.parameters@),
            scope_view(scope@) == parameter_scope(pv).subrange(0, i as int),
        decreases function.parameters@.len() - i,
    {
        let p = &function.parameters[i];
        let ghost before = scope@;
        scope.push((p.name.clone(), copy_optional_type(&p.declared_type)));
        proof {
            assert(scope_view(scope@) =~= scope_view(before).push((p.name@, p.declared_type)));
            assert(parameter_scope(pv).subrange(0, i + 1) =~= parameter_scope(pv).subrange(
                0,
                i as int,
            ).push(parameter_scope(pv)[i as int]));
        }
        i = i + 1;
    }
    proof {
        assert(parameter_scope(pv).subrange(0, pv.len() as int) =~= parameter_scope(pv));
    }
    check_block(&function.body, &scope, fns, &function.return_type, false)
}

/// Checks that the program defines `main` and that every function is well
/// typed, reporting the first error.
pub fn analyze(program: &Program) -> (r: Result<(), SemanticError>)
    ensures
        checks(r, spec_analyze(program@)),
{
    let fns = &program.functions;
    let ghost fv = functions_view(fns@);
    let main_name = "main".to_owned();
    proof {
        reveal_strlit("main");
    }
    if find_function_index(fns, &main_name).is_none() {
        return Err(error("program must define 'main'"));
    }
    let mut i: usize = 0;
    proof {
        assert(program@.functions == fv);
    }
    while i < fns.len()
        invariant
            i <= fns@.len(),
            fv == functions_view(fns@),
            spec_analyze(program@) == functions_checked(fv, i as int),
        decreases fns@.len() - i,
    {
        check_function(&fns[i], fns)?;
        i = i + 1;
    }
    Ok(())
}


// ----- laws -----
/// `break` and `continue` stand only inside the body of a loop.
pub open spec fn loop_control_ok(s: StatementView, in_loop: bool) -> bool
    decreases s,
{
    match s {
        StatementView::Break | StatementView::Continue => in_loop,
        StatementView::If { then_body, else_body, .. } => block_loop_control_ok(then_body, in_loop)
            && block_loop_control_ok(else_body, in_loop),
        StatementView::While { body, .. } => block_loop_control_ok(body, true),
        StatementView::For { initializer, update, body, .. } => (match initializer {
            Some(i) => loop_control_ok(*i, in_loop),
            None => true,
        }) && (match update {
            Some(u) => loop_control_ok(*u, in_loop),
            None => true,
        }) && block_loop_control_ok(body, true),
        _ => true,
    }
}

pub open spec fn block_loop_control_ok(ss: Seq<StatementView>, in_loop: bool) -> bool
    decreases ss,
{
    ss.len() == 0 || (loop_control_ok(ss[0], in_loop) && block_loop_control_ok(ss.drop_first(), in_loop))
}

/// A statement that passes the checks keeps its loop control inside loops.
pub proof fn lemma_checked_loop_control(
    s: StatementView,
    scope: Scope,
    fns: Seq<FunctionView>,
    return_type: Option<Type>,
    in_loop: bool,
)
    ensures
        statement_checked(s, scope, fns, return_type, in_loop) is Ok ==> loop_control_ok(s, in_loop),
    decreases s,
{
    match s {
        StatementView::If { condition, then_body, else_body } => {
            lemma_block_checked_loop_control(then_body, scope, fns, return_type, in_loop);
            lemma_block_checked_loop_control(else_body, scope, fns, return_type, in_loop);
        },
        StatementView::While { condition, body } => {
            lemma_block_checked_loop_control(body, scope, fns, return_type, true);
        },
        StatementView::For { initializer, condition, update, body } => {
            match initializer {
                Some(i) => {
                    lemma_checked_loop_control(*i, scope, fns, return_type, in_loop);
                    match statement_checked(*i, scope, fns, return_type, in_loop) {
                        Ok(loop_scope) => {
                            match update {
                                Some(u) => {
                                    lemma_checked_loop_control(
                                        *u,
                                        loop_scope,
                                        fns,
                                        return_type,
                                        in_loop,
                                    );
                                },
                                None => {},
                            }
                            lemma_block_checked_loop_control(
                                body,
                                loop_scope,
                                fns,
                                return_type,
                                true,
                            );
                        },
                        Err(_) => {},
                    }
                },
                None => {
                    match update {
                        Some(u) => {
                            lemma_checked_loop_control(*u, scope, fns, return_type, in_loop);
                        },
                        None => {},
                    }
                    lemma_block_checked_loop_control(body, scope, fns, return_type, true);
                },
            }
        },
        _ => {},
    }
}

pub proof fn lemma_block_checked_loop_control(
    ss: Seq<StatementView>,
    scope: Scope,
    fns: Seq<FunctionView>,
    return_type: Option<Type>,
    in_loop: bool,
)
    ensures
        block_checked(ss, scope, fns, return_type, in_loop) is Ok ==> block_loop_control_ok(
            ss,
            in_loop,
        ),
    decreases ss,
{
    if ss.len() > 0 {
        lemma_checked_loop_control(ss[0], scope, fns, return_type, in_loop);
        match statement_checked(ss[0], scope, fns, return_type, in_loop) {
            Ok(next) => {
                lemma_block_checked_loop_control(ss.drop_first(), next, fns, return_type, in_loop);
            },
            Err(_) => {},
        }
    }
}

proof fn lemma_functions_checked(fns: Seq<FunctionView>, i: int, k: int)
    requires
        0 <= i <= k < fns.len(),
        functions_checked(fns, i) is Ok,
    ensures
        function_checked(fns[k], fns) is Ok,
    decreases k - i,
{
    if i < k {
        lemma_functions_checked(fns, i + 1, k);
    }
}

/// In a program that passes the analysis, every `break` and `continue` stands
/// inside the body of a loop of its own function.
pub proof fn law_analyzed_loop_control(p: ProgramView)
    requires
        spec_analyze(p) is Ok,
    ensures
        forall|k: int|
            0 <= k < p.functions.len() ==> #[trigger] block_loop_control_ok(
                p.functions[k].body,
                false,
            ),
{
    assert forall|k: int| 0 <= k < p.functions.len() implies #[trigger] block_loop_control_ok(
        p.functions[k].body,
        false,
    ) by {
        lemma_functions_checked(p.functions, 0, k);
        let f = p.functions[k];
        lemma_block_checked_loop_control(
            f.body,
            parameter_scope(f.parameters),
            p.functions,
            f.return_type,
            false,
        );
    }
}

/// `!=` is checked as `==` is: two values of the same type compare to a
/// `Bool`, values of two different known types are refused; and the
/// ordering comparisons on two `Int`s give a `Bool`.
pub proof fn law_comparison_types(op: BinaryOperator, left: Option<Type>, right: Option<Type>, t: Type)
    ensures
        binary_type(BinaryOperator::NotEqual, left, right) == binary_type(
            BinaryOperator::Equal,
            left,
            right,
        ),
        binary_type(BinaryOperator::Equal, Some(t), Some(t)) == Ok::<Option<Type>, Seq<char>>(
            Some(Type::Bool),
        ),
        binary_type(BinaryOperator::NotEqual, Some(t), Some(t)) == Ok::<Option<Type>, Seq<char>>(
            Some(Type::Bool),
        ),
        left is Some && right is Some && left != right ==> binary_type(
            BinaryOperator::Equal,
            left,
            right,
        ) is Err,
        (op == BinaryOperator::Greater || op == BinaryOperator::GreaterEqual || op
            == BinaryOperator::Less || op == BinaryOperator::LessEqual) ==> binary_type(
            op,
            Some(Type::Int),
            Some(Type::Int),
        ) == Ok::<Option<Type>, Seq<char>>(Some(Type::Bool)),
{
}

/// The arithmetic operators on two `Int`s give an `Int`, and `+` on two
/// `String`s a `String`; the logical operators on two `Bool`s give a `Bool`;
/// a `Bool` operand of arithmetic or an ordering comparison, and an operand
/// of `&&` or `||` of another known type than `Bool`, are refused; `!`
/// takes a `Bool` to a `Bool` and refuses other known types, and unary `-`
/// takes an `Int` to an `Int` and refuses a `Bool` or a `String`.
pub proof fn law_operand_types(op: BinaryOperator, other: Option<Type>, t: Type)
    ensures
        (op == BinaryOperator::Add || op == BinaryOperator::Subtract || op
            == BinaryOperator::Multiply || op == BinaryOperator::Divide || op
            == BinaryOperator::Modulo) ==> binary_type(op, Some(Type::Int), Some(Type::Int))
            == Ok::<Option<Type>, Seq<char>>(Some(Type::Int)),
        binary_type(BinaryOperator::Add, Some(Type::String), Some(Type::String)) == Ok::<
            Option<Type>,
            Seq<char>,
        >(Some(Type::String)),
        (op == BinaryOperator::Add || op == BinaryOperator::Subtract || op
            == BinaryOperator::Multiply || op == BinaryOperator::Divide || op
            == BinaryOperator::Modulo || op == BinaryOperator::Greater || op
            == BinaryOperator::GreaterEqual || op == BinaryOperator::Less || op
            == BinaryOperator::LessEqual) ==> binary_type(op, Some(Type::Bool), other) is Err
            && binary_type(op, other, Some(Type::Bool)) is Err,
        (op == BinaryOperator::And || op == BinaryOperator::Or) ==> binary_type(
            op,
            Some(Type::Bool),
            Some(Type::Bool),
        ) == Ok::<Option<Type>, Seq<char>>(Some(Type::Bool)),
        (op == BinaryOperator::And || op == BinaryOperator::Or) && t != Type::Bool ==> binary_type(
            op,
            Some(t),
            other,
        ) is Err && binary_type(op, other, Some(t)) is Err,
        unary_type(UnaryOperator::Not, Some(Type::Bool)) == Ok::<Option<Type>, Seq<char>>(
            Some(Type::Bool),
        ),
        t != Type::Bool ==> unary_type(UnaryOperator::Not, Some(t)) is Err,
        unary_type(UnaryOperator::Negate, Some(Type::Int)) == Ok::<Option<Type>, Seq<char>>(
            Some(Type::Int),
        ),
        unary_type(UnaryOperator::Negate, Some(Type::Bool)) is Err,
        unary_type(UnaryOperator::Negate, Some(Type::String)) is Err,
{
}
} // verus!
