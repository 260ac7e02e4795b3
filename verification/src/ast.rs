//! The syntax tree of AXIOM programs, and its mathematical view.
use vstd::prelude::*;

verus! {

#[derive(Debug, PartialEq, Eq)]
pub struct Program {
    pub functions: Vec<Function>,
}

#[derive(Debug, PartialEq, Eq)]
pub struct Function {
    pub name: String,
    pub parameters: Vec<Parameter>,
    pub return_type: Option<Type>,
    pub body: Vec<Statement>,
}

#[derive(Debug, PartialEq, Eq)]
pub struct Parameter {
    pub name: String,
    pub declared_type: Option<Type>,
}

#[derive(Debug, PartialEq, Eq)]
pub enum Type {
    Int,
    Float,
    Bool,
    String,
    Array(Box<Type>),
}

#[derive(Debug, PartialEq, Eq)]
pub enum Statement {
    Call(Call),
    Let { name: String, declared_type: Option<Type>, value: Expression },
    Assign { target: Expression, value: Expression },
    Return(Expression),
    If { condition: Expression, then_body: Vec<Statement>, else_body: Vec<Statement> },
    While { condition: Expression, body: Vec<Statement> },
    For {
        initializer: Option<Box<Statement>>,
        condition: Expression,
        update: Option<Box<Statement>>,
        body: Vec<Statement>,
    },
    Break,
    Continue,
}

#[derive(Debug, PartialEq, Eq)]
pub struct Call {
    pub name: String,
    pub arguments: Vec<Expression>,
}

#[derive(Debug, PartialEq, Eq)]
pub enum Expression {
    String(String),
    Integer(i64),
    Float(String),
    Boolean(bool),
    Array(Vec<Expression>),
    Variable(String),
    Binary { left: Box<Expression>, operator: BinaryOperator, right: Box<Expression> },
    Unary { operator: UnaryOperator, operand: Box<Expression> },
    Index { target: Box<Expression>, index: Box<Expression> },
    Call(Call),
}

#[derive(Debug, Clone, Copy, PartialEq, Eq, Structural)]
pub enum BinaryOperator {
    Add,
    Subtract,
    Multiply,
    Divide,
    Modulo,
    Greater,
    GreaterEqual,
    Less,
    LessEqual,
    Equal,
    NotEqual,
    And,
    Or,
}

#[derive(Debug, Clone, Copy, PartialEq, Eq, Structural)]
pub enum UnaryOperator {
    Not,
    Negate,
}

/// Whether two types are the same type.
pub fn same_type(a: &Type, b: &Type) -> (r: bool)
    ensures
        r == (*a == *b),
    decreases a,
{
    match (a, b) {
        (Type::Int, Type::Int) => true,
        (Type::Float, Type::Float) => true,
        (Type::Bool, Type::Bool) => true,
        (Type::String, Type::String) => true,
        (Type::Array(x), Type::Array(y)) => same_type(x, y),
        _ => false,
    }
}

/// Whether two optional types are the same.
pub fn same_optional_type(a: &Option<Type>, b: &Option<Type>) -> (r: bool)
    ensures
        r == (*a == *b),
{
    match (a, b) {
        (Some(x), Some(y)) => same_type(x, y),
        (None, None) => true,
        _ => false,
    }
}

/// A copy of a type.
pub fn copy_type(t: &Type) -> (r: Type)
    ensures
        r == *t,
    decreases t,
{
    match t {
        Type::Int => Type::Int,
        Type::Float => Type::Float,
        Type::Bool => Type::Bool,
        Type::String => Type::String,
        Type::Array(inner) => Type::Array(Box::new(copy_type(inner))),
    }
}

impl Clone for Type {
    fn clone(&self) -> (r: Type)
        ensures
            r == *self,
    {
        copy_type(self)
    }
}

/// A copy of an optional type.
pub fn copy_optional_type(t: &Option<Type>) -> (r: Option<Type>)
    ensures
        r == *t,
{
    match t {
        Some(x) => Some(copy_type(x)),
        None => None,
    }
}

// ----- mathematical views -----
pub struct ProgramView {
    pub functions: Seq<FunctionView>,
}

pub struct FunctionView {
    pub name: Seq<char>,
    pub parameters: Seq<ParameterView>,
    pub return_type: Option<Type>,
    pub body: Seq<StatementView>,
}

pub struct ParameterView {
    pub name: Seq<char>,
    pub declared_type: Option<Type>,
}

pub struct CallView {
    pub name: Seq<char>,
    pub arguments: Seq<ExpressionView>,
}

pub enum StatementView {
    Call(CallView),
    Let { name: Seq<char>, declared_type: Option<Type>, value: ExpressionView },
    Assign { target: ExpressionView, value: ExpressionView },
    Return(ExpressionView),
    If { condition: ExpressionView, then_body: Seq<StatementView>, else_body: Seq<StatementView> },
    While { condition: ExpressionView, body: Seq<StatementView> },
    For {
        initializer: Option<Box<StatementView>>,
        condition: ExpressionView,
        update: Option<Box<StatementView>>,
        body: Seq<StatementView>,
    },
    Break,
    Continue,
}

pub enum ExpressionView {
    String(Seq<char>),
    Integer(i64),
    Float(Seq<char>),
    Boolean(bool),
    Array(Seq<ExpressionView>),
    Variable(Seq<char>),
    Binary { left: Box<ExpressionView>, operator: BinaryOperator, right: Box<ExpressionView> },
    Unary { operator: UnaryOperator, operand: Box<ExpressionView> },
    Index { target: Box<ExpressionView>, index: Box<ExpressionView> },
    Call(CallView),
}

pub open spec fn expression_view(e: Expression) -> ExpressionView
    decreases e,
{
    match e {
        Expression::String(s) => ExpressionView::String(s@),
        Expression::Integer(v) => ExpressionView::Integer(v),
        Expression::Float(s) => ExpressionView::Float(s@),
        Expression::Boolean(b) => ExpressionView::Boolean(b),
        Expression::Array(vs) => ExpressionView::Array(expressions_view(vs@)),
        Expression::Variable(s) => ExpressionView::Variable(s@),
        Expression::Binary { left, operator, right } => ExpressionView::Binary {
            left: Box::new(expression_view(*left)),
            operator,
            right: Box::new(expression_view(*right)),
        },
        Expression::Unary { operator, operand } => ExpressionView::Unary {
            operator,
            operand: Box::new(expression_view(*operand)),
        },
        Expression::Index { target, index } => ExpressionView::Index {
            target: Box::new(expression_view(*target)),
            index: Box::new(expression_view(*index)),
        },
        Expression::Call(c) => ExpressionView::Call(
            CallView { name: c.name@, arguments: expressions_view(c.arguments@) },
        ),
    }
}

pub open spec fn expressions_view(es: Seq<Expression>) -> Seq<ExpressionView>
    decreases es,
{
    if es.len() == 0 {
        seq![]
    } else {
        expressions_view(es.drop_last()).push(expression_view(es.last()))
    }
}


pub open spec fn statement_view(s: Statement) -> StatementView
    decreases s,
{
    match s {
        Statement::Call(c) => StatementView::Call(
            CallView { name: c.name@, arguments: expressions_view(c.arguments@) },
        ),
        Statement::Let { name, declared_type, value } => StatementView::Let {
            name: name@,
            declared_type,
            value: expression_view(value),
        },
        Statement::Assign { target, value } => StatementView::Assign {
            target: expression_view(target),
            value: expression_view(value),
        },
        Statement::Return(e) => StatementView::Return(expression_view(e)),
        Statement::If { condition, then_body, else_body } => StatementView::If {
            condition: expression_view(condition),
            then_body: statements_view(then_body@),
            else_body: statements_view(else_body@),
        },
        Statement::While { condition, body } => StatementView::While {
            condition: expression_view(condition),
            body: statements_view(body@),
        },
        Statement::For { initializer, condition, update, body } => StatementView::For {
            initializer: match initializer {
                Some(b) => Some(Box::new(statement_view(*b))),
                None => None,
            },
            condition: expression_view(condition),
            update: match update {
                Some(b) => Some(Box::new(statement_view(*b))),
                None => None,
            },
            body: statements_view(body@),
        },
        Statement::Break => StatementView::Break,
        Statement::Continue => StatementView::Continue,
    }
}

pub open spec fn statements_view(ss: Seq<Statement>) -> Seq<StatementView>
    decreases ss,
{
    if ss.len() == 0 {
        seq![]
    } else {
        statements_view(ss.drop_last()).push(statement_view(ss.last()))
    }
}

pub open spec fn parameter_view(p: Parameter) -> ParameterView {
    ParameterView { name: p.name@, declared_type: p.declared_type }
}

pub open spec fn parameters_view(ps: Seq<Parameter>) -> Seq<ParameterView> {
    ps.map_values(|p: Parameter| parameter_view(p))
}

pub open spec fn function_view(f: Function) -> FunctionView {
    FunctionView {
        name: f.name@,
        parameters: parameters_view(f.parameters@),
        return_type: f.return_type,
        body: statements_view(f.body@),
    }
}

pub open spec fn functions_view(fs: Seq<Function>) -> Seq<FunctionView> {
    fs.map_values(|f: Function| function_view(f))
}

impl View for Program {
    type V = ProgramView;

    open spec fn view(&self) -> ProgramView {
        ProgramView { functions: functions_view(self.functions@) }
    }
}

pub proof fn lemma_expressions_view(es: Seq<Expression>)
    ensures
        expressions_view(es).len() == es.len(),
        forall|i: int| 0 <= i < es.len() ==> #[trigger] expressions_view(es)[i] == expression_view(es[i]),
    decreases es.len(),
{
    if es.len() > 0 {
        lemma_expressions_view(es.drop_last());
    }
}

pub proof fn lemma_statements_view(ss: Seq<Statement>)
    ensures
        statements_view(ss).len() == ss.len(),
        forall|i: int| 0 <= i < ss.len() ==> #[trigger] statements_view(ss)[i] == statement_view(ss[i]),
    decreases ss.len(),
{
    if ss.len() > 0 {
        lemma_statements_view(ss.drop_last());
    }
}


pub proof fn lemma_expressions_view_push(es: Seq<Expression>, e: Expression)
    ensures
        expressions_view(es.push(e)) == expressions_view(es).push(expression_view(e)),
{
    assert(es.push(e).drop_last() =~= es);
}

pub proof fn lemma_statements_view_push(ss: Seq<Statement>, s: Statement)
    ensures
        statements_view(ss.push(s)) == statements_view(ss).push(statement_view(s)),
{
    assert(ss.push(s).drop_last() =~= ss);
}

} // verus!
