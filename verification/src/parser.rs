//! The recursive-descent parser.  Each parsing function has a specification
//! over the sequence of token views; the executable parser is proved to give
//! exactly the program (or the first error) that the specification describes.
use vstd::prelude::*;
use crate::ast::{
    BinaryOperator, Call, CallView, Expression, ExpressionView, Function, FunctionView, Parameter,
    ParameterView, Program, ProgramView, Statement, StatementView, Type, UnaryOperator,
    expression_view, expressions_view, statement_view, statements_view, parameter_view,
    parameters_view, function_view, functions_view, lemma_expressions_view_push, lemma_statements_view_push,
};
use crate::lexer::{lex, spec_lex, token_views, LexError, LexErrorView, Token, TokenKind, TokenView};
use crate::text::{i64_value, parse_i64, chars_of, string_of};

verus! {

#[derive(Debug, Clone, PartialEq, Eq)]
pub struct ParseError {
    pub message: String,
    pub line: usize,
    pub column: usize,
}

pub struct ParseErrorView {
    pub message: Seq<char>,
    pub line: int,
    pub column: int,
}

impl View for ParseError {
    type V = ParseErrorView;

    open spec fn view(&self) -> ParseErrorView {
        ParseErrorView { message: self.message@, line: self.line as int, column: self.column as int }
    }
}

impl ParseError {
    /// A lexical error reported as a parse error, keeping its position.
    pub fn from(error: LexError) -> (r: ParseError)
        ensures
            r@ == lex_error_as_parse_error(error@),
    {
        ParseError { message: error.message, line: error.line, column: error.column }
    }
}

pub open spec fn lex_error_as_parse_error(e: LexErrorView) -> ParseErrorView {
    ParseErrorView { message: e.message, line: e.line, column: e.column }
}

/// The result of parsing a `V` starting at some position: the value and the
/// position just after it, or an error.
pub type Parsed<V> = Result<(V, int), ParseErrorView>;

pub open spec fn kind_at(ts: Seq<TokenView>, p: int) -> TokenKind {
    if 0 <= p < ts.len() {
        ts[p].kind
    } else {
        TokenKind::Eof
    }
}

/// An error with `message`, placed at the token at `p`.
pub open spec fn perr(ts: Seq<TokenView>, p: int, message: Seq<char>) -> ParseErrorView {
    if 0 <= p < ts.len() {
        ParseErrorView { message, line: ts[p].line, column: ts[p].column }
    } else {
        ParseErrorView { message, line: 0, column: 0 }
    }
}

/// Positions never move backwards; a sub-parse that did would be rejected
/// here.  The check makes the termination argument of the mutually recursive
/// specification evident, and the executable parser never reaches it.
pub open spec fn moved(ts: Seq<TokenView>, p: int, p2: int) -> bool {
    p <= p2 <= ts.len()
}

pub open spec fn stalled<V>(ts: Seq<TokenView>, p: int) -> Parsed<V> {
    Err(perr(ts, p, "parser did not advance"@))
}

pub open spec fn string_content(lexeme: Seq<char>) -> Seq<char> {
    if lexeme.len() >= 2 {
        lexeme.subrange(1, lexeme.len() - 1)
    } else {
        seq![]
    }
}

/// The binary operator of precedence `level` (0 binds loosest) spelled by `k`.
pub open spec fn level_op(level: int, k: TokenKind) -> Option<BinaryOperator> {
    if level == 0 && k == TokenKind::Or {
        Some(BinaryOperator::Or)
    } else if level == 1 && k == TokenKind::And {
        Some(BinaryOperator::And)
    } else if level == 2 && k == TokenKind::EqualEqual {
        Some(BinaryOperator::Equal)
    } else if level == 2 && k == TokenKind::NotEqual {
        Some(BinaryOperator::NotEqual)
    } else if level == 3 && k == TokenKind::Greater {
        Some(BinaryOperator::Greater)
    } else if level == 3 && k == TokenKind::GreaterEqual {
        Some(BinaryOperator::GreaterEqual)
    } else if level == 3 && k == TokenKind::Less {
        Some(BinaryOperator::Less)
    } else if level == 3 && k == TokenKind::LessEqual {
        Some(BinaryOperator::LessEqual)
    } else if level == 4 && k == TokenKind::Plus {
        Some(BinaryOperator::Add)
    } else if level == 4 && k == TokenKind::Minus {
        Some(BinaryOperator::Subtract)
    } else if level == 5 && k == TokenKind::Star {
        Some(BinaryOperator::Multiply)
    } else if level == 5 && k == TokenKind::Slash {
        Some(BinaryOperator::Divide)
    } else if level == 5 && k == TokenKind::Percent {
        Some(BinaryOperator::Modulo)
    } else {
        None
    }
}

pub open spec fn closing_message(close: TokenKind) -> Seq<char> {
    if close == TokenKind::RParen {
        "expected ')'"@
    } else {
        "expected ']'"@
    }
}

// ----- specification of the expression grammar -----
pub open spec fn expression_at(ts: Seq<TokenView>, p: int) -> Parsed<ExpressionView>
    decreases ts.len() - p, 40int,
{
    binary_at(ts, p, 0)
}

/// An expression whose binary operators all have precedence `level` or higher.
pub open spec fn binary_at(ts: Seq<TokenView>, p: int, level: int) -> Parsed<ExpressionView>
    decreases ts.len() - p, 38 - 2 * (if level < 0 {
        0
    } else if level > 6 {
        6
    } else {
        level
    }),
{
    if level < 0 || level >= 6 {
        unary_at(ts, p)
    } else {
        match binary_at(ts, p, level + 1) {
            Ok((left, p2)) => if moved(ts, p, p2) {
                binary_rest(ts, p2, level, left)
            } else {
                stalled(ts, p2)
            },
            Err(e) => Err(e),
        }
    }
}

pub open spec fn binary_rest(
    ts: Seq<TokenView>,
    p: int,
    level: int,
    left: ExpressionView,
) -> Parsed<ExpressionView>
    decreases ts.len() - p, 37 - 2 * level,
{
    if 0 <= level < 6 && level_op(level, kind_at(ts, p)) is Some {
        let op = level_op(level, kind_at(ts, p))->0;
        match binary_at(ts, p + 1, level + 1) {
            Ok((right, p2)) => if moved(ts, p + 1, p2) {
                binary_rest(
                    ts,
                    p2,
                    level,
                    ExpressionView::Binary {
                        left: Box::new(left),
                        operator: op,
                        right: Box::new(right),
                    },
                )
            } else {
                stalled(ts, p2)
            },
            Err(e) => Err(e),
        }
    } else {
        Ok((left, p))
    }
}

pub open spec fn unary_at(ts: Seq<TokenView>, p: int) -> Parsed<ExpressionView>
    decreases ts.len() - p, 24int,
{
    let k = kind_at(ts, p);
    if k == TokenKind::Bang || k == TokenKind::Minus {
        let op = if k == TokenKind::Bang {
            UnaryOperator::Not
        } else {
            UnaryOperator::Negate
        };
        match unary_at(ts, p + 1) {
            Ok((operand, p2)) => Ok(
                (ExpressionView::Unary { operator: op, operand: Box::new(operand) }, p2),
            ),
            Err(e) => Err(e),
        }
    } else {
        postfix_at(ts, p)
    }
}

pub open spec fn postfix_at(ts: Seq<TokenView>, p: int) -> Parsed<ExpressionView>
    decreases ts.len() - p, 22int,
{
    match primary_at(ts, p) {
        Ok((e, p2)) => if moved(ts, p, p2) {
            postfix_rest(ts, p2, e)
        } else {
            stalled(ts, p2)
        },
        Err(err) => Err(err),
    }
}

/// Indexing suffixes `[index]` after `target`.
pub open spec fn postfix_rest(ts: Seq<TokenView>, p: int, target: ExpressionView) -> Parsed<
    ExpressionView,
>
    decreases ts.len() - p, 21int,
{
    if kind_at(ts, p) == TokenKind::LBracket {
        match expression_at(ts, p + 1) {
            Ok((index, p2)) => if !moved(ts, p + 1, p2) {
                stalled(ts, p2)
            } else if kind_at(ts, p2) == TokenKind::RBracket {
                postfix_rest(
                    ts,
                    p2 + 1,
                    ExpressionView::Index { target: Box::new(target), index: Box::new(index) },
                )
            } else {
                Err(perr(ts, p2, "expected ']'"@))
            },
            Err(e) => Err(e),
        }
    } else {
        Ok((target, p))
    }
}

pub open spec fn primary_at(ts: Seq<TokenView>, p: int) -> Parsed<ExpressionView>
    decreases ts.len() - p, 20int,
{
    let k = kind_at(ts, p);
    if k == TokenKind::String {
        Ok((ExpressionView::String(string_content(ts[p].lexeme)), p + 1))
    } else if k == TokenKind::Integer {
        match i64_value(ts[p].lexeme) {
            Some(v) => Ok((ExpressionView::Integer(v), p + 1)),
            None => Err(perr(ts, p, "integer literal out of range"@)),
        }
    } else if k == TokenKind::Float {
        Ok((ExpressionView::Float(ts[p].lexeme), p + 1))
    } else if k == TokenKind::True {
        Ok((ExpressionView::Boolean(true), p + 1))
    } else if k == TokenKind::False {
        Ok((ExpressionView::Boolean(false), p + 1))
    } else if k == TokenKind::Identifier {
        if kind_at(ts, p + 1) == TokenKind::LParen {
            match list_at(ts, p + 2, TokenKind::RParen) {
                Ok((arguments, p2)) => Ok(
                    (
                        ExpressionView::Call(CallView { name: ts[p].lexeme, arguments }),
                        p2,
                    ),
                ),
                Err(e) => Err(e),
            }
        } else {
            Ok((ExpressionView::Variable(ts[p].lexeme), p + 1))
        }
    } else if k == TokenKind::LParen {
        match expression_at(ts, p + 1) {
            Ok((e, p2)) => if kind_at(ts, p2) == TokenKind::RParen {
                Ok((e, p2 + 1))
            } else {
                Err(perr(ts, p2, "expected ')'"@))
            },
            Err(err) => Err(err),
        }
    } else if k == TokenKind::LBracket {
        match list_at(ts, p + 1, TokenKind::RBracket) {
            Ok((elements, p2)) => Ok((ExpressionView::Array(elements), p2)),
            Err(e) => Err(e),
        }
    } else {
        Err(perr(ts, p, "expected literal"@))
    }
}

/// A comma-separated list of expressions closed by `close`, starting just
/// after the opening bracket.
pub open spec fn list_at(ts: Seq<TokenView>, p: int, close: TokenKind) -> Parsed<
    Seq<ExpressionView>,
>
    decreases ts.len() - p, 42int,
{
    if kind_at(ts, p) == close {
        Ok((seq![], p + 1))
    } else {
        match expression_at(ts, p) {
            Ok((first, p2)) => if moved(ts, p, p2) {
                list_rest(ts, p2, close, seq![first])
            } else {
                stalled(ts, p2)
            },
            Err(e) => Err(e),
        }
    }
}

pub open spec fn list_rest(
    ts: Seq<TokenView>,
    p: int,
    close: TokenKind,
    items: Seq<ExpressionView>,
) -> Parsed<Seq<ExpressionView>>
    decreases ts.len() - p, 41int,
{
    if kind_at(ts, p) == TokenKind::Comma {
        match expression_at(ts, p + 1) {
            Ok((item, p2)) => if moved(ts, p + 1, p2) {
                list_rest(ts, p2, close, items.push(item))
            } else {
                stalled(ts, p2)
            },
            Err(e) => Err(e),
        }
    } else if kind_at(ts, p) == close {
        Ok((items, p + 1))
    } else {
        Err(perr(ts, p, closing_message(close)))
    }
}

// ----- specification of types -----
pub open spec fn base_type(name: Seq<char>) -> Option<Type> {
    if name =~= seq!['I', 'n', 't'] {
        Some(Type::Int)
    } else if name =~= seq!['F', 'l', 'o', 'a', 't'] {
        Some(Type::Float)
    } else if name =~= seq!['B', 'o', 'o', 'l'] {
        Some(Type::Bool)
    } else if name =~= seq!['S', 't', 'r', 'i', 'n', 'g'] {
        Some(Type::String)
    } else {
        None
    }
}

pub open spec fn type_at(ts: Seq<TokenView>, p: int) -> Parsed<Type> {
    if kind_at(ts, p) != TokenKind::Identifier {
        Err(perr(ts, p, "expected type"@))
    } else {
        match base_type(ts[p].lexeme) {
            Some(t) => type_suffix(ts, p + 1, t),
            None => Err(perr(ts, p, "unknown type"@)),
        }
    }
}

/// Array suffixes `[]` after a type.
pub open spec fn type_suffix(ts: Seq<TokenView>, p: int, t: Type) -> Parsed<Type>
    decreases ts.len() - p,
{
    if kind_at(ts, p) == TokenKind::LBracket {
        if kind_at(ts, p + 1) == TokenKind::RBracket {
            type_suffix(ts, p + 2, Type::Array(Box::new(t)))
        } else {
            Err(perr(ts, p + 1, "expected ']'"@))
        }
    } else {
        Ok((t, p))
    }
}

/// An optional `: Type` annotation.
pub open spec fn annotation_at(ts: Seq<TokenView>, p: int) -> Parsed<Option<Type>> {
    if kind_at(ts, p) == TokenKind::Colon {
        match type_at(ts, p + 1) {
            Ok((t, p2)) => Ok((Some(t), p2)),
            Err(e) => Err(e),
        }
    } else {
        Ok((None, p))
    }
}

// ----- specification of statements -----
pub open spec fn statement_at(ts: Seq<TokenView>, p: int) -> Parsed<StatementView>
    decreases ts.len() - p, 60int,
{
    let k = kind_at(ts, p);
    if k == TokenKind::If {
        if_at(ts, p)
    } else if k == TokenKind::Let || k == TokenKind::Identifier {
        simple_at(ts, p)
    } else if k == TokenKind::Return {
        match expression_at(ts, p + 1) {
            Ok((e, p2)) => Ok((StatementView::Return(e), p2)),
            Err(err) => Err(err),
        }
    } else if k == TokenKind::While {
        match expression_at(ts, p + 1) {
            Ok((condition, p2)) => if moved(ts, p + 1, p2) {
                match block_at(ts, p2) {
                    Ok((body, p3)) => Ok((StatementView::While { condition, body }, p3)),
                    Err(e) => Err(e),
                }
            } else {
                stalled(ts, p2)
            },
            Err(e) => Err(e),
        }
    } else if k == TokenKind::For {
        for_at(ts, p)
    } else if k == TokenKind::Break {
        Ok((StatementView::Break, p + 1))
    } else if k == TokenKind::Continue {
        Ok((StatementView::Continue, p + 1))
    } else {
        simple_at(ts, p)
    }
}

/// `if condition { ... }` with an optional `else { ... }` or `else if ...`.
pub open spec fn if_at(ts: Seq<TokenView>, p: int) -> Parsed<StatementView>
    decreases ts.len() - p, 58int,
{
    if kind_at(ts, p) != TokenKind::If {
        Err(perr(ts, p, "expected 'if'"@))
    } else {
        match expression_at(ts, p + 1) {
            Ok((condition, p2)) => if !moved(ts, p + 1, p2) {
                stalled(ts, p2)
            } else {
                match block_at(ts, p2) {
                    Ok((then_body, p3)) => if !moved(ts, p2, p3) {
                        stalled(ts, p3)
                    } else if kind_at(ts, p3) != TokenKind::Else {
                        Ok((StatementView::If { condition, then_body, else_body: seq![] }, p3))
                    } else if kind_at(ts, p3 + 1) == TokenKind::If {
                        match if_at(ts, p3 + 1) {
                            Ok((nested, p4)) => Ok(
                                (
                                    StatementView::If {
                                        condition,
                                        then_body,
                                        else_body: seq![nested],
                                    },
                                    p4,
                                ),
                            ),
                            Err(e) => Err(e),
                        }
                    } else {
                        match block_at(ts, p3 + 1) {
                            Ok((else_body, p4)) => Ok(
                                (StatementView::If { condition, then_body, else_body }, p4),
                            ),
                            Err(e) => Err(e),
                        }
                    },
                    Err(e) => Err(e),
                }
            },
            Err(e) => Err(e),
        }
    }
}

/// A `let`, an assignment or a call: the statements allowed in a `for` header.
pub open spec fn simple_at(ts: Seq<TokenView>, p: int) -> Parsed<StatementView>
    decreases ts.len() - p, 50int,
{
    if kind_at(ts, p) == TokenKind::Let {
        if kind_at(ts, p + 1) != TokenKind::Identifier {
            Err(perr(ts, p + 1, "expected variable name"@))
        } else {
            let name = ts[p + 1].lexeme;
            match annotation_at(ts, p + 2) {
                Ok((declared_type, p2)) => if kind_at(ts, p2) != TokenKind::Equal {
                    Err(perr(ts, p2, "expected '='"@))
                } else if !moved(ts, p, p2) {
                    stalled(ts, p2)
                } else {
                    match expression_at(ts, p2 + 1) {
                        Ok((value, p3)) => Ok((StatementView::Let { name, declared_type, value }, p3)),
                        Err(e) => Err(e),
                    }
                },
                Err(e) => Err(e),
            }
        }
    } else {
        match expression_at(ts, p) {
            Ok((target, p2)) => if !moved(ts, p, p2) {
                stalled(ts, p2)
            } else if kind_at(ts, p2) == TokenKind::Equal {
                match expression_at(ts, p2 + 1) {
                    Ok((value, p3)) => Ok((StatementView::Assign { target, value }, p3)),
                    Err(e) => Err(e),
                }
            } else {
                match target {
                    ExpressionView::Call(c) => Ok((StatementView::Call(c), p2)),
                    _ => Err(perr(ts, p, "expected statement"@)),
                }
            },
            Err(e) => Err(e),
        }
    }
}

/// An optional simple statement, absent when the next token is `end`.
pub open spec fn optional_simple_at(ts: Seq<TokenView>, p: int, end: TokenKind) -> Parsed<
    Option<StatementView>,
>
    decreases ts.len() - p, 52int,
{
    if kind_at(ts, p) == end {
        Ok((None, p))
    } else {
        match simple_at(ts, p) {
            Ok((s, p2)) => Ok((Some(s), p2)),
            Err(e) => Err(e),
        }
    }
}

pub open spec fn box_option(s: Option<StatementView>) -> Option<Box<StatementView>> {
    match s {
        Some(s) => Some(Box::new(s)),
        None => None,
    }
}

/// `for (initializer; condition; update) { ... }`.
pub open spec fn for_at(ts: Seq<TokenView>, p: int) -> Parsed<StatementView>
    decreases ts.len() - p, 58int,
{
    if kind_at(ts, p) != TokenKind::For {
        Err(perr(ts, p, "expected 'for'"@))
    } else if kind_at(ts, p + 1) != TokenKind::LParen {
        Err(perr(ts, p + 1, "expected '('"@))
    } else {
        match optional_simple_at(ts, p + 2, TokenKind::Semicolon) {
            Ok((initializer, p2)) => if !moved(ts, p + 2, p2) {
                stalled(ts, p2)
            } else if kind_at(ts, p2) != TokenKind::Semicolon {
                Err(perr(ts, p2, "expected ';'"@))
            } else {
                match expression_at(ts, p2 + 1) {
                    Ok((condition, p3)) => if !moved(ts, p2 + 1, p3) {
                        stalled(ts, p3)
                    } else if kind_at(ts, p3) != TokenKind::Semicolon {
                        Err(perr(ts, p3, "expected ';'"@))
                    } else {
                        match optional_simple_at(ts, p3 + 1, TokenKind::RParen) {
                            Ok((update, p4)) => if !moved(ts, p3 + 1, p4) {
                                stalled(ts, p4)
                            } else if kind_at(ts, p4) != TokenKind::RParen {
                                Err(perr(ts, p4, "expected ')'"@))
                            } else {
                                match block_at(ts, p4 + 1) {
                                    Ok((body, p5)) => Ok(
                                        (
                                            StatementView::For {
                                                initializer: box_option(initializer),
                                                condition,
                                                update: box_option(update),
                                                body,
                                            },
                                            p5,
                                        ),
                                    ),
                                    Err(e) => Err(e),
                                }
                            },
                            Err(e) => Err(e),
                        }
                    },
                    Err(e) => Err(e),
                }
            },
            Err(e) => Err(e),
        }
    }
}

/// `{ statement [;] ... }`.
pub open spec fn block_at(ts: Seq<TokenView>, p: int) -> Parsed<Seq<StatementView>>
    decreases ts.len() - p, 64int,
{
    if kind_at(ts, p) != TokenKind::LBrace {
        Err(perr(ts, p, "expected '{'"@))
    } else {
        block_items(ts, p + 1, seq![])
    }
}

pub open spec fn block_items(ts: Seq<TokenView>, p: int, items: Seq<StatementView>) -> Parsed<
    Seq<StatementView>,
>
    decreases ts.len() - p, 62int,
{
    let k = kind_at(ts, p);
    if k == TokenKind::RBrace {
        Ok((items, p + 1))
    } else if k == TokenKind::Eof {
        Err(perr(ts, p, "expected '}'"@))
    } else {
        match statement_at(ts, p) {
            Ok((s, p2)) => if !moved(ts, p, p2) {
                stalled(ts, p2)
            } else if kind_at(ts, p2) == TokenKind::Semicolon {
                block_items(ts, p2 + 1, items.push(s))
            } else if p2 > p {
                block_items(ts, p2, items.push(s))
            } else {
                stalled(ts, p2)
            },
            Err(e) => Err(e),
        }
    }
}

// ----- specification of functions and programs -----
pub open spec fn parameter_at(ts: Seq<TokenView>, p: int) -> Parsed<ParameterView> {
    if kind_at(ts, p) != TokenKind::Identifier {
        Err(perr(ts, p, "expected parameter name"@))
    } else {
        match annotation_at(ts, p + 1) {
            Ok((declared_type, p2)) => Ok(
                (ParameterView { name: ts[p].lexeme, declared_type }, p2),
            ),
            Err(e) => Err(e),
        }
    }
}

/// Further `, parameter` entries of a parameter list.
pub open spec fn parameters_rest(ts: Seq<TokenView>, p: int, items: Seq<ParameterView>) -> Parsed<
    Seq<ParameterView>,
>
    decreases ts.len() - p,
{
    if kind_at(ts, p) == TokenKind::Comma {
        match parameter_at(ts, p + 1) {
            Ok((param, p2)) => if moved(ts, p + 1, p2) {
                parameters_rest(ts, p2, items.push(param))
            } else {
                stalled(ts, p2)
            },
            Err(e) => Err(e),
        }
    } else {
        Ok((items, p))
    }
}

/// The parameters between `(` and `)`, starting just after `(`; the result
/// position is that of the `)` that must follow.
pub open spec fn parameters_at(ts: Seq<TokenView>, p: int) -> Parsed<Seq<ParameterView>> {
    if kind_at(ts, p) == TokenKind::RParen {
        Ok((seq![], p))
    } else {
        match parameter_at(ts, p) {
            Ok((first, p2)) => parameters_rest(ts, p2, seq![first]),
            Err(e) => Err(e),
        }
    }
}

pub open spec fn function_at(ts: Seq<TokenView>, p: int) -> Parsed<FunctionView> {
    if kind_at(ts, p) != TokenKind::Fn {
        Err(perr(ts, p, "expected 'fn'"@))
    } else if kind_at(ts, p + 1) != TokenKind::Identifier {
        Err(perr(ts, p + 1, "expected function name"@))
    } else if kind_at(ts, p + 2) != TokenKind::LParen {
        Err(perr(ts, p + 2, "expected '('"@))
    } else {
        let name = ts[p + 1].lexeme;
        match parameters_at(ts, p + 3) {
            Ok((parameters, p2)) => if kind_at(ts, p2) != TokenKind::RParen {
                Err(perr(ts, p2, "expected ')'"@))
            } else {
                let result_type = if kind_at(ts, p2 + 1) == TokenKind::Arrow {
                    match type_at(ts, p2 + 2) {
                        Ok((t, p3)) => Ok((Some(t), p3)),
                        Err(e) => Err(e),
                    }
                } else {
                    Ok((None, p2 + 1))
                };
                match result_type {
                    Ok((return_type, p3)) => match block_at(ts, p3) {
                        Ok((body, p4)) => Ok(
                            (FunctionView { name, parameters, return_type, body }, p4),
                        ),
                        Err(e) => Err(e),
                    },
                    Err(e) => Err(e),
                }
            },
            Err(e) => Err(e),
        }
    }
}

/// The functions from position `p` to the end of the input.
pub open spec fn functions_at(ts: Seq<TokenView>, p: int, items: Seq<FunctionView>) -> Result<
    Seq<FunctionView>,
    ParseErrorView,
>
    decreases ts.len() - p,
{
    if kind_at(ts, p) == TokenKind::Eof {
        Ok(items)
    } else {
        match function_at(ts, p) {
            Ok((f, p2)) => if p < p2 <= ts.len() {
                functions_at(ts, p2, items.push(f))
            } else {
                Err(perr(ts, p2, "parser did not advance"@))
            },
            Err(e) => Err(e),
        }
    }
}

/// The program written by a token sequence.
pub open spec fn program_of(ts: Seq<TokenView>) -> Result<ProgramView, ParseErrorView> {
    match functions_at(ts, 0, seq![]) {
        Ok(functions) => Ok(ProgramView { functions }),
        Err(e) => Err(e),
    }
}

/// The program written by a source text, or the first lexical or syntax error.
pub open spec fn spec_parse(source: Seq<char>) -> Result<ProgramView, ParseErrorView> {
    match spec_lex(source) {
        Ok(ts) => program_of(ts),
        Err(e) => Err(lex_error_as_parse_error(e)),
    }
}

// ----- where syntax errors are placed -----
/// The error lies at the line and column of one of the tokens.
pub open spec fn at_token(ts: Seq<TokenView>, e: ParseErrorView) -> bool {
    exists|q: int| 0 <= q < ts.len() && e.line == #[trigger] ts[q].line && e.column == ts[q].column
}

/// The tokens end with the end of the input, as the lexer gives them.
pub open spec fn ends_with_eof(ts: Seq<TokenView>) -> bool {
    ts.len() > 0 && ts.last().kind == TokenKind::Eof
}

/// A parse from inside the tokens stops inside them, or fails at a token.
pub open spec fn placed_result<V>(ts: Seq<TokenView>, r: Parsed<V>) -> bool {
    match r {
        Ok((_, p2)) => 0 <= p2 < ts.len(),
        Err(e) => at_token(ts, e),
    }
}

pub proof fn lemma_perr_placed(ts: Seq<TokenView>)
    ensures
        forall|p: int, m: Seq<char>| 0 <= p < ts.len() ==> at_token(ts, #[trigger] perr(ts, p, m)),
{
    assert forall|p: int, m: Seq<char>| 0 <= p < ts.len() implies at_token(
        ts,
        #[trigger] perr(ts, p, m),
    ) by {
        assert(perr(ts, p, m).line == ts[p].line);
    }
}

pub proof fn lemma_expression_placed(ts: Seq<TokenView>, p: int)
    requires
        ends_with_eof(ts),
        0 <= p < ts.len(),
    ensures
        placed_result(ts, expression_at(ts, p)),
    decreases ts.len() - p, 40int,
{
    lemma_binary_placed(ts, p, 0);
}

pub proof fn lemma_binary_placed(ts: Seq<TokenView>, p: int, level: int)
    requires
        ends_with_eof(ts),
        0 <= p < ts.len(),
    ensures
        placed_result(ts, binary_at(ts, p, level)),
    decreases ts.len() - p, 38 - 2 * (if level < 0 {
        0
    } else if level > 6 {
        6
    } else {
        level
    }),
{
    lemma_perr_placed(ts);
    if level < 0 || level >= 6 {
        lemma_unary_placed(ts, p);
    } else {
        lemma_binary_placed(ts, p, level + 1);
        if let Ok((left, p2)) = binary_at(ts, p, level + 1) {
            if moved(ts, p, p2) {
                lemma_binary_rest_placed(ts, p2, level, left);
            }
        }
    }
}

pub proof fn lemma_binary_rest_placed(ts: Seq<TokenView>, p: int, level: int, left: ExpressionView)
    requires
        ends_with_eof(ts),
        0 <= p < ts.len(),
    ensures
        placed_result(ts, binary_rest(ts, p, level, left)),
    decreases ts.len() - p, 37 - 2 * level,
{
    lemma_perr_placed(ts);
    if 0 <= level < 6 && level_op(level, kind_at(ts, p)) is Some {
        let op = level_op(level, kind_at(ts, p))->0;
        lemma_binary_placed(ts, p + 1, level + 1);
        if let Ok((right, p2)) = binary_at(ts, p + 1, level + 1) {
            if moved(ts, p + 1, p2) {
                lemma_binary_rest_placed(
                    ts,
                    p2,
                    level,
                    ExpressionView::Binary {
                        left: Box::new(left),
                        operator: op,
                        right: Box::new(right),
                    },
                );
            }
        }
    }
}

pub proof fn lemma_unary_placed(ts: Seq<TokenView>, p: int)
    requires
        ends_with_eof(ts),
        0 <= p < ts.len(),
    ensures
        placed_result(ts, unary_at(ts, p)),
    decreases ts.len() - p, 24int,
{
    let k = kind_at(ts, p);
    if k == TokenKind::Bang || k == TokenKind::Minus {
        lemma_unary_placed(ts, p + 1);
    } else {
        lemma_postfix_placed(ts, p);
    }
}

pub proof fn lemma_postfix_placed(ts: Seq<TokenView>, p: int)
    requires
        ends_with_eof(ts),
        0 <= p < ts.len(),
    ensures
        placed_result(ts, postfix_at(ts, p)),
    decreases ts.len() - p, 22int,
{
    lemma_perr_placed(ts);
    lemma_primary_placed(ts, p);
    if let Ok((e, p2)) = primary_at(ts, p) {
        if moved(ts, p, p2) {
            lemma_postfix_rest_placed(ts, p2, e);
        }
    }
}

pub proof fn lemma_postfix_rest_placed(ts: Seq<TokenView>, p: int, target: ExpressionView)
    requires
        ends_with_eof(ts),
        0 <= p < ts.len(),
    ensures
        placed_result(ts, postfix_rest(ts, p, target)),
    decreases ts.len() - p, 21int,
{
    lemma_perr_placed(ts);
    if kind_at(ts, p) == TokenKind::LBracket {
        lemma_expression_placed(ts, p + 1);
        if let Ok((index, p2)) = expression_at(ts, p + 1) {
            if moved(ts, p + 1, p2) && kind_at(ts, p2) == TokenKind::RBracket {
                lemma_postfix_rest_placed(
                    ts,
                    p2 + 1,
                    ExpressionView::Index { target: Box::new(target), index: Box::new(index) },
                );
            }
        }
    }
}

pub proof fn lemma_primary_placed(ts: Seq<TokenView>, p: int)
    requires
        ends_with_eof(ts),
        0 <= p < ts.len(),
    ensures
        placed_result(ts, primary_at(ts, p)),
    decreases ts.len() - p, 20int,
{
    lemma_perr_placed(ts);
    let k = kind_at(ts, p);
    if k == TokenKind::Identifier && kind_at(ts, p + 1) == TokenKind::LParen {
        lemma_list_placed(ts, p + 2, TokenKind::RParen);
    } else if k == TokenKind::LParen {
        lemma_expression_placed(ts, p + 1);
    } else if k == TokenKind::LBracket {
        lemma_list_placed(ts, p + 1, TokenKind::RBracket);
    }
}

pub proof fn lemma_list_placed(ts: Seq<TokenView>, p: int, close: TokenKind)
    requires
        ends_with_eof(ts),
        0 <= p < ts.len(),
        close != TokenKind::Eof,
    ensures
        placed_result(ts, list_at(ts, p, close)),
    decreases ts.len() - p, 42int,
{
    lemma_perr_placed(ts);
    if kind_at(ts, p) != close {
        lemma_expression_placed(ts, p);
        if let Ok((first, p2)) = expression_at(ts, p) {
            if moved(ts, p, p2) {
                lemma_list_rest_placed(ts, p2, close, seq![first]);
            }
        }
    }
}

pub proof fn lemma_list_rest_placed(
    ts: Seq<TokenView>,
    p: int,
    close: TokenKind,
    items: Seq<ExpressionView>,
)
    requires
        ends_with_eof(ts),
        0 <= p < ts.len(),
        close != TokenKind::Eof,
    ensures
        placed_result(ts, list_rest(ts, p, close, items)),
    decreases ts.len() - p, 41int,
{
    lemma_perr_placed(ts);
    if kind_at(ts, p) == TokenKind::Comma {
        lemma_expression_placed(ts, p + 1);
        if let Ok((item, p2)) = expression_at(ts, p + 1) {
            if moved(ts, p + 1, p2) {
                lemma_list_rest_placed(ts, p2, close, items.push(item));
            }
        }
    }
}

pub proof fn lemma_type_suffix_placed(ts: Seq<TokenView>, p: int, t: Type)
    requires
        ends_with_eof(ts),
        0 <= p < ts.len(),
    ensures
        placed_result(ts, type_suffix(ts, p, t)),
    decreases ts.len() - p,
{
    lemma_perr_placed(ts);
    if kind_at(ts, p) == TokenKind::LBracket && kind_at(ts, p + 1) == TokenKind::RBracket {
        lemma_type_suffix_placed(ts, p + 2, Type::Array(Box::new(t)));
    }
}

pub proof fn lemma_type_placed(ts: Seq<TokenView>, p: int)
    requires
        ends_with_eof(ts),
        0 <= p < ts.len(),
    ensures
        placed_result(ts, type_at(ts, p)),
{
    lemma_perr_placed(ts);
    if kind_at(ts, p) == TokenKind::Identifier {
        if let Some(t) = base_type(ts[p].lexeme) {
            lemma_type_suffix_placed(ts, p + 1, t);
        }
    }
}

pub proof fn lemma_annotation_placed(ts: Seq<TokenView>, p: int)
    requires
        ends_with_eof(ts),
        0 <= p < ts.len(),
    ensures
        placed_result(ts, annotation_at(ts, p)),
{
    if kind_at(ts, p) == TokenKind::Colon {
        lemma_type_placed(ts, p + 1);
    }
}

pub proof fn lemma_statement_placed(ts: Seq<TokenView>, p: int)
    requires
        ends_with_eof(ts),
        0 <= p < ts.len(),
    ensures
        placed_result(ts, statement_at(ts, p)),
    decreases ts.len() - p, 60int,
{
    lemma_perr_placed(ts);
    let k = kind_at(ts, p);
    if k == TokenKind::If {
        lemma_if_placed(ts, p);
    } else if k == TokenKind::Let || k == TokenKind::Identifier {
        lemma_simple_placed(ts, p);
    } else if k == TokenKind::Return {
        lemma_expression_placed(ts, p + 1);
    } else if k == TokenKind::While {
        lemma_expression_placed(ts, p + 1);
        if let Ok((condition, p2)) = expression_at(ts, p + 1) {
            if moved(ts, p + 1, p2) {
                lemma_block_placed(ts, p2);
            }
        }
    } else if k == TokenKind::For {
        lemma_for_placed(ts, p);
    } else if k != TokenKind::Break && k != TokenKind::Continue {
        lemma_simple_placed(ts, p);
    }
}

pub proof fn lemma_if_placed(ts: Seq<TokenView>, p: int)
    requires
        ends_with_eof(ts),
        0 <= p < ts.len(),
    ensures
        placed_result(ts, if_at(ts, p)),
    decreases ts.len() - p, 58int,
{
    lemma_perr_placed(ts);
    if kind_at(ts, p) == TokenKind::If {
        lemma_expression_placed(ts, p + 1);
        if let Ok((condition, p2)) = expression_at(ts, p + 1) {
            if moved(ts, p + 1, p2) {
                lemma_block_placed(ts, p2);
                if let Ok((then_body, p3)) = block_at(ts, p2) {
                    if moved(ts, p2, p3) && kind_at(ts, p3) == TokenKind::Else {
                        if kind_at(ts, p3 + 1) == TokenKind::If {
                            lemma_if_placed(ts, p3 + 1);
                        } else {
                            lemma_block_placed(ts, p3 + 1);
                        }
                    }
                }
            }
        }
    }
}

pub proof fn lemma_simple_placed(ts: Seq<TokenView>, p: int)
    requires
        ends_with_eof(ts),
        0 <= p < ts.len(),
    ensures
        placed_result(ts, simple_at(ts, p)),
    decreases ts.len() - p, 50int,
{
    lemma_perr_placed(ts);
    if kind_at(ts, p) == TokenKind::Let {
        if kind_at(ts, p + 1) == TokenKind::Identifier {
            lemma_annotation_placed(ts, p + 2);
            if let Ok((declared_type, p2)) = annotation_at(ts, p + 2) {
                if kind_at(ts, p2) == TokenKind::Equal && moved(ts, p, p2) {
                    lemma_expression_placed(ts, p2 + 1);
                }
            }
        }
    } else {
        lemma_expression_placed(ts, p);
        if let Ok((target, p2)) = expression_at(ts, p) {
            if moved(ts, p, p2) && kind_at(ts, p2) == TokenKind::Equal {
                lemma_expression_placed(ts, p2 + 1);
            }
        }
    }
}

pub proof fn lemma_optional_simple_placed(ts: Seq<TokenView>, p: int, end: TokenKind)
    requires
        ends_with_eof(ts),
        0 <= p < ts.len(),
    ensures
        placed_result(ts, optional_simple_at(ts, p, end)),
    decreases ts.len() - p, 52int,
{
    if kind_at(ts, p) != end {
        lemma_simple_placed(ts, p);
    }
}

pub proof fn lemma_for_placed(ts: Seq<TokenView>, p: int)
    requires
        ends_with_eof(ts),
        0 <= p < ts.len(),
    ensures
        placed_result(ts, for_at(ts, p)),
    decreases ts.len() - p, 58int,
{
    lemma_perr_placed(ts);
    if kind_at(ts, p) == TokenKind::For && kind_at(ts, p + 1) == TokenKind::LParen {
        lemma_optional_simple_placed(ts, p + 2, TokenKind::Semicolon);
        if let Ok((initializer, p2)) = optional_simple_at(ts, p + 2, TokenKind::Semicolon) {
            if moved(ts, p + 2, p2) && kind_at(ts, p2) == TokenKind::Semicolon {
                lemma_expression_placed(ts, p2 + 1);
                if let Ok((condition, p3)) = expression_at(ts, p2 + 1) {
                    if moved(ts, p2 + 1, p3) && kind_at(ts, p3) == TokenKind::Semicolon {
                        lemma_optional_simple_placed(ts, p3 + 1, TokenKind::RParen);
                        if let Ok((update, p4)) = optional_simple_at(ts, p3 + 1, TokenKind::RParen) {
                            if moved(ts, p3 + 1, p4) && kind_at(ts, p4) == TokenKind::RParen {
                                lemma_block_placed(ts, p4 + 1);
                            }
                        }
                    }
                }
            }
        }
    }
}

pub proof fn lemma_block_placed(ts: Seq<TokenView>, p: int)
    requires
        ends_with_eof(ts),
        0 <= p < ts.len(),
    ensures
        placed_result(ts, block_at(ts, p)),
    decreases ts.len() - p, 64int,
{
    lemma_perr_placed(ts);
    if kind_at(ts, p) == TokenKind::LBrace {
        lemma_block_items_placed(ts, p + 1, seq![]);
    }
}

pub proof fn lemma_block_items_placed(ts: Seq<TokenView>, p: int, items: Seq<StatementView>)
    requires
        ends_with_eof(ts),
        0 <= p < ts.len(),
    ensures
        placed_result(ts, block_items(ts, p, items)),
    decreases ts.len() - p, 62int,
{
    lemma_perr_placed(ts);
    let k = kind_at(ts, p);
    if k != TokenKind::RBrace && k != TokenKind::Eof {
        lemma_statement_placed(ts, p);
        if let Ok((s, p2)) = statement_at(ts, p) {
            if moved(ts, p, p2) {
                if kind_at(ts, p2) == TokenKind::Semicolon {
                    lemma_block_items_placed(ts, p2 + 1, items.push(s));
                } else if p2 > p {
                    lemma_block_items_placed(ts, p2, items.push(s));
                }
            }
        }
    }
}

pub proof fn lemma_parameter_placed(ts: Seq<TokenView>, p: int)
    requires
        ends_with_eof(ts),
        0 <= p < ts.len(),
    ensures
        placed_result(ts, parameter_at(ts, p)),
{
    lemma_perr_placed(ts);
    if kind_at(ts, p) == TokenKind::Identifier {
        lemma_annotation_placed(ts, p + 1);
    }
}

pub proof fn lemma_parameters_rest_placed(ts: Seq<TokenView>, p: int, items: Seq<ParameterView>)
    requires
        ends_with_eof(ts),
        0 <= p < ts.len(),
    ensures
        placed_result(ts, parameters_rest(ts, p, items)),
    decreases ts.len() - p,
{
    lemma_perr_placed(ts);
    if kind_at(ts, p) == TokenKind::Comma {
        lemma_parameter_placed(ts, p + 1);
        if let Ok((param, p2)) = parameter_at(ts, p + 1) {
            if moved(ts, p + 1, p2) {
                lemma_parameters_rest_placed(ts, p2, items.push(param));
            }
        }
    }
}

pub proof fn lemma_parameters_placed(ts: Seq<TokenView>, p: int)
    requires
        ends_with_eof(ts),
        0 <= p < ts.len(),
    ensures
        placed_result(ts, parameters_at(ts, p)),
{
    lemma_parameter_placed(ts, p);
    if let Ok((first, p2)) = parameter_at(ts, p) {
        lemma_parameters_rest_placed(ts, p2, seq![first]);
    }
}

pub proof fn lemma_function_placed(ts: Seq<TokenView>, p: int)
    requires
        ends_with_eof(ts),
        0 <= p < ts.len(),
    ensures
        placed_result(ts, function_at(ts, p)),
{
    lemma_perr_placed(ts);
    if kind_at(ts, p) == TokenKind::Fn && kind_at(ts, p + 1) == TokenKind::Identifier && kind_at(
        ts,
        p + 2,
    ) == TokenKind::LParen {
        lemma_parameters_placed(ts, p + 3);
        if let Ok((parameters, p2)) = parameters_at(ts, p + 3) {
            if kind_at(ts, p2) == TokenKind::RParen {
                if kind_at(ts, p2 + 1) == TokenKind::Arrow {
                    lemma_type_placed(ts, p2 + 2);
                    if let Ok((t, p3)) = type_at(ts, p2 + 2) {
                        lemma_block_placed(ts, p3);
                    }
                } else {
                    lemma_block_placed(ts, p2 + 1);
                }
            }
        }
    }
}

pub proof fn lemma_functions_placed(ts: Seq<TokenView>, p: int, items: Seq<FunctionView>)
    requires
        ends_with_eof(ts),
        0 <= p < ts.len(),
    ensures
        functions_at(ts, p, items) is Err ==> at_token(ts, functions_at(ts, p, items)->Err_0),
    decreases ts.len() - p,
{
    lemma_perr_placed(ts);
    if kind_at(ts, p) != TokenKind::Eof {
        lemma_function_placed(ts, p);
        if let Ok((f, p2)) = function_at(ts, p) {
            if p < p2 <= ts.len() {
                lemma_functions_placed(ts, p2, items.push(f));
            }
        }
    }
}

/// A source text that does not parse fails with its lexical error, or with
/// a syntax error placed at the line and column of one of its tokens; either
/// way at a line and column counted from 1.
pub proof fn law_parse_errors_are_placed(source: Seq<char>)
    ensures
        spec_parse(source) matches Err(e) ==> {
            &&& e.line >= 1 && e.column >= 1
            &&& match spec_lex(source) {
                Err(le) => e == lex_error_as_parse_error(le),
                Ok(ts) => at_token(ts, e),
            }
        },
{
    crate::lexer::lemma_lex_from_placed(source, 0, 1, 1);
    if let Ok(ts) = spec_lex(source) {
        lemma_functions_placed(ts, 0, seq![]);
        if let Err(e) = spec_parse(source) {
            let q = choose|q: int| 0 <= q < ts.len() && e.line == #[trigger] ts[q].line && e.column
                == ts[q].column;
            assert(ts[q].line >= 1 && ts[q].column >= 1);
        }
    }
}

/// Whether an executable result agrees with a specified one: the same value
/// (through `view`) ending at `end`, or the same error.
pub open spec fn agrees<T, V>(
    r: Result<T, ParseError>,
    s: Parsed<V>,
    view: spec_fn(T) -> V,
    end: int,
) -> bool {
    match (r, s) {
        (Ok(x), Ok((v, p))) => view(x) == v && end == p,
        (Err(e), Err(ev)) => e@ == ev,
        _ => false,
    }
}

pub open spec fn option_statement_view(s: Option<Box<Statement>>) -> Option<StatementView> {
    match s {
        Some(b) => Some(statement_view(*b)),
        None => None,
    }
}

fn level_operator(level: usize, kind: TokenKind) -> (r: Option<BinaryOperator>)
    ensures
        r == level_op(level as int, kind),
{
    if level == 0 && kind == TokenKind::Or {
        Some(BinaryOperator::Or)
    } else if level == 1 && kind == TokenKind::And {
        Some(BinaryOperator::And)
    } else if level == 2 && kind == TokenKind::EqualEqual {
        Some(BinaryOperator::Equal)
    } else if level == 2 && kind == TokenKind::NotEqual {
        Some(BinaryOperator::NotEqual)
    } else if level == 3 && kind == TokenKind::Greater {
        Some(BinaryOperator::Greater)
    } else if level == 3 && kind == TokenKind::GreaterEqual {
        Some(BinaryOperator::GreaterEqual)
    } else if level == 3 && kind == TokenKind::Less {
        Some(BinaryOperator::Less)
    } else if level == 3 && kind == TokenKind::LessEqual {
        Some(BinaryOperator::LessEqual)
    } else if level == 4 && kind == TokenKind::Plus {
        Some(BinaryOperator::Add)
    } else if level == 4 && kind == TokenKind::Minus {
        Some(BinaryOperator::Subtract)
    } else if level == 5 && kind == TokenKind::Star {
        Some(BinaryOperator::Multiply)
    } else if level == 5 && kind == TokenKind::Slash {
        Some(BinaryOperator::Divide)
    } else if level == 5 && kind == TokenKind::Percent {
        Some(BinaryOperator::Modulo)
    } else {
        None
    }
}

struct Parser {
    tokens: Vec<Token>,
    position: usize,
}

impl Parser {
    spec fn ts(&self) -> Seq<TokenView> {
        token_views(self.tokens@)
    }

    spec fn pos(&self) -> int {
        self.position as int
    }

    /// The parser moved forward (or stayed), over the same tokens.
    spec fn step(&self, after: &Parser) -> bool {
        &&& after.tokens@ == self.tokens@
        &&& self.position <= after.position <= after.tokens@.len()
    }

    fn kind_after(&self, offset: usize) -> (k: TokenKind)
        requires
            self.position <= self.tokens@.len(),
        ensures
            k == kind_at(self.ts(), self.pos() + offset),
    {
        if offset < self.tokens.len() - self.position {
            self.tokens[self.position + offset].kind
        } else {
            TokenKind::Eof
        }
    }

    fn check(&self, kind: TokenKind) -> (r: bool)
        requires
            self.position <= self.tokens@.len(),
        ensures
            r == (kind_at(self.ts(), self.pos()) == kind),
    {
        self.kind_after(0) == kind
    }

    fn error_at(&self, offset: usize, message: &str) -> (e: ParseError)
        requires
            self.position <= self.tokens@.len(),
        ensures
            e@ == perr(self.ts(), self.pos() + offset, message@),
    {
        if offset < self.tokens.len() - self.position {
            let t = &self.tokens[self.position + offset];
            ParseError { message: message.to_owned(), line: t.line, column: t.column }
        } else {
            ParseError { message: message.to_owned(), line: 0, column: 0 }
        }
    }

    fn error_at_index(&self, index: usize, message: &str) -> (e: ParseError)
        ensures
            e@ == perr(self.ts(), index as int, message@),
    {
        if index < self.tokens.len() {
            let t = &self.tokens[index];
            ParseError { message: message.to_owned(), line: t.line, column: t.column }
        } else {
            ParseError { message: message.to_owned(), line: 0, column: 0 }
        }
    }

    fn error(&self, message: &str) -> (e: ParseError)
        requires
            self.position <= self.tokens@.len(),
        ensures
            e@ == perr(self.ts(), self.pos(), message@),
    {
        self.error_at(0, message)
    }

    fn lexeme_after(&self, offset: usize) -> (s: String)
        requires
            self.pos() + offset < self.tokens@.len(),
        ensures
            s@ == self.ts()[self.pos() + offset].lexeme,
    {
        let len = self.tokens.len();
        self.tokens[self.position + offset].lexeme.clone()
    }

    fn advance(&mut self, n: usize)
        requires
            old(self).pos() + n <= old(self).tokens@.len(),
        ensures
            final(self).tokens@ == old(self).tokens@,
            final(self).pos() == old(self).pos() + n,
    {
        let len = self.tokens.len();
        self.position = self.position + n;
    }

    fn expression(&mut self) -> (r: Result<Expression, ParseError>)
        requires
            old(self).position <= old(self).tokens@.len(),
        ensures
            old(self).step(final(self)),
            agrees(
                r,
                expression_at(old(self).ts(), old(self).pos()),
                |e: Expression| expression_view(e),
                final(self).pos(),
            ),
        decreases self.tokens@.len() - self.position, 40int,
    {
        self.binary(0)
    }

    fn binary(&mut self, level: usize) -> (r: Result<Expression, ParseError>)
        requires
            old(self).position <= old(self).tokens@.len(),
            level <= 6,
        ensures
            old(self).step(final(self)),
            agrees(
                r,
                binary_at(old(self).ts(), old(self).pos(), level as int),
                |e: Expression| expression_view(e),
                final(self).pos(),
            ),
        decreases self.tokens@.len() - self.position, 38 - 2 * level,
    {
        if level >= 6 {
            return self.unary();
        }
        let left = self.binary(level + 1)?;
        self.binary_rest(level, left)
    }

    fn binary_rest(&mut self, level: usize, left: Expression) -> (r: Result<
        Expression,
        ParseError,
    >)
        requires
            old(self).position <= old(self).tokens@.len(),
            level < 6,
        ensures
            old(self).step(final(self)),
            agrees(
                r,
                binary_rest(old(self).ts(), old(self).pos(), level as int, expression_view(left)),
                |e: Expression| expression_view(e),
                final(self).pos(),
            ),
        decreases self.tokens@.len() - self.position, 37 - 2 * level,
    {
        match level_operator(level, self.kind_after(0)) {
            Some(operator) => {
                self.advance(1);
                let right = self.binary(level + 1)?;
                let combined = Expression::Binary {
                    left: Box::new(left),
                    operator,
                    right: Box::new(right),
                };
                self.binary_rest(level, combined)
            },
            None => Ok(left),
        }
    }

    fn unary(&mut self) -> (r: Result<Expression, ParseError>)
        requires
            old(self).position <= old(self).tokens@.len(),
        ensures
            old(self).step(final(self)),
            agrees(
                r,
                unary_at(old(self).ts(), old(self).pos()),
                |e: Expression| expression_view(e),
                final(self).pos(),
            ),
        decreases self.tokens@.len() - self.position, 24int,
    {
        let k = self.kind_after(0);
        if k == TokenKind::Bang || k == TokenKind::Minus {
            let operator = if k == TokenKind::Bang {
                UnaryOperator::Not
            } else {
                UnaryOperator::Negate
            };
            self.advance(1);
            let operand = self.unary()?;
            Ok(Expression::Unary { operator, operand: Box::new(operand) })
        } else {
            self.postfix()
        }
    }

    fn postfix(&mut self) -> (r: Result<Expression, ParseError>)
        requires
            old(self).position <= old(self).tokens@.len(),
        ensures
            old(self).step(final(self)),
            agrees(
                r,
                postfix_at(old(self).ts(), old(self).pos()),
                |e: Expression| expression_view(e),
                final(self).pos(),
            ),
        decreases self.tokens@.len() - self.position, 22int,
    {
        let e = self.primary()?;
        self.postfix_rest(e)
    }

    fn postfix_rest(&mut self, target: Expression) -> (r: Result<Expression, ParseError>)
        requires
            old(self).position <= old(self).tokens@.len(),
        ensures
            old(self).step(final(self)),
            agrees(
                r,
                postfix_rest(old(self).ts(), old(self).pos(), expression_view(target)),
                |e: Expression| expression_view(e),
                final(self).pos(),
            ),
        decreases self.tokens@.len() - self.position, 21int,
    {
        if self.check(TokenKind::LBracket) {
            self.advance(1);
            let index = self.expression()?;
            if !self.check(TokenKind::RBracket) {
                return Err(self.error("expected ']'"));
            }
            self.advance(1);
            let indexed = Expression::Index { target: Box::new(target), index: Box::new(index) };
            self.postfix_rest(indexed)
        } else {
            Ok(target)
        }
    }

    fn primary(&mut self) -> (r: Result<Expression, ParseError>)
        requires
            old(self).position <= old(self).tokens@.len(),
        ensures
            old(self).step(final(self)),
            agrees(
                r,
                primary_at(old(self).ts(), old(self).pos()),
                |e: Expression| expression_view(e),
                final(self).pos(),
            ),
        decreases self.tokens@.len() - self.position, 20int,
    {
        let k = self.kind_after(0);
        if k == TokenKind::String {
            let cs = chars_of(self.tokens[self.position].lexeme.as_str());
            let content = if cs.len() >= 2 {
                string_of(&cs, 1, cs.len() - 1)
            } else {
                String::new()
            };
            self.advance(1);
            Ok(Expression::String(content))
        } else if k == TokenKind::Integer {
            let cs = chars_of(self.tokens[self.position].lexeme.as_str());
            match parse_i64(&cs) {
                Some(v) => {
                    self.advance(1);
                    Ok(Expression::Integer(v))
                },
                None => Err(self.error("integer literal out of range")),
            }
        } else if k == TokenKind::Float {
            let text = self.lexeme_after(0);
            self.advance(1);
            Ok(Expression::Float(text))
        } else if k == TokenKind::True {
            self.advance(1);
            Ok(Expression::Boolean(true))
        } else if k == TokenKind::False {
            self.advance(1);
            Ok(Expression::Boolean(false))
        } else if k == TokenKind::Identifier {
            let name = self.lexeme_after(0);
            if self.kind_after(1) == TokenKind::LParen {
                self.advance(2);
                let arguments = self.list(TokenKind::RParen)?;
                Ok(Expression::Call(Call { name, arguments }))
            } else {
                self.advance(1);
                Ok(Expression::Variable(name))
            }
        } else if k == TokenKind::LParen {
            self.advance(1);
            let e = self.expression()?;
            if !self.check(TokenKind::RParen) {
                return Err(self.error("expected ')'"));
            }
            self.advance(1);
            Ok(e)
        } else if k == TokenKind::LBracket {
            self.advance(1);
            let elements = self.list(TokenKind::RBracket)?;
            Ok(Expression::Array(elements))
        } else {
            Err(self.error("expected literal"))
        }
    }

    fn list(&mut self, close: TokenKind) -> (r: Result<Vec<Expression>, ParseError>)
        requires
            old(self).position <= old(self).tokens@.len(),
            close != TokenKind::Eof,
        ensures
            old(self).step(final(self)),
            agrees(
                r,
                list_at(old(self).ts(), old(self).pos(), close),
                |v: Vec<Expression>| expressions_view(v@),
                final(self).pos(),
            ),
        decreases self.tokens@.len() - self.position, 42int,
    {
        if self.check(close) {
            self.advance(1);
            let empty: Vec<Expression> = Vec::new();
            proof {
                assert(expressions_view(empty@) =~= seq![]);
            }
            return Ok(empty);
        }
        let first = self.expression()?;
        let mut items: Vec<Expression> = Vec::new();
        items.push(first);
        proof {
            lemma_expressions_view_push(seq![], items@[0]);
            assert(items@ =~= seq![].push(items@[0]));
        }
        self.list_rest(close, items)
    }

    fn list_rest(&mut self, close: TokenKind, items: Vec<Expression>) -> (r: Result<
        Vec<Expression>,
        ParseError,
    >)
        requires
            old(self).position <= old(self).tokens@.len(),
            close != TokenKind::Eof,
        ensures
            old(self).step(final(self)),
            agrees(
                r,
                list_rest(old(self).ts(), old(self).pos(), close, expressions_view(items@)),
                |v: Vec<Expression>| expressions_view(v@),
                final(self).pos(),
            ),
        decreases self.tokens@.len() - self.position, 41int,
    {
        if self.check(TokenKind::Comma) {
            self.advance(1);
            let item = self.expression()?;
            let mut items = items;
            let ghost before = items@;
            items.push(item);
            proof {
                lemma_expressions_view_push(before, item);
            }
            self.list_rest(close, items)
        } else if self.check(close) {
            self.advance(1);
            Ok(items)
        } else if close == TokenKind::RParen {
            Err(self.error("expected ')'"))
        } else {
            Err(self.error("expected ']'"))
        }
    }

    /// Reads the name of a base type from the current identifier.
    fn base_type_here(&self) -> (r: Option<Type>)
        requires
            self.pos() < self.tokens@.len(),
        ensures
            r == base_type(self.ts()[self.pos()].lexeme),
    {
        let cs = chars_of(self.tokens[self.position].lexeme.as_str());
        let ghost s = cs@;
        let n = cs.len();
        if n == 3 && cs[0] == 'I' && cs[1] == 'n' && cs[2] == 't' {
            assert(s =~= seq!['I', 'n', 't']);
            Some(Type::Int)
        } else if n == 5 && cs[0] == 'F' && cs[1] == 'l' && cs[2] == 'o' && cs[3] == 'a' && cs[4]
            == 't' {
            assert(s =~= seq!['F', 'l', 'o', 'a', 't']);
            Some(Type::Float)
        } else if n == 4 && cs[0] == 'B' && cs[1] == 'o' && cs[2] == 'o' && cs[3] == 'l' {
            assert(s =~= seq!['B', 'o', 'o', 'l']);
            Some(Type::Bool)
        } else if n == 6 && cs[0] == 'S' && cs[1] == 't' && cs[2] == 'r' && cs[3] == 'i' && cs[4]
            == 'n' && cs[5] == 'g' {
            assert(s =~= seq!['S', 't', 'r', 'i', 'n', 'g']);
            Some(Type::String)
        } else {
            None
        }
    }

    fn parse_type(&mut self) -> (r: Result<Type, ParseError>)
        requires
            old(self).position <= old(self).tokens@.len(),
        ensures
            old(self).step(final(self)),
            agrees(r, type_at(old(self).ts(), old(self).pos()), |t: Type| t, final(self).pos()),
    {
        if !self.check(TokenKind::Identifier) {
            return Err(self.error("expected type"));
        }
        match self.base_type_here() {
            Some(t) => {
                self.advance(1);
                self.type_suffix(t)
            },
            None => Err(self.error("unknown type")),
        }
    }

    fn type_suffix(&mut self, t: Type) -> (r: Result<Type, ParseError>)
        requires
            old(self).position <= old(self).tokens@.len(),
        ensures
            old(self).step(final(self)),
            agrees(
                r,
                type_suffix(old(self).ts(), old(self).pos(), t),
                |t: Type| t,
                final(self).pos(),
            ),
        decreases self.tokens@.len() - self.position,
    {
        if self.check(TokenKind::LBracket) {
            if self.kind_after(1) == TokenKind::RBracket {
                self.advance(2);
                self.type_suffix(Type::Array(Box::new(t)))
            } else {
                Err(self.error_at(1, "expected ']'"))
            }
        } else {
            Ok(t)
        }
    }

    fn annotation(&mut self) -> (r: Result<Option<Type>, ParseError>)
        requires
            old(self).position <= old(self).tokens@.len(),
        ensures
            old(self).step(final(self)),
            agrees(
                r,
                annotation_at(old(self).ts(), old(self).pos()),
                |t: Option<Type>| t,
                final(self).pos(),
            ),
    {
        if self.check(TokenKind::Colon) {
            self.advance(1);
            let t = self.parse_type()?;
            Ok(Some(t))
        } else {
            Ok(None)
        }
    }

    fn statement(&mut self) -> (r: Result<Statement, ParseError>)
        requires
            old(self).position <= old(self).tokens@.len(),
        ensures
            old(self).step(final(self)),
            agrees(
                r,
                statement_at(old(self).ts(), old(self).pos()),
                |s: Statement| statement_view(s),
                final(self).pos(),
            ),
        decreases self.tokens@.len() - self.position, 60int,
    {
        let k = self.kind_after(0);
        if k == TokenKind::If {
            self.if_statement()
        } else if k == TokenKind::Let || k == TokenKind::Identifier {
            self.simple_statement()
        } else if k == TokenKind::Return {
            self.advance(1);
            let e = self.expression()?;
            Ok(Statement::Return(e))
        } else if k == TokenKind::While {
            self.advance(1);
            let condition = self.expression()?;
            let body = self.block()?;
            Ok(Statement::While { condition, body })
        } else if k == TokenKind::For {
            self.for_statement()
        } else if k == TokenKind::Break {
            self.advance(1);
            Ok(Statement::Break)
        } else if k == TokenKind::Continue {
            self.advance(1);
            Ok(Statement::Continue)
        } else {
            self.simple_statement()
        }
    }

    fn if_statement(&mut self) -> (r: Result<Statement, ParseError>)
        requires
            old(self).position <= old(self).tokens@.len(),
        ensures
            old(self).step(final(self)),
            agrees(
                r,
                if_at(old(self).ts(), old(self).pos()),
                |s: Statement| statement_view(s),
                final(self).pos(),
            ),
        decreases self.tokens@.len() - self.position, 58int,
    {
        if !self.check(TokenKind::If) {
            return Err(self.error("expected 'if'"));
        }
        self.advance(1);
        let condition = self.expression()?;
        let then_body = self.block()?;
        if !self.check(TokenKind::Else) {
            let else_body: Vec<Statement> = Vec::new();
            proof {
                assert(statements_view(else_body@) =~= seq![]);
            }
            return Ok(Statement::If { condition, then_body, else_body });
        }
        if self.kind_after(1) == TokenKind::If {
            self.advance(1);
            let nested = self.if_statement()?;
            let mut else_body: Vec<Statement> = Vec::new();
            else_body.push(nested);
            proof {
                lemma_statements_view_push(seq![], else_body@[0]);
                assert(else_body@ =~= seq![].push(else_body@[0]));
            }
            Ok(Statement::If { condition, then_body, else_body })
        } else {
            self.advance(1);
            let else_body = self.block()?;
            Ok(Statement::If { condition, then_body, else_body })
        }
    }

    fn simple_statement(&mut self) -> (r: Result<Statement, ParseError>)
        requires
            old(self).position <= old(self).tokens@.len(),
        ensures
            old(self).step(final(self)),
            agrees(
                r,
                simple_at(old(self).ts(), old(self).pos()),
                |s: Statement| statement_view(s),
                final(self).pos(),
            ),
        decreases self.tokens@.len() - self.position, 50int,
    {
        if self.check(TokenKind::Let) {
            if self.kind_after(1) != TokenKind::Identifier {
                return Err(self.error_at(1, "expected variable name"));
            }
            let name = self.lexeme_after(1);
            self.advance(2);
            let declared_type = self.annotation()?;
            if !self.check(TokenKind::Equal) {
                return Err(self.error("expected '='"));
            }
            self.advance(1);
            let value = self.expression()?;
            Ok(Statement::Let { name, declared_type, value })
        } else {
            let start = self.position;
            let target = self.expression()?;
            if self.check(TokenKind::Equal) {
                self.advance(1);
                let value = self.expression()?;
                Ok(Statement::Assign { target, value })
            } else {
                match target {
                    Expression::Call(c) => Ok(Statement::Call(c)),
                    _ => Err(self.error_at_index(start, "expected statement")),
                }
            }
        }
    }

    fn optional_simple(&mut self, end: TokenKind) -> (r: Result<
        Option<Box<Statement>>,
        ParseError,
    >)
        requires
            old(self).position <= old(self).tokens@.len(),
        ensures
            old(self).step(final(self)),
            agrees(
                r,
                optional_simple_at(old(self).ts(), old(self).pos(), end),
                |s: Option<Box<Statement>>| option_statement_view(s),
                final(self).pos(),
            ),
        decreases self.tokens@.len() - self.position, 52int,
    {
        if self.check(end) {
            Ok(None)
        } else {
            let s = self.simple_statement()?;
            Ok(Some(Box::new(s)))
        }
    }

    fn for_statement(&mut self) -> (r: Result<Statement, ParseError>)
        requires
            old(self).position <= old(self).tokens@.len(),
        ensures
            old(self).step(final(self)),
            agrees(
                r,
                for_at(old(self).ts(), old(self).pos()),
                |s: Statement| statement_view(s),
                final(self).pos(),
            ),
        decreases self.tokens@.len() - self.position, 58int,
    {
        if !self.check(TokenKind::For) {
            return Err(self.error("expected 'for'"));
        }
        if self.kind_after(1) != TokenKind::LParen {
            return Err(self.error_at(1, "expected '('"));
        }
        self.advance(2);
        let initializer = self.optional_simple(TokenKind::Semicolon)?;
        if !self.check(TokenKind::Semicolon) {
            return Err(self.error("expected ';'"));
        }
        self.advance(1);
        let condition = self.expression()?;
        if !self.check(TokenKind::Semicolon) {
            return Err(self.error("expected ';'"));
        }
        self.advance(1);
        let update = self.optional_simple(TokenKind::RParen)?;
        if !self.check(TokenKind::RParen) {
            return Err(self.error("expected ')'"));
        }
        self.advance(1);
        let body = self.block()?;
        Ok(Statement::For { initializer, condition, update, body })
    }

    fn block(&mut self) -> (r: Result<Vec<Statement>, ParseError>)
        requires
            old(self).position <= old(self).tokens@.len(),
        ensures
            old(self).step(final(self)),
            agrees(
                r,
                block_at(old(self).ts(), old(self).pos()),
                |v: Vec<Statement>| statements_view(v@),
                final(self).pos(),
            ),
        decreases self.tokens@.len() - self.position, 64int,
    {
        if !self.check(TokenKind::LBrace) {
            return Err(self.error("expected '{'"));
        }
        self.advance(1);
        let items: Vec<Statement> = Vec::new();
        proof {
            assert(statements_view(items@) =~= seq![]);
        }
        self.block_items(items)
    }

    fn block_items(&mut self, items: Vec<Statement>) -> (r: Result<Vec<Statement>, ParseError>)
        requires
            old(self).position <= old(self).tokens@.len(),
        ensures
            old(self).step(final(self)),
            agrees(
                r,
                block_items(old(self).ts(), old(self).pos(), statements_view(items@)),
                |v: Vec<Statement>| statements_view(v@),
                final(self).pos(),
            ),
        decreases self.tokens@.len() - self.position, 62int,
    {
        let k = self.kind_after(0);
        if k == TokenKind::RBrace {
            self.advance(1);
            return Ok(items);
        }
        if k == TokenKind::Eof {
            return Err(self.error("expected '}'"));
        }
        let start = self.position;
        let s = self.statement()?;
        let mut items = items;
        let ghost before = items@;
        items.push(s);
        proof {
            lemma_statements_view_push(before, s);
        }
        if self.check(TokenKind::Semicolon) {
            self.advance(1);
            self.block_items(items)
        } else if self.position > start {
            self.block_items(items)
        } else {
            Err(self.error("parser did not advance"))
        }
    }

    fn parameter(&mut self) -> (r: Result<Parameter, ParseError>)
        requires
            old(self).position <= old(self).tokens@.len(),
        ensures
            old(self).step(final(self)),
            agrees(
                r,
                parameter_at(old(self).ts(), old(self).pos()),
                |p: Parameter| parameter_view(p),
                final(self).pos(),
            ),
    {
        if !self.check(TokenKind::Identifier) {
            return Err(self.error("expected parameter name"));
        }
        let name = self.lexeme_after(0);
        self.advance(1);
        let declared_type = self.annotation()?;
        Ok(Parameter { name, declared_type })
    }

    fn parameters(&mut self) -> (r: Result<Vec<Parameter>, ParseError>)
        requires
            old(self).position <= old(self).tokens@.len(),
        ensures
            old(self).step(final(self)),
            agrees(
                r,
                parameters_at(old(self).ts(), old(self).pos()),
                |v: Vec<Parameter>| parameters_view(v@),
                final(self).pos(),
            ),
    {
        let mut items: Vec<Parameter> = Vec::new();
        if self.check(TokenKind::RParen) {
            proof {
                assert(parameters_view(items@) =~= seq![]);
            }
            return Ok(items);
        }
        let first = self.parameter()?;
        items.push(first);
        proof {
            assert(parameters_view(items@) =~= seq![parameter_view(first)]);
        }
        self.parameters_rest(items)
    }

    fn parameters_rest(&mut self, items: Vec<Parameter>) -> (r: Result<Vec<Parameter>, ParseError>)
        requires
            old(self).position <= old(self).tokens@.len(),
        ensures
            old(self).step(final(self)),
            agrees(
                r,
                parameters_rest(old(self).ts(), old(self).pos(), parameters_view(items@)),
                |v: Vec<Parameter>| parameters_view(v@),
                final(self).pos(),
            ),
        decreases self.tokens@.len() - self.position,
    {
        if self.check(TokenKind::Comma) {
            self.advance(1);
            let param = self.parameter()?;
            let mut items = items;
            let ghost before = items@;
            items.push(param);
            proof {
                assert(parameters_view(items@) =~= parameters_view(before).push(parameter_view(param)));
            }
            self.parameters_rest(items)
        } else {
            Ok(items)
        }
    }

    fn function(&mut self) -> (r: Result<Function, ParseError>)
        requires
            old(self).position <= old(self).tokens@.len(),
        ensures
            old(self).step(final(self)),
            agrees(
                r,
                function_at(old(self).ts(), old(self).pos()),
                |f: Function| function_view(f),
                final(self).pos(),
            ),
    {
        if !self.check(TokenKind::Fn) {
            return Err(self.error("expected 'fn'"));
        }
        if self.kind_after(1) != TokenKind::Identifier {
            return Err(self.error_at(1, "expected function name"));
        }
        if self.kind_after(2) != TokenKind::LParen {
            return Err(self.error_at(2, "expected '('"));
        }
        let name = self.lexeme_after(1);
        self.advance(3);
        let parameters = self.parameters()?;
        if !self.check(TokenKind::RParen) {
            return Err(self.error("expected ')'"));
        }
        self.advance(1);
        let return_type = if self.check(TokenKind::Arrow) {
            self.advance(1);
            let t = self.parse_type()?;
            Some(t)
        } else {
            None
        };
        let body = self.block()?;
        Ok(Function { name, parameters, return_type, body })
    }

    fn functions(&mut self, items: Vec<Function>) -> (r: Result<Vec<Function>, ParseError>)
        requires
            old(self).position <= old(self).tokens@.len(),
        ensures
            match (r, functions_at(old(self).ts(), old(self).pos(), functions_view(items@))) {
                (Ok(fs), Ok(v)) => functions_view(fs@) == v,
                (Err(e), Err(ev)) => e@ == ev,
                _ => false,
            },
        decreases self.tokens@.len() - self.position,
    {
        if self.check(TokenKind::Eof) {
            return Ok(items);
        }
        let start = self.position;
        let f = self.function()?;
        if self.position <= start {
            return Err(self.error("parser did not advance"));
        }
        let mut items = items;
        let ghost before = items@;
        items.push(f);
        proof {
            assert(functions_view(items@) =~= functions_view(before).push(function_view(f)));
        }
        self.functions(items)
    }
}

/// Parses a source text into a program.
pub fn parse(source: &str) -> (r: Result<Program, ParseError>)
    requires
        source@.len() < usize::MAX,
    ensures
        match (r, spec_parse(source@)) {
            (Ok(p), Ok(v)) => p@ == v,
            (Err(e), Err(ev)) => e@ == ev,
            _ => false,
        },
{
    let tokens = match lex(source) {
        Ok(tokens) => tokens,
        Err(e) => return Err(ParseError::from(e)),
    };
    let mut parser = Parser { tokens, position: 0 };
    let empty: Vec<Function> = Vec::new();
    proof {
        assert(functions_view(empty@) =~= seq![]);
    }
    let functions = parser.functions(empty)?;
    Ok(Program { functions })
}


/// The text of each binary operator in the source.
pub open spec fn operator_text(op: BinaryOperator) -> Seq<char> {
    match op {
        BinaryOperator::Add => seq!['+'],
        BinaryOperator::Subtract => seq!['-'],
        BinaryOperator::Multiply => seq!['*'],
        BinaryOperator::Divide => seq!['/'],
        BinaryOperator::Modulo => seq!['%'],
        BinaryOperator::Greater => seq!['>'],
        BinaryOperator::GreaterEqual => seq!['>', '='],
        BinaryOperator::Less => seq!['<'],
        BinaryOperator::LessEqual => seq!['<', '='],
        BinaryOperator::Equal => seq!['=', '='],
        BinaryOperator::NotEqual => seq!['!', '='],
        BinaryOperator::And => seq!['&', '&'],
        BinaryOperator::Or => seq!['|', '|'],
    }
}

/// The kind of token the lexer makes of an operator's text.
pub open spec fn token_kind_of(t: Seq<char>) -> Option<TokenKind> {
    if t.len() == 2 {
        crate::lexer::spec_pair(t[0], t[1])
    } else if t.len() == 1 {
        crate::lexer::spec_punctuation(t[0])
    } else {
        None
    }
}

/// Each operator token parses to the operator its text spells: whenever the
/// parser reads a token as a binary operator, the lexer makes that kind of
/// token of the operator's text; and every operator's token is read, at
/// some precedence level, as that operator.
pub proof fn law_operators_parse_as_spelled(level: int, k: TokenKind, op: BinaryOperator)
    ensures
        level_op(level, k) matches Some(o) ==> token_kind_of(operator_text(o)) == Some(k),
        exists|l: int| 0 <= l < 6 && #[trigger] level_op(l, token_kind_of(operator_text(op))->0)
            == Some(op),
{
    let k2 = token_kind_of(operator_text(op))->0;
    let l = match op {
        BinaryOperator::Or => 0int,
        BinaryOperator::And => 1,
        BinaryOperator::Equal | BinaryOperator::NotEqual => 2,
        BinaryOperator::Greater | BinaryOperator::GreaterEqual | BinaryOperator::Less
        | BinaryOperator::LessEqual => 3,
        BinaryOperator::Add | BinaryOperator::Subtract => 4,
        _ => 5,
    };
    assert(level_op(l, k2) == Some(op));
}

/// The precedence level at which the parser reads `op`.
pub open spec fn precedence(op: BinaryOperator) -> int {
    match op {
        BinaryOperator::Or => 0,
        BinaryOperator::And => 1,
        BinaryOperator::Equal | BinaryOperator::NotEqual => 2,
        BinaryOperator::Greater | BinaryOperator::GreaterEqual | BinaryOperator::Less
        | BinaryOperator::LessEqual => 3,
        BinaryOperator::Add | BinaryOperator::Subtract => 4,
        _ => 5,
    }
}

/// A name followed by a token that continues no expression at the levels
/// from `level` on is read there as that variable.
pub proof fn lemma_variable_at(ts: Seq<TokenView>, p: int, level: int)
    requires
        0 <= p < ts.len(),
        ts[p].kind == TokenKind::Identifier,
        kind_at(ts, p + 1) != TokenKind::LParen,
        kind_at(ts, p + 1) != TokenKind::LBracket,
        0 <= level <= 6,
        forall|l: int| level <= l < 6 ==> #[trigger] level_op(l, kind_at(ts, p + 1)) is None,
    ensures
        binary_at(ts, p, level) == Ok::<(ExpressionView, int), ParseErrorView>(
            (ExpressionView::Variable(ts[p].lexeme), p + 1),
        ),
    decreases 6 - level,
{
    let x = ExpressionView::Variable(ts[p].lexeme);
    if level == 6 {
        assert(primary_at(ts, p) == Ok::<(ExpressionView, int), ParseErrorView>((x, p + 1)));
        assert(postfix_rest(ts, p + 1, x) == Ok::<(ExpressionView, int), ParseErrorView>(
            (x, p + 1),
        ));
        assert(postfix_at(ts, p) == Ok::<(ExpressionView, int), ParseErrorView>((x, p + 1)));
        assert(unary_at(ts, p) == Ok::<(ExpressionView, int), ParseErrorView>((x, p + 1)));
    } else {
        lemma_variable_at(ts, p, level + 1);
        assert(level_op(level, kind_at(ts, p + 1)) is None);
        assert(binary_rest(ts, p + 1, level, x) == Ok::<(ExpressionView, int), ParseErrorView>(
            (x, p + 1),
        ));
    }
}

/// An expression that ends the tokens is read as it is at every lower level.
pub proof fn lemma_levels_below(ts: Seq<TokenView>, p: int, level: int, top: int, e: ExpressionView)
    requires
        0 <= level <= top < 6,
        0 <= p,
        binary_at(ts, p, top) == Ok::<(ExpressionView, int), ParseErrorView>((e, ts.len() as int)),
    ensures
        binary_at(ts, p, level) == Ok::<(ExpressionView, int), ParseErrorView>(
            (e, ts.len() as int),
        ),
    decreases top - level,
{
    if level < top {
        lemma_levels_below(ts, p, level + 1, top, e);
        assert(kind_at(ts, ts.len() as int) == TokenKind::Eof);
        assert(binary_rest(ts, ts.len() as int, level, e) == Ok::<
            (ExpressionView, int),
            ParseErrorView,
        >((e, ts.len() as int)));
    }
}

/// A binary operator between two names parses as that operator applied to
/// the two variables, whatever its precedence.
pub proof fn law_operator_between_names(ts: Seq<TokenView>, op: BinaryOperator)
    requires
        ts.len() == 3,
        ts[0].kind == TokenKind::Identifier,
        ts[1].kind == token_kind_of(operator_text(op))->0,
        ts[2].kind == TokenKind::Identifier,
    ensures
        expression_at(ts, 0) == Ok::<(ExpressionView, int), ParseErrorView>(
            (
                ExpressionView::Binary {
                    left: Box::new(ExpressionView::Variable(ts[0].lexeme)),
                    operator: op,
                    right: Box::new(ExpressionView::Variable(ts[2].lexeme)),
                },
                3,
            ),
        ),
{
    let k = ts[1].kind;
    let top = precedence(op);
    let x = ExpressionView::Variable(ts[0].lexeme);
    let y = ExpressionView::Variable(ts[2].lexeme);
    let b = ExpressionView::Binary { left: Box::new(x), operator: op, right: Box::new(y) };
    assert(level_op(top, k) == Some(op));
    assert forall|l: int| top + 1 <= l < 6 implies #[trigger] level_op(l, kind_at(ts, 1)) is None by {
    }
    assert forall|l: int| top + 1 <= l < 6 implies #[trigger] level_op(l, kind_at(ts, 3)) is None by {
    }
    lemma_variable_at(ts, 0, top + 1);
    lemma_variable_at(ts, 2, top + 1);
    assert(binary_rest(ts, 3, top, b) == Ok::<(ExpressionView, int), ParseErrorView>((b, 3)));
    assert(binary_rest(ts, 1, top, x) == Ok::<(ExpressionView, int), ParseErrorView>((b, 3)));
    assert(binary_at(ts, 0, top) == Ok::<(ExpressionView, int), ParseErrorView>((b, 3)));
    lemma_levels_below(ts, 0, 0, top, b);
}
} // verus!
