//! The lexer: turns AXIOM source text into tokens with 1-based line and
//! column positions.
use vstd::prelude::*;
use crate::text::{chars_of, push_char, string_of};

verus! {

#[derive(Debug, Clone, Copy, PartialEq, Eq, Structural)]
pub enum TokenKind {
    Fn,
    Let,
    Return,
    If,
    Else,
    While,
    For,
    Break,
    Continue,
    Struct,
    True,
    False,
    Identifier,
    Integer,
    Float,
    String,
    LParen,
    RParen,
    LBrace,
    RBrace,
    LBracket,
    RBracket,
    Semicolon,
    Colon,
    Equal,
    Plus,
    Comma,
    Arrow,
    Greater,
    GreaterEqual,
    EqualEqual,
    NotEqual,
    Minus,
    Star,
    Percent,
    Slash,
    Bang,
    And,
    Or,
    Less,
    LessEqual,
    Dot,
    Eof,
}

#[derive(Debug, Clone, PartialEq, Eq)]
pub struct Token {
    pub kind: TokenKind,
    pub lexeme: String,
    pub line: usize,
    pub column: usize,
}

#[derive(Debug, Clone, PartialEq, Eq)]
pub struct LexError {
    pub message: String,
    pub line: usize,
    pub column: usize,
}

/// A token as a mathematical value.
pub struct TokenView {
    pub kind: TokenKind,
    pub lexeme: Seq<char>,
    pub line: int,
    pub column: int,
}

/// A lexical error as a mathematical value.
pub struct LexErrorView {
    pub message: Seq<char>,
    pub line: int,
    pub column: int,
}

impl View for Token {
    type V = TokenView;

    open spec fn view(&self) -> TokenView {
        TokenView {
            kind: self.kind,
            lexeme: self.lexeme@,
            line: self.line as int,
            column: self.column as int,
        }
    }
}

impl View for LexError {
    type V = LexErrorView;

    open spec fn view(&self) -> LexErrorView {
        LexErrorView { message: self.message@, line: self.line as int, column: self.column as int }
    }
}

pub open spec fn token_views(ts: Seq<Token>) -> Seq<TokenView> {
    ts.map_values(|t: Token| t@)
}

pub open spec fn tok(kind: TokenKind, lexeme: Seq<char>, line: int, column: int) -> TokenView {
    TokenView { kind, lexeme, line, column }
}

pub open spec fn lex_err(message: Seq<char>, line: int, column: int) -> LexErrorView {
    LexErrorView { message, line, column }
}

/// `prefix` followed by the tokens of `rest`, or the error of `rest`.
pub open spec fn prepend(
    prefix: Seq<TokenView>,
    rest: Result<Seq<TokenView>, LexErrorView>,
) -> Result<Seq<TokenView>, LexErrorView> {
    match rest {
        Ok(ts) => Ok(prefix + ts),
        Err(e) => Err(e),
    }
}

pub open spec fn is_blank(c: char) -> bool {
    c == ' ' || c == '\t' || c == '\r'
}

pub open spec fn is_alpha(c: char) -> bool {
    ('a' <= c && c <= 'z') || ('A' <= c && c <= 'Z')
}

pub open spec fn is_digit(c: char) -> bool {
    '0' <= c && c <= '9'
}

pub open spec fn is_ident_start(c: char) -> bool {
    is_alpha(c) || c == '_'
}

pub open spec fn is_ident_char(c: char) -> bool {
    is_alpha(c) || is_digit(c) || c == '_'
}

/// The end of the run of identifier characters that starts at `i`.
pub open spec fn ident_end(cs: Seq<char>, i: int) -> int
    decreases cs.len() - i,
{
    if 0 <= i < cs.len() && is_ident_char(cs[i]) {
        ident_end(cs, i + 1)
    } else {
        i
    }
}

/// The end of the run of decimal digits that starts at `i`.
pub open spec fn digits_end(cs: Seq<char>, i: int) -> int
    decreases cs.len() - i,
{
    if 0 <= i < cs.len() && is_digit(cs[i]) {
        digits_end(cs, i + 1)
    } else {
        i
    }
}

/// The first line break at or after `i`, or the end of the input.
pub open spec fn line_end(cs: Seq<char>, i: int) -> int
    decreases cs.len() - i,
{
    if 0 <= i < cs.len() && cs[i] != '\n' {
        line_end(cs, i + 1)
    } else {
        i
    }
}

/// The first `"` or line break at or after `i`, or the end of the input.
pub open spec fn string_end(cs: Seq<char>, i: int) -> int
    decreases cs.len() - i,
{
    if 0 <= i < cs.len() && cs[i] != '"' && cs[i] != '\n' {
        string_end(cs, i + 1)
    } else {
        i
    }
}

pub open spec fn spec_keyword(s: Seq<char>) -> TokenKind {
    if s =~= seq!['f', 'n'] {
        TokenKind::Fn
    } else if s =~= seq!['l', 'e', 't'] {
        TokenKind::Let
    } else if s =~= seq!['r', 'e', 't', 'u', 'r', 'n'] {
        TokenKind::Return
    } else if s =~= seq!['i', 'f'] {
        TokenKind::If
    } else if s =~= seq!['e', 'l', 's', 'e'] {
        TokenKind::Else
    } else if s =~= seq!['w', 'h', 'i', 'l', 'e'] {
        TokenKind::While
    } else if s =~= seq!['f', 'o', 'r'] {
        TokenKind::For
    } else if s =~= seq!['b', 'r', 'e', 'a', 'k'] {
        TokenKind::Break
    } else if s =~= seq!['c', 'o', 'n', 't', 'i', 'n', 'u', 'e'] {
        TokenKind::Continue
    } else if s =~= seq!['s', 't', 'r', 'u', 'c', 't'] {
        TokenKind::Struct
    } else if s =~= seq!['t', 'r', 'u', 'e'] {
        TokenKind::True
    } else if s =~= seq!['f', 'a', 'l', 's', 'e'] {
        TokenKind::False
    } else {
        TokenKind::Identifier
    }
}

pub open spec fn spec_punctuation(c: char) -> Option<TokenKind> {
    if c == '(' {
        Some(TokenKind::LParen)
    } else if c == ')' {
        Some(TokenKind::RParen)
    } else if c == '{' {
        Some(TokenKind::LBrace)
    } else if c == '}' {
        Some(TokenKind::RBrace)
    } else if c == '[' {
        Some(TokenKind::LBracket)
    } else if c == ']' {
        Some(TokenKind::RBracket)
    } else if c == ';' {
        Some(TokenKind::Semicolon)
    } else if c == ':' {
        Some(TokenKind::Colon)
    } else if c == '=' {
        Some(TokenKind::Equal)
    } else if c == '+' {
        Some(TokenKind::Plus)
    } else if c == ',' {
        Some(TokenKind::Comma)
    } else if c == '>' {
        Some(TokenKind::Greater)
    } else if c == '-' {
        Some(TokenKind::Minus)
    } else if c == '*' {
        Some(TokenKind::Star)
    } else if c == '%' {
        Some(TokenKind::Percent)
    } else if c == '/' {
        Some(TokenKind::Slash)
    } else if c == '!' {
        Some(TokenKind::Bang)
    } else if c == '<' {
        Some(TokenKind::Less)
    } else if c == '.' {
        Some(TokenKind::Dot)
    } else {
        None
    }
}

/// The two-character operator spelled by `a` then `b`, if any.
pub open spec fn spec_pair(a: char, b: char) -> Option<TokenKind> {
    if a == '-' && b == '>' {
        Some(TokenKind::Arrow)
    } else if a == '=' && b == '=' {
        Some(TokenKind::EqualEqual)
    } else if a == '!' && b == '=' {
        Some(TokenKind::NotEqual)
    } else if a == '>' && b == '=' {
        Some(TokenKind::GreaterEqual)
    } else if a == '<' && b == '=' {
        Some(TokenKind::LessEqual)
    } else if a == '&' && b == '&' {
        Some(TokenKind::And)
    } else if a == '|' && b == '|' {
        Some(TokenKind::Or)
    } else {
        None
    }
}

pub open spec fn unexpected_message(c: char) -> Seq<char> {
    "unexpected character '"@ + seq![c] + "'"@
}

/// What the scanner finds at `cs[i]`, scanning from `line`, `column`:
/// blanks and comments to skip, one token, or a lexical error.
pub enum Scan {
    Skip { next: int, line: int, column: int },
    Emit { token: TokenView, next: int, column: int },
    Fail { error: LexErrorView },
}

pub open spec fn spec_scan(cs: Seq<char>, i: int, line: int, column: int) -> Scan {
    let c = cs[i];
    if is_blank(c) {
        Scan::Skip { next: i + 1, line, column: column + 1 }
    } else if c == '\n' {
        Scan::Skip { next: i + 1, line: line + 1, column: 1 }
    } else if c == '/' && i + 1 < cs.len() && cs[i + 1] == '/' {
        let j = line_end(cs, i + 2);
        Scan::Skip { next: j, line, column: column + (j - i) }
    } else if i + 1 < cs.len() && spec_pair(c, cs[i + 1]) is Some {
        Scan::Emit {
            token: tok(spec_pair(c, cs[i + 1])->0, cs.subrange(i, i + 2), line, column),
            next: i + 2,
            column: column + 2,
        }
    } else if spec_punctuation(c) is Some {
        Scan::Emit {
            token: tok(spec_punctuation(c)->0, seq![c], line, column),
            next: i + 1,
            column: column + 1,
        }
    } else if c == '"' {
        let j = string_end(cs, i + 1);
        if j >= cs.len() || cs[j] == '\n' {
            Scan::Fail { error: lex_err("unterminated string"@, line, column) }
        } else {
            Scan::Emit {
                token: tok(TokenKind::String, cs.subrange(i, j + 1), line, column),
                next: j + 1,
                column: column + (j + 1 - i),
            }
        }
    } else if is_ident_start(c) {
        let j = ident_end(cs, i);
        Scan::Emit {
            token: tok(spec_keyword(cs.subrange(i, j)), cs.subrange(i, j), line, column),
            next: j,
            column: column + (j - i),
        }
    } else if is_digit(c) {
        let j = digits_end(cs, i);
        if j + 1 < cs.len() && cs[j] == '.' && is_digit(cs[j + 1]) {
            let k = digits_end(cs, j + 1);
            Scan::Emit {
                token: tok(TokenKind::Float, cs.subrange(i, k), line, column),
                next: k,
                column: column + (k - i),
            }
        } else {
            Scan::Emit {
                token: tok(TokenKind::Integer, cs.subrange(i, j), line, column),
                next: j,
                column: column + (j - i),
            }
        }
    } else {
        Scan::Fail { error: lex_err(unexpected_message(c), line, column) }
    }
}

pub proof fn lemma_scan_progress(cs: Seq<char>, i: int, line: int, column: int)
    requires
        0 <= i < cs.len(),
    ensures
        match spec_scan(cs, i, line, column) {
            Scan::Skip { next, .. } => i < next <= cs.len(),
            Scan::Emit { next, .. } => i < next <= cs.len(),
            Scan::Fail { .. } => true,
        },
{
    lemma_line_end(cs, i + 2);
    lemma_string_end(cs, i + 1);
    lemma_ident_end(cs, i);
    lemma_ident_end(cs, i + 1);
    lemma_digits_end(cs, i);
    lemma_digits_end(cs, i + 1);
    let j = digits_end(cs, i);
    if j + 1 < cs.len() {
        lemma_digits_end(cs, j + 1);
    }
}

/// The tokens of `cs[i..]`, when scanning starts at `line`, `column`.
pub open spec fn lex_from(cs: Seq<char>, i: int, line: int, column: int) -> Result<
    Seq<TokenView>,
    LexErrorView,
>
    decreases cs.len() - i,
{
    if i < 0 || i >= cs.len() {
        Ok(seq![tok(TokenKind::Eof, seq![], line, column)])
    } else {
        proof {
            lemma_scan_progress(cs, i, line, column);
        }
        match spec_scan(cs, i, line, column) {
            Scan::Skip { next, line: next_line, column: next_column } => lex_from(
                cs,
                next,
                next_line,
                next_column,
            ),
            Scan::Emit { token, next, column: next_column } => prepend(
                seq![token],
                lex_from(cs, next, line, next_column),
            ),
            Scan::Fail { error } => Err(error),
        }
    }
}

/// The tokens of a whole source text, or the first lexical error.
pub open spec fn spec_lex(source: Seq<char>) -> Result<Seq<TokenView>, LexErrorView> {
    lex_from(source, 0, 1, 1)
}

/// Every token, and every error, of a scan that starts on a real line and
/// column lies on a real line and column, and the tokens end with the end of
/// the input.
pub open spec fn well_placed(r: Result<Seq<TokenView>, LexErrorView>) -> bool {
    match r {
        Ok(ts) => {
            &&& ts.len() > 0
            &&& ts.last().kind == TokenKind::Eof
            &&& forall|q: int| 0 <= q < ts.len() ==> #[trigger] ts[q].line >= 1 && ts[q].column >= 1
        },
        Err(e) => e.line >= 1 && e.column >= 1,
    }
}

pub proof fn lemma_lex_from_placed(cs: Seq<char>, i: int, line: int, column: int)
    requires
        line >= 1,
        column >= 1,
    ensures
        well_placed(lex_from(cs, i, line, column)),
    decreases cs.len() - i,
{
    if 0 <= i < cs.len() {
        lemma_scan_progress(cs, i, line, column);
        match spec_scan(cs, i, line, column) {
            Scan::Skip { next, line: next_line, column: next_column } => {
                lemma_line_end(cs, i + 2);
                lemma_lex_from_placed(cs, next, next_line, next_column);
            },
            Scan::Emit { token, next, column: next_column } => {
                lemma_lex_from_placed(cs, next, line, next_column);
                if let Ok(rest) = lex_from(cs, next, line, next_column) {
                    let all = seq![token] + rest;
                    assert(all.last() == rest.last());
                    assert forall|q: int| 0 <= q < all.len() implies #[trigger] all[q].line >= 1
                        && all[q].column >= 1 by {
                        if q > 0 {
                            assert(all[q] == rest[q - 1]);
                        }
                    }
                }
            },
            Scan::Fail { .. } => {},
        }
    }
}

/// Whether the token at `a` stands strictly before the one at `b`.
pub open spec fn before(a: TokenView, b: TokenView) -> bool {
    a.line < b.line || (a.line == b.line && a.column < b.column)
}

/// Whether a token stands at or after the line and column given.
pub open spec fn at_or_after(t: TokenView, line: int, column: int) -> bool {
    line < t.line || (line == t.line && column <= t.column)
}

/// The text of a token stands in `cs` from index `a` on.
pub open spec fn stands_at(cs: Seq<char>, t: TokenView, a: int) -> bool {
    0 <= a && a + t.lexeme.len() <= cs.len() && cs.subrange(a, a + t.lexeme.len()) == t.lexeme
}

/// Tokens as the lexer gives them for `cs`: the end-of-input token comes
/// last, with no text, and only there; every other token has a text that
/// stands in `cs`; and the positions strictly increase.
pub open spec fn tokens_in_order(cs: Seq<char>, ts: Seq<TokenView>) -> bool {
    &&& ts.len() > 0
    &&& ts.last().kind == TokenKind::Eof
    &&& ts.last().lexeme.len() == 0
    &&& forall|q: int|
        0 <= q < ts.len() - 1 ==> {
            &&& #[trigger] ts[q].kind != TokenKind::Eof
            &&& ts[q].lexeme.len() > 0
            &&& exists|a: int| stands_at(cs, ts[q], a)
        }
    &&& forall|q: int| 0 <= q < ts.len() - 1 ==> before(#[trigger] ts[q], ts[q + 1])
}

pub proof fn lemma_lex_from_in_order(cs: Seq<char>, i: int, line: int, column: int)
    requires
        0 <= i,
    ensures
        lex_from(cs, i, line, column) matches Ok(ts) ==> {
            &&& tokens_in_order(cs, ts)
            &&& forall|q: int| 0 <= q < ts.len() ==> at_or_after(#[trigger] ts[q], line, column)
        },
    decreases cs.len() - i,
{
    if i < cs.len() {
        lemma_scan_progress(cs, i, line, column);
        lemma_line_end(cs, i + 2);
        lemma_string_end(cs, i + 1);
        lemma_ident_end(cs, i);
        lemma_ident_end(cs, i + 1);
        lemma_digits_end(cs, i);
        lemma_digits_end(cs, i + 1);
        let j = digits_end(cs, i);
        if j + 1 < cs.len() {
            lemma_digits_end(cs, j + 1);
        }
        match spec_scan(cs, i, line, column) {
            Scan::Skip { next, line: next_line, column: next_column } => {
                lemma_lex_from_in_order(cs, next, next_line, next_column);
            },
            Scan::Emit { token, next, column: next_column } => {
                lemma_lex_from_in_order(cs, next, line, next_column);
                if let Ok(rest) = lex_from(cs, next, line, next_column) {
                    let all = seq![token] + rest;
                    assert(token.lexeme =~= cs.subrange(i, next));
                    assert(stands_at(cs, token, i));
                    assert(all.last() == rest.last());
                    assert forall|q: int| 0 <= q < all.len() - 1 implies {
                        &&& #[trigger] all[q].kind != TokenKind::Eof
                        &&& all[q].lexeme.len() > 0
                        &&& exists|a: int| stands_at(cs, all[q], a)
                    } by {
                        if q > 0 {
                            assert(all[q] == rest[q - 1]);
                        } else {
                            assert(all[0] == token);
                            assert(stands_at(cs, all[0], i));
                        }
                    }
                    assert forall|q: int| 0 <= q < all.len() - 1 implies before(
                        #[trigger] all[q],
                        all[q + 1],
                    ) by {
                        assert(all[q + 1] == rest[q]);
                        if q > 0 {
                            assert(all[q] == rest[q - 1]);
                        }
                    }
                    assert forall|q: int| 0 <= q < all.len() implies at_or_after(
                        #[trigger] all[q],
                        line,
                        column,
                    ) by {
                        if q > 0 {
                            assert(all[q] == rest[q - 1]);
                        }
                    }
                }
            },
            Scan::Fail { .. } => {},
        }
    }
}

/// The tokens of a source text come in the order of the text: each but the
/// last has a text that stands in the source and a position after the one
/// before it, and the last one is the end of the input, with no text.
pub proof fn law_tokens_in_order(source: Seq<char>)
    ensures
        spec_lex(source) matches Ok(ts) ==> tokens_in_order(source, ts),
{
    lemma_lex_from_in_order(source, 0, 1, 1);
}

pub proof fn lemma_ident_run(cs: Seq<char>, i: int)
    requires
        0 <= i <= cs.len(),
    ensures
        i <= ident_end(cs, i) <= cs.len(),
        forall|k: int| i <= k < ident_end(cs, i) ==> is_ident_char(#[trigger] cs[k]),
        ident_end(cs, i) == cs.len() || !is_ident_char(cs[ident_end(cs, i)]),
    decreases cs.len() - i,
{
    if i < cs.len() && is_ident_char(cs[i]) {
        lemma_ident_run(cs, i + 1);
    }
}

/// A token whose text starts like a word is a whole word of the source: its
/// characters are word characters, no word character follows it, and its
/// kind is that of the keyword table.
pub open spec fn whole_word(cs: Seq<char>, t: TokenView) -> bool {
    t.lexeme.len() > 0 && is_ident_start(t.lexeme[0]) ==> {
        &&& t.kind == spec_keyword(t.lexeme)
        &&& forall|k: int| 0 <= k < t.lexeme.len() ==> is_ident_char(#[trigger] t.lexeme[k])
        &&& exists|a: int|
            stands_at(cs, t, a) && (a + t.lexeme.len() == cs.len() || !is_ident_char(
                #[trigger] cs[a + t.lexeme.len()],
            ))
    }
}

pub proof fn lemma_lex_from_words(cs: Seq<char>, i: int, line: int, column: int)
    requires
        0 <= i,
    ensures
        lex_from(cs, i, line, column) matches Ok(ts) ==> forall|q: int|
            0 <= q < ts.len() ==> whole_word(cs, #[trigger] ts[q]),
    decreases cs.len() - i,
{
    if i < cs.len() {
        lemma_scan_progress(cs, i, line, column);
        match spec_scan(cs, i, line, column) {
            Scan::Skip { next, line: next_line, column: next_column } => {
                lemma_lex_from_words(cs, next, next_line, next_column);
            },
            Scan::Emit { token, next, column: next_column } => {
                lemma_lex_from_words(cs, next, line, next_column);
                if is_ident_start(cs[i]) && !(i + 1 < cs.len() && spec_pair(cs[i], cs[i + 1]) is Some)
                    && spec_punctuation(cs[i]) is None && cs[i] != '"' {
                    lemma_ident_run(cs, i);
                    let j = ident_end(cs, i);
                    assert(token.lexeme =~= cs.subrange(i, j));
                    assert(token.lexeme[0] == cs[i]);
                    assert(forall|k: int| 0 <= k < token.lexeme.len() ==> token.lexeme[k] == cs[i + k]);
                    assert(stands_at(cs, token, i));
                    if j < cs.len() {
                        assert(!is_ident_char(cs[i + token.lexeme.len()]));
                    }
                    assert(whole_word(cs, token));
                } else {
                    assert(token.lexeme.len() > 0 ==> token.lexeme[0] == cs[i]);
                    assert(whole_word(cs, token));
                }
                if let Ok(rest) = lex_from(cs, next, line, next_column) {
                    let all = seq![token] + rest;
                    assert forall|q: int| 0 <= q < all.len() implies whole_word(cs, #[trigger] all[q]) by {
                        if q > 0 {
                            assert(all[q] == rest[q - 1]);
                        }
                    }
                }
            },
            Scan::Fail { .. } => {},
        }
    }
}

/// Every word of a source text is lexed whole: a token that starts like a
/// word holds the longest run of word characters at its place, and its
/// kind is the one the keyword table gives its text.
pub proof fn law_words_are_whole(source: Seq<char>)
    ensures
        spec_lex(source) matches Ok(ts) ==> forall|q: int|
            0 <= q < ts.len() ==> whole_word(source, #[trigger] ts[q]),
{
    lemma_lex_from_words(source, 0, 1, 1);
}


pub proof fn lemma_ident_end(cs: Seq<char>, i: int)
    requires
        0 <= i,
    ensures
        i <= ident_end(cs, i) <= cs.len() || (i > cs.len() && ident_end(cs, i) == i),
        forall|k: int| i <= k < ident_end(cs, i) ==> is_ident_char(#[trigger] cs[k]),
    decreases cs.len() - i,
{
    if 0 <= i < cs.len() && is_ident_char(cs[i]) {
        lemma_ident_end(cs, i + 1);
    }
}

pub proof fn lemma_digits_end(cs: Seq<char>, i: int)
    requires
        0 <= i,
    ensures
        i <= digits_end(cs, i) <= cs.len() || (i > cs.len() && digits_end(cs, i) == i),
        forall|k: int| i <= k < digits_end(cs, i) ==> is_digit(#[trigger] cs[k]),
    decreases cs.len() - i,
{
    if 0 <= i < cs.len() && is_digit(cs[i]) {
        lemma_digits_end(cs, i + 1);
    }
}

pub proof fn lemma_line_end(cs: Seq<char>, i: int)
    requires
        0 <= i,
    ensures
        i <= line_end(cs, i) <= cs.len() || (i > cs.len() && line_end(cs, i) == i),
    decreases cs.len() - i,
{
    if 0 <= i < cs.len() && cs[i] != '\n' {
        lemma_line_end(cs, i + 1);
    }
}

pub proof fn lemma_string_end(cs: Seq<char>, i: int)
    requires
        0 <= i,
    ensures
        i <= string_end(cs, i) <= cs.len() || (i > cs.len() && string_end(cs, i) == i),
    decreases cs.len() - i,
{
    if 0 <= i < cs.len() && cs[i] != '"' && cs[i] != '\n' {
        lemma_string_end(cs, i + 1);
    }
}

proof fn lemma_prepend_assoc(
    p: Seq<TokenView>,
    q: Seq<TokenView>,
    r: Result<Seq<TokenView>, LexErrorView>,
)
    ensures
        prepend(p, prepend(q, r)) == prepend(p + q, r),
{
    match r {
        Ok(ts) => {
            assert(p + (q + ts) =~= (p + q) + ts);
        },
        Err(_) => {},
    }
}

fn is_ident_char_exec(c: char) -> (r: bool)
    ensures
        r == is_ident_char(c),
{
    ('a' <= c && c <= 'z') || ('A' <= c && c <= 'Z') || ('0' <= c && c <= '9') || c == '_'
}

fn keyword(cs: &Vec<char>, start: usize, end: usize) -> (k: TokenKind)
    requires
        start <= end <= cs@.len(),
    ensures
        k == spec_keyword(cs@.subrange(start as int, end as int)),
{
    let ghost s = cs@.subrange(start as int, end as int);
    let n = end - start;
    proof {
        assert forall|k: int| 0 <= k < n implies s[k] == cs@[start + k] by {}
    }
    if n == 2 && cs[start] == 'f' && cs[start + 1] == 'n' {
        assert(s =~= seq!['f', 'n']);
        TokenKind::Fn
    } else if n == 3 && cs[start] == 'l' && cs[start + 1] == 'e' && cs[start + 2] == 't' {
        assert(s =~= seq!['l', 'e', 't']);
        TokenKind::Let
    } else if n == 6 && cs[start] == 'r' && cs[start + 1] == 'e' && cs[start + 2] == 't' && cs[start + 3] == 'u' && cs[start + 4]
        == 'r' && cs[start + 5] == 'n' {
        assert(s =~= seq!['r', 'e', 't', 'u', 'r', 'n']);
        TokenKind::Return
    } else if n == 2 && cs[start] == 'i' && cs[start + 1] == 'f' {
        assert(s =~= seq!['i', 'f']);
        TokenKind::If
    } else if n == 4 && cs[start] == 'e' && cs[start + 1] == 'l' && cs[start + 2] == 's' && cs[start + 3] == 'e' {
        assert(s =~= seq!['e', 'l', 's', 'e']);
        TokenKind::Else
    } else if n == 5 && cs[start] == 'w' && cs[start + 1] == 'h' && cs[start + 2] == 'i' && cs[start + 3] == 'l' && cs[start + 4]
        == 'e' {
        assert(s =~= seq!['w', 'h', 'i', 'l', 'e']);
        TokenKind::While
    } else if n == 3 && cs[start] == 'f' && cs[start + 1] == 'o' && cs[start + 2] == 'r' {
        assert(s =~= seq!['f', 'o', 'r']);
        TokenKind::For
    } else if n == 5 && cs[start] == 'b' && cs[start + 1] == 'r' && cs[start + 2] == 'e' && cs[start + 3] == 'a' && cs[start + 4]
        == 'k' {
        assert(s =~= seq!['b', 'r', 'e', 'a', 'k']);
        TokenKind::Break
    } else if n == 8 && cs[start] == 'c' && cs[start + 1] == 'o' && cs[start + 2] == 'n' && cs[start + 3] == 't' && cs[start + 4]
        == 'i' && cs[start + 5] == 'n' && cs[start + 6] == 'u' && cs[start + 7] == 'e' {
        assert(s =~= seq!['c', 'o', 'n', 't', 'i', 'n', 'u', 'e']);
        TokenKind::Continue
    } else if n == 6 && cs[start] == 's' && cs[start + 1] == 't' && cs[start + 2] == 'r' && cs[start + 3] == 'u' && cs[start + 4]
        == 'c' && cs[start + 5] == 't' {
        assert(s =~= seq!['s', 't', 'r', 'u', 'c', 't']);
        TokenKind::Struct
    } else if n == 4 && cs[start] == 't' && cs[start + 1] == 'r' && cs[start + 2] == 'u' && cs[start + 3] == 'e' {
        assert(s =~= seq!['t', 'r', 'u', 'e']);
        TokenKind::True
    } else if n == 5 && cs[start] == 'f' && cs[start + 1] == 'a' && cs[start + 2] == 'l' && cs[start + 3] == 's' && cs[start + 4]
        == 'e' {
        assert(s =~= seq!['f', 'a', 'l', 's', 'e']);
        TokenKind::False
    } else {
        TokenKind::Identifier
    }
}

fn punctuation(c: char) -> (r: Option<TokenKind>)
    ensures
        r == spec_punctuation(c),
{
    if c == '(' {
        Some(TokenKind::LParen)
    } else if c == ')' {
        Some(TokenKind::RParen)
    } else if c == '{' {
        Some(TokenKind::LBrace)
    } else if c == '}' {
        Some(TokenKind::RBrace)
    } else if c == '[' {
        Some(TokenKind::LBracket)
    } else if c == ']' {
        Some(TokenKind::RBracket)
    } else if c == ';' {
        Some(TokenKind::Semicolon)
    } else if c == ':' {
        Some(TokenKind::Colon)
    } else if c == '=' {
        Some(TokenKind::Equal)
    } else if c == '+' {
        Some(TokenKind::Plus)
    } else if c == ',' {
        Some(TokenKind::Comma)
    } else if c == '>' {
        Some(TokenKind::Greater)
    } else if c == '-' {
        Some(TokenKind::Minus)
    } else if c == '*' {
        Some(TokenKind::Star)
    } else if c == '%' {
        Some(TokenKind::Percent)
    } else if c == '/' {
        Some(TokenKind::Slash)
    } else if c == '!' {
        Some(TokenKind::Bang)
    } else if c == '<' {
        Some(TokenKind::Less)
    } else if c == '.' {
        Some(TokenKind::Dot)
    } else {
        None
    }
}

fn multi_character_token(cs: &Vec<char>, index: usize) -> (r: Option<TokenKind>)
    requires
        index < cs@.len(),
    ensures
        r == (if index + 1 < cs@.len() {
            spec_pair(cs@[index as int], cs@[index + 1])
        } else {
            None
        }),
{
    if index >= cs.len() - 1 {
        return None;
    }
    let a = cs[index];
    let b = cs[index + 1];
    if a == '-' && b == '>' {
        Some(TokenKind::Arrow)
    } else if a == '=' && b == '=' {
        Some(TokenKind::EqualEqual)
    } else if a == '!' && b == '=' {
        Some(TokenKind::NotEqual)
    } else if a == '>' && b == '=' {
        Some(TokenKind::GreaterEqual)
    } else if a == '<' && b == '=' {
        Some(TokenKind::LessEqual)
    } else if a == '&' && b == '&' {
        Some(TokenKind::And)
    } else if a == '|' && b == '|' {
        Some(TokenKind::Or)
    } else {
        None
    }
}

fn line_end_exec(cs: &Vec<char>, i: usize) -> (j: usize)
    requires
        i <= cs@.len(),
    ensures
        j == line_end(cs@, i as int),
        i <= j <= cs@.len(),
{
    let mut j = i;
    while j < cs.len() && cs[j] != '\n'
        invariant
            i <= j <= cs@.len(),
            line_end(cs@, i as int) == line_end(cs@, j as int),
        decreases cs@.len() - j,
    {
        j += 1;
    }
    j
}

fn string_end_exec(cs: &Vec<char>, i: usize) -> (j: usize)
    requires
        i <= cs@.len(),
    ensures
        j == string_end(cs@, i as int),
        i <= j <= cs@.len(),
{
    let mut j = i;
    while j < cs.len() && cs[j] != '"' && cs[j] != '\n'
        invariant
            i <= j <= cs@.len(),
            string_end(cs@, i as int) == string_end(cs@, j as int),
        decreases cs@.len() - j,
    {
        j += 1;
    }
    j
}

fn ident_end_exec(cs: &Vec<char>, i: usize) -> (j: usize)
    requires
        i <= cs@.len(),
    ensures
        j == ident_end(cs@, i as int),
        i <= j <= cs@.len(),
{
    let mut j = i;
    while j < cs.len() && is_ident_char_exec(cs[j])
        invariant
            i <= j <= cs@.len(),
            ident_end(cs@, i as int) == ident_end(cs@, j as int),
        decreases cs@.len() - j,
    {
        j += 1;
    }
    j
}

fn digits_end_exec(cs: &Vec<char>, i: usize) -> (j: usize)
    requires
        i <= cs@.len(),
    ensures
        j == digits_end(cs@, i as int),
        i <= j <= cs@.len(),
{
    let mut j = i;
    while j < cs.len() && '0' <= cs[j] && cs[j] <= '9'
        invariant
            i <= j <= cs@.len(),
            digits_end(cs@, i as int) == digits_end(cs@, j as int),
        decreases cs@.len() - j,
    {
        j += 1;
    }
    j
}

pub open spec fn optional_token(t: Option<Token>) -> Seq<TokenView> {
    match t {
        Some(t) => seq![t@],
        None => seq![],
    }
}

/// One step of the scanner at `index`: a token (or nothing, for blanks and
/// comments) and the position after it, or the lexical error found there.
fn scan(cs: &Vec<char>, index: usize, line: usize, column: usize) -> (r: Result<
    (Option<Token>, usize, usize, usize),
    LexError,
>)
    requires
        index < cs@.len() < usize::MAX,
        1 <= line <= index + 1,
        1 <= column <= index + 1,
    ensures
        match (r, spec_scan(cs@, index as int, line as int, column as int)) {
            (Ok((None, i2, l2, c2)), Scan::Skip { next, line: nl, column: nc }) => {
                &&& i2 == next && l2 == nl && c2 == nc
                &&& 1 <= l2 <= i2 + 1
                &&& 1 <= c2 <= i2 + 1
            },
            (Ok((Some(t), i2, l2, c2)), Scan::Emit { token, next, column: nc }) => {
                &&& t@ == token && i2 == next && l2 == line && c2 == nc
                &&& 1 <= l2 <= i2 + 1
                &&& 1 <= c2 <= i2 + 1
            },
            (Err(e), Scan::Fail { error }) => e@ == error,
            _ => false,
        },
{
    let ghost i = index as int;
    let n = cs.len();
    let c = cs[index];
    proof {
        lemma_scan_progress(cs@, i, line as int, column as int);
    }
    if c == ' ' || c == '\t' || c == '\r' {
        return Ok((None, index + 1, line, column + 1));
    }
    if c == '\n' {
        return Ok((None, index + 1, line + 1, 1));
    }
    if c == '/' && index + 1 < n && cs[index + 1] == '/' {
        let j = line_end_exec(cs, index + 2);
        return Ok((None, j, line, column + (j - index)));
    }
    if let Some(kind) = multi_character_token(cs, index) {
        let t = Token { kind, lexeme: string_of(cs, index, index + 2), line, column };
        return Ok((Some(t), index + 2, line, column + 2));
    }
    if let Some(kind) = punctuation(c) {
        let t = Token { kind, lexeme: string_of(cs, index, index + 1), line, column };
        proof {
            assert(cs@.subrange(i, i + 1) =~= seq![c]);
        }
        return Ok((Some(t), index + 1, line, column + 1));
    }
    if c == '"' {
        let j = string_end_exec(cs, index + 1);
        if j == n || cs[j] == '\n' {
            return Err(
                LexError { message: "unterminated string".to_owned(), line, column },
            );
        }
        let t = Token {
            kind: TokenKind::String,
            lexeme: string_of(cs, index, j + 1),
            line,
            column,
        };
        return Ok((Some(t), j + 1, line, column + (j + 1 - index)));
    }
    if ('a' <= c && c <= 'z') || ('A' <= c && c <= 'Z') || c == '_' {
        let j = ident_end_exec(cs, index);
        proof {
            lemma_ident_end(cs@, i);
        }
        let t = Token {
            kind: keyword(cs, index, j),
            lexeme: string_of(cs, index, j),
            line,
            column,
        };
        return Ok((Some(t), j, line, column + (j - index)));
    }
    if '0' <= c && c <= '9' {
        let j = digits_end_exec(cs, index);
        proof {
            lemma_digits_end(cs@, i);
        }
        if j + 1 < n && cs[j] == '.' && '0' <= cs[j + 1] && cs[j + 1] <= '9' {
            let k = digits_end_exec(cs, j + 1);
            proof {
                lemma_digits_end(cs@, j + 1);
            }
            let t = Token {
                kind: TokenKind::Float,
                lexeme: string_of(cs, index, k),
                line,
                column,
            };
            return Ok((Some(t), k, line, column + (k - index)));
        }
        let t = Token {
            kind: TokenKind::Integer,
            lexeme: string_of(cs, index, j),
            line,
            column,
        };
        return Ok((Some(t), j, line, column + (j - index)));
    }
    let mut message = "unexpected character '".to_owned();
    let ghost head = message@;
    push_char(&mut message, c);
    message.append("'");
    proof {
        assert(head.push(c) =~= head + seq![c]);
    }
    Err(LexError { message, line, column })
}

/// Splits `source` into tokens.  The result ends with an `Eof` token placed
/// just after the last character; lines and columns start at 1.
pub fn lex(source: &str) -> (r: Result<Vec<Token>, LexError>)
    requires
        source@.len() < usize::MAX,
    ensures
        match (r, spec_lex(source@)) {
            (Ok(tokens), Ok(expected)) => token_views(tokens@) == expected,
            (Err(e), Err(expected)) => e@ == expected,
            _ => false,
        },
{
    let cs = chars_of(source);
    let n = cs.len();
    let mut tokens: Vec<Token> = Vec::new();
    let mut index: usize = 0;
    let mut line: usize = 1;
    let mut column: usize = 1;
    proof {
        assert(token_views(tokens@) =~= seq![]);
        match lex_from(cs@, 0, 1, 1) {
            Ok(ts) => {
                assert(seq![] + ts =~= ts);
            },
            Err(_) => {},
        }
    }
    while index < n
        invariant
            n == cs@.len(),
            cs@ == source@,
            n < usize::MAX,
            index <= n,
            1 <= line <= index + 1,
            1 <= column <= index + 1,
            spec_lex(cs@) == prepend(
                token_views(tokens@),
                lex_from(cs@, index as int, line as int, column as int),
            ),
        decreases n - index,
    {
        let ghost before = tokens@;
        match scan(&cs, index, line, column) {
            Err(e) => {
                proof {
                    lemma_scan_progress(cs@, index as int, line as int, column as int);
                    assert(lex_from(cs@, index as int, line as int, column as int) == Err::<
                        Seq<TokenView>,
                        LexErrorView,
                    >(e@));
                    assert(spec_lex(source@) == Err::<Seq<TokenView>, LexErrorView>(e@));
                }
                return Err(e);
            },
            Ok((found, next, next_line, next_column)) => {
                proof {
                    lemma_scan_progress(cs@, index as int, line as int, column as int);
                    match lex_from(cs@, next as int, next_line as int, next_column as int) {
                        Ok(ts) => {
                            assert(seq![] + ts =~= ts);
                        },
                        Err(_) => {},
                    }
                    lemma_prepend_assoc(
                        token_views(before),
                        optional_token(found),
                        lex_from(cs@, next as int, next_line as int, next_column as int),
                    );
                }
                match found {
                    Some(t) => {
                        tokens.push(t);
                        proof {
                            assert(token_views(tokens@) =~= token_views(before) + seq![t@]);
                        }
                    },
                    None => {
                        proof {
                            assert(token_views(before) + seq![] =~= token_views(before));
                        }
                    },
                }
                index = next;
                line = next_line;
                column = next_column;
            },
        }
    }
    tokens.push(Token { kind: TokenKind::Eof, lexeme: String::new(), line, column });
    proof {
        assert(token_views(tokens@) =~= token_views(tokens@.drop_last()) + seq![tokens@.last()@]);
        assert(tokens@.last()@.lexeme =~= seq![]);
    }
    Ok(tokens)
}


/// Blanks between tokens are skipped: a space, a tab or a carriage return
/// where a token could start moves the scan one column on and changes
/// nothing else, and a line feed moves it to the first column of the next
/// line.
pub proof fn law_blanks_are_skipped(cs: Seq<char>, i: int, line: int, column: int)
    requires
        0 <= i < cs.len(),
    ensures
        (cs[i] == ' ' || cs[i] == '\t' || cs[i] == '\r') ==> lex_from(cs, i, line, column)
            == lex_from(cs, i + 1, line, column + 1),
        cs[i] == '\n' ==> lex_from(cs, i, line, column) == lex_from(cs, i + 1, line + 1, 1),
{
}

pub proof fn lemma_line_end_at(cs: Seq<char>, k: int, j: int)
    requires
        0 <= k <= j <= cs.len(),
        forall|m: int| k <= m < j ==> cs[m] != '\n',
        j == cs.len() || cs[j] == '\n',
    ensures
        line_end(cs, k) == j,
    decreases j - k,
{
    if k < j {
        lemma_line_end_at(cs, k + 1, j);
    }
}

/// A comment is skipped: from `//` where a token could start up to the end of
/// its line (the line break itself is left to the next scan) the scan moves
/// on by as many columns as the comment has characters, and changes nothing
/// else.
pub proof fn law_comments_are_skipped(cs: Seq<char>, i: int, j: int, line: int, column: int)
    requires
        0 <= i,
        i + 2 <= j <= cs.len(),
        cs[i] == '/',
        cs[i + 1] == '/',
        forall|m: int| i + 2 <= m < j ==> cs[m] != '\n',
        j == cs.len() || cs[j] == '\n',
    ensures
        lex_from(cs, i, line, column) == lex_from(cs, j, line, column + (j - i)),
{
    lemma_line_end_at(cs, i + 2, j);
}

/// Two texts of one length that agree from `j` on.
pub open spec fn same_from(cs: Seq<char>, ds: Seq<char>, j: int) -> bool {
    cs.len() == ds.len() && forall|k: int| j <= k < cs.len() ==> cs[k] == ds[k]
}

pub proof fn lemma_ends_same(cs: Seq<char>, ds: Seq<char>, i: int)
    requires
        0 <= i,
        same_from(cs, ds, i),
    ensures
        ident_end(cs, i) == ident_end(ds, i),
        digits_end(cs, i) == digits_end(ds, i),
        line_end(cs, i) == line_end(ds, i),
        string_end(cs, i) == string_end(ds, i),
    decreases cs.len() - i,
{
    if i < cs.len() {
        lemma_ends_same(cs, ds, i + 1);
    }
}

/// The scan from `j` reads nothing before `j`.
pub proof fn lemma_lex_from_same(cs: Seq<char>, ds: Seq<char>, j: int, line: int, column: int)
    requires
        0 <= j,
        same_from(cs, ds, j),
    ensures
        lex_from(cs, j, line, column) == lex_from(ds, j, line, column),
    decreases cs.len() - j,
{
    if j < cs.len() {
        lemma_ends_same(cs, ds, j);
        lemma_ends_same(cs, ds, j + 1);
        lemma_ends_same(cs, ds, j + 2);
        lemma_scan_progress(cs, j, line, column);
        let dj = digits_end(cs, j);
        lemma_digits_end(cs, j);
        if dj + 1 < cs.len() {
            lemma_ends_same(cs, ds, dj + 1);
            lemma_digits_end(cs, dj + 1);
        }
        lemma_line_end(cs, j + 2);
        lemma_string_end(cs, j + 1);
        lemma_ident_end(cs, j);
        assert forall|k: int| j <= k <= cs.len() implies cs.subrange(j, k) =~= ds.subrange(
            j,
            k,
        ) by {}
        assert(spec_scan(cs, j, line, column) == spec_scan(ds, j, line, column));
        match spec_scan(cs, j, line, column) {
            Scan::Skip { next, line: l2, column: c2 } => {
                lemma_lex_from_same(cs, ds, next, l2, c2);
            },
            Scan::Emit { next, column: c2, .. } => {
                lemma_lex_from_same(cs, ds, next, line, c2);
            },
            Scan::Fail { .. } => {},
        }
    }
}

/// A tab is a blank as a space is: putting a tab for a space where a token
/// could start leaves the tokens, or the error, of the rest of the text as
/// they were.
pub proof fn law_tab_for_space(cs: Seq<char>, i: int, line: int, column: int)
    requires
        0 <= i < cs.len(),
        cs[i] == ' ',
    ensures
        lex_from(cs.update(i, '\t'), i, line, column) == lex_from(cs, i, line, column),
{
    let ds = cs.update(i, '\t');
    lemma_lex_from_same(ds, cs, i + 1, line, column + 1);
    law_blanks_are_skipped(ds, i, line, column);
    law_blanks_are_skipped(cs, i, line, column);
}
} // verus!
