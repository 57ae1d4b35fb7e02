//! The single-pass compiler: a Pratt parser that writes bytecode as it reads
//! tokens, with no syntax tree in between.
use vstd::prelude::*;
use std::collections::VecDeque;
use crate::chunks::{complete_code, lemma_complete_append, lemma_operands_append, operands_below, Chunk, MAX_CONSTANTS};
use crate::error::Reporter;
use crate::object::{list_strings, ObjectValue, RawObject, StringObject};
use crate::opcode;
use crate::pos::{Span, Spanned};
use crate::token::{kind_number, rule_of, token_text, RuleToken, Token, TokenType};
use crate::value::Value;

verus! {

/// Failure of a parsing step; what went wrong is on the reporter.
pub type ParseResult<T> = Result<T, ()>;

/// The binary operators.
#[derive(Debug, Clone, Copy, PartialEq, Eq, Hash, Structural)]
pub enum Operator {
    Minus,
    Plus,
    Star,
    Slash,
    BangEqual,
    Equal,
    EqualEqual,
    Greater,
    GreaterEqual,
    Less,
    LessEqual,
}

/// The prefix operators.
#[derive(Debug, Clone, Copy, PartialEq, Eq, Hash, Structural)]
pub enum UnaryOperator {
    Negate,
    Bang,
}

/// Binding strength, weakest first.
#[derive(Debug, Clone, Copy, PartialEq, Eq, Structural)]
pub enum Precedence {
    Lowest,
    Assignment,
    Or,
    And,
    Equality,
    Comparison,
    Term,
    Factor,
    Unary,
    Call,
    Primary,
}

/// The rank of a precedence: `Lowest` is 0, `Primary` 10.
pub open spec fn prec_level(p: Precedence) -> nat {
    match p {
        Precedence::Lowest => 0,
        Precedence::Assignment => 1,
        Precedence::Or => 2,
        Precedence::And => 3,
        Precedence::Equality => 4,
        Precedence::Comparison => 5,
        Precedence::Term => 6,
        Precedence::Factor => 7,
        Precedence::Unary => 8,
        Precedence::Call => 9,
        Precedence::Primary => 10,
    }
}

/// The next precedence up; `Primary` stays where it is.
pub open spec fn higher_spec(p: Precedence) -> Precedence {
    match p {
        Precedence::Lowest => Precedence::Assignment,
        Precedence::Assignment => Precedence::Or,
        Precedence::Or => Precedence::And,
        Precedence::And => Precedence::Equality,
        Precedence::Equality => Precedence::Comparison,
        Precedence::Comparison => Precedence::Term,
        Precedence::Term => Precedence::Factor,
        Precedence::Factor => Precedence::Unary,
        Precedence::Unary => Precedence::Call,
        Precedence::Call => Precedence::Primary,
        Precedence::Primary => Precedence::Primary,
    }
}

/// `higher` never lowers a precedence, keeps the order of two precedences,
/// and leaves `Primary` where it is.
pub proof fn lemma_higher_monotone(p: Precedence, q: Precedence)
    ensures
        prec_level(p) <= prec_level(higher_spec(p)),
        prec_level(p) <= prec_level(q) ==> prec_level(higher_spec(p)) <= prec_level(
            higher_spec(q),
        ),
        higher_spec(Precedence::Primary) == Precedence::Primary,
        higher_spec(higher_spec(Precedence::Primary)) == higher_spec(Precedence::Primary),
        p != Precedence::Primary ==> prec_level(higher_spec(p)) == prec_level(p) + 1,
{
}

impl Precedence {
    /// The next precedence up.
    pub fn higher(&self) -> (r: Precedence)
        ensures
            r == higher_spec(*self),
    {
        match self {
            Precedence::Lowest => Precedence::Assignment,
            Precedence::Assignment => Precedence::Or,
            Precedence::Or => Precedence::And,
            Precedence::And => Precedence::Equality,
            Precedence::Equality => Precedence::Comparison,
            Precedence::Comparison => Precedence::Term,
            Precedence::Term => Precedence::Factor,
            Precedence::Factor => Precedence::Unary,
            Precedence::Unary => Precedence::Call,
            Precedence::Call => Precedence::Primary,
            Precedence::Primary => Precedence::Primary,
        }
    }

    /// The rank of this precedence.
    pub fn level(&self) -> (r: u8)
        ensures
            r == prec_level(*self),
    {
        match self {
            Precedence::Lowest => 0,
            Precedence::Assignment => 1,
            Precedence::Or => 2,
            Precedence::And => 3,
            Precedence::Equality => 4,
            Precedence::Comparison => 5,
            Precedence::Term => 6,
            Precedence::Factor => 7,
            Precedence::Unary => 8,
            Precedence::Call => 9,
            Precedence::Primary => 10,
        }
    }
}

/// Parses a literal: a number, a string, `true`, `false` or `nil`.
#[derive(Debug, Clone, Copy)]
pub struct LiteralParselet;

/// Parses `-x` and `!x`.
#[derive(Debug, Clone, Copy)]
pub struct UnaryParselet;

/// Parses the right operand of a binary operator of the given precedence.
#[derive(Debug, Clone, Copy)]
pub struct BinaryParselet(pub Precedence);

/// Parses `( expression )`.
#[derive(Debug, Clone, Copy)]
pub struct GroupingParselet;

/// A parselet for a token in prefix position.
#[derive(Debug, Clone, Copy)]
pub enum PrefixParselet {
    Literal(LiteralParselet),
    Unary(UnaryParselet),
    Grouping(GroupingParselet),
}

/// The prefix table: which parselet starts an expression at a token of class `rule`.
pub open spec fn prefix_rule(rule: RuleToken) -> Option<PrefixParselet> {
    match rule {
        RuleToken::Literal => Some(PrefixParselet::Literal(LiteralParselet)),
        RuleToken::Minus | RuleToken::Bang => Some(PrefixParselet::Unary(UnaryParselet)),
        RuleToken::LParen => Some(PrefixParselet::Grouping(GroupingParselet)),
        _ => None,
    }
}

/// The precedence of the infix parselet for a token of class `rule`, if it has one.
pub open spec fn infix_prec(rule: RuleToken) -> Option<Precedence> {
    match rule {
        RuleToken::Plus | RuleToken::Minus => Some(Precedence::Term),
        RuleToken::Slash | RuleToken::Star => Some(Precedence::Factor),
        RuleToken::Comparison => Some(Precedence::Comparison),
        RuleToken::Equality => Some(Precedence::Equality),
        _ => None,
    }
}

/// The message for a token that cannot start an expression.
pub open spec fn expected_expression_msg(ty: TokenType) -> Seq<char> {
    "Expected an expression instead found `"@ + token_text(ty) + "`"@
}

/// The message for a token where a literal was expected.
pub open spec fn expected_literal_msg(ty: TokenType) -> Seq<char> {
    "Expected `{int}` or `{nil}` or `{true|false}` or `{ident}` or `{string}` found `"@
        + token_text(ty) + "` "@
}

/// A sequence is a prefix of itself with one more item.
pub proof fn lemma_prefix_push<A>(s: Seq<A>, x: A)
    ensures
        s.is_prefix_of(s.push(x)),
{
    assert(s =~= s.push(x).subrange(0, s.len() as int));
}

/// Being a prefix is transitive.
pub proof fn lemma_prefix_trans<A>(a: Seq<A>, b: Seq<A>, c: Seq<A>)
    requires
        a.is_prefix_of(b),
        b.is_prefix_of(c),
    ensures
        a.is_prefix_of(c),
{
    assert(a =~= c.subrange(0, a.len() as int)) by {
        assert forall|i: int| 0 <= i < a.len() implies a[i] == c[i] by {
            assert(a[i] == b.subrange(0, a.len() as int)[i]);
            assert(b[i] == c.subrange(0, b.len() as int)[i]);
        }
    }
}

/// The binary operator a token stands for.
pub open spec fn operator_of(ty: TokenType) -> Option<Operator> {
    match ty {
        TokenType::Minus => Some(Operator::Minus),
        TokenType::Plus => Some(Operator::Plus),
        TokenType::Star => Some(Operator::Star),
        TokenType::Slash => Some(Operator::Slash),
        TokenType::Equal => Some(Operator::Equal),
        TokenType::EqualEqual => Some(Operator::EqualEqual),
        TokenType::BangEqual => Some(Operator::BangEqual),
        TokenType::Less => Some(Operator::Less),
        TokenType::Greater => Some(Operator::Greater),
        TokenType::LessEqual => Some(Operator::LessEqual),
        TokenType::GreaterEqual => Some(Operator::GreaterEqual),
        _ => None,
    }
}

/// The bytecode written after both operands of a binary operator. `=` is
/// read as equality; `!=`, `<=` and `>=` are the negations of `==`, `>`
/// and `<`.
pub open spec fn operator_code(op: Operator) -> Seq<u8> {
    match op {
        Operator::Plus => seq![opcode::ADD],
        Operator::Minus => seq![opcode::SUB],
        Operator::Slash => seq![opcode::DIV],
        Operator::Star => seq![opcode::MUL],
        Operator::Less => seq![opcode::LESS],
        Operator::Greater => seq![opcode::GREATER],
        Operator::BangEqual => seq![opcode::EQUAL, opcode::NOT],
        Operator::EqualEqual => seq![opcode::EQUAL],
        Operator::LessEqual => seq![opcode::GREATER, opcode::NOT],
        Operator::GreaterEqual => seq![opcode::LESS, opcode::NOT],
        Operator::Equal => seq![opcode::EQUAL],
    }
}

/// What compiling a piece of the token list gives: the code, the constants
/// it adds to the pool, the index of its last token, and the source line of
/// each byte of the code.
pub type Compiled = Option<(Seq<u8>, Seq<Value>, int, Seq<u32>)>;

/// The line bytes are written at while the cursor is on token `p`: the
/// line of the token consumed last, or of the first token before any is.
pub open spec fn line_at(toks: Seq<Spanned<Token>>, p: int) -> u32 {
    if 0 < p <= toks.len() {
        toks[p - 1].span.start.line
    } else if toks.len() > 0 {
        toks[0].span.start.line
    } else {
        1
    }
}

/// `l` once for each byte of the code of `op`.
pub open spec fn operator_lines(op: Operator, l: u32) -> Seq<u32> {
    if operator_code(op).len() == 2 {
        seq![l, l]
    } else {
        seq![l]
    }
}

/// The code of the literal at index `i`, with `k` constants already in the
/// pool: numbers and strings become `CONSTANT k` with the value added to the
/// pool (there is no room past 256), `true`, `false` and `nil` their own
/// opcode. Any other token is no literal.
pub open spec fn literal_code(toks: Seq<Spanned<Token>>, nums: Seq<u32>, i: int, k: nat) -> Compiled {
    if i < 0 || i >= toks.len() {
        None
    } else {
        match toks[i].value.ty {
            TokenType::Number(_) => if k < MAX_CONSTANTS {
                Some((seq![opcode::CONSTANT, k as u8], seq![Value::Number(nums[i])], i, seq![line_at(toks, i), line_at(toks, i)]))
            } else {
                None
            },
            TokenType::String(s) => if k < MAX_CONSTANTS {
                Some((seq![opcode::CONSTANT, k as u8], seq![Value::Object(ObjectValue::Str(s))], i, seq![line_at(toks, i), line_at(toks, i)]))
            } else {
                None
            },
            TokenType::True => Some((seq![opcode::TRUE], Seq::empty(), i, seq![line_at(toks, i)])),
            TokenType::False => Some((seq![opcode::FALSE], Seq::empty(), i, seq![line_at(toks, i)])),
            TokenType::Nil => Some((seq![opcode::NIL], Seq::empty(), i, seq![line_at(toks, i)])),
            _ => None,
        }
    }
}

/// The code of an expression of at least precedence `p` that starts at
/// index `i`: an operand, then each following operator that binds at least
/// as tightly as `p`, with its right operand.
pub open spec fn expr_code(toks: Seq<Spanned<Token>>, nums: Seq<u32>, i: int, p: Precedence, k: nat) -> Compiled
    decreases toks.len() - i, 3nat,
{
    if i < 0 || i >= toks.len() {
        None
    } else {
        match prefix_code(toks, nums, i, k) {
            None => None,
            Some(r) => if i <= r.2 < toks.len() {
                infix_code(toks, nums, r.2, p, k, r.0, r.1, r.3)
            } else {
                None
            },
        }
    }
}

/// The code of the operand that starts at index `i`, chosen by its first
/// token: a literal, a prefix operator or a group.
pub open spec fn prefix_code(toks: Seq<Spanned<Token>>, nums: Seq<u32>, i: int, k: nat) -> Compiled
    decreases toks.len() - i, 2nat,
{
    if i < 0 || i >= toks.len() {
        None
    } else {
        match toks[i].value.ty {
            TokenType::Minus | TokenType::Bang => unary_code(toks, nums, i, k),
            TokenType::LParen => group_code(toks, nums, i, k),
            _ => literal_code(toks, nums, i, k),
        }
    }
}

/// `-x` or `!x` at index `i`: the code of `x` at `Unary` precedence, then
/// `NEGATE` or `NOT`.
pub open spec fn unary_code(toks: Seq<Spanned<Token>>, nums: Seq<u32>, i: int, k: nat) -> Compiled
    decreases toks.len() - i, 1nat,
{
    if i < 0 || i >= toks.len() || !(toks[i].value.ty is Minus || toks[i].value.ty is Bang) {
        None
    } else {
        match expr_code(toks, nums, i + 1, Precedence::Unary, k) {
            Some(r) => Some((
                r.0.push(if toks[i].value.ty is Minus { opcode::NEGATE } else { opcode::NOT }),
                r.1,
                r.2,
                r.3.push(line_at(toks, r.2)),
            )),
            None => None,
        }
    }
}

/// A group whose `(` is at index `i`: the code of the inner expression,
/// which a `)` must follow.
pub open spec fn group_code(toks: Seq<Spanned<Token>>, nums: Seq<u32>, i: int, k: nat) -> Compiled
    decreases toks.len() - i, 1nat,
{
    if i < 0 || i >= toks.len() {
        None
    } else {
        match expr_code(toks, nums, i + 1, Precedence::Assignment, k) {
            Some(r) => if r.2 + 1 < toks.len() && toks[r.2 + 1].value.ty is RParen {
                Some((r.0, r.1, r.2 + 1, r.3))
            } else {
                None
            },
            None => None,
        }
    }
}

/// The operator after index `j`, of precedence `q`, with its right operand:
/// the operand's code at one level above `q`, then the operator's code.
pub open spec fn binary_code(toks: Seq<Spanned<Token>>, nums: Seq<u32>, j: int, q: Precedence, k: nat) -> Compiled
    decreases toks.len() - j, 1nat,
{
    if j < 0 || j + 1 >= toks.len() {
        None
    } else {
        match operator_of(toks[j + 1].value.ty) {
            None => None,
            Some(op) => match expr_code(toks, nums, j + 2, higher_spec(q), k) {
                Some(r) => Some((r.0 + operator_code(op), r.1, r.2, r.3 + operator_lines(op, line_at(toks, r.2)))),
                None => None,
            },
        }
    }
}

/// Continues an expression of at least precedence `p` whose code so far
/// is `code`, with the constants `consts` and the line table `lines`, and
/// whose last token is at `j`.
pub open spec fn infix_code(
    toks: Seq<Spanned<Token>>,
    nums: Seq<u32>,
    j: int,
    p: Precedence,
    k: nat,
    code: Seq<u8>,
    consts: Seq<Value>,
    lines: Seq<u32>,
) -> Compiled
    decreases toks.len() - j, 2nat,
{
    if j < 0 || j + 1 >= toks.len() {
        Some((code, consts, j, lines))
    } else {
        match infix_prec(rule_of(toks[j + 1].value.ty)) {
            None => Some((code, consts, j, lines)),
            Some(q) => if prec_level(q) < prec_level(p) {
                Some((code, consts, j, lines))
            } else {
                match binary_code(toks, nums, j, q, k + consts.len()) {
                    None => None,
                    Some(r) => if j < r.2 < toks.len() {
                        infix_code(toks, nums, r.2, p, k, code + r.0, consts + r.1, lines + r.3)
                    } else {
                        None
                    },
                }
            },
        }
    }
}

/// The code of a whole program from index `i`: one expression at
/// `Assignment` precedence, which the end of input must follow, then `RETURN`.
pub open spec fn program_code(toks: Seq<Spanned<Token>>, nums: Seq<u32>, i: int, k: nat) -> Option<(Seq<u8>, Seq<Value>, Seq<u32>)> {
    match expr_code(toks, nums, i, Precedence::Assignment, k) {
        Some(r) => if r.2 + 1 < toks.len() && toks[r.2 + 1].value.ty is EOF {
            Some((r.0.push(opcode::RETURN), r.1, r.3.push(line_at(toks, r.2 + 1))))
        } else {
            None
        },
        None => None,
    }
}

/// The message and span of the diagnostic a failed step records.
pub type Failure = (Seq<char>, Span);

/// Why the literal at index `i` cannot be compiled; `end` is the end span.
pub open spec fn literal_err(toks: Seq<Spanned<Token>>, i: int, k: nat, end: Span) -> Failure {
    if i < 0 || i >= toks.len() {
        ("Unexpected EOF"@, end)
    } else if (toks[i].value.ty is Number || toks[i].value.ty is String) && k >= MAX_CONSTANTS {
        ("Too many constants in one chunk"@, toks[i].span)
    } else {
        (expected_literal_msg(toks[i].value.ty), toks[i].span)
    }
}

/// Why the expression at index `i` cannot be compiled.
pub open spec fn expr_err(toks: Seq<Spanned<Token>>, nums: Seq<u32>, i: int, p: Precedence, k: nat, end: Span) -> Failure
    decreases toks.len() - i, 3nat,
{
    if i < 0 || i >= toks.len() {
        ("Unexpected EOF"@, end)
    } else if prefix_rule(rule_of(toks[i].value.ty)) is None {
        (expected_expression_msg(toks[i].value.ty), toks[i].span)
    } else {
        match prefix_code(toks, nums, i, k) {
            None => prefix_err(toks, nums, i, k, end),
            Some(r) => if i <= r.2 < toks.len() {
                infix_err(toks, nums, r.2, p, k, r.0, r.1, r.3, end)
            } else {
                ("Unexpected EOF"@, end)
            },
        }
    }
}

/// Why the operand at index `i` cannot be compiled.
pub open spec fn prefix_err(toks: Seq<Spanned<Token>>, nums: Seq<u32>, i: int, k: nat, end: Span) -> Failure
    decreases toks.len() - i, 2nat,
{
    if i < 0 || i >= toks.len() {
        ("Unexpected EOF"@, end)
    } else {
        match toks[i].value.ty {
            TokenType::Minus | TokenType::Bang => unary_err(toks, nums, i, k, end),
            TokenType::LParen => group_err(toks, nums, i, k, end),
            _ => literal_err(toks, i, k, end),
        }
    }
}

/// Why the prefix operator at index `i` with its operand cannot be compiled.
pub open spec fn unary_err(toks: Seq<Spanned<Token>>, nums: Seq<u32>, i: int, k: nat, end: Span) -> Failure
    decreases toks.len() - i, 1nat,
{
    if i < 0 || i >= toks.len() {
        ("Unexpected EOF"@, end)
    } else if !(toks[i].value.ty is Minus || toks[i].value.ty is Bang) {
        ("Expected `!` or `-` found "@ + token_text(toks[i].value.ty), toks[i].span)
    } else {
        expr_err(toks, nums, i + 1, Precedence::Unary, k, end)
    }
}

/// Why the group at index `i` cannot be compiled.
pub open spec fn group_err(toks: Seq<Spanned<Token>>, nums: Seq<u32>, i: int, k: nat, end: Span) -> Failure
    decreases toks.len() - i, 1nat,
{
    if i < 0 || i >= toks.len() {
        ("Unexpected EOF"@, end)
    } else {
        match expr_code(toks, nums, i + 1, Precedence::Assignment, k) {
            None => expr_err(toks, nums, i + 1, Precedence::Assignment, k, end),
            Some(r) => ("Expected ')'"@, if r.2 + 1 < toks.len() { toks[r.2 + 1].span } else { end }),
        }
    }
}

/// Why the operator after index `j` with its right operand cannot be compiled.
pub open spec fn binary_err(toks: Seq<Spanned<Token>>, nums: Seq<u32>, j: int, q: Precedence, k: nat, end: Span) -> Failure
    decreases toks.len() - j, 1nat,
{
    if j < 0 || j >= toks.len() {
        ("Unexpected EOF"@, end)
    } else if j + 1 >= toks.len() {
        ("Expected a binary operator found "@ + "\0"@, end)
    } else if operator_of(toks[j + 1].value.ty) is None {
        ("Expected a binary operator found "@ + token_text(toks[j + 1].value.ty), toks[j + 1].span)
    } else {
        expr_err(toks, nums, j + 2, higher_spec(q), k, end)
    }
}

/// Why continuing the expression whose last token is at `j` fails.
pub open spec fn infix_err(
    toks: Seq<Spanned<Token>>,
    nums: Seq<u32>,
    j: int,
    p: Precedence,
    k: nat,
    code: Seq<u8>,
    consts: Seq<Value>,
    lines: Seq<u32>,
    end: Span,
) -> Failure
    decreases toks.len() - j, 2nat,
{
    if j < 0 || j + 1 >= toks.len() {
        ("Unexpected EOF"@, end)
    } else {
        match infix_prec(rule_of(toks[j + 1].value.ty)) {
            None => ("Unexpected EOF"@, end),
            Some(q) => match binary_code(toks, nums, j, q, k + consts.len()) {
                None => binary_err(toks, nums, j, q, k + consts.len(), end),
                Some(r) => if j < r.2 < toks.len() {
                    infix_err(toks, nums, r.2, p, k, code + r.0, consts + r.1, lines + r.3, end)
                } else {
                    ("Unexpected EOF"@, end)
                },
            },
        }
    }
}

/// Why the program from index `i` cannot be compiled.
pub open spec fn program_err(toks: Seq<Spanned<Token>>, nums: Seq<u32>, i: int, k: nat, end: Span) -> Failure {
    match expr_code(toks, nums, i, Precedence::Assignment, k) {
        None => expr_err(toks, nums, i, Precedence::Assignment, k, end),
        Some(r) => ("Expected EOF"@, if r.2 + 1 < toks.len() { toks[r.2 + 1].span } else { end }),
    }
}

/// Whether `after` holds exactly one more diagnostic than `before`: the
/// error `f`.
pub open spec fn reports(before: &Compiler, after: &Compiler, f: Failure) -> bool {
    &&& after.reporter.view_diagnostics().len() == before.reporter.view_diagnostics().len() + 1
    &&& after.reporter.view_diagnostics().last().msg@ == f.0
    &&& after.reporter.view_diagnostics().last().span == f.1
    &&& after.reporter.view_diagnostics().last().level == crate::error::Level::Error
}

/// Whether `after` holds what `compiled` says: the code and constants
/// appended, the cursor on the last token; or failure where it is `None`.
pub open spec fn yields(before: &Compiler, after: &Compiler, r: ParseResult<()>, compiled: Compiled) -> bool {
    match compiled {
        Some(c) => {
            &&& r is Ok
            &&& after.chunk_spec().code@ == before.chunk_spec().code@ + c.0
            &&& after.chunk_spec().constants@ == before.chunk_spec().constants@ + c.1
            &&& after.pos() == c.2
            &&& after.chunk_spec().lines@ == before.chunk_spec().lines@ + c.3
        },
        None => r is Err,
    }
}

/// The compiler state: the token cursor, the chunk being written, the
/// finished chunks, the reporter and the list of objects made so far.
pub struct Compiler {
    pub chunk: Chunk,
    pub chunks: Vec<Chunk>,
    pub current_token: Option<Spanned<Token>>,
    pub current_number: u32,
    pub tokens: VecDeque<Spanned<Token>>,
    pub numbers: VecDeque<u32>,
    pub reporter: Reporter,
    pub line: u32,
    /// The list of all objects made so far; it goes to the machine that runs the code.
    pub objects: RawObject,
    /// Every token the compiler was given, the consumed ones included.
    pub all: Ghost<Seq<Spanned<Token>>>,
    /// The number value given beside each token.
    pub all_numbers: Ghost<Seq<u32>>,
}

impl Compiler {
    /// How many tokens are left, the current one included.
    pub open spec fn remaining(&self) -> nat {
        self.tokens@.len() + if self.current_token is Some {
            1nat
        } else {
            0nat
        }
    }

    /// The token under consideration.
    pub open spec fn current_spec(&self) -> Option<Spanned<Token>> {
        self.current_token
    }

    /// The tokens after the current one.
    pub open spec fn rest(&self) -> Seq<Spanned<Token>> {
        self.tokens@
    }

    /// The chunk being written.
    pub open spec fn chunk_spec(&self) -> Chunk {
        self.chunk
    }

    /// The line that emitted bytes are attributed to.
    pub open spec fn line_spec(&self) -> u32 {
        self.line
    }

    /// The chunk being written and every finished chunk are well formed,
    /// hold whole instructions whose constant operands index their pool,
    /// and each token has its number beside it.
    pub open spec fn wf(&self) -> bool {
        &&& self.chunk_spec().wf()
        &&& complete_code(self.chunk_spec().code@)
        &&& operands_below(self.chunk_spec().code@, self.chunk_spec().constants@.len())
        &&& forall|i: int|
            0 <= i < self.chunks@.len() ==> (#[trigger] self.chunks@[i]).wf() && complete_code(self.chunks@[i].code@)
                && operands_below(self.chunks@[i].code@, self.chunks@[i].constants@.len())
        &&& self.numbers_match()
        &&& self.current_spec() is None ==> self.rest().len() == 0
        &&& self.cursor_wf()
    }

    /// The index of the current token among all the tokens.
    pub open spec fn pos(&self) -> int {
        self.all@.len() - self.remaining()
    }

    /// The cursor is a position in the list of all tokens: the current
    /// token and its number are the ones at that position, the rest follow.
    pub open spec fn cursor_wf(&self) -> bool {
        &&& self.all@.len() == self.all_numbers@.len()
        &&& self.remaining() <= self.all@.len()
        &&& self.pos() < self.all@.len() ==> {
            &&& self.current_token == Some(self.all@[self.pos()])
            &&& self.current_number == self.all_numbers@[self.pos()]
            &&& self.tokens@ == self.all@.skip(self.pos() + 1)
            &&& self.numbers@ == self.all_numbers@.skip(self.pos() + 1)
        }
        &&& self.pos() >= self.all@.len() ==> self.current_token is None && self.tokens@.len() == 0
        &&& self.line == line_at(self.all@, self.pos())
    }

    /// Each token after the current one has a number value beside it.
    pub open spec fn numbers_match(&self) -> bool {
        self.numbers@.len() == self.tokens@.len()
    }

    /// What a parsing step keeps: well-formedness, the finished chunks, the
    /// end span; it moves the cursor forward only; the code it writes is
    /// appended; and it fails exactly when it reports.
    pub open spec fn step_post(&self, after: &Compiler, r: ParseResult<()>) -> bool {
        &&& after.wf()
        &&& after.all == self.all
        &&& after.all_numbers == self.all_numbers
        &&& after.remaining() <= self.remaining()
        &&& after.chunks == self.chunks
        &&& after.reporter.end_span() == self.reporter.end_span()
        &&& self.chunk_spec().code@.is_prefix_of(after.chunk_spec().code@)
        &&& self.chunk_spec().constants@.is_prefix_of(after.chunk_spec().constants@)
        &&& self.reporter.view_diagnostics().is_prefix_of(after.reporter.view_diagnostics())
        &&& (r is Ok ==> after.reporter.view_diagnostics() == self.reporter.view_diagnostics())
        &&& (r is Err ==> after.reporter.view_diagnostics().len()
            > self.reporter.view_diagnostics().len())
    }

    /// Whether `other` has the same cursor, current line and object list.
    pub open spec fn same_cursor(&self, other: &Compiler) -> bool {
        &&& self.current_token == other.current_token
        &&& self.current_number == other.current_number
        &&& self.tokens == other.tokens
        &&& self.numbers == other.numbers
        &&& self.line == other.line
        &&& self.objects == other.objects
        &&& self.all == other.all
        &&& self.all_numbers == other.all_numbers
    }

    /// A compiler over `tokens`; `numbers[i]` is the `f32` encoding of
    /// `tokens[i]` where that is a number literal, and is not read otherwise.
    pub fn new(reporter: Reporter, tokens: Vec<Spanned<Token>>, numbers: Vec<u32>) -> (r: Compiler)
        requires
            numbers@.len() == tokens@.len(),
        ensures
            r.wf(),
            r.reporter == reporter,
            r.chunks@.len() == 0,
            r.objects is None,
            r.chunk_spec().code@.len() == 0,
            r.chunk_spec().constants@.len() == 0,
            tokens@.len() == 0 ==> r.current_spec() is None,
            tokens@.len() > 0 ==> r.current_spec() == Some(tokens@[0]) && r.rest() == tokens@.skip(1),
            r.all@ == tokens@,
            r.all_numbers@ == numbers@,
            r.pos() == 0,
    {
        let mut queue: VecDeque<Spanned<Token>> = VecDeque::new();
        let mut values: VecDeque<u32> = VecDeque::new();
        let mut tokens = tokens;
        let mut numbers = numbers;
        let ghost all = tokens@;
        let ghost all_nums = numbers@;
        // move the tokens over from the back, so that each is taken, not copied
        while tokens.len() > 0
            invariant
                numbers@.len() == tokens@.len(),
                values@.len() == queue@.len(),
                all == tokens@ + queue@,
                all_nums == numbers@ + values@,
            decreases tokens@.len(),
        {
            let t = tokens.pop().unwrap();
            let n = numbers.pop().unwrap();
            queue.push_front(t);
            values.push_front(n);
            proof {
                assert(all =~= tokens@ + queue@);
                assert(all_nums =~= numbers@ + values@);
            }
        }
        assert(queue@ =~= all);
        assert(values@ =~= all_nums);
        let current_token = queue.pop_front();
        // until a token has been consumed, bytes belong to the first token's line
        let line = match &current_token {
            Some(t) => t.span.start.line,
            None => 1,
        };
        let current_number = match values.pop_front() {
            Some(n) => n,
            None => 0,
        };
        proof {
            if all.len() > 0 {
                assert(queue@ =~= all.skip(1));
                assert(values@ =~= all_nums.skip(1));
            }
        }
        let r = Compiler {
            chunk: Chunk::new(),
            chunks: Vec::new(),
            current_token,
            current_number,
            tokens: queue,
            numbers: values,
            reporter,
            line,
            objects: None,
            all: Ghost(all),
            all_numbers: Ghost(all_nums),
        };
        proof {
            assert(complete_code(r.chunk.code@));
        }
        r
    }

    /// The parselet that starts an expression at a token of class `ty`.
    pub fn prefix(&self, ty: RuleToken) -> (r: Option<PrefixParselet>)
        ensures
            r == prefix_rule(ty),
    {
        match ty {
            RuleToken::Literal => Some(PrefixParselet::Literal(LiteralParselet)),
            RuleToken::Minus | RuleToken::Bang => Some(PrefixParselet::Unary(UnaryParselet)),
            RuleToken::LParen => Some(PrefixParselet::Grouping(GroupingParselet)),
            _ => None,
        }
    }

    /// The parselet that continues an expression at a token of class `ty`.
    pub fn infix(&self, ty: RuleToken) -> (r: Option<BinaryParselet>)
        ensures
            r is Some <==> infix_prec(ty) is Some,
            r is Some ==> r.unwrap().0 == infix_prec(ty).unwrap(),
    {
        match ty {
            RuleToken::Plus | RuleToken::Minus => Some(BinaryParselet(Precedence::Term)),
            RuleToken::Slash | RuleToken::Star => Some(BinaryParselet(Precedence::Factor)),
            RuleToken::Comparison => Some(BinaryParselet(Precedence::Comparison)),
            RuleToken::Equality => Some(BinaryParselet(Precedence::Equality)),
            _ => None,
        }
    }

    /// Records an error.
    pub fn error(&mut self, msg: String, span: Span)
        ensures
            final(self).same_cursor(&*old(self)),
            final(self).reporter.view_diagnostics() == old(self).reporter.view_diagnostics().push(
                crate::error::Diagnostic { msg, span, level: crate::error::Level::Error },
            ),
            final(self).reporter.end_span() == old(self).reporter.end_span(),
            final(self).chunks == old(self).chunks,
            final(self).chunk_spec() == old(self).chunk_spec(),
            final(self).remaining() == old(self).remaining(),
            final(self).wf() == old(self).wf(),
    {
        self.reporter.error(msg, span)
    }

    /// Records that the input ended too early, at the end span.
    fn eof_error(&mut self)
        ensures
            final(self).same_cursor(&*old(self)),
            final(self).reporter.view_diagnostics() == old(self).reporter.view_diagnostics().push(
                crate::error::Diagnostic {
                    msg: final(self).reporter.view_diagnostics().last().msg,
                    span: old(self).reporter.end_span(),
                    level: crate::error::Level::Error,
                },
            ),
            final(self).reporter.view_diagnostics().last().msg@ == "Unexpected EOF"@,
            final(self).reporter.end_span() == old(self).reporter.end_span(),
            final(self).chunks == old(self).chunks,
            final(self).chunk_spec() == old(self).chunk_spec(),
            final(self).remaining() == old(self).remaining(),
            final(self).wf() == old(self).wf(),
    {
        let end = self.reporter.end();
        self.error(String::from_str("Unexpected EOF"), end);
    }

    /// Appends one byte at the current line; `CONSTANT` goes through `emit_constant`.
    pub fn emit_byte(&mut self, byte: u8)
        requires
            old(self).wf(),
            byte != opcode::CONSTANT,
        ensures
            final(self).same_cursor(&*old(self)),
            final(self).wf(),
            final(self).chunk_spec().code@ == old(self).chunk_spec().code@.push(byte),
            final(self).chunk_spec().lines@ == old(self).chunk_spec().lines@.push(old(self).line_spec()),
            final(self).chunk_spec().constants@ == old(self).chunk_spec().constants@,
            final(self).chunks == old(self).chunks,
            final(self).reporter == old(self).reporter,
            final(self).remaining() == old(self).remaining(),
    {
        proof {
            assert(complete_code(seq![byte].skip(1))) by {
                assert(seq![byte].skip(1) =~= Seq::<u8>::empty());
            }
            lemma_complete_append(self.chunk.code@, seq![byte]);
            assert(operands_below(seq![byte].skip(1), self.chunk.constants@.len()));
            lemma_operands_append(self.chunk.code@, seq![byte], self.chunk.constants@.len(), self.chunk.constants@.len());
            assert(self.chunk.code@ + seq![byte] =~= self.chunk.code@.push(byte));
        }
        self.chunk.write(byte, self.line)
    }

    /// Appends two bytes at the current line: an opcode and its operand, or
    /// two opcodes.
    pub fn emit_bytes(&mut self, byte1: u8, byte2: u8)
        requires
            old(self).wf(),
            byte1 == opcode::CONSTANT || byte2 != opcode::CONSTANT,
            byte1 == opcode::CONSTANT ==> (byte2 as nat) < old(self).chunk_spec().constants@.len(),
        ensures
            final(self).same_cursor(&*old(self)),
            final(self).wf(),
            final(self).chunk_spec().code@ == old(self).chunk_spec().code@.push(byte1).push(byte2),
            final(self).chunk_spec().lines@ == old(self).chunk_spec().lines@.push(
                old(self).line_spec(),
            ).push(old(self).line_spec()),
            final(self).chunk_spec().constants@ == old(self).chunk_spec().constants@,
            final(self).chunks == old(self).chunks,
            final(self).reporter == old(self).reporter,
            final(self).remaining() == old(self).remaining(),
    {
        proof {
            let two = seq![byte1, byte2];
            assert(two.skip(2) =~= Seq::<u8>::empty());
            assert(complete_code(Seq::<u8>::empty()));
            assert(two[0] == byte1);
            assert(two.skip(1).skip(1) =~= Seq::<u8>::empty());
            assert(two.skip(1)[0] == byte2);
            if byte1 != opcode::CONSTANT {
                assert(complete_code(two.skip(1).skip(1)));
                assert(complete_code(two.skip(1)));
            }
            assert(complete_code(two));
            lemma_complete_append(self.chunk.code@, two);
            let n = self.chunk.constants@.len();
            assert(operands_below(Seq::<u8>::empty(), n));
            if byte1 != opcode::CONSTANT {
                assert(operands_below(two.skip(1).skip(1), n));
                assert(operands_below(two.skip(1), n));
            }
            assert(operands_below(two, n));
            lemma_operands_append(self.chunk.code@, two, n, n);
            assert(self.chunk.code@ + two =~= self.chunk.code@.push(byte1).push(byte2));
        }
        self.chunk.write(byte1, self.line);
        self.chunk.write(byte2, self.line);
    }

    /// Adds `value` to the pool and returns its index; fails with "Too many
    /// constants in one chunk" at the current token when the pool is full.
    pub fn make_constant(&mut self, value: Value) -> (r: ParseResult<u8>)
        requires
            old(self).wf(),
        ensures
            final(self).same_cursor(&*old(self)),
            final(self).wf(),
            final(self).chunks == old(self).chunks,
            final(self).remaining() == old(self).remaining(),
            final(self).reporter.end_span() == old(self).reporter.end_span(),
            final(self).chunk_spec().code@ == old(self).chunk_spec().code@,
            final(self).chunk_spec().lines@ == old(self).chunk_spec().lines@,
            old(self).chunk_spec().constants@.len() < MAX_CONSTANTS ==> {
                &&& r == Ok::<u8, ()>(old(self).chunk_spec().constants@.len() as u8)
                &&& final(self).chunk_spec().constants@ == old(self).chunk_spec().constants@.push(value)
                &&& final(self).reporter == old(self).reporter
            },
            old(self).chunk_spec().constants@.len() >= MAX_CONSTANTS ==> {
                &&& r is Err
                &&& final(self).chunk_spec().constants@ == old(self).chunk_spec().constants@
                &&& final(self).reporter.view_diagnostics().len() == old(self).reporter.view_diagnostics().len() + 1
                &&& old(self).reporter.view_diagnostics().is_prefix_of(final(self).reporter.view_diagnostics())
                &&& final(self).reporter.view_diagnostics().last().msg@ == "Too many constants in one chunk"@
                &&& final(self).reporter.view_diagnostics().last().span == match old(self).current_spec() {
                    Some(t) => t.span,
                    None => old(self).reporter.end_span(),
                }
                &&& final(self).reporter.view_diagnostics().last().level == crate::error::Level::Error
            },
    {
        if self.chunk.constants.len() >= MAX_CONSTANTS {
            let span = match &self.current_token {
                Some(t) => t.span,
                None => self.reporter.end(),
            };
            self.error(String::from_str("Too many constants in one chunk"), span);
            proof {
                assert(old(self).reporter.view_diagnostics().is_prefix_of(self.reporter.view_diagnostics()));
            }
            Err(())
        } else {
            proof {
                let n = self.chunk.constants@.len();
                assert(operands_below(Seq::<u8>::empty(), n + 1));
                lemma_operands_append(self.chunk.code@, Seq::<u8>::empty(), n, n + 1);
                assert(self.chunk.code@ + Seq::<u8>::empty() =~= self.chunk.code@);
            }
            let index = self.chunk.add_constant(value);
            Ok(index as u8)
        }
    }

    /// Adds `constant` to the pool and appends `CONSTANT <index>`.
    pub fn emit_constant(&mut self, constant: Value) -> (r: ParseResult<()>)
        requires
            old(self).wf(),
        ensures
            final(self).same_cursor(&*old(self)),
            old(self).step_post(&*final(self), r),
            final(self).remaining() == old(self).remaining(),
            old(self).chunk_spec().constants@.len() < MAX_CONSTANTS <==> r is Ok,
            r is Ok ==> final(self).chunk_spec().code@ == old(self).chunk_spec().code@.push(
                opcode::CONSTANT,
            ).push(old(self).chunk_spec().constants@.len() as u8),
            r is Ok ==> final(self).chunk_spec().constants@ == old(self).chunk_spec().constants@.push(constant),
            r is Ok ==> final(self).chunk_spec().lines@ == old(self).chunk_spec().lines@.push(
                old(self).line_spec(),
            ).push(old(self).line_spec()),
            r is Err ==> final(self).chunk_spec().code@ == old(self).chunk_spec().code@
                && final(self).chunk_spec().lines@ == old(self).chunk_spec().lines@,
            r is Err ==> final(self).reporter.view_diagnostics().last().msg@ == "Too many constants in one chunk"@
                && final(self).reporter.view_diagnostics().len() == old(self).reporter.view_diagnostics().len() + 1
                && final(self).reporter.view_diagnostics().last().span == match old(self).current_spec() {
                    Some(t) => t.span,
                    None => old(self).reporter.end_span(),
                } && final(self).reporter.view_diagnostics().last().level == crate::error::Level::Error,
    {
        let value = self.make_constant(constant)?;
        self.emit_bytes(opcode::CONSTANT, value);
        Ok(())
    }

    /// Closes the chunk being written with `RETURN`, files it with the
    /// finished chunks and starts an empty one.
    pub fn end_chunk(&mut self)
        requires
            old(self).wf(),
        ensures
            final(self).wf(),
            final(self).chunks@.len() == old(self).chunks@.len() + 1,
            final(self).chunks@.drop_last() == old(self).chunks@,
            final(self).chunks@.last().code@ == old(self).chunk_spec().code@.push(opcode::RETURN),
            final(self).chunks@.last().constants@ == old(self).chunk_spec().constants@,
            final(self).chunks@.last().lines@ == old(self).chunk_spec().lines@.push(old(self).line_spec()),
            final(self).chunk_spec().lines@.len() == 0,
            complete_code(final(self).chunks@.last().code@),
            final(self).chunk_spec().code@.len() == 0,
            final(self).chunk_spec().constants@.len() == 0,
            final(self).reporter == old(self).reporter,
            final(self).remaining() == old(self).remaining(),
    {
        self.emit_byte(opcode::RETURN);
        let mut current_chunk = Chunk::new();
        core::mem::swap(&mut self.chunk, &mut current_chunk);
        self.chunks.push(current_chunk);
        proof {
            assert(self.chunks@.drop_last() =~= old(self).chunks@);
            assert(complete_code(self.chunk.code@));
        }
    }

    /// The kind of the token after the current one.
    pub fn peek(&self) -> (r: Option<&TokenType>)
        ensures
            self.rest().len() == 0 ==> r is None,
            self.rest().len() > 0 ==> r == Some(&self.rest()[0].value.ty),
    {
        if self.tokens.len() > 0 {
            Some(&self.tokens[0].value.ty)
        } else {
            None
        }
    }

    /// The kind of the current token.
    pub fn current(&self) -> (r: Option<&TokenType>)
        ensures
            r == match self.current_spec() {
                Some(t) => Some(&t.value.ty),
                None => None,
            },
    {
        match &self.current_token {
            Some(t) => Some(&t.value.ty),
            None => None,
        }
    }

    /// The current token.
    pub fn current_token(&self) -> (r: Option<&Spanned<Token>>)
        ensures
            r == match self.current_spec() {
                Some(t) => Some(&t),
                None => None,
            },
    {
        match &self.current_token {
            Some(t) => Some(t),
            None => None,
        }
    }

    /// Moves to the next token and returns the one left behind, whose line
    /// becomes the current line; fails with "Unexpected EOF" at the end.
    pub fn advance(&mut self) -> (r: ParseResult<Spanned<Token>>)
        requires
            old(self).wf(),
        ensures
            final(self).wf(),
            final(self).chunks == old(self).chunks,
            final(self).chunk_spec() == old(self).chunk_spec(),
            final(self).reporter.end_span() == old(self).reporter.end_span(),
            final(self).all == old(self).all,
            final(self).all_numbers == old(self).all_numbers,
            final(self).objects == old(self).objects,
            old(self).current_spec() is Some ==> {
                &&& r == Ok::<Spanned<Token>, ()>(old(self).current_spec()->0)
                &&& final(self).reporter == old(self).reporter
                &&& final(self).remaining() + 1 == old(self).remaining()
                &&& final(self).pos() == old(self).pos() + 1
                &&& final(self).line_spec() == old(self).current_spec()->0.span.start.line
                &&& old(self).rest().len() > 0 ==> final(self).current_spec() == Some(old(self).rest()[0])
                &&& final(self).rest() == if old(self).rest().len() > 0 {
                    old(self).rest().skip(1)
                } else {
                    old(self).rest()
                }
            },
            old(self).current_spec() is None ==> {
                &&& r is Err
                &&& final(self).remaining() == old(self).remaining()
                &&& final(self).reporter.view_diagnostics().len() == old(self).reporter.view_diagnostics().len() + 1
                &&& old(self).reporter.view_diagnostics().is_prefix_of(final(self).reporter.view_diagnostics())
                &&& final(self).reporter.view_diagnostics().last().msg@ == "Unexpected EOF"@
                &&& final(self).reporter.view_diagnostics().last().span == old(self).reporter.end_span()
                &&& final(self).reporter.view_diagnostics().last().level == crate::error::Level::Error
            },
    {
        match self.current_token.take() {
            Some(token) => {
                self.line = token.span.start.line;
                self.current_token = self.tokens.pop_front();
                self.current_number = match self.numbers.pop_front() {
                    Some(n) => n,
                    None => 0,
                };
                proof {
                    let p = old(self).pos();
                    if old(self).tokens@.len() > 0 {
                        assert(self.tokens@ =~= old(self).tokens@.skip(1));
                        assert(self.tokens@ =~= self.all@.skip(p + 2));
                        assert(self.numbers@ =~= self.all_numbers@.skip(p + 2));
                        assert(old(self).tokens@[0] == self.all@[p + 1]);
                        assert(old(self).numbers@[0] == self.all_numbers@[p + 1]);
                    }
                }
                Ok(token)
            },
            None => {
                self.eof_error();
                proof {
                    assert(old(self).reporter.view_diagnostics().is_prefix_of(self.reporter.view_diagnostics()));
                }
                Err(())
            },
        }
    }

    /// Moves past the next token if it is of the kind of `ty`; otherwise
    /// reports `msg` at that token, or at the end of input.
    pub fn check(&mut self, ty: TokenType, msg: &str) -> (r: ParseResult<()>)
        requires
            old(self).wf(),
        ensures
            old(self).step_post(&*final(self), r),
            final(self).chunk_spec() == old(self).chunk_spec(),
            r is Ok <==> old(self).rest().len() > 0 && kind_number(old(self).rest()[0].value.ty)
                == kind_number(ty),
            r is Ok ==> final(self).remaining() + 1 == old(self).remaining(),
            r is Err ==> reports(&*old(self), &*final(self), (msg@, if old(self).rest().len() > 0 {
                old(self).rest()[0].span
            } else {
                old(self).reporter.end_span()
            })),
    {
        let matches = match self.peek() {
            Some(next) => next.kind() == ty.kind(),
            None => false,
        };
        if matches {
            let _ = self.advance()?;
            Ok(())
        } else {
            let span = if self.tokens.len() > 0 {
                self.tokens[0].span
            } else {
                self.reporter.end()
            };
            self.error(String::from_str(msg), span);
            proof {
                assert(old(self).reporter.view_diagnostics().is_prefix_of(self.reporter.view_diagnostics()));
            }
            Err(())
        }
    }
}

impl Compiler {
    /// The binary operator of the current token, if it is one.
    pub fn get_op_ty(&self) -> (r: ParseResult<Operator>)
        ensures
            match self.current_spec() {
                Some(t) => match operator_of(t.value.ty) {
                    Some(op) => r == Ok::<Operator, ()>(op),
                    None => r is Err,
                },
                None => r is Err,
            },
    {
        match self.current() {
            Some(TokenType::Minus) => Ok(Operator::Minus),
            Some(TokenType::Plus) => Ok(Operator::Plus),
            Some(TokenType::Star) => Ok(Operator::Star),
            Some(TokenType::Slash) => Ok(Operator::Slash),
            Some(TokenType::Equal) => Ok(Operator::Equal),
            Some(TokenType::EqualEqual) => Ok(Operator::EqualEqual),
            Some(TokenType::BangEqual) => Ok(Operator::BangEqual),
            Some(TokenType::Less) => Ok(Operator::Less),
            Some(TokenType::Greater) => Ok(Operator::Greater),
            Some(TokenType::LessEqual) => Ok(Operator::LessEqual),
            Some(TokenType::GreaterEqual) => Ok(Operator::GreaterEqual),
            _ => Err(()),
        }
    }

    /// The prefix operator of the current token; anything else is reported
    /// as "Expected `!` or `-` found ...".
    pub fn get_un_op(&mut self) -> (r: ParseResult<UnaryOperator>)
        requires
            old(self).wf(),
        ensures
            final(self).same_cursor(&*old(self)),
            final(self).wf(),
            final(self).chunks == old(self).chunks,
            final(self).chunk_spec() == old(self).chunk_spec(),
            final(self).current_spec() == old(self).current_spec(),
            final(self).remaining() == old(self).remaining(),
            final(self).reporter.end_span() == old(self).reporter.end_span(),
            old(self).reporter.view_diagnostics().is_prefix_of(final(self).reporter.view_diagnostics()),
            r is Ok ==> final(self).reporter == old(self).reporter && old(self).current_spec() is Some,
            r is Err ==> final(self).reporter.view_diagnostics().len() > old(self).reporter.view_diagnostics().len(),
            r is Err ==> reports(&*old(self), &*final(self), match old(self).current_spec() {
                None => ("Unexpected EOF"@, old(self).reporter.end_span()),
                Some(t) => ("Expected `!` or `-` found "@ + token_text(t.value.ty), t.span),
            }),
            r == Ok::<UnaryOperator, ()>(UnaryOperator::Negate) <==> (old(self).current_spec() is Some
                && old(self).current_spec()->0.value.ty is Minus),
            r == Ok::<UnaryOperator, ()>(UnaryOperator::Bang) <==> (old(self).current_spec() is Some
                && old(self).current_spec()->0.value.ty is Bang),
    {
        let (kind, span, text) = match &self.current_token {
            Some(t) => {
                match &t.value.ty {
                    TokenType::Minus => (1u8, t.span, String::new()),
                    TokenType::Bang => (2u8, t.span, String::new()),
                    other => (3u8, t.span, other.text()),
                }
            },
            None => (0u8, self.reporter.end(), String::new()),
        };
        if kind == 1 {
            Ok(UnaryOperator::Negate)
        } else if kind == 2 {
            Ok(UnaryOperator::Bang)
        } else if kind == 0 {
            self.eof_error();
            proof {
                lemma_prefix_push(old(self).reporter.view_diagnostics(), self.reporter.view_diagnostics().last());
            }
            Err(())
        } else {
            let mut msg = String::from_str("Expected `!` or `-` found ");
            msg.append(text.as_str());
            self.error(msg, span);
            proof {
                lemma_prefix_push(old(self).reporter.view_diagnostics(), self.reporter.view_diagnostics().last());
            }
            Err(())
        }
    }

    /// The precedence of the infix parselet for the next token, or `Lowest`
    /// where there is none.
    pub fn get_precedence(&self) -> (r: Precedence)
        ensures
            self.rest().len() == 0 ==> r == Precedence::Lowest,
            self.rest().len() > 0 ==> r == match infix_prec(rule_of(self.rest()[0].value.ty)) {
                Some(p) => p,
                None => Precedence::Lowest,
            },
    {
        match self.peek() {
            Some(ty) => match self.infix(ty.rule()) {
                Some(parser) => parser.0,
                None => Precedence::Lowest,
            },
            None => Precedence::Lowest,
        }
    }

    /// Compiles one expression whose operators bind at least as tightly as
    /// `precedence`. On success the current token is its last token.
    #[verifier::rlimit(40)]
    pub fn expression(&mut self, precedence: Precedence) -> (r: ParseResult<()>)
        requires
            old(self).wf(),
        ensures
            yields(&*old(self), &*final(self), r, expr_code(old(self).all@, old(self).all_numbers@, old(self).pos(), precedence, old(self).chunk_spec().constants@.len())),
            expr_code(old(self).all@, old(self).all_numbers@, old(self).pos(), precedence, old(self).chunk_spec().constants@.len()) is None ==> reports(&*old(self), &*final(self), expr_err(old(self).all@, old(self).all_numbers@, old(self).pos(), precedence, old(self).chunk_spec().constants@.len(), old(self).reporter.end_span())),
            old(self).current_spec() is Some && prefix_rule(rule_of(old(self).current_spec()->0.value.ty)) is None
                ==> final(self).chunk_spec() == old(self).chunk_spec(),
            r is Ok ==> final(self).current_spec() is Some,
            old(self).step_post(&*final(self), r),
            old(self).current_spec() is Some && prefix_rule(rule_of(old(self).current_spec()->0.value.ty)) is None
                ==> r is Err && final(self).reporter.view_diagnostics().last().msg@
                == expected_expression_msg(old(self).current_spec()->0.value.ty),
        decreases old(self).remaining(), 1nat,
    {
        let (rule, span, text) = match &self.current_token {
            Some(t) => (t.value.ty.rule(), t.span, t.value.ty.text()),
            None => {
                self.eof_error();
                proof {
                    lemma_prefix_push(old(self).reporter.view_diagnostics(), self.reporter.view_diagnostics().last());
                    lemma_prefix_push(old(self).chunk.code@, 0);
                    assert(old(self).chunk.code@.is_prefix_of(self.chunk.code@)) by {
                        assert(old(self).chunk.code@ =~= self.chunk.code@.subrange(0, self.chunk.code@.len() as int));
                    }
                    assert(old(self).chunk.constants@ =~= self.chunk.constants@.subrange(0, self.chunk.constants@.len() as int));
                }
                return Err(());
            },
        };
        match self.prefix(rule) {
            None => {
                let mut msg = String::from_str("Expected an expression instead found `");
                msg.append(text.as_str());
                msg.append("`");
                self.error(msg, span);
                proof {
                    lemma_prefix_push(old(self).reporter.view_diagnostics(), self.reporter.view_diagnostics().last());
                    assert(old(self).chunk.code@ =~= self.chunk.code@.subrange(0, self.chunk.code@.len() as int));
                    assert(old(self).chunk.constants@ =~= self.chunk.constants@.subrange(0, self.chunk.constants@.len() as int));
                }
                return Err(());
            },
            Some(PrefixParselet::Literal(parser)) => parser.parse(self)?,
            Some(PrefixParselet::Unary(parser)) => parser.parse(self)?,
            Some(PrefixParselet::Grouping(parser)) => parser.parse(self)?,
        }
        let ghost toks = old(self).all@;
        let ghost nums = old(self).all_numbers@;
        let ghost c0 = old(self).chunk.code@.len() as int;
        let ghost k0 = old(self).chunk.constants@.len();
        let ghost l0 = old(self).chunk.lines@.len() as int;
        proof {
            let pre = prefix_code(toks, nums, old(self).pos(), k0);
            assert(self.chunk.lines@ =~= old(self).chunk.lines@ + pre.unwrap().3);
            assert(self.chunk.lines@.skip(l0) =~= pre.unwrap().3);
            assert(pre is Some);
            assert(self.chunk.code@ =~= old(self).chunk.code@ + pre.unwrap().0);
            assert(self.chunk.constants@ =~= old(self).chunk.constants@ + pre.unwrap().1);
            assert(self.chunk.code@.skip(c0) =~= pre.unwrap().0);
            assert(self.chunk.constants@.skip(k0 as int) =~= pre.unwrap().1);
            assert(self.pos() == pre.unwrap().2);
            assert(old(self).chunk.code@.is_prefix_of(self.chunk.code@));
            assert(self.chunk.code@ =~= old(self).chunk.code@ + self.chunk.code@.skip(c0));
            assert(self.chunk.constants@ =~= old(self).chunk.constants@ + self.chunk.constants@.skip(k0 as int));
        }
        loop
            invariant
                old(self).step_post(&*self, Ok::<(), ()>(())),
                old(self).current_spec() is Some,
                prefix_rule(rule_of(old(self).current_spec()->0.value.ty)) is Some,
                self.current_spec() is Some,
                toks == self.all@,
                nums == self.all_numbers@,
                c0 == old(self).chunk.code@.len(),
                k0 == old(self).chunk.constants@.len(),
                old(self).pos() <= self.pos(),
                self.chunk.code@ == old(self).chunk.code@ + self.chunk.code@.skip(c0),
                self.chunk.constants@ == old(self).chunk.constants@ + self.chunk.constants@.skip(k0 as int),
                l0 == old(self).chunk.lines@.len(),
                self.chunk.lines@ == old(self).chunk.lines@ + self.chunk.lines@.skip(l0),
                expr_code(toks, nums, old(self).pos(), precedence, k0) == infix_code(
                    toks,
                    nums,
                    self.pos(),
                    precedence,
                    k0,
                    self.chunk.code@.skip(c0),
                    self.chunk.constants@.skip(k0 as int),
                    self.chunk.lines@.skip(l0),
                ),
                expr_err(toks, nums, old(self).pos(), precedence, k0, old(self).reporter.end_span()) == infix_err(
                    toks,
                    nums,
                    self.pos(),
                    precedence,
                    k0,
                    self.chunk.code@.skip(c0),
                    self.chunk.constants@.skip(k0 as int),
                    self.chunk.lines@.skip(l0),
                    old(self).reporter.end_span(),
                ),
            decreases self.remaining(),
        {
            let rule = match self.peek() {
                Some(ty) => ty.rule(),
                None => return Ok(()),
            };
            match self.infix(rule) {
                None => return Ok(()),
                Some(parser) => {
                    if parser.0.level() < precedence.level() {
                        return Ok(());
                    }
                    let ghost mid = *self;
                    parser.parse(self)?;
                    proof {
                        lemma_prefix_trans(old(self).chunk.code@, mid.chunk.code@, self.chunk.code@);
                        lemma_prefix_trans(old(self).chunk.constants@, mid.chunk.constants@, self.chunk.constants@);
                        assert(self.chunk.code@ =~= old(self).chunk.code@ + self.chunk.code@.skip(c0));
                        assert(self.chunk.constants@ =~= old(self).chunk.constants@ + self.chunk.constants@.skip(k0 as int));
                        assert(self.chunk.code@.skip(c0) =~= mid.chunk.code@.skip(c0) + binary_code(toks, nums, mid.pos(), parser.0, mid.chunk.constants@.len()).unwrap().0);
                        assert(self.chunk.constants@.skip(k0 as int) =~= mid.chunk.constants@.skip(k0 as int) + binary_code(toks, nums, mid.pos(), parser.0, mid.chunk.constants@.len()).unwrap().1);
                        assert(self.chunk.lines@ =~= old(self).chunk.lines@ + self.chunk.lines@.skip(l0));
                        assert(self.chunk.lines@.skip(l0) =~= mid.chunk.lines@.skip(l0) + binary_code(toks, nums, mid.pos(), parser.0, mid.chunk.constants@.len()).unwrap().3);
                    }
                },
            }
        }
    }

    /// Compiles the whole token stream as one expression followed by the end
    /// of input, and files the code, closed with `RETURN`, as a finished
    /// chunk. Succeeds exactly when it reports nothing.
    #[verifier::rlimit(40)]
    pub fn compile(&mut self) -> (r: ParseResult<()>)
        requires
            old(self).wf(),
        ensures
            match program_code(old(self).all@, old(self).all_numbers@, old(self).pos(), old(self).chunk_spec().constants@.len()) {
                Some(c) => r is Ok && final(self).chunks@.last().code@ == old(self).chunk_spec().code@ + c.0
                    && final(self).chunks@.last().constants@ == old(self).chunk_spec().constants@ + c.1
                    && final(self).chunks@.last().lines@ == old(self).chunk_spec().lines@ + c.2,
                None => r is Err && reports(&*old(self), &*final(self), program_err(old(self).all@, old(self).all_numbers@, old(self).pos(), old(self).chunk_spec().constants@.len(), old(self).reporter.end_span())),
            },
            final(self).wf(),
            r is Ok <==> final(self).reporter.view_diagnostics() == old(self).reporter.view_diagnostics(),
            r is Ok ==> {
                &&& final(self).chunks@.len() == old(self).chunks@.len() + 1
                &&& final(self).chunks@.drop_last() == old(self).chunks@
                &&& final(self).chunks@.last().wf()
                &&& complete_code(final(self).chunks@.last().code@)
                &&& operands_below(final(self).chunks@.last().code@, final(self).chunks@.last().constants@.len())
                &&& final(self).chunks@.last().code@.last() == opcode::RETURN
            },
            r is Err ==> final(self).chunks == old(self).chunks,
            old(self).reporter.view_diagnostics().is_prefix_of(final(self).reporter.view_diagnostics()),
    {
        self.expression(Precedence::Assignment)?;
        let ghost mid = *self;
        match self.check(TokenType::EOF, "Expected EOF") {
            Ok(_) => {},
            Err(_) => {
                proof {
                    lemma_prefix_trans(old(self).reporter.view_diagnostics(), mid.reporter.view_diagnostics(), self.reporter.view_diagnostics());
                }
                return Err(());
            },
        }
        self.end_chunk();
        proof {
            assert(self.chunks@.last() == self.chunks@[self.chunks@.len() - 1]);
        }
        Ok(())
    }

    /// Decodes every finished chunk.
    pub fn disassemble(&self) -> (r: Vec<Vec<crate::chunks::Instruction>>)
        requires
            self.wf(),
        ensures
            r@.len() == self.chunks@.len(),
            forall|i: int| 0 <= i < r@.len() ==> self.chunks@[i].is_disassembly(#[trigger] r@[i]@),
    {
        let mut r: Vec<Vec<crate::chunks::Instruction>> = Vec::new();
        let mut i: usize = 0;
        while i < self.chunks.len()
            invariant
                self.wf(),
                i <= self.chunks@.len(),
                r@.len() == i,
                forall|k: int| 0 <= k < i ==> self.chunks@[k].is_disassembly(#[trigger] r@[k]@),
            decreases self.chunks@.len() - i,
        {
            r.push(self.chunks[i].disassemble());
            i = i + 1;
        }
        r
    }
}

impl LiteralParselet {
    /// Writes the code of the literal under the cursor: `CONSTANT` for a
    /// number or a string (a string also goes on the object list), `TRUE`,
    /// `FALSE` or `NIL` for the others. The cursor stays on the literal.
    #[verifier::rlimit(40)]
    pub fn parse(&self, parser: &mut Compiler) -> (r: ParseResult<()>)
        requires
            old(parser).wf(),
        ensures
            yields(&*old(parser), &*final(parser), r, literal_code(old(parser).all@, old(parser).all_numbers@, old(parser).pos(), old(parser).chunk_spec().constants@.len())),
            literal_code(old(parser).all@, old(parser).all_numbers@, old(parser).pos(), old(parser).chunk_spec().constants@.len()) is None ==> reports(&*old(parser), &*final(parser), literal_err(old(parser).all@, old(parser).pos(), old(parser).chunk_spec().constants@.len(), old(parser).reporter.end_span())),
            !(old(parser).current_spec() is Some && old(parser).current_spec()->0.value.ty is String) ==> final(parser).objects == old(parser).objects,
            old(parser).current_spec() is Some && old(parser).current_spec()->0.value.ty is String ==> final(parser).objects is Some && final(parser).objects->0.obj.next == old(parser).objects,
            r is Ok ==> final(parser).current_spec() is Some,
            old(parser).step_post(&*final(parser), r),
            final(parser).remaining() == old(parser).remaining(),
            final(parser).current_spec() == old(parser).current_spec(),
            match old(parser).current_spec() {
                Some(t) => match t.value.ty {
                    TokenType::True => r is Ok && final(parser).chunk_spec().code@
                        == old(parser).chunk_spec().code@.push(opcode::TRUE),
                    TokenType::False => r is Ok && final(parser).chunk_spec().code@
                        == old(parser).chunk_spec().code@.push(opcode::FALSE),
                    TokenType::Nil => r is Ok && final(parser).chunk_spec().code@
                        == old(parser).chunk_spec().code@.push(opcode::NIL),
                    TokenType::Number(_) => r is Ok ==> {
                        &&& final(parser).chunk_spec().code@ == old(parser).chunk_spec().code@.push(
                            opcode::CONSTANT).push(old(parser).chunk_spec().constants@.len() as u8)
                        &&& final(parser).chunk_spec().constants@
                            == old(parser).chunk_spec().constants@.push(Value::Number(old(parser).current_number))
                    },
                    TokenType::String(s) => r is Ok ==> {
                        &&& final(parser).chunk_spec().code@ == old(parser).chunk_spec().code@.push(
                            opcode::CONSTANT).push(old(parser).chunk_spec().constants@.len() as u8)
                        &&& final(parser).chunk_spec().constants@.last() is Object
                        &&& list_strings(final(parser).objects) == seq![s@].add(list_strings(old(parser).objects))
                    },
                    _ => r is Err && final(parser).reporter.view_diagnostics().last().msg@
                        == expected_literal_msg(t.value.ty),
                },
                None => r is Err,
            },
    {
        let mut kind: u8 = 0;
        let mut span = parser.reporter.end();
        let mut text = String::new();
        match &parser.current_token {
            Some(t) => {
                span = t.span;
                match &t.value.ty {
                    TokenType::Number(_) => kind = 1,
                    TokenType::True => kind = 2,
                    TokenType::False => kind = 3,
                    TokenType::Nil => kind = 4,
                    TokenType::String(s) => {
                        kind = 5;
                        text = s.clone();
                    },
                    other => {
                        kind = 6;
                        text = other.text();
                    },
                }
            },
            None => {},
        }
        proof {
            lemma_prefix_push(parser.chunk.code@, 0);
            assert(parser.chunk.code@ =~= parser.chunk.code@.subrange(0, parser.chunk.code@.len() as int));
            assert(parser.chunk.constants@ =~= parser.chunk.constants@.subrange(0, parser.chunk.constants@.len() as int));
            assert(parser.reporter.view_diagnostics() =~= parser.reporter.view_diagnostics().subrange(0, parser.reporter.view_diagnostics().len() as int));
        }
        if kind == 1 {
            let n = parser.current_number;
            let r = parser.emit_constant(Value::number(n));
            proof {
                if r is Ok {
                    assert(parser.chunk.code@ =~= old(parser).chunk.code@ + seq![opcode::CONSTANT, old(parser).chunk.constants@.len() as u8]);
                    assert(parser.chunk.constants@ =~= old(parser).chunk.constants@ + seq![Value::Number(n)]);
                    assert(parser.chunk.lines@ =~= old(parser).chunk.lines@ + seq![parser.line, parser.line]);
                }
            }
            r
        } else if kind == 2 || kind == 3 || kind == 4 {
            let op = if kind == 2 {
                opcode::TRUE
            } else if kind == 3 {
                opcode::FALSE
            } else {
                opcode::NIL
            };
            parser.emit_byte(op);
            proof {
                lemma_prefix_push(old(parser).chunk.code@, op);
                assert(old(parser).chunk.constants@ =~= parser.chunk.constants@.subrange(0, parser.chunk.constants@.len() as int));
                assert(parser.chunk.code@ =~= old(parser).chunk.code@ + seq![op]);
                assert(parser.chunk.constants@ =~= old(parser).chunk.constants@ + Seq::<Value>::empty());
                assert(parser.chunk.lines@ =~= old(parser).chunk.lines@ + seq![parser.line]);
            }
            Ok(())
        } else if kind == 5 {
            let head = parser.objects.take();
            parser.objects = StringObject::new(text.as_str(), head);
            let ghost v = Value::Object(ObjectValue::Str(text));
            let r = parser.emit_constant(Value::object(ObjectValue::Str(text)));
            proof {
                if r is Ok {
                    assert(parser.chunk.code@ =~= old(parser).chunk.code@ + seq![opcode::CONSTANT, old(parser).chunk.constants@.len() as u8]);
                    assert(parser.chunk.constants@ =~= old(parser).chunk.constants@ + seq![v]);
                    assert(parser.chunk.lines@ =~= old(parser).chunk.lines@ + seq![parser.line, parser.line]);
                }
            }
            r
        } else if kind == 6 {
            let mut msg = String::from_str(
                "Expected `{int}` or `{nil}` or `{true|false}` or `{ident}` or `{string}` found `",
            );
            msg.append(text.as_str());
            msg.append("` ");
            parser.error(msg, span);
            proof {
                lemma_prefix_push(old(parser).reporter.view_diagnostics(), parser.reporter.view_diagnostics().last());
            }
            Err(())
        } else {
            parser.eof_error();
            proof {
                lemma_prefix_push(old(parser).reporter.view_diagnostics(), parser.reporter.view_diagnostics().last());
            }
            Err(())
        }
    }
}

impl UnaryParselet {
    /// Compiles `-x` or `!x`: the operand at `Unary` precedence, then
    /// `NEGATE` or `NOT`.
    pub fn parse(&self, parser: &mut Compiler) -> (r: ParseResult<()>)
        requires
            old(parser).wf(),
        ensures
            yields(&*old(parser), &*final(parser), r, unary_code(old(parser).all@, old(parser).all_numbers@, old(parser).pos(), old(parser).chunk_spec().constants@.len())),
            unary_code(old(parser).all@, old(parser).all_numbers@, old(parser).pos(), old(parser).chunk_spec().constants@.len()) is None ==> reports(&*old(parser), &*final(parser), unary_err(old(parser).all@, old(parser).all_numbers@, old(parser).pos(), old(parser).chunk_spec().constants@.len(), old(parser).reporter.end_span())),
            r is Ok ==> final(parser).current_spec() is Some,
            old(parser).step_post(&*final(parser), r),
        decreases old(parser).remaining(), 0nat,
    {
        let op = parser.get_un_op()?;
        let _ = parser.advance()?;
        parser.expression(Precedence::Unary)?;
        let ghost mid = *parser;
        match op {
            UnaryOperator::Negate => parser.emit_byte(opcode::NEGATE),
            UnaryOperator::Bang => parser.emit_byte(opcode::NOT),
        }
        proof {
            let b = if op == UnaryOperator::Negate { opcode::NEGATE } else { opcode::NOT };
            lemma_prefix_push(mid.chunk.code@, b);
            lemma_prefix_trans(old(parser).chunk.code@, mid.chunk.code@, parser.chunk.code@);
        }
        Ok(())
    }
}

impl BinaryParselet {
    /// The precedence of the operator.
    pub fn pred(&self) -> (r: Precedence)
        ensures
            r == self.0,
    {
        self.0
    }

    /// With the cursor on the left operand's last token, moves onto the
    /// operator, compiles the right operand one level tighter than the
    /// operator, and writes the operator's code.
    #[verifier::rlimit(40)]
    pub fn parse(&self, parser: &mut Compiler) -> (r: ParseResult<()>)
        requires
            old(parser).wf(),
        ensures
            yields(&*old(parser), &*final(parser), r, binary_code(old(parser).all@, old(parser).all_numbers@, old(parser).pos(), self.0, old(parser).chunk_spec().constants@.len())),
            binary_code(old(parser).all@, old(parser).all_numbers@, old(parser).pos(), self.0, old(parser).chunk_spec().constants@.len()) is None ==> reports(&*old(parser), &*final(parser), binary_err(old(parser).all@, old(parser).all_numbers@, old(parser).pos(), self.0, old(parser).chunk_spec().constants@.len(), old(parser).reporter.end_span())),
            r is Ok ==> final(parser).current_spec() is Some,
            old(parser).step_post(&*final(parser), r),
            r is Ok ==> final(parser).remaining() < old(parser).remaining(),
        decreases old(parser).remaining(), 0nat,
    {
        let ghost j = old(parser).pos();
        let ghost toks = old(parser).all@;
        let ghost nums = old(parser).all_numbers@;
        let _ = parser.advance()?;
        let op = match parser.get_op_ty() {
            Ok(op) => op,
            Err(_) => {
                let (span, text) = match &parser.current_token {
                    Some(t) => (t.span, t.value.ty.text()),
                    None => (parser.reporter.end(), String::from_str("\0")),
                };
                let mut msg = String::from_str("Expected a binary operator found ");
                msg.append(text.as_str());
                parser.error(msg, span);
                proof {
                    lemma_prefix_push(old(parser).reporter.view_diagnostics(), parser.reporter.view_diagnostics().last());
                    assert(old(parser).chunk.code@ =~= parser.chunk.code@.subrange(0, parser.chunk.code@.len() as int));
                    assert(old(parser).chunk.constants@ =~= parser.chunk.constants@.subrange(0, parser.chunk.constants@.len() as int));
                }
                return Err(());
            },
        };
        let _ = parser.advance()?;
        let ghost before_rhs = *parser;
        parser.expression(self.pred().higher())?;
        let ghost mid = *parser;
        let ghost rhs = expr_code(toks, nums, j + 2, higher_spec(self.0), old(parser).chunk.constants@.len());
        proof {
            assert(before_rhs.pos() == j + 2);
            assert(before_rhs.chunk == old(parser).chunk);
            assert(rhs is Some);
            assert(operator_of(toks[j + 1].value.ty) == Some(op));
        }
        match op {
            Operator::Plus => parser.emit_byte(opcode::ADD),
            Operator::Minus => parser.emit_byte(opcode::SUB),
            Operator::Slash => parser.emit_byte(opcode::DIV),
            Operator::Star => parser.emit_byte(opcode::MUL),
            Operator::Less => parser.emit_byte(opcode::LESS),
            Operator::Greater => parser.emit_byte(opcode::GREATER),
            Operator::BangEqual => parser.emit_bytes(opcode::EQUAL, opcode::NOT),
            Operator::EqualEqual => parser.emit_byte(opcode::EQUAL),
            Operator::LessEqual => parser.emit_bytes(opcode::GREATER, opcode::NOT),
            Operator::GreaterEqual => parser.emit_bytes(opcode::LESS, opcode::NOT),
            Operator::Equal => parser.emit_byte(opcode::EQUAL),
        }
        proof {
            assert(mid.chunk.code@.is_prefix_of(parser.chunk.code@)) by {
                assert(mid.chunk.code@ =~= parser.chunk.code@.subrange(0, mid.chunk.code@.len() as int));
            }
            lemma_prefix_trans(old(parser).chunk.code@, mid.chunk.code@, parser.chunk.code@);
            assert(parser.chunk.code@ =~= mid.chunk.code@ + operator_code(op));
            assert(parser.chunk.code@ =~= old(parser).chunk.code@ + (rhs.unwrap().0 + operator_code(op)));
            assert(parser.chunk.lines@ =~= mid.chunk.lines@ + operator_lines(op, mid.line));
            assert(parser.chunk.lines@ =~= old(parser).chunk.lines@ + (rhs.unwrap().3 + operator_lines(op, mid.line)));
        }
        Ok(())
    }
}

impl GroupingParselet {
    /// Compiles `( expression )`: the inner expression at `Assignment`
    /// precedence, then a `)` is required ("Expected ')'").
    pub fn parse(&self, parser: &mut Compiler) -> (r: ParseResult<()>)
        requires
            old(parser).wf(),
        ensures
            yields(&*old(parser), &*final(parser), r, group_code(old(parser).all@, old(parser).all_numbers@, old(parser).pos(), old(parser).chunk_spec().constants@.len())),
            group_code(old(parser).all@, old(parser).all_numbers@, old(parser).pos(), old(parser).chunk_spec().constants@.len()) is None ==> reports(&*old(parser), &*final(parser), group_err(old(parser).all@, old(parser).all_numbers@, old(parser).pos(), old(parser).chunk_spec().constants@.len(), old(parser).reporter.end_span())),
            r is Ok ==> final(parser).current_spec() is Some,
            old(parser).step_post(&*final(parser), r),
        decreases old(parser).remaining(), 0nat,
    {
        let _ = parser.advance()?;
        parser.expression(Precedence::Assignment)?;
        let ghost mid = *parser;
        match parser.check(TokenType::RParen, "Expected ')'") {
            Ok(_) => Ok(()),
            Err(_) => {
                proof {
                    lemma_prefix_trans(old(parser).reporter.view_diagnostics(), mid.reporter.view_diagnostics(), parser.reporter.view_diagnostics());
                }
                Err(())
            },
        }
    }
}

} // verus!
