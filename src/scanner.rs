//! The lexer: source text to a sequence of spanned tokens.
use vstd::prelude::*;
use crate::error::{push_char, Diagnostic, Level, Reporter};
use crate::pos::{pos_after, pos_bounded, shift_spec, CharPosition, Position, Span, Spanned, MAX_SOURCE};
use crate::token::{token_text, Token, TokenType};

verus! {

/// What went wrong while scanning.
#[derive(Debug, Clone, Copy, PartialEq, Eq, Structural)]
pub enum LexerError {
    UnclosedString,
    UnclosedBlockComment,
    Unexpected(char, Position),
}

/// Whether `c` is alphanumeric in Unicode's sense.
pub uninterp spec fn alphanumeric(c: char) -> bool;

/// Whether `c` is alphabetic in Unicode's sense.
pub uninterp spec fn alphabetic(c: char) -> bool;

/// Whether `c` has Unicode's White_Space property.
pub open spec fn whitespace(c: char) -> bool {
    let u = c as u32;
    (0x09 <= u && u <= 0x0d) || u == 0x20 || u == 0x85 || u == 0xa0 || u == 0x1680 || (0x2000 <= u
        && u <= 0x200a) || u == 0x2028 || u == 0x2029 || u == 0x202f || u == 0x205f || u == 0x3000
}

/// Relies on char::is_alphanumeric: Unicode's Alphabetic or Numeric property.
#[verifier::external_body]
fn char_is_alphanumeric(c: char) -> (r: bool)
    ensures
        r == alphanumeric(c),
{
    c.is_alphanumeric()
}

/// Relies on char::is_alphabetic: Unicode's Alphabetic property.
#[verifier::external_body]
fn char_is_alphabetic(c: char) -> (r: bool)
    ensures
        r == alphabetic(c),
{
    c.is_alphabetic()
}

/// Whether `c` has Unicode's White_Space property.
fn char_is_whitespace(c: char) -> (r: bool)
    ensures
        r == whitespace(c),
{
    let u = c as u32;
    (0x09 <= u && u <= 0x0d) || u == 0x20 || u == 0x85 || u == 0xa0 || u == 0x1680 || (0x2000 <= u
        && u <= 0x200a) || u == 0x2028 || u == 0x2029 || u == 0x202f || u == 0x205f || u == 0x3000
}

/// Whether `c` can continue an identifier.
pub open spec fn letter_spec(c: char) -> bool {
    alphanumeric(c) || c == '_'
}

/// Whether `c` is an ASCII decimal digit.
pub open spec fn digit_spec(c: char) -> bool {
    '0' <= c && c <= '9'
}

/// Whether `c` can continue an identifier: alphanumeric or `_`.
pub fn is_letter_ch(ch: char) -> (r: bool)
    ensures
        r == letter_spec(ch),
{
    char_is_alphanumeric(ch) || ch == '_'
}

/// Whether `c` is an ASCII decimal digit.
pub fn is_digit(ch: char) -> (r: bool)
    ensures
        r == digit_spec(ch),
{
    '0' <= ch && ch <= '9'
}

/// The classes of character that `take_whilst` can run over.
#[derive(Debug, Clone, Copy, PartialEq, Eq, Structural)]
pub enum CharClass {
    Digit,
    Letter,
    NotNewline,
}

/// Whether `c` belongs to `class`.
pub open spec fn in_class(class: CharClass, c: char) -> bool {
    match class {
        CharClass::Digit => digit_spec(c),
        CharClass::Letter => letter_spec(c),
        CharClass::NotNewline => c != '\n',
    }
}

/// Whether `c` belongs to `class`.
fn class_holds(class: CharClass, c: char) -> (r: bool)
    ensures
        r == in_class(class, c),
{
    match class {
        CharClass::Digit => is_digit(c),
        CharClass::Letter => is_letter_ch(c),
        CharClass::NotNewline => c != '\n',
    }
}

/// The keyword a word spells, if it spells one.
pub open spec fn keyword(id: Seq<char>) -> Option<TokenType> {
    if id == "class"@ {
        Some(TokenType::Class)
    } else if id == "print"@ {
        Some(TokenType::Print)
    } else if id == "this"@ {
        Some(TokenType::This)
    } else if id == "super"@ {
        Some(TokenType::Super)
    } else if id == "fun"@ {
        Some(TokenType::Fun)
    } else if id == "var"@ {
        Some(TokenType::Var)
    } else if id == "if"@ {
        Some(TokenType::If)
    } else if id == "else"@ {
        Some(TokenType::Else)
    } else if id == "for"@ {
        Some(TokenType::For)
    } else if id == "while"@ {
        Some(TokenType::While)
    } else if id == "return"@ {
        Some(TokenType::Return)
    } else if id == "true"@ {
        Some(TokenType::True)
    } else if id == "false"@ {
        Some(TokenType::False)
    } else if id == "or"@ {
        Some(TokenType::Or)
    } else if id == "and"@ {
        Some(TokenType::And)
    } else if id == "nil"@ {
        Some(TokenType::Nil)
    } else {
        None
    }
}

/// The token for a word: a keyword, or else an identifier of that name.
pub fn look_up_identifier(id: String) -> (r: TokenType)
    ensures
        r == match keyword(id@) {
            Some(k) => k,
            None => TokenType::Ident(id),
        },
        !(r is EOF) && !(r is Number) && !(r is Comment),
        token_text(r) == id@,
{
    let s = id.as_str();
    if str_eq(s, "class") {
        TokenType::Class
    } else if str_eq(s, "print") {
        TokenType::Print
    } else if str_eq(s, "this") {
        TokenType::This
    } else if str_eq(s, "super") {
        TokenType::Super
    } else if str_eq(s, "fun") {
        TokenType::Fun
    } else if str_eq(s, "var") {
        TokenType::Var
    } else if str_eq(s, "if") {
        TokenType::If
    } else if str_eq(s, "else") {
        TokenType::Else
    } else if str_eq(s, "for") {
        TokenType::For
    } else if str_eq(s, "while") {
        TokenType::While
    } else if str_eq(s, "return") {
        TokenType::Return
    } else if str_eq(s, "true") {
        TokenType::True
    } else if str_eq(s, "false") {
        TokenType::False
    } else if str_eq(s, "or") {
        TokenType::Or
    } else if str_eq(s, "and") {
        TokenType::And
    } else if str_eq(s, "nil") {
        TokenType::Nil
    } else {
        TokenType::Ident(id)
    }
}

/// Whether two strings hold the same characters.
pub fn str_eq(a: &str, b: &str) -> (r: bool)
    ensures
        r == (a@ == b@),
{
    let n = a.unicode_len();
    if n != b.unicode_len() {
        return false;
    }
    let mut i: usize = 0;
    while i < n
        invariant
            n == a@.len() == b@.len(),
            i <= n,
            forall|k: int| 0 <= k < i ==> a@[k] == b@[k],
        decreases n - i,
    {
        if a.get_char(i) != b.get_char(i) {
            return false;
        }
        i = i + 1;
    }
    assert(a@ =~= b@);
    true
}

/// A token whose span starts and ends at `start`.
pub fn span(token: TokenType, start: Position) -> (r: Spanned<Token>)
    ensures
        r == (Spanned { value: Token { ty: token }, span: Span { start, end: start } }),
{
    Spanned { value: token_with_info(token), span: Span { start, end: start } }
}

/// A token over `start..end`.
pub fn spans(token: TokenType, start: Position, end: Position) -> (r: Spanned<Token>)
    ensures
        r == (Spanned { value: Token { ty: token }, span: Span { start, end } }),
{
    Spanned { value: token_with_info(token), span: Span { start, end } }
}

/// The token of kind `ty`.
pub fn token_with_info(ty: TokenType) -> (r: Token)
    ensures
        r == (Token { ty }),
{
    Token { ty }
}

/// The message of a lexing error.
pub open spec fn lexer_error_msg(e: LexerError) -> Seq<char> {
    match e {
        LexerError::UnclosedString => "Unclosed string"@,
        LexerError::UnclosedBlockComment => "Unclosed block comment"@,
        LexerError::Unexpected(c, _) => "Unexpected char '"@.push(c) + "' "@,
    }
}

impl LexerError {
    /// The message reported for this error.
    pub fn message(&self) -> (r: String)
        ensures
            r@ == lexer_error_msg(*self),
    {
        match self {
            LexerError::UnclosedString => String::from_str("Unclosed string"),
            LexerError::UnclosedBlockComment => String::from_str("Unclosed block comment"),
            LexerError::Unexpected(c, _) => {
                let mut s = String::from_str("Unexpected char '");
                push_char(&mut s, *c);
                s.append("' ");
                s
            },
        }
    }
}

/// Whether every character of `s` is a decimal digit.
pub open spec fn all_digits(s: Seq<char>) -> bool {
    forall|k: int| 0 <= k < s.len() ==> digit_spec(#[trigger] s[k])
}

/// The text of a number literal: one or more digits, then optionally a `.`
/// and more digits.
pub open spec fn number_text(s: Seq<char>) -> bool {
    exists|d: int|
        0 < d <= s.len() && all_digits(#[trigger] s.take(d)) && (d == s.len() || (s[d] == '.'
            && all_digits(s.skip(d + 1))))
}

/// Whether from index `k` on, `s` holds no white space and no opening of
/// a comment.
pub open spec fn gap_free(s: Seq<char>, k: int) -> bool {
    forall|i: int|
        k <= i < s.len() ==> !whitespace(#[trigger] s[i]) && !(s[i] == '/' && i + 1 < s.len() && (
        s[i + 1] == '/' || s[i + 1] == '*'))
}

/// The tokens written back one after another, without the end of input.
pub open spec fn serialized(tokens: Seq<Spanned<Token>>) -> Seq<char>
    decreases tokens.len(),
{
    if tokens.len() == 0 {
        Seq::empty()
    } else {
        serialized(tokens.drop_last()) + if tokens.last().value.ty is EOF {
            Seq::<char>::empty()
        } else {
            token_text(tokens.last().value.ty)
        }
    }
}

/// The tokens written back one after another, without the end of input.
pub fn serialize(tokens: &Vec<Spanned<Token>>) -> (r: String)
    ensures
        r@ == serialized(tokens@),
{
    let mut r = String::new();
    let mut i: usize = 0;
    while i < tokens.len()
        invariant
            i <= tokens@.len(),
            r@ == serialized(tokens@.take(i as int)),
        decreases tokens@.len() - i,
    {
        assert(tokens@.take(i + 1).drop_last() =~= tokens@.take(i as int));
        if !tokens[i].value.ty.is_eof() {
            let t = tokens[i].value.ty.text();
            r.append(t.as_str());
        }
        i = i + 1;
    }
    assert(tokens@.take(i as int) =~= tokens@);
    r
}

/// What the string literals of the punctuation hold.
proof fn lemma_symbol_texts()
    ensures
        "."@ == seq!['.'],
        ";"@ == seq![';'],
        "{"@ == seq!['{'],
        "}"@ == seq!['}'],
        "("@ == seq!['('],
        ")"@ == seq![')'],
        ","@ == seq![','],
        "+"@ == seq!['+'],
        "-"@ == seq!['-'],
        "*"@ == seq!['*'],
        "/"@ == seq!['/'],
        "="@ == seq!['='],
        "!"@ == seq!['!'],
        ">"@ == seq!['>'],
        "<"@ == seq!['<'],
        "=="@ == seq!['=', '='],
        "!="@ == seq!['!', '='],
        ">="@ == seq!['>', '='],
        "<="@ == seq!['<', '='],
        "\""@ == seq!['"'],
{
    reveal_strlit(".");
    reveal_strlit(";");
    reveal_strlit("{");
    reveal_strlit("}");
    reveal_strlit("(");
    reveal_strlit(")");
    reveal_strlit(",");
    reveal_strlit("+");
    reveal_strlit("-");
    reveal_strlit("*");
    reveal_strlit("/");
    reveal_strlit("=");
    reveal_strlit("!");
    reveal_strlit(">");
    reveal_strlit("<");
    reveal_strlit("==");
    reveal_strlit("!=");
    reveal_strlit(">=");
    reveal_strlit("<=");
    reveal_strlit("\"");
}

/// The token of a punctuation character that is a token by itself alone.
fn single_char_token(ch: char) -> (r: Option<TokenType>)
    ensures
        r == single_token(ch),
        r is Some ==> token_text(r->0) == seq![ch] && !(r->0 is EOF) && !(r->0 is Number) && !(r->0 is Comment),
        r is None ==> ch != '.' && ch != ';' && ch != '{' && ch != '}' && ch != '(' && ch != ')'
            && ch != ',' && ch != '+' && ch != '-' && ch != '*',
{
    proof {
        lemma_symbol_texts();
    }
    if ch == '.' {
        Some(TokenType::Dot)
    } else if ch == ';' {
        Some(TokenType::Semicolon)
    } else if ch == '{' {
        Some(TokenType::LBrace)
    } else if ch == '}' {
        Some(TokenType::RBrace)
    } else if ch == '(' {
        Some(TokenType::LParen)
    } else if ch == ')' {
        Some(TokenType::RParen)
    } else if ch == ',' {
        Some(TokenType::Comma)
    } else if ch == '+' {
        Some(TokenType::Plus)
    } else if ch == '-' {
        Some(TokenType::Minus)
    } else if ch == '*' {
        Some(TokenType::Star)
    } else {
        None
    }
}

/// The end of the run of characters of `class` that starts at index `i`.
pub open spec fn run_end(s: Seq<char>, i: int, class: CharClass) -> int
    decreases s.len() - i,
{
    if i < 0 || i >= s.len() || !in_class(class, s[i]) {
        i
    } else {
        run_end(s, i + 1, class)
    }
}

/// The index of the first `c` at or after index `i`.
pub open spec fn find_char(s: Seq<char>, i: int, c: char) -> Option<int>
    decreases s.len() - i,
{
    if i < 0 || i >= s.len() {
        None
    } else if s[i] == c {
        Some(i)
    } else {
        find_char(s, i + 1, c)
    }
}

/// The index of the first `*/` that starts at or after index `i`.
pub open spec fn find_close(s: Seq<char>, i: int) -> Option<int>
    decreases s.len() - i,
{
    if i < 0 || i + 1 >= s.len() {
        None
    } else if s[i] == '*' && s[i + 1] == '/' {
        Some(i)
    } else {
        find_close(s, i + 1)
    }
}

/// Where the next token starts, from index `a`: white space, `//` comments
/// (up to the newline) and `/* */` comments are passed over. An unclosed
/// block comment runs to the end.
#[verifier::opaque]
pub open spec fn skip_blank(s: Seq<char>, a: int) -> int
    decreases s.len() - a,
{
    if a < 0 || a >= s.len() {
        a
    } else if whitespace(s[a]) {
        skip_blank(s, a + 1)
    } else if s[a] == '/' && a + 1 < s.len() && s[a + 1] == '/' {
        let e = run_end(s, a + 2, CharClass::NotNewline);
        if a < e <= s.len() {
            skip_blank(s, e)
        } else {
            a
        }
    } else if s[a] == '/' && a + 1 < s.len() && s[a + 1] == '*' {
        match find_close(s, a + 2) {
            Some(c) => if a < c && c + 2 <= s.len() {
                skip_blank(s, c + 2)
            } else {
                a
            },
            None => s.len() as int,
        }
    } else {
        a
    }
}

/// The punctuation that is a token alone.
pub open spec fn single_token(c: char) -> Option<TokenType> {
    if c == '.' {
        Some(TokenType::Dot)
    } else if c == ';' {
        Some(TokenType::Semicolon)
    } else if c == '{' {
        Some(TokenType::LBrace)
    } else if c == '}' {
        Some(TokenType::RBrace)
    } else if c == '(' {
        Some(TokenType::LParen)
    } else if c == ')' {
        Some(TokenType::RParen)
    } else if c == ',' {
        Some(TokenType::Comma)
    } else if c == '+' {
        Some(TokenType::Plus)
    } else if c == '-' {
        Some(TokenType::Minus)
    } else if c == '*' {
        Some(TokenType::Star)
    } else {
        None
    }
}

/// The token of `=`, `!`, `>` or `<`, alone or followed by `=`.
pub open spec fn operator_token(c: char, with_equal: bool) -> TokenType {
    if c == '=' {
        if with_equal { TokenType::EqualEqual } else { TokenType::Equal }
    } else if c == '!' {
        if with_equal { TokenType::BangEqual } else { TokenType::Bang }
    } else if c == '>' {
        if with_equal { TokenType::GreaterEqual } else { TokenType::Greater }
    } else {
        if with_equal { TokenType::LessEqual } else { TokenType::Less }
    }
}

/// Whether `ty` is the token that starts at index `i` of `s` and ends just
/// before index `e`, each token taking the longest text it can.
pub open spec fn token_matches(s: Seq<char>, i: int, ty: TokenType, e: int) -> bool {
    let c = s[i];
    if single_token(c) is Some {
        ty == single_token(c)->0 && e == i + 1
    } else if c == '"' {
        match find_char(s, i + 1, '"') {
            Some(q) => ty is String && ty->String_0@ == s.subrange(i + 1, q) && e == q + 1,
            None => false,
        }
    } else if c == '=' || c == '!' || c == '>' || c == '<' {
        let two = i + 1 < s.len() && s[i + 1] == '=';
        ty == operator_token(c, two) && e == if two { i + 2 } else { i + 1 }
    } else if c == '/' {
        ty is Slash && e == i + 1
    } else if digit_spec(c) {
        let d = run_end(s, i, CharClass::Digit);
        let d2 = if d < s.len() && s[d] == '.' { run_end(s, d + 1, CharClass::Digit) } else { d };
        ty is Number && ty->Number_0@ == s.subrange(i, d2) && e == d2
    } else if letter_spec(c) {
        let d = run_end(s, i, CharClass::Letter);
        e == d && match keyword(s.subrange(i, d)) {
            Some(k) => ty == k,
            None => ty is Ident && ty->Ident_0@ == s.subrange(i, d),
        }
    } else {
        false
    }
}

/// A run of characters of `class` from `i` that stops at `e` ends at `e`.
proof fn lemma_run_end(s: Seq<char>, i: int, e: int, class: CharClass)
    requires
        0 <= i <= e <= s.len(),
        forall|k: int| i <= k < e ==> in_class(class, #[trigger] s[k]),
        e == s.len() || !in_class(class, s[e]),
    ensures
        run_end(s, i, class) == e,
    decreases e - i,
{
    if i < e {
        lemma_run_end(s, i + 1, e, class);
    }
}

/// The first `c` from `i` is at `e` when none comes before it.
proof fn lemma_find_char(s: Seq<char>, i: int, e: int, c: char)
    requires
        0 <= i <= e < s.len(),
        forall|k: int| i <= k < e ==> #[trigger] s[k] != c,
        s[e] == c,
    ensures
        find_char(s, i, c) == Some(e),
    decreases e - i,
{
    if i < e {
        lemma_find_char(s, i + 1, e, c);
    }
}

/// The first `*/` from `i` is at `e` when none starts before it.
proof fn lemma_find_close(s: Seq<char>, i: int, e: int)
    requires
        0 <= i <= e,
        e + 1 < s.len(),
        forall|k: int| i <= k < e ==> !(#[trigger] s[k] == '*' && s[k + 1] == '/'),
        s[e] == '*' && s[e + 1] == '/',
    ensures
        find_close(s, i) == Some(e),
    decreases e - i,
{
    if i < e {
        lemma_find_close(s, i + 1, e);
    }
}

/// Whether `toks` are the tokens of `src` from index `c0`, token `i` ending
/// just before `ends[i]`: each starts where the blank after the one before
/// it ends, takes the longest text it can and spans exactly that text
/// (half open), and the last is the end of input, with nothing but blank
/// before it.
pub open spec fn lexed_with(src: Seq<char>, c0: int, toks: Seq<Spanned<Token>>, ends: Seq<int>) -> bool {
    &&& toks.len() >= 1
    &&& ends.len() == toks.len() - 1
    &&& forall|i: int| 0 <= i < ends.len() ==> #[trigger] token_ok(src, c0, toks, ends, i)
    &&& skip_blank(src, last_end(c0, ends)) >= src.len()
    &&& toks.last().value.ty is EOF
    &&& toks.last().span == (Span { start: pos_after(src, src.len() as int), end: pos_after(src, src.len() as int) })
}

/// Whether token `i` of `toks` is the token of `src` that starts after the
/// blank that follows the token before it (or index `c0`), and ends just
/// before `ends[i]`.
pub open spec fn token_ok(src: Seq<char>, c0: int, toks: Seq<Spanned<Token>>, ends: Seq<int>, i: int) -> bool {
    let a = if i == 0 { c0 } else { ends[i - 1] };
    &&& skip_blank(src, a) < src.len()
    &&& token_matches(src, skip_blank(src, a), toks[i].value.ty, ends[i])
    &&& toks[i].span == (Span { start: pos_after(src, skip_blank(src, a)), end: pos_after(src, ends[i]) })
}

/// Whether the token that starts at index `i` is well formed: a string is
/// closed, and no letter follows a number.
pub open spec fn token_clean(s: Seq<char>, i: int) -> bool {
    let c = s[i];
    if single_token(c) is Some || c == '=' || c == '!' || c == '>' || c == '<' || c == '/' {
        true
    } else if c == '"' {
        find_char(s, i + 1, '"') is Some
    } else if digit_spec(c) {
        let d = run_end(s, i, CharClass::Digit);
        if d < s.len() && s[d] == '.' {
            let d2 = run_end(s, d + 1, CharClass::Digit);
            !(d2 < s.len() && alphabetic(s[d2]))
        } else {
            !(d < s.len() && alphabetic(s[d]))
        }
    } else {
        letter_spec(c)
    }
}

/// Whether the next token from index `a` can be read without an error:
/// every block comment on the way is closed, no stray character comes
/// before it, and it is well formed.
#[verifier::opaque]
pub open spec fn clean_from(s: Seq<char>, a: int) -> bool
    decreases s.len() - a,
{
    if a < 0 || a >= s.len() {
        true
    } else if whitespace(s[a]) {
        clean_from(s, a + 1)
    } else if s[a] == '/' && a + 1 < s.len() && s[a + 1] == '/' {
        let e = run_end(s, a + 2, CharClass::NotNewline);
        if a < e <= s.len() {
            clean_from(s, e)
        } else {
            true
        }
    } else if s[a] == '/' && a + 1 < s.len() && s[a + 1] == '*' {
        match find_close(s, a + 2) {
            Some(c) => if a < c && c + 2 <= s.len() {
                clean_from(s, c + 2)
            } else {
                true
            },
            None => false,
        }
    } else {
        token_clean(s, a)
    }
}

/// Where the token that starts at index `i` ends.
pub open spec fn token_end(s: Seq<char>, i: int) -> int {
    let c = s[i];
    if single_token(c) is Some || c == '/' {
        i + 1
    } else if c == '"' {
        match find_char(s, i + 1, '"') {
            Some(q) => q + 1,
            None => s.len() as int,
        }
    } else if c == '=' || c == '!' || c == '>' || c == '<' {
        if i + 1 < s.len() && s[i + 1] == '=' { i + 2 } else { i + 1 }
    } else if digit_spec(c) {
        let d = run_end(s, i, CharClass::Digit);
        if d < s.len() && s[d] == '.' { run_end(s, d + 1, CharClass::Digit) } else { d }
    } else if letter_spec(c) {
        run_end(s, i, CharClass::Letter)
    } else {
        i
    }
}

/// Whether the whole of `s` from index `a` lexes without an error.
pub open spec fn clean_all(s: Seq<char>, a: int) -> bool
    decreases s.len() - a,
{
    if !clean_from(s, a) {
        false
    } else {
        let s0 = skip_blank(s, a);
        if s0 >= s.len() || s0 < 0 {
            true
        } else {
            let e = token_end(s, s0);
            if a < e <= s.len() {
                clean_all(s, e)
            } else {
                false
            }
        }
    }
}

/// The next token never starts before where the search for it began.
proof fn lemma_skip_blank_ge(s: Seq<char>, a: int)
    requires
        0 <= a,
    ensures
        skip_blank(s, a) >= a,
    decreases s.len() - a,
{
    reveal(skip_blank);
    if a < s.len() {
        if whitespace(s[a]) {
            lemma_skip_blank_ge(s, a + 1);
        } else if s[a] == '/' && a + 1 < s.len() && s[a + 1] == '/' {
            let e = run_end(s, a + 2, CharClass::NotNewline);
            if a < e <= s.len() {
                lemma_skip_blank_ge(s, e);
            }
        } else if s[a] == '/' && a + 1 < s.len() && s[a + 1] == '*' {
            match find_close(s, a + 2) {
                Some(c) => if a < c && c + 2 <= s.len() {
                    lemma_skip_blank_ge(s, c + 2);
                },
                None => {},
            }
        }
    }
}

/// A token that matches ends where `token_end` says.
proof fn lemma_token_matches_end(s: Seq<char>, i: int, ty: TokenType, e: int)
    requires
        0 <= i < s.len(),
        token_matches(s, i, ty, e),
    ensures
        e == token_end(s, i),
{
    reveal(token_matches);
}

/// No `c` from `i` on means none is found.
proof fn lemma_find_char_none(s: Seq<char>, i: int, c: char)
    requires
        0 <= i,
        forall|k: int| i <= k < s.len() ==> #[trigger] s[k] != c,
    ensures
        find_char(s, i, c) is None,
    decreases s.len() - i,
{
    if i < s.len() {
        lemma_find_char_none(s, i + 1, c);
    }
}

/// No `*/` from `i` on means none is found.
proof fn lemma_find_close_none(s: Seq<char>, i: int)
    requires
        0 <= i,
        forall|k: int| i <= k && k + 1 < s.len() ==> !(#[trigger] s[k] == '*' && s[k + 1] == '/'),
    ensures
        find_close(s, i) is None,
    decreases s.len() - i,
{
    if i + 1 < s.len() {
        lemma_find_close_none(s, i + 1);
    }
}

/// The message for a character that starts no token.
pub open spec fn unexpected_msg(c: char) -> Seq<char> {
    "Unexpected char '"@.push(c) + "' "@
}

/// Where the number that starts at index `i` ends: its digits, and a `.`
/// with the digits after it.
pub open spec fn number_end(s: Seq<char>, i: int) -> int {
    let d = run_end(s, i, CharClass::Digit);
    if d < s.len() && s[d] == '.' {
        run_end(s, d + 1, CharClass::Digit)
    } else {
        d
    }
}

/// The errors one scan for a token from index `a` records, with where the
/// scan stops: a stray character is reported at itself and passed over, an
/// unclosed string or block comment at its opening (and the scan runs to
/// the end), a letter right after a number at the number's start.
pub open spec fn next_failures(s: Seq<char>, a: int) -> (Seq<(Seq<char>, Span)>, int)
    decreases s.len() - a,
{
    if a < 0 || a >= s.len() {
        (Seq::empty(), a)
    } else {
        let c = s[a];
        let at = pos_after(s, a);
        if whitespace(c) {
            next_failures(s, a + 1)
        } else if single_token(c) is Some || c == '=' || c == '!' || c == '>' || c == '<' {
            (Seq::empty(), token_end(s, a))
        } else if c == '/' && a + 1 < s.len() && s[a + 1] == '/' {
            let e = run_end(s, a + 2, CharClass::NotNewline);
            if a < e <= s.len() {
                next_failures(s, e)
            } else {
                (Seq::empty(), a)
            }
        } else if c == '/' && a + 1 < s.len() && s[a + 1] == '*' {
            match find_close(s, a + 2) {
                Some(cl) => if a < cl && cl + 2 <= s.len() {
                    next_failures(s, cl + 2)
                } else {
                    (Seq::empty(), a)
                },
                None => (seq![("Unclosed block comment"@, Span { start: at, end: pos_after(s, s.len() as int) })], s.len() as int),
            }
        } else if c == '/' {
            (Seq::empty(), a + 1)
        } else if c == '"' {
            match find_char(s, a + 1, '"') {
                Some(q) => (Seq::empty(), q + 1),
                None => (seq![("Unclosed string"@, Span { start: at, end: pos_after(s, s.len() as int) })], s.len() as int),
            }
        } else if digit_spec(c) {
            let e = number_end(s, a);
            if token_clean(s, a) {
                (Seq::empty(), e)
            } else {
                (seq![(unexpected_msg(s[e]), Span { start: at, end: at })], e)
            }
        } else if letter_spec(c) {
            (Seq::empty(), run_end(s, a, CharClass::Letter))
        } else {
            let r = next_failures(s, a + 1);
            (seq![(unexpected_msg(c), Span { start: at, end: at })] + r.0, r.1)
        }
    }
}

/// The errors a whole scan of `s` from index `a` records, in order.
pub open spec fn lex_failures(s: Seq<char>, a: int) -> Seq<(Seq<char>, Span)>
    decreases s.len() - a,
{
    if a < 0 || a >= s.len() {
        Seq::empty()
    } else {
        let r = next_failures(s, a);
        if a < r.1 <= s.len() {
            r.0 + lex_failures(s, r.1)
        } else {
            r.0
        }
    }
}

/// Whether diagnostic `base + i` of `after` is the error `fs[i]`.
pub open spec fn failure_at(after: Seq<Diagnostic>, base: int, fs: Seq<(Seq<char>, Span)>, i: int) -> bool {
    &&& after[base + i].msg@ == fs[i].0
    &&& after[base + i].span == fs[i].1
    &&& after[base + i].level == Level::Error
}

/// Whether `after` is `before` with the errors `fs` appended, in order.
pub open spec fn records(before: Seq<Diagnostic>, after: Seq<Diagnostic>, fs: Seq<(Seq<char>, Span)>) -> bool {
    &&& after.len() == before.len() + fs.len()
    &&& before.is_prefix_of(after)
    &&& forall|i: int| 0 <= i < fs.len() ==> #[trigger] failure_at(after, before.len() as int, fs, i)
}

proof fn lemma_records_trans(
    a: Seq<Diagnostic>,
    b: Seq<Diagnostic>,
    c: Seq<Diagnostic>,
    f: Seq<(Seq<char>, Span)>,
    g: Seq<(Seq<char>, Span)>,
)
    requires
        records(a, b, f),
        records(b, c, g),
    ensures
        records(a, c, f + g),
{
    crate::compiler::lemma_prefix_trans(a, b, c);
    assert forall|i: int| 0 <= i < (f + g).len() implies #[trigger] failure_at(c, a.len() as int, f + g, i) by {
        if i < f.len() {
            assert(failure_at(b, a.len() as int, f, i));
            assert(b[a.len() + i] == c.subrange(0, b.len() as int)[a.len() + i]);
            assert((f + g)[i] == f[i]);
        } else {
            let j = i - f.len();
            assert(failure_at(c, b.len() as int, g, j));
            assert(b.len() + j == a.len() + i);
            assert((f + g)[i] == g[j]);
        }
    }
}

proof fn lemma_records_push(a: Seq<Diagnostic>, d: Diagnostic, f: (Seq<char>, Span))
    requires
        d.msg@ == f.0,
        d.span == f.1,
        d.level == Level::Error,
    ensures
        records(a, a.push(d), seq![f]),
{
    crate::compiler::lemma_prefix_push(a, d);
    assert(failure_at(a.push(d), a.len() as int, seq![f], 0));
}

proof fn lemma_records_none(a: Seq<Diagnostic>)
    ensures
        records(a, a, Seq::empty()),
{
    assert(a =~= a.subrange(0, a.len() as int));
}

/// Whether `toks`, none of them the end of input yet, are the first tokens
/// of `src` from index `c0`, token `i` ending just before `ends[i]`.
pub open spec fn lexed_prefix(src: Seq<char>, c0: int, toks: Seq<Spanned<Token>>, ends: Seq<int>) -> bool {
    &&& ends.len() == toks.len()
    &&& forall|i: int| 0 <= i < ends.len() ==> #[trigger] token_ok(src, c0, toks, ends, i)
}

/// Where the blank after the last of `ends` starts.
pub open spec fn last_end(c0: int, ends: Seq<int>) -> int {
    if ends.len() == 0 { c0 } else { ends.last() }
}

/// One more token, read after the blank that follows the last, extends the tokens read.
proof fn lemma_lexed_push(src: Seq<char>, c0: int, toks: Seq<Spanned<Token>>, ends: Seq<int>, t: Spanned<Token>, e: int)
    requires
        lexed_prefix(src, c0, toks, ends),
        skip_blank(src, last_end(c0, ends)) < src.len(),
        token_matches(src, skip_blank(src, last_end(c0, ends)), t.value.ty, e),
        t.span == (Span { start: pos_after(src, skip_blank(src, last_end(c0, ends))), end: pos_after(src, e) }),
    ensures
        lexed_prefix(src, c0, toks.push(t), ends.push(e)),
{
    let toks2 = toks.push(t);
    let ends2 = ends.push(e);
    assert forall|i: int| 0 <= i < ends2.len() implies #[trigger] token_ok(src, c0, toks2, ends2, i) by {
        if i < ends.len() {
            assert(token_ok(src, c0, toks, ends, i));
            assert(ends2[i] == ends[i]);
            assert(toks2[i] == toks[i]);
            if i > 0 {
                assert(ends2[i - 1] == ends[i - 1]);
            }
        } else if i > 0 {
            assert(ends2[i - 1] == ends.last());
        }
    }
}

/// Once only blank is left, the end of input closes the tokens read.
proof fn lemma_lexed_finish(src: Seq<char>, c0: int, toks: Seq<Spanned<Token>>, ends: Seq<int>, t: Spanned<Token>)
    requires
        lexed_prefix(src, c0, toks, ends),
        skip_blank(src, last_end(c0, ends)) >= src.len(),
        t.value.ty is EOF,
        t.span == (Span { start: pos_after(src, src.len() as int), end: pos_after(src, src.len() as int) }),
    ensures
        lexed_with(src, c0, toks.push(t), ends),
{
    let toks2 = toks.push(t);
    assert forall|i: int| 0 <= i < ends.len() implies #[trigger] token_ok(src, c0, toks2, ends, i) by {
        assert(token_ok(src, c0, toks, ends, i));
        assert(toks2[i] == toks[i]);
    }
}

/// The lexer: a cursor over the characters with one character of lookahead,
/// and the reporter that collects what goes wrong.
#[derive(Debug, Clone)]
pub struct Lexer {
    pub reporter: Reporter,
    pub chars: CharPosition,
    /// The next character and its position.
    pub lookahead: Option<(Position, char)>,
    /// The position after the last character read.
    pub end: Position,
}

impl Lexer {
    /// How many characters have been read.
    pub open spec fn consumed(&self) -> nat {
        if self.lookahead is Some {
            (self.chars.index - 1) as nat
        } else {
            self.chars.index as nat
        }
    }

    /// How many characters are left, the lookahead included.
    pub open spec fn left(&self) -> nat {
        (self.chars.chars@.len() - self.consumed()) as nat
    }

    /// The lookahead is the character at the cursor, and the end position
    /// stays within the bounds of what has been read.
    pub open spec fn wf(&self) -> bool {
        &&& self.chars.wf()
        &&& self.lookahead is Some ==> {
            &&& self.chars.index >= 1
            &&& self.lookahead.unwrap().1 == self.chars.chars@[self.chars.index - 1]
        }
        &&& self.lookahead is None ==> self.chars.index == self.chars.chars@.len()
        &&& pos_bounded(self.end, self.consumed())
        &&& self.end == pos_after(self.chars.chars@, self.consumed() as int)
        &&& self.lookahead is Some ==> self.lookahead.unwrap().0 == self.end
    }

    /// What every step of the lexer keeps: well-formedness, the source, and
    /// the diagnostics recorded before it; it only moves forward.
    pub open spec fn step(&self, after: &Lexer) -> bool {
        &&& after.wf()
        &&& after.chars.chars == self.chars.chars
        &&& after.consumed() >= self.consumed()
        &&& self.reporter.view_diagnostics().is_prefix_of(after.reporter.view_diagnostics())
    }

    /// A lexer at the start of `input`.
    pub fn new(input: &str, reporter: Reporter) -> (r: Lexer)
        requires
            input@.len() <= MAX_SOURCE,
        ensures
            r.wf(),
            r.chars.chars@ == input@,
            r.consumed() == 0,
            r.reporter == reporter,
            r.end == (Position { line: 1, column: 1, absolute: 0 }),
    {
        let mut chars = CharPosition::new(input);
        let end = chars.pos;
        let lookahead = chars.next();
        Lexer { reporter, chars, lookahead, end }
    }

    /// Reads the lookahead character and returns it with its position.
    fn advance(&mut self) -> (r: Option<(Position, char)>)
        requires
            old(self).wf(),
        ensures
            final(self).wf(),
            final(self).chars.chars == old(self).chars.chars,
            final(self).reporter == old(self).reporter,
            r == old(self).lookahead,
            r is Some ==> final(self).consumed() == old(self).consumed() + 1,
            r is Some ==> final(self).end == shift_spec(old(self).end, r.unwrap().1),
            r is None ==> *final(self) == *old(self),
    {
        match self.lookahead {
            Some((pos, ch)) => {
                proof {
                    crate::pos::lemma_shift_bounded(self.end, ch, self.consumed());
                }
                self.end = self.end.shift(ch);
                self.lookahead = self.chars.next();
                Some((pos, ch))
            },
            None => None,
        }
    }

    /// Records an error over `start..end`.
    fn span_error(&mut self, msg: String, start: Position, end: Position)
        ensures
            final(self).reporter.view_diagnostics() == old(self).reporter.view_diagnostics().push(
                crate::error::Diagnostic { msg, span: Span { start, end }, level: crate::error::Level::Error },
            ),
            final(self).chars == old(self).chars,
            final(self).lookahead == old(self).lookahead,
            final(self).end == old(self).end,
    {
        self.reporter.error(msg, Span { start, end })
    }

    /// Records an error at `pos`.
    fn error(&mut self, msg: String, pos: Position)
        ensures
            final(self).reporter.view_diagnostics() == old(self).reporter.view_diagnostics().push(
                crate::error::Diagnostic { msg, span: Span { start: pos, end: pos }, level: crate::error::Level::Error },
            ),
            final(self).chars == old(self).chars,
            final(self).lookahead == old(self).lookahead,
            final(self).end == old(self).end,
    {
        self.reporter.error(msg, Span { start: pos, end: pos })
    }

    /// The characters `from..to` of the source.
    fn slice(&self, from: usize, to: usize) -> (r: String)
        requires
            from <= to <= self.chars.chars@.len(),
        ensures
            r@ == self.chars.chars@.subrange(from as int, to as int),
    {
        let mut r = String::new();
        let mut i = from;
        while i < to
            invariant
                from <= i <= to <= self.chars.chars@.len(),
                r@ == self.chars.chars@.subrange(from as int, i as int),
            decreases to - i,
        {
            push_char(&mut r, self.chars.chars[i]);
            proof {
                assert(r@ =~= self.chars.chars@.subrange(from as int, i + 1));
            }
            i = i + 1;
        }
        r
    }

    /// How many characters have been read.
    fn consumed_count(&self) -> (r: usize)
        requires
            self.wf(),
        ensures
            r == self.consumed(),
    {
        match self.lookahead {
            Some(_) => self.chars.index - 1,
            None => self.chars.index,
        }
    }

    /// Reads characters while they are in `class`. Returns the position after
    /// the last one read and the text from character index `start` to there.
    fn take_whilst(&mut self, start: usize, class: CharClass) -> (r: (Position, String))
        requires
            old(self).wf(),
            start <= old(self).consumed(),
        ensures
            old(self).step(&*final(self)),
            final(self).reporter == old(self).reporter,
            r.0 == final(self).end,
            r.1@ == final(self).chars.chars@.subrange(start as int, final(self).consumed() as int),
            forall|k: int| old(self).consumed() <= k < final(self).consumed()
                ==> in_class(class, #[trigger] final(self).chars.chars@[k]),
            final(self).lookahead is Some ==> !in_class(class, final(self).lookahead.unwrap().1),
    {
        loop
            invariant
                old(self).step(&*self),
                self.reporter == old(self).reporter,
                start <= old(self).consumed(),
                forall|k: int| old(self).consumed() <= k < self.consumed()
                    ==> in_class(class, #[trigger] self.chars.chars@[k]),
            ensures
                self.lookahead is Some ==> !in_class(class, self.lookahead.unwrap().1),
            decreases self.left(),
        {
            match self.lookahead {
                Some((_, ch)) => {
                    if !class_holds(class, ch) {
                        break;
                    }
                    let _ = self.advance();
                },
                None => break,
            }
        }
        let to = self.consumed_count();
        (self.end, self.slice(start, to))
    }

    /// Whether the lookahead character is `c`.
    fn peek(&self, c: char) -> (r: bool)
        ensures
            r == (self.lookahead is Some && self.lookahead.unwrap().1 == c),
    {
        match self.lookahead {
            Some((_, ch)) => ch == c,
            None => false,
        }
    }

    /// Skips the rest of a `//` comment, up to the newline.
    fn line_comment(&mut self, start: usize)
        requires
            old(self).wf(),
            start <= old(self).consumed(),
        ensures
            old(self).step(&*final(self)),
            final(self).reporter == old(self).reporter,
            final(self).lookahead is Some ==> final(self).lookahead.unwrap().1 == '\n',
            final(self).consumed() == run_end(old(self).chars.chars@, old(self).consumed() as int, CharClass::NotNewline),
    {
        let _ = self.take_whilst(start, CharClass::NotNewline);
        proof {
            let src = self.chars.chars@;
            if self.lookahead is Some {
                assert(src[self.consumed() as int] == self.lookahead.unwrap().1);
            }
            lemma_run_end(src, old(self).consumed() as int, self.consumed() as int, CharClass::NotNewline);
        }
    }

    /// Skips a block comment whose `/` was at `start`, with the lookahead on
    /// its `*`, through the closing `*/`. An unclosed one is reported at its
    /// opening and ends at the end of input.
    #[verifier::rlimit(40)]
    fn block_comment(&mut self, start: Position) -> (r: Result<(), ()>)
        requires
            old(self).wf(),
            old(self).lookahead is Some,
            old(self).lookahead.unwrap().1 == '*',
        ensures
            old(self).step(&*final(self)),
            r is Ok ==> final(self).reporter == old(self).reporter,
            r is Ok ==> find_close(old(self).chars.chars@, old(self).consumed() + 1 as int) == Some(
                final(self).consumed() - 2,
            ),
            r is Ok ==> final(self).consumed() >= old(self).consumed() + 3,
            r is Err ==> find_close(old(self).chars.chars@, old(self).consumed() + 1 as int) is None,
            r is Err ==> final(self).lookahead is None && final(self).reporter.view_diagnostics()
                == old(self).reporter.view_diagnostics().push(crate::error::Diagnostic {
                    msg: final(self).reporter.view_diagnostics().last().msg,
                    span: Span { start, end: final(self).end },
                    level: crate::error::Level::Error,
                }) && final(self).reporter.view_diagnostics().last().msg@
                == lexer_error_msg(LexerError::UnclosedBlockComment),
    {
        let _ = self.advance();
        let ghost src = old(self).chars.chars@;
        let ghost from: int = old(self).consumed() as int + 1;
        loop
            invariant
                old(self).step(&*self),
                self.reporter == old(self).reporter,
                src == self.chars.chars@,
                from == old(self).consumed() + 1,
                from <= self.consumed(),
                forall|k: int|
                    from <= k < self.consumed() ==> !(#[trigger] src[k] == '*' && k + 1 < src.len()
                        && src[k + 1] == '/'),
            decreases self.left(),
        {
            let ghost i = self.consumed() as int;
            match self.advance() {
                Some((_, ch)) => {
                    proof {
                        assert(src[i] == ch);
                        if self.lookahead is Some {
                            assert(src[i + 1] == self.lookahead.unwrap().1);
                        }
                    }
                    if ch == '*' && self.peek('/') {
                        let _ = self.advance();
                        proof {
                            lemma_find_close(src, from, i);
                        }
                        return Ok(());
                    }
                },
                None => {
                    let msg = LexerError::UnclosedBlockComment.message();
                    let end = self.end;
                    self.span_error(msg, start, end);
                    proof {
                        lemma_find_close_none(src, from);
                        crate::compiler::lemma_prefix_push(
                            old(self).reporter.view_diagnostics(),
                            self.reporter.view_diagnostics().last(),
                        );
                    }
                    return Err(());
                },
            }
        }
    }
}

impl Lexer {
    /// Reads the rest of a string literal whose opening quote was at `start`
    /// (character index `start_idx`). The token holds the characters between
    /// the quotes; an unclosed string is reported and yields no token.
    #[verifier::rlimit(40)]
    fn string_literal(&mut self, start: Position, start_idx: usize) -> (r: Result<Spanned<Token>, ()>)
        requires
            old(self).wf(),
            start_idx + 1 == old(self).consumed(),
            old(self).chars.chars@[start_idx as int] == '"',
        ensures
            old(self).step(&*final(self)),
            r is Ok ==> final(self).reporter == old(self).reporter,
            r is Ok ==> r->Ok_0.value.ty is String && r->Ok_0.span == (Span { start, end: final(self).end }),
            r is Ok ==> find_char(final(self).chars.chars@, start_idx + 1, '"') == Some(final(self).consumed() - 1)
                && r->Ok_0.value.ty->String_0@ == final(self).chars.chars@.subrange(start_idx + 1, final(self).consumed() - 1),
            r is Ok ==> token_text(r->Ok_0.value.ty) == final(self).chars.chars@.subrange(
                start_idx as int,
                final(self).consumed() as int,
            ),
            r is Err ==> final(self).lookahead is None && final(self).reporter.view_diagnostics().len()
                == old(self).reporter.view_diagnostics().len() + 1,
            r is Err ==> find_char(old(self).chars.chars@, start_idx + 1, '"') is None,
            r is Err ==> records(old(self).reporter.view_diagnostics(), final(self).reporter.view_diagnostics(),
                seq![("Unclosed string"@, Span { start, end: final(self).end })]),
    {
        loop
            invariant
                old(self).step(&*self),
                self.reporter == old(self).reporter,
                start_idx < old(self).consumed(),
                old(self).chars.chars@[start_idx as int] == '"',
                start_idx + 1 <= self.consumed(),
                forall|k: int| start_idx + 1 <= k < self.consumed() ==> #[trigger] self.chars.chars@[k] != '"',
            ensures
                self.lookahead is None,
            decreases self.left(),
        {
            let ghost i = self.consumed() as int;
            match self.advance() {
                Some((_, ch)) => {
                    proof {
                        assert(self.chars.chars@[i] == ch);
                    }
                    if ch == '"' {
                        let close = self.consumed_count() - 1;
                        let text = self.slice(start_idx + 1, close);
                        proof {
                            lemma_symbol_texts();
                            let src = self.chars.chars@;
                            assert(src[close as int] == '"');
                            assert(src[start_idx as int] == '"');
                            let a = src.subrange(start_idx as int, close + 1);
                            let b = seq!['"'] + text@ + seq!['"'];
                            assert(a.len() == b.len());
                            assert forall|k: int| 0 <= k < a.len() implies a[k] == b[k] by {
                                if k == 0 {
                                } else if k == a.len() - 1 {
                                } else {
                                    assert(b[k] == text@[k - 1]);
                                }
                            }
                            assert(a =~= b);
                            lemma_find_char(src, start_idx + 1, close as int, '"');
                        }
                        return Ok(spans(TokenType::String(text), start, self.end));
                    }
                },
                None => break,
            }
        }
        let msg = LexerError::UnclosedString.message();
        let end = self.end;
        self.span_error(msg, start, end);
        proof {
            lemma_records_push(old(self).reporter.view_diagnostics(), self.reporter.view_diagnostics().last(),
                ("Unclosed string"@, Span { start, end }));
            lemma_find_char_none(self.chars.chars@, start_idx + 1, '"');
            crate::compiler::lemma_prefix_push(old(self).reporter.view_diagnostics(), self.reporter.view_diagnostics().last());
        }
        Err(())
    }

    /// Reads the rest of a number whose first digit was at `start`
    /// (character index `start_idx`). A letter right after it is reported
    /// as unexpected and the number yields no token.
    #[verifier::rlimit(40)]
    fn number(&mut self, start: Position, start_idx: usize) -> (r: Result<Spanned<Token>, ()>)
        requires
            old(self).wf(),
            start_idx + 1 == old(self).consumed(),
            digit_spec(old(self).chars.chars@[start_idx as int]),
        ensures
            old(self).step(&*final(self)),
            r is Ok ==> final(self).reporter == old(self).reporter,
            r is Ok ==> r->Ok_0.value.ty is Number && number_text(r->Ok_0.value.ty->Number_0@)
                && r->Ok_0.span == (Span { start, end: final(self).end }),
            r is Ok ==> r->Ok_0.value.ty->Number_0@ == final(self).chars.chars@.subrange(
                start_idx as int,
                final(self).consumed() as int,
            ),
            r is Ok ==> {
                let src = final(self).chars.chars@;
                let d = run_end(src, start_idx as int, CharClass::Digit);
                let d2 = if d < src.len() && src[d] == '.' {
                    run_end(src, d + 1, CharClass::Digit)
                } else {
                    d
                };
                final(self).consumed() == d2
            },
            r is Err ==> final(self).reporter.view_diagnostics().len()
                == old(self).reporter.view_diagnostics().len() + 1,
            r is Ok <==> token_clean(old(self).chars.chars@, start_idx as int),
            final(self).consumed() == number_end(old(self).chars.chars@, start_idx as int),
            r is Err ==> final(self).consumed() < old(self).chars.chars@.len() && records(
                old(self).reporter.view_diagnostics(),
                final(self).reporter.view_diagnostics(),
                seq![(unexpected_msg(old(self).chars.chars@[final(self).consumed() as int]), Span { start, end: start })],
            ),
    {
        let (end, whole) = self.take_whilst(start_idx, CharClass::Digit);
        let ghost int_len: int = whole@.len() as int;
        let ghost src = self.chars.chars@;
        let ghost e1 = self.consumed() as int;
        proof {
            if self.lookahead is Some {
                assert(src[e1] == self.lookahead.unwrap().1);
            }
            lemma_run_end(src, start_idx + 1, e1, CharClass::Digit);
            assert(run_end(src, start_idx as int, CharClass::Digit) == e1);
        }
        proof {
            assert(all_digits(whole@)) by {
                assert forall|k: int| 0 <= k < whole@.len() implies digit_spec(#[trigger] whole@[k]) by {
                    if k > 0 {
                        assert(whole@[k] == self.chars.chars@[start_idx + k]);
                    }
                }
            }
        }
        let bad = match self.lookahead {
            Some((_, ch)) => if ch != '.' && char_is_alphabetic(ch) { Some(ch) } else { None },
            None => None,
        };
        if let Some(ch) = bad {
            let msg = LexerError::Unexpected(ch, start).message();
            self.error(msg, start);
            proof {
                crate::compiler::lemma_prefix_push(old(self).reporter.view_diagnostics(), self.reporter.view_diagnostics().last());
                lemma_records_push(old(self).reporter.view_diagnostics(), self.reporter.view_diagnostics().last(),
                    (unexpected_msg(ch), Span { start, end: start }));
                assert(old(self).reporter.view_diagnostics().push(self.reporter.view_diagnostics().last()) == self.reporter.view_diagnostics());
            }
            return Err(());
        }
        if self.peek('.') {
            let _ = self.advance();
            let (end, text) = self.take_whilst(start_idx, CharClass::Digit);
            proof {
                if self.lookahead is Some {
                    assert(src[self.consumed() as int] == self.lookahead.unwrap().1);
                }
                lemma_run_end(src, e1 + 1, self.consumed() as int, CharClass::Digit);
            }
            let bad = match self.lookahead {
                Some((_, ch)) => if char_is_alphabetic(ch) { Some(ch) } else { None },
                None => None,
            };
            if let Some(ch) = bad {
                let msg = LexerError::Unexpected(ch, start).message();
                self.error(msg, start);
                proof {
                    crate::compiler::lemma_prefix_push(old(self).reporter.view_diagnostics(), self.reporter.view_diagnostics().last());
                    lemma_records_push(old(self).reporter.view_diagnostics(), self.reporter.view_diagnostics().last(),
                        (unexpected_msg(ch), Span { start, end: start }));
                    assert(old(self).reporter.view_diagnostics().push(self.reporter.view_diagnostics().last()) == self.reporter.view_diagnostics());
                }
                return Err(());
            }
            proof {
                let f = text@;
                assert(f.take(int_len) =~= whole@);
                assert(f[int_len] == '.');
                assert(all_digits(f.skip(int_len + 1))) by {
                    assert forall|k: int| 0 <= k < f.skip(int_len + 1).len() implies digit_spec(#[trigger] f.skip(int_len + 1)[k]) by {
                        assert(f.skip(int_len + 1)[k] == self.chars.chars@[start_idx + int_len + 1 + k]);
                    }
                }
                assert(number_text(f));
            }
            Ok(spans(TokenType::Number(text), start, end))
        } else {
            proof {
                assert(whole@.take(int_len) =~= whole@);
                assert(number_text(whole@));
            }
            Ok(spans(TokenType::Number(whole), start, end))
        }
    }

    /// Reads the rest of a word whose first character was at `start`
    /// (character index `start_idx`): a keyword or an identifier.
    fn identifier(&mut self, start: Position, start_idx: usize) -> (r: Spanned<Token>)
        requires
            old(self).wf(),
            start_idx + 1 == old(self).consumed(),
            letter_spec(old(self).chars.chars@[start_idx as int]),
        ensures
            old(self).step(&*final(self)),
            final(self).reporter == old(self).reporter,
            r.span == (Span { start, end: final(self).end }),
            !(r.value.ty is EOF) && !(r.value.ty is Number) && !(r.value.ty is Comment),
            token_text(r.value.ty) == final(self).chars.chars@.subrange(
                start_idx as int,
                final(self).consumed() as int,
            ),
            final(self).consumed() == run_end(final(self).chars.chars@, start_idx as int, CharClass::Letter),
            match keyword(final(self).chars.chars@.subrange(start_idx as int, final(self).consumed() as int)) {
                Some(k) => r.value.ty == k,
                None => r.value.ty is Ident && r.value.ty->Ident_0@ == final(self).chars.chars@.subrange(
                    start_idx as int,
                    final(self).consumed() as int,
                ),
            },
    {
        let (end, ident) = self.take_whilst(start_idx, CharClass::Letter);
        proof {
            let src = self.chars.chars@;
            if self.lookahead is Some {
                assert(src[self.consumed() as int] == self.lookahead.unwrap().1);
            }
            lemma_run_end(src, start_idx + 1, self.consumed() as int, CharClass::Letter);
        }
        spans(look_up_identifier(ident), start, end)
    }

    /// Scans the next token, skipping white space and comments. Errors in
    /// strings and stray characters are reported and scanning goes on; a
    /// bad number is reported and returned as an error. At the end of input
    /// the token is `EOF`. The errors recorded and where the scan stops are
    /// `next_failures`; where nothing is reported the token and its span are
    /// those of the text after the blank, and where the input holds no
    /// white space or comment the token is written exactly as that text.
    #[verifier::rlimit(40)]
    pub fn next(&mut self) -> (r: Result<Spanned<Token>, ()>)
        requires
            old(self).wf(),
        ensures
            old(self).step(&*final(self)),
            old(self).lookahead is Some ==> final(self).consumed() > old(self).consumed(),
            r is Err ==> final(self).reporter.view_diagnostics().len() > old(self).reporter.view_diagnostics().len(),
            r is Ok && r->Ok_0.value.ty is EOF ==> final(self).lookahead is None,
            r is Ok && r->Ok_0.value.ty is Number ==> number_text(r->Ok_0.value.ty->Number_0@),
            r is Ok ==> !(r->Ok_0.value.ty is Comment),
            gap_free(old(self).chars.chars@, old(self).consumed() as int) && old(self).lookahead is Some
                && final(self).reporter.view_diagnostics().len() == old(self).reporter.view_diagnostics().len()
                ==> r is Ok && !(r->Ok_0.value.ty is EOF) && token_text(r->Ok_0.value.ty)
                == final(self).chars.chars@.subrange(old(self).consumed() as int, final(self).consumed() as int),
            final(self).reporter.view_diagnostics().len() == old(self).reporter.view_diagnostics().len() ==> {
                let src = old(self).chars.chars@;
                let s0 = skip_blank(src, old(self).consumed() as int);
                &&& r is Ok
                &&& s0 >= src.len() ==> r->Ok_0.value.ty is EOF && final(self).consumed() == src.len()
                    && r->Ok_0.span == (Span { start: pos_after(src, src.len() as int), end: pos_after(src, src.len() as int) })
                &&& s0 < src.len() ==> token_matches(src, s0, r->Ok_0.value.ty, final(self).consumed() as int)
                    && r->Ok_0.span == (Span { start: pos_after(src, s0), end: pos_after(src, final(self).consumed() as int) })
            },
            (final(self).reporter.view_diagnostics().len() == old(self).reporter.view_diagnostics().len())
                == clean_from(old(self).chars.chars@, old(self).consumed() as int),
            records(
                old(self).reporter.view_diagnostics(),
                final(self).reporter.view_diagnostics(),
                next_failures(old(self).chars.chars@, old(self).consumed() as int).0,
            ),
            final(self).consumed() == next_failures(old(self).chars.chars@, old(self).consumed() as int).1,
    {
        let ghost c0 = old(self).consumed() as int;
        let ghost src = old(self).chars.chars@;
        let ghost mut fs: Seq<(Seq<char>, Span)> = Seq::empty();
        proof {
            reveal(token_matches);
            reveal(skip_blank);
            lemma_records_none(old(self).reporter.view_diagnostics());
            assert(fs + next_failures(src, c0).0 =~= next_failures(src, c0).0);
        }
        loop
            invariant
                old(self).step(&*self),
                self.consumed() == old(self).consumed() ==> self.lookahead == old(self).lookahead,
                src == self.chars.chars@,
                c0 == old(self).consumed(),
                gap_free(src, c0) && self.reporter.view_diagnostics().len()
                    == old(self).reporter.view_diagnostics().len() ==> self.consumed() == c0,
                self.reporter.view_diagnostics().len() == old(self).reporter.view_diagnostics().len()
                    ==> skip_blank(src, c0) == skip_blank(src, self.consumed() as int),
                self.reporter.view_diagnostics().len() == old(self).reporter.view_diagnostics().len()
                    ==> clean_from(src, c0) == clean_from(src, self.consumed() as int),
                self.reporter.view_diagnostics().len() != old(self).reporter.view_diagnostics().len()
                    ==> !clean_from(src, c0),
                records(old(self).reporter.view_diagnostics(), self.reporter.view_diagnostics(), fs),
                fs + next_failures(src, self.consumed() as int).0 == next_failures(src, c0).0,
                next_failures(src, self.consumed() as int).1 == next_failures(src, c0).1,
            ensures
                old(self).step(&*self),
                self.lookahead is None,
                self.consumed() == old(self).consumed() ==> self.lookahead == old(self).lookahead,
                gap_free(src, c0) && self.reporter.view_diagnostics().len()
                    == old(self).reporter.view_diagnostics().len() ==> self.consumed() == c0,
                self.reporter.view_diagnostics().len() == old(self).reporter.view_diagnostics().len()
                    ==> skip_blank(src, c0) == skip_blank(src, self.consumed() as int),
                self.reporter.view_diagnostics().len() == old(self).reporter.view_diagnostics().len()
                    ==> clean_from(src, c0) == clean_from(src, self.consumed() as int),
                self.reporter.view_diagnostics().len() != old(self).reporter.view_diagnostics().len()
                    ==> !clean_from(src, c0),
                records(old(self).reporter.view_diagnostics(), self.reporter.view_diagnostics(), fs),
                fs + next_failures(src, self.consumed() as int).0 == next_failures(src, c0).0,
                next_failures(src, self.consumed() as int).1 == next_failures(src, c0).1,
            decreases self.left(),
        {
            let ghost prev = *self;
            let (start, ch) = match self.advance() {
                Some(x) => x,
                None => break,
            };
            let start_idx = self.consumed_count() - 1;
            proof {
                reveal(skip_blank);
                reveal(token_matches);
                reveal(clean_from);
                lemma_step_trans(*old(self), prev, *self);
                lemma_symbol_texts();
                assert(ch == src[start_idx as int]);
                assert(src.subrange(start_idx as int, start_idx + 1) =~= seq![ch]);
                assert(start == pos_after(src, start_idx as int));
                if next_failures(src, start_idx as int).0.len() == 0 {
                    assert(fs + next_failures(src, start_idx as int).0 =~= fs);
                }
            }
            proof {
                if self.lookahead is Some {
                    assert(src[start_idx + 1] == self.lookahead.unwrap().1);
                }
            }
            if char_is_whitespace(ch) {
                continue;
            }
            let single = single_char_token(ch);
            if let Some(ty) = single {
                return Ok(spans(ty, start, self.end));
            } else if ch == '"' {
                let ghost mid = *self;
                match self.string_literal(start, start_idx) {
                    Ok(token) => return Ok(token),
                    Err(_) => {
                        proof {
                            lemma_step_trans(*old(self), mid, *self);
                            let f = next_failures(src, start_idx as int).0;
                            lemma_records_trans(old(self).reporter.view_diagnostics(), mid.reporter.view_diagnostics(),
                                self.reporter.view_diagnostics(), fs, f);
                            fs = fs + f;
                            assert(fs + next_failures(src, self.consumed() as int).0 =~= fs);
                        }
                        continue;
                    },
                }
            } else if ch == '=' || ch == '!' || ch == '>' || ch == '<' {
                if self.peek('=') {
                    let _ = self.advance();
                    let ty = if ch == '=' {
                        TokenType::EqualEqual
                    } else if ch == '!' {
                        TokenType::BangEqual
                    } else if ch == '>' {
                        TokenType::GreaterEqual
                    } else {
                        TokenType::LessEqual
                    };
                    proof {
                        assert(src.subrange(start_idx as int, start_idx + 2) =~= seq![ch, '=']);
                    }
                    return Ok(spans(ty, start, self.end));
                }
                let ty = if ch == '=' {
                    TokenType::Equal
                } else if ch == '!' {
                    TokenType::Bang
                } else if ch == '>' {
                    TokenType::Greater
                } else {
                    TokenType::Less
                };
                return Ok(spans(ty, start, self.end));
            } else if ch == '/' {
                if self.peek('/') {
                    let ghost mid = *self;
                    let _ = self.advance();
                    self.line_comment(start_idx);
                    proof {
                        lemma_step_trans(*old(self), mid, *self);
                    }
                    continue;
                } else if self.peek('*') {
                    let ghost mid = *self;
                    let b = self.block_comment(start);
                    proof {
                        lemma_step_trans(*old(self), mid, *self);
                        if b is Err {
                            let f = next_failures(src, start_idx as int).0;
                            lemma_records_push(mid.reporter.view_diagnostics(), self.reporter.view_diagnostics().last(),
                                f[0]);
                            assert(f =~= seq![f[0]]);
                            lemma_records_trans(old(self).reporter.view_diagnostics(), mid.reporter.view_diagnostics(),
                                self.reporter.view_diagnostics(), fs, f);
                            fs = fs + f;
                            assert(fs + next_failures(src, self.consumed() as int).0 =~= fs);
                        }
                    }
                    continue;
                } else {
                    return Ok(spans(TokenType::Slash, start, self.end));
                }
            } else if is_digit(ch) {
                let ghost mid = *self;
                let r = self.number(start, start_idx);
                proof {
                    lemma_step_trans(*old(self), mid, *self);
                    if r is Err {
                        let f = next_failures(src, start_idx as int).0;
                        lemma_records_trans(old(self).reporter.view_diagnostics(), mid.reporter.view_diagnostics(),
                            self.reporter.view_diagnostics(), fs, f);
                    }
                }
                return r;
            } else if is_letter_ch(ch) {
                let ghost mid = *self;
                let r = self.identifier(start, start_idx);
                proof {
                    lemma_step_trans(*old(self), mid, *self);
                }
                return Ok(r);
            } else {
                let msg = LexerError::Unexpected(ch, start).message();
                self.error(msg, start);
                proof {
                    crate::compiler::lemma_prefix_push(prev.reporter.view_diagnostics(), self.reporter.view_diagnostics().last());
                    crate::compiler::lemma_prefix_trans(old(self).reporter.view_diagnostics(), prev.reporter.view_diagnostics(), self.reporter.view_diagnostics());
                    let f = (unexpected_msg(ch), Span { start, end: start });
                    lemma_records_push(prev.reporter.view_diagnostics(), self.reporter.view_diagnostics().last(), f);
                    assert(prev.reporter.view_diagnostics().push(self.reporter.view_diagnostics().last()) == self.reporter.view_diagnostics());
                    lemma_records_trans(old(self).reporter.view_diagnostics(), prev.reporter.view_diagnostics(),
                        self.reporter.view_diagnostics(), fs, seq![f]);
                    assert(fs + seq![f] + next_failures(src, self.consumed() as int).0 =~= fs + next_failures(src, start_idx as int).0);
                    fs = fs + seq![f];
                }
                continue;
            }
        }
        proof {
            reveal(skip_blank);
            reveal(clean_from);
            assert(fs + next_failures(src, self.consumed() as int).0 =~= fs);
        }
        Ok(spans(TokenType::EOF, self.end, self.end))
    }

    /// Scans the whole input, recording every error (`lex_failures`). The
    /// tokens end with one `EOF` over the end of the input, which also
    /// becomes the reporter's end span. Succeeds exactly when nothing has
    /// been reported.
    #[verifier::rlimit(40)]
    pub fn lex(&mut self) -> (r: Result<Vec<Spanned<Token>>, ()>)
        requires
            old(self).wf(),
        ensures
            old(self).step(&*final(self)),
            final(self).lookahead is None,
            r is Ok <==> final(self).reporter.view_diagnostics().len() == 0,
            final(self).reporter.end_span() == (Span { start: final(self).end, end: final(self).end }),
            final(self).end == pos_after(old(self).chars.chars@, old(self).chars.chars@.len() as int),
            r is Ok ==> {
                let t = r->Ok_0@;
                &&& t.len() > 0
                &&& t.last() == (Spanned { value: Token { ty: TokenType::EOF }, span: Span { start: final(self).end, end: final(self).end } })
                &&& forall|i: int| 0 <= i < t.len() - 1 ==> !(#[trigger] t[i].value.ty is EOF) && !(t[i].value.ty is Comment)
                &&& forall|i: int| 0 <= i < t.len() && (#[trigger] t[i].value.ty is Number) ==> number_text(t[i].value.ty->Number_0@)
            },
            r is Ok && gap_free(old(self).chars.chars@, old(self).consumed() as int) ==> serialized(r->Ok_0@)
                == old(self).chars.chars@.skip(old(self).consumed() as int),
            r is Ok ==> exists|ends: Seq<int>| lexed_with(old(self).chars.chars@, old(self).consumed() as int, r->Ok_0@, ends),
            records(
                old(self).reporter.view_diagnostics(),
                final(self).reporter.view_diagnostics(),
                lex_failures(old(self).chars.chars@, old(self).consumed() as int),
            ),
            r is Ok <==> old(self).reporter.view_diagnostics().len() == 0 && clean_all(
                old(self).chars.chars@,
                old(self).consumed() as int,
            ),
    {
        let mut tokens: Vec<Spanned<Token>> = Vec::new();
        let ghost src = old(self).chars.chars@;
        let ghost c0 = old(self).consumed() as int;
        let ghost n0 = old(self).reporter.view_diagnostics().len();
        let ghost mut ends: Seq<int> = Seq::empty();
        let ghost mut fs: Seq<(Seq<char>, Span)> = Seq::empty();
        proof {
            lemma_records_none(old(self).reporter.view_diagnostics());
            assert(fs + lex_failures(src, c0) =~= lex_failures(src, c0));
            assert(src.subrange(c0, c0) =~= Seq::<char>::empty());
        }
        while self.lookahead.is_some()
            invariant
                records(old(self).reporter.view_diagnostics(), self.reporter.view_diagnostics(), fs),
                fs + lex_failures(src, self.consumed() as int) == lex_failures(src, c0),
                self.reporter.view_diagnostics().len() == n0 ==> clean_all(src, c0) == clean_all(src, last_end(c0, ends)),
                self.reporter.view_diagnostics().len() == n0 && last_end(c0, ends) != self.consumed()
                    ==> clean_from(src, last_end(c0, ends)),
                self.reporter.view_diagnostics().len() != n0 ==> !clean_all(src, c0),
                0 <= last_end(c0, ends),
                self.reporter.view_diagnostics().len() == n0 ==> {
                    &&& lexed_prefix(src, c0, tokens@, ends)
                    &&& (last_end(c0, ends) == self.consumed() || (self.consumed() == src.len()
                        && skip_blank(src, last_end(c0, ends)) >= src.len()))
                },
                old(self).step(&*self),
                src == self.chars.chars@,
                c0 == old(self).consumed(),
                n0 == old(self).reporter.view_diagnostics().len(),
                gap_free(src, c0) && self.reporter.view_diagnostics().len() == n0 ==> serialized(tokens@)
                    == src.subrange(c0, self.consumed() as int),
                forall|i: int| 0 <= i < tokens@.len() ==> !(#[trigger] tokens@[i].value.ty is EOF) && !(tokens@[i].value.ty is Comment),
                forall|i: int| 0 <= i < tokens@.len() && (#[trigger] tokens@[i].value.ty is Number) ==> number_text(tokens@[i].value.ty->Number_0@),
            decreases self.left(),
        {
            let ghost prev = *self;
            let ghost before = tokens@;
            let ghost last0 = last_end(c0, ends);
            proof {
                lemma_skip_blank_ge(src, last0);
            }
            match self.next() {
                Ok(token) => {
                    if !token.value.ty.is_eof() {
                        tokens.push(token);
                        proof {
                            assert(tokens@.drop_last() =~= before);
                            if self.reporter.view_diagnostics().len() == n0 {
                                assert(prev.reporter.view_diagnostics().len() == n0);
                                assert(prev.consumed() == last0);
                                lemma_lexed_push(src, c0, before, ends, token, self.consumed() as int);
                                lemma_token_matches_end(src, skip_blank(src, last0), token.value.ty, self.consumed() as int);
                                assert(clean_from(src, last0));
                                assert(clean_all(src, last0) == clean_all(src, self.consumed() as int));
                            }
                            ends = ends.push(self.consumed() as int);
                        }
                    }
                },
                Err(_) => {},
            }
            proof {
                lemma_step_trans(*old(self), prev, *self);
                let nf = next_failures(src, prev.consumed() as int);
                lemma_records_trans(old(self).reporter.view_diagnostics(), prev.reporter.view_diagnostics(),
                    self.reporter.view_diagnostics(), fs, nf.0);
                assert(lex_failures(src, prev.consumed() as int) == nf.0 + lex_failures(src, self.consumed() as int));
                assert(fs + nf.0 + lex_failures(src, self.consumed() as int) =~= fs + lex_failures(src, prev.consumed() as int));
                fs = fs + nf.0;
                assert(prev.reporter.view_diagnostics().len() >= n0);
                if self.reporter.view_diagnostics().len() != prev.reporter.view_diagnostics().len() {
                    if prev.reporter.view_diagnostics().len() == n0 {
                        assert(prev.consumed() == last0);
                        assert(!clean_from(src, last0));
                        assert(!clean_all(src, last0));
                    }
                }
                if gap_free(src, c0) && self.reporter.view_diagnostics().len() == n0 {
                    assert(prev.reporter.view_diagnostics().len() == n0);
                    assert(gap_free(src, prev.consumed() as int));
                    assert(src.subrange(c0, self.consumed() as int) =~= src.subrange(c0, prev.consumed() as int)
                        + src.subrange(prev.consumed() as int, self.consumed() as int));
                }
            }
        }
        let ghost before_eof = tokens@;
        let end = self.end;
        tokens.push(span(TokenType::EOF, end));
        proof {
            reveal(skip_blank);
            reveal(clean_from);
            if self.reporter.view_diagnostics().len() == n0 {
                lemma_lexed_finish(src, c0, before_eof, ends, tokens@.last());
                assert(before_eof.push(tokens@.last()) =~= tokens@);
            }
            assert(tokens@.drop_last() =~= before_eof);
            assert(src.subrange(c0, src.len() as int) =~= src.skip(c0));
        }
        proof {
            assert(fs + lex_failures(src, self.consumed() as int) =~= fs);
        }
        self.reporter.set_end(Span { start: end, end });
        if self.reporter.has_error() {
            Err(())
        } else {
            Ok(tokens)
        }
    }

    /// Hands back the reporter.
    pub fn into_reporter(self) -> (r: Reporter)
        ensures
            r == self.reporter,
    {
        self.reporter
    }
}

/// Steps of the lexer compose.
pub proof fn lemma_step_trans(a: Lexer, b: Lexer, c: Lexer)
    requires
        a.step(&b),
        b.step(&c),
    ensures
        a.step(&c),
{
    crate::compiler::lemma_prefix_trans(
        a.reporter.view_diagnostics(),
        b.reporter.view_diagnostics(),
        c.reporter.view_diagnostics(),
    );
}

} // verus!
