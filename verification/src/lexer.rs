//! The lexer: from source text to tokens.
//!
//! What the lexer produces is defined on the UTF-8 bytes of the source by
//! `scan`; `Lexer::lex` computes it.

use crate::text::{decimal, decimal_text, lemma_boundary_after_ascii, str_eq, substring};
use vstd::prelude::*;
use vstd::string::StringSliceAdditionalSpecFns;
use vstd::utf8::*;

verus! {

/// The bytes that the lexer tells apart, by name.
pub const COMMA: u8 = 0x2c;

pub const COLON: u8 = 0x3a;

pub const LBRACE: u8 = 0x7b;

pub const RBRACE: u8 = 0x7d;

pub const LBRACKET: u8 = 0x5b;

pub const RBRACKET: u8 = 0x5d;

pub const HASH: u8 = 0x23;

pub const EQUALS: u8 = 0x3d;

pub const LPAREN: u8 = 0x28;

pub const RPAREN: u8 = 0x29;

pub const LANGLE: u8 = 0x3c;

pub const RANGLE: u8 = 0x3e;

pub const QUOTE: u8 = 0x22;

pub const SLASH: u8 = 0x2f;

pub const STAR: u8 = 0x2a;

pub const LINE_FEED: u8 = 0x0a;

pub const CARRIAGE_RETURN: u8 = 0x0d;

pub const TAB: u8 = 0x09;

pub const SPACE: u8 = 0x20;

pub const UNDERSCORE: u8 = 0x5f;

pub const UPPER_A: u8 = 0x41;

pub const UPPER_Z: u8 = 0x5a;

pub const LOWER_A: u8 = 0x61;

pub const LOWER_Z: u8 = 0x7a;

pub const DIGIT_0: u8 = 0x30;

pub const DIGIT_9: u8 = 0x39;

/// A token: punctuation, a keyword, or a borrowed piece of the source text.
#[derive(Debug, Clone, Copy, PartialEq, Eq)]
pub enum TokenType<'a> {
    Hash,
    LBracket,
    RBracket,
    Comma,
    Identifier(&'a str),
    Colon,
    String(&'a str),
    Equals,
    LBrace,
    RBrace,
    LParen,
    RParen,
    Struct,
    Enum,
    Pub,
    Langle,
    Rangle,
}

/// What a `TokenType` stands for: the same variants over plain texts.
pub enum TokenKind {
    Hash,
    LBracket,
    RBracket,
    Comma,
    Identifier(Seq<char>),
    Colon,
    String(Seq<char>),
    Equals,
    LBrace,
    RBrace,
    LParen,
    RParen,
    Struct,
    Enum,
    Pub,
    Langle,
    Rangle,
}

impl<'a> TokenType<'a> {
    pub open spec fn view(&self) -> TokenKind {
        match self {
            TokenType::Hash => TokenKind::Hash,
            TokenType::LBracket => TokenKind::LBracket,
            TokenType::RBracket => TokenKind::RBracket,
            TokenType::Comma => TokenKind::Comma,
            TokenType::Identifier(name) => TokenKind::Identifier(name@),
            TokenType::Colon => TokenKind::Colon,
            TokenType::String(text) => TokenKind::String(text@),
            TokenType::Equals => TokenKind::Equals,
            TokenType::LBrace => TokenKind::LBrace,
            TokenType::RBrace => TokenKind::RBrace,
            TokenType::LParen => TokenKind::LParen,
            TokenType::RParen => TokenKind::RParen,
            TokenType::Struct => TokenKind::Struct,
            TokenType::Enum => TokenKind::Enum,
            TokenType::Pub => TokenKind::Pub,
            TokenType::Langle => TokenKind::Langle,
            TokenType::Rangle => TokenKind::Rangle,
        }
    }
}

/// How a token is written: punctuation and keywords as in the source, an
/// identifier by its name, a string literal between double quotes.
pub open spec fn token_text(kind: TokenKind) -> Seq<char> {
    match kind {
        TokenKind::Hash => "#"@,
        TokenKind::LBracket => "["@,
        TokenKind::RBracket => "]"@,
        TokenKind::Comma => ","@,
        TokenKind::Identifier(name) => name,
        TokenKind::Colon => ":"@,
        TokenKind::String(text) => "\""@ + text + "\""@,
        TokenKind::Equals => "="@,
        TokenKind::LBrace => "{"@,
        TokenKind::RBrace => "}"@,
        TokenKind::LParen => "("@,
        TokenKind::RParen => ")"@,
        TokenKind::Struct => "struct"@,
        TokenKind::Enum => "enum"@,
        TokenKind::Pub => "pub"@,
        TokenKind::Langle => "<"@,
        TokenKind::Rangle => ">"@,
    }
}

impl<'a> TokenType<'a> {
    /// The token as it is written.
    pub fn to_string(&self) -> (r: String)
        ensures
            r@ == token_text(self@),
    {
        match self {
            TokenType::Hash => String::from_str("#"),
            TokenType::LBracket => String::from_str("["),
            TokenType::RBracket => String::from_str("]"),
            TokenType::Comma => String::from_str(","),
            TokenType::Identifier(name) => String::from_str(name),
            TokenType::Colon => String::from_str(":"),
            TokenType::String(text) => {
                let mut r = String::from_str("\"");
                r.append(text);
                r.append("\"");
                r
            },
            TokenType::Equals => String::from_str("="),
            TokenType::LBrace => String::from_str("{"),
            TokenType::RBrace => String::from_str("}"),
            TokenType::LParen => String::from_str("("),
            TokenType::RParen => String::from_str(")"),
            TokenType::Struct => String::from_str("struct"),
            TokenType::Enum => String::from_str("enum"),
            TokenType::Pub => String::from_str("pub"),
            TokenType::Langle => String::from_str("<"),
            TokenType::Rangle => String::from_str(">"),
        }
    }
}

/// The bytes `[start, end)` of the source.
#[derive(Debug, Clone, Copy, PartialEq, Eq)]
pub struct Span {
    pub start: usize,
    pub end: usize,
}

/// A token with the place in the source where its lexeme stands.
#[derive(Debug, Clone, Copy, PartialEq, Eq)]
pub struct LexicalToken<'a> {
    pub token: TokenType<'a>,
    pub span: Span,
}

/// What a `LexicalToken` stands for.
pub struct Token {
    pub kind: TokenKind,
    pub start: int,
    pub end: int,
}

impl<'a> LexicalToken<'a> {
    pub open spec fn view(&self) -> Token {
        Token { kind: self.token@, start: self.span.start as int, end: self.span.end as int }
    }

    /// The token as it is written.
    pub fn to_string(&self) -> (r: String)
        ensures
            r@ == token_text(self.token@),
    {
        self.token.to_string()
    }
}

/// The tokens that a sequence of `LexicalToken`s stands for.
pub open spec fn token_models(tokens: Seq<LexicalToken<'_>>) -> Seq<Token> {
    tokens.map_values(|t: LexicalToken| t@)
}

/// The kinds of a sequence of tokens, without their spans.
pub open spec fn kinds_of(tokens: Seq<Token>) -> Seq<TokenKind> {
    tokens.map_values(|t: Token| t.kind)
}

/// Why a source text has no tokens. Lines and columns count from 1; a column
/// counts bytes.
#[derive(Debug, Clone, Copy, PartialEq, Eq)]
pub enum LexError {
    /// A byte that starts no token, no white space and no comment.
    UnexpectedCharacter { byte: u8, line: usize, column: usize },
    /// A string literal whose closing quote is missing; the position is that
    /// of its opening quote.
    UnterminatedString { line: usize, column: usize },
}

/// The message for a lexical error: what was found, and the line and
/// column where.
pub open spec fn lex_error_text(e: LexError) -> Seq<char> {
    match e {
        LexError::UnexpectedCharacter { byte, line, column } => "unexpected byte "@
            + decimal_text(byte as nat) + " at "@ + decimal_text(line as nat) + ":"@
            + decimal_text(column as nat),
        LexError::UnterminatedString { line, column } => "unterminated string at "@
            + decimal_text(line as nat) + ":"@ + decimal_text(column as nat),
    }
}

impl LexError {
    /// The message for the error.
    pub fn to_string(&self) -> (r: String)
        ensures
            r@ == lex_error_text(*self),
    {
        match self {
            LexError::UnexpectedCharacter { byte, line, column } => {
                let mut r = String::from_str("unexpected byte ");
                r.append(decimal(*byte as usize).as_str());
                r.append(" at ");
                r.append(decimal(*line).as_str());
                r.append(":");
                r.append(decimal(*column).as_str());
                r
            },
            LexError::UnterminatedString { line, column } => {
                let mut r = String::from_str("unterminated string at ");
                r.append(decimal(*line).as_str());
                r.append(":");
                r.append(decimal(*column).as_str());
                r
            },
        }
    }
}

/// A letter or `_`.
pub open spec fn is_ident_start(b: u8) -> bool {
    b == UNDERSCORE || (UPPER_A <= b <= UPPER_Z) || (LOWER_A <= b <= LOWER_Z)
}

/// A letter, a digit or `_`.
pub open spec fn is_ident_part(b: u8) -> bool {
    is_ident_start(b) || (DIGIT_0 <= b <= DIGIT_9)
}

/// Space, tab, carriage return and line feed.
pub open spec fn is_space(b: u8) -> bool {
    b == SPACE || b == TAB || b == CARRIAGE_RETURN || b == LINE_FEED
}

/// The token that a punctuation byte is, if it is one.
pub open spec fn punctuation(b: u8) -> Option<TokenKind> {
    if b == COMMA {
        Some(TokenKind::Comma)
    } else if b == COLON {
        Some(TokenKind::Colon)
    } else if b == LBRACE {
        Some(TokenKind::LBrace)
    } else if b == RBRACE {
        Some(TokenKind::RBrace)
    } else if b == LBRACKET {
        Some(TokenKind::LBracket)
    } else if b == RBRACKET {
        Some(TokenKind::RBracket)
    } else if b == HASH {
        Some(TokenKind::Hash)
    } else if b == EQUALS {
        Some(TokenKind::Equals)
    } else if b == LPAREN {
        Some(TokenKind::LParen)
    } else if b == RPAREN {
        Some(TokenKind::RParen)
    } else if b == LANGLE {
        Some(TokenKind::Langle)
    } else if b == RANGLE {
        Some(TokenKind::Rangle)
    } else {
        None
    }
}

/// A word is a keyword if it is exactly `struct`, `enum` or `pub`, and an
/// identifier otherwise.
pub open spec fn word_kind(word: Seq<char>) -> TokenKind {
    if word == "struct"@ {
        TokenKind::Struct
    } else if word == "enum"@ {
        TokenKind::Enum
    } else if word == "pub"@ {
        TokenKind::Pub
    } else {
        TokenKind::Identifier(word)
    }
}

/// The number of identifier bytes at the head of `rest`.
pub open spec fn ident_len(rest: Seq<u8>) -> nat
    decreases rest.len(),
{
    if rest.len() > 0 && is_ident_part(rest[0]) {
        1 + ident_len(rest.drop_first())
    } else {
        0
    }
}

/// The number of bytes before the first `stop`, or the whole length where
/// there is none.
pub open spec fn len_until(rest: Seq<u8>, stop: u8) -> nat
    decreases rest.len(),
{
    if rest.len() > 0 && rest[0] != stop {
        1 + len_until(rest.drop_first(), stop)
    } else {
        0
    }
}

/// Whether `*/` stands at offset `k`.
pub open spec fn closes_at(text: Seq<u8>, k: int) -> bool {
    0 <= k && k + 1 < text.len() && text[k] == STAR && text[k + 1] == SLASH
}

/// The number of bytes before the first `*/`, or the whole length where
/// there is none.
pub open spec fn len_until_close(rest: Seq<u8>) -> nat
    decreases rest.len(),
{
    if rest.len() == 0 || closes_at(rest, 0) {
        0
    } else {
        1 + len_until_close(rest.drop_first())
    }
}

/// What stands at the head of a text.
pub enum Lexeme {
    /// A token whose lexeme is `len` bytes long.
    Token { kind: TokenKind, len: nat },
    /// White space or a complete comment, `len` bytes long.
    Filler { len: nat },
    /// A comment that runs to the end of the text: a line comment without its
    /// line feed, or a block comment without its `*/`.
    OpenComment,
    /// A byte that starts nothing.
    Unexpected,
    /// A string literal without its closing quote.
    Unterminated,
}

/// The lexeme at the head of a non-empty text.
///
/// An identifier is the longest run of `[A-Za-z0-9_]` that starts with a
/// letter or `_`. A string literal runs from `"` to the next `"`, with no
/// escapes; its text is what stands between the two. A line comment runs from
/// `//` through the next line feed, a block comment from `/*` through the
/// first `*/` after it.
pub open spec fn head_lexeme(rest: Seq<u8>) -> Lexeme
    recommends
        rest.len() > 0,
{
    let b = rest[0];
    if punctuation(b) is Some {
        Lexeme::Token { kind: punctuation(b)->0, len: 1 }
    } else if is_space(b) {
        Lexeme::Filler { len: 1 }
    } else if is_ident_start(b) {
        let n = ident_len(rest);
        Lexeme::Token { kind: word_kind(decode_utf8(rest.take(n as int))), len: n }
    } else if b == QUOTE {
        let n = len_until(rest.drop_first(), QUOTE);
        if n + 1 >= rest.len() {
            Lexeme::Unterminated
        } else {
            Lexeme::Token {
                kind: TokenKind::String(decode_utf8(rest.subrange(1, n as int + 1))),
                len: n + 2,
            }
        }
    } else if b == SLASH && rest.len() >= 2 && rest[1] == SLASH {
        let n = len_until(rest.skip(2), LINE_FEED);
        if n + 2 >= rest.len() {
            Lexeme::OpenComment
        } else {
            Lexeme::Filler { len: n + 3 }
        }
    } else if b == SLASH && rest.len() >= 2 && rest[1] == STAR {
        let n = len_until_close(rest.skip(2));
        if n + 2 >= rest.len() {
            Lexeme::OpenComment
        } else {
            Lexeme::Filler { len: n + 4 }
        }
    } else {
        Lexeme::Unexpected
    }
}

/// Where scanning stops without tokens: the offset of the offending byte.
pub enum ScanError {
    UnexpectedCharacter { at: int },
    UnterminatedString { at: int },
}

/// The run lengths never pass the end of the text.
pub proof fn lemma_run_bounds(rest: Seq<u8>, stop: u8)
    ensures
        ident_len(rest) <= rest.len(),
        len_until(rest, stop) <= rest.len(),
        len_until_close(rest) <= rest.len(),
        len_until_close(rest) < rest.len() ==> len_until_close(rest) + 2 <= rest.len(),
    decreases rest.len(),
{
    if rest.len() > 0 {
        lemma_run_bounds(rest.drop_first(), stop);
    }
}

/// A token or a filler at the head of a text is not empty and lies within it.
pub proof fn lemma_lexeme_bounds(rest: Seq<u8>)
    requires
        rest.len() > 0,
    ensures
        head_lexeme(rest) matches Lexeme::Token { len, .. } ==> 0 < len <= rest.len(),
        head_lexeme(rest) matches Lexeme::Filler { len } ==> 0 < len <= rest.len(),
{
    lemma_run_bounds(rest, 0);
    lemma_run_bounds(rest.drop_first(), QUOTE);
    if rest.len() >= 2 {
        lemma_run_bounds(rest.skip(2), LINE_FEED);
    }
}

/// The tokens of `rest`, which stands at offset `base` of the source: the
/// lexemes from left to right, fillers and a final open comment left out.
pub open spec fn scan(rest: Seq<u8>, base: int) -> Result<Seq<Token>, ScanError>
    decreases rest.len(),
{
    if rest.len() == 0 {
        Ok(Seq::empty())
    } else {
        proof {
            lemma_lexeme_bounds(rest);
        }
        match head_lexeme(rest) {
            Lexeme::Token { kind, len } => after(
                seq![Token { kind, start: base, end: base + len }],
                scan(rest.skip(len as int), base + len),
            ),
            Lexeme::Filler { len } => scan(rest.skip(len as int), base + len),
            Lexeme::OpenComment => Ok(Seq::empty()),
            Lexeme::Unexpected => Err(ScanError::UnexpectedCharacter { at: base }),
            Lexeme::Unterminated => Err(ScanError::UnterminatedString { at: base }),
        }
    }
}

/// `found` in front of the tokens that follow, if there was no error.
pub open spec fn after(found: Seq<Token>, rest: Result<Seq<Token>, ScanError>) -> Result<
    Seq<Token>,
    ScanError,
> {
    match rest {
        Ok(more) => Ok(found + more),
        Err(e) => Err(e),
    }
}

/// The line of the byte at offset `p`: one more than the line feeds before it.
pub open spec fn line_at(source: Seq<u8>, p: int) -> int
    decreases p,
{
    if p <= 0 {
        1
    } else {
        line_at(source, p - 1) + if source[p - 1] == LINE_FEED {
            1int
        } else {
            0int
        }
    }
}

/// The column of the byte at offset `p`: one more than the bytes between it
/// and the line feed before it (or the start of the text).
pub open spec fn column_at(source: Seq<u8>, p: int) -> int
    decreases p,
{
    if p <= 0 || source[p - 1] == LINE_FEED {
        1
    } else {
        column_at(source, p - 1) + 1
    }
}

/// The error reported for a scan that stopped.
pub open spec fn lex_error(source: Seq<u8>, e: ScanError) -> LexError {
    match e {
        ScanError::UnexpectedCharacter { at } => LexError::UnexpectedCharacter {
            byte: source[at],
            line: line_at(source, at) as usize,
            column: column_at(source, at) as usize,
        },
        ScanError::UnterminatedString { at } => LexError::UnterminatedString {
            line: line_at(source, at) as usize,
            column: column_at(source, at) as usize,
        },
    }
}

/// The tokens of a source text, or the first error in it.
pub open spec fn lex_result(source: Seq<u8>) -> Result<Seq<Token>, LexError> {
    match scan(source, 0) {
        Ok(tokens) => Ok(tokens),
        Err(e) => Err(lex_error(source, e)),
    }
}

/// Whether the span of a token lies in a text that starts at offset `base`
/// and holds the lexeme of the token.
pub open spec fn is_lexeme_of(text: Seq<u8>, base: int, token: Token) -> bool {
    &&& base <= token.start < token.end <= base + text.len()
    &&& head_lexeme(text.skip(token.start - base)) == Lexeme::Token {
        kind: token.kind,
        len: (token.end - token.start) as nat,
    }
}

/// The tokens of a scan stand in source order, and the span of each holds
/// its lexeme.
#[verifier::rlimit(50)]
pub proof fn lemma_scan_spans(rest: Seq<u8>, base: int)
    ensures
        scan(rest, base) matches Ok(tokens) ==> {
            &&& forall|i: int|
                0 <= i < tokens.len() ==> is_lexeme_of(rest, base, #[trigger] tokens[i])
            &&& forall|i: int, j: int|
                0 <= i < j < tokens.len() ==> (#[trigger] tokens[i]).end <= (
                #[trigger] tokens[j]).start
        },
    decreases rest.len(),
{
    if rest.len() > 0 {
        lemma_lexeme_bounds(rest);
        let len: int = match head_lexeme(rest) {
            Lexeme::Token { len, .. } => len as int,
            Lexeme::Filler { len } => len as int,
            _ => 0,
        };
        if len > 0 {
            let tail = rest.skip(len);
            lemma_scan_spans(tail, base + len);
            if let (Ok(tokens), Ok(more)) = (scan(rest, base), scan(tail, base + len)) {
                let lead = tokens.len() - more.len();
                assert forall|i: int| 0 <= i < tokens.len() implies is_lexeme_of(
                    rest,
                    base,
                    #[trigger] tokens[i],
                ) by {
                    if i >= lead {
                        let token = more[i - lead];
                        assert(tokens[i] == token);
                        assert(is_lexeme_of(tail, base + len, token));
                        assert(tail.skip(token.start - base - len) =~= rest.skip(
                            token.start - base,
                        ));
                    } else {
                        assert(rest.skip(0) =~= rest);
                    }
                }
                assert forall|i: int, j: int| 0 <= i < j < tokens.len() implies (
                #[trigger] tokens[i]).end <= (#[trigger] tokens[j]).start by {
                    assert(tokens[j] == more[j - lead]);
                    assert(is_lexeme_of(tail, base + len, more[j - lead]));
                    if i >= lead {
                        assert(tokens[i] == more[i - lead]);
                    }
                }
            }
        }
    }
}

/// Joining tokens in front of a scan is associative.
pub proof fn lemma_after_push(found: Seq<Token>, token: Token, rest: Result<Seq<Token>, ScanError>)
    ensures
        after(found, after(seq![token], rest)) == after(found.push(token), rest),
{
    if let Ok(more) = rest {
        assert(found + (seq![token] + more) =~= found.push(token) + more);
    }
}

/// `ident_len` is the position of the first byte that is no identifier byte.
pub proof fn lemma_ident_len(rest: Seq<u8>, n: int)
    requires
        0 <= n <= rest.len(),
        forall|k: int| 0 <= k < n ==> is_ident_part(rest[k]),
        n < rest.len() ==> !is_ident_part(rest[n]),
    ensures
        ident_len(rest) == n,
    decreases n,
{
    if n > 0 {
        let tail = rest.drop_first();
        assert forall|k: int| 0 <= k < n - 1 implies is_ident_part(tail[k]) by {
            assert(tail[k] == rest[k + 1]);
        }
        lemma_ident_len(tail, n - 1);
    }
}

/// `len_until` is the position of the first `stop`.
pub proof fn lemma_len_until(rest: Seq<u8>, stop: u8, n: int)
    requires
        0 <= n <= rest.len(),
        forall|k: int| 0 <= k < n ==> rest[k] != stop,
        n < rest.len() ==> rest[n] == stop,
    ensures
        len_until(rest, stop) == n,
    decreases n,
{
    if n > 0 {
        let tail = rest.drop_first();
        assert forall|k: int| 0 <= k < n - 1 implies tail[k] != stop by {
            assert(tail[k] == rest[k + 1]);
        }
        lemma_len_until(tail, stop, n - 1);
    }
}

/// `len_until_close` is the position of the first `*/`.
pub proof fn lemma_len_until_close(rest: Seq<u8>, n: int)
    requires
        0 <= n <= rest.len(),
        forall|k: int| 0 <= k < n ==> !closes_at(rest, k),
        n < rest.len() ==> closes_at(rest, n),
    ensures
        len_until_close(rest) == n,
    decreases n,
{
    if n > 0 {
        let tail = rest.drop_first();
        assert forall|k: int| 0 <= k < n - 1 implies !closes_at(tail, k) by {
            assert(!closes_at(rest, k + 1));
        }
        if n < rest.len() {
            assert(closes_at(tail, n - 1));
        }
        lemma_len_until_close(tail, n - 1);
    }
}

/// Lines and columns are at most one more than the offset.
pub proof fn lemma_position_bounds(source: Seq<u8>, p: int)
    requires
        0 <= p,
    ensures
        1 <= line_at(source, p) <= p + 1,
        1 <= column_at(source, p) <= p + 1,
    decreases p,
{
    if p > 0 {
        lemma_position_bounds(source, p - 1);
    }
}

fn ident_start(b: u8) -> (r: bool)
    ensures
        r == is_ident_start(b),
{
    b == UNDERSCORE || (UPPER_A <= b && b <= UPPER_Z) || (LOWER_A <= b && b <= LOWER_Z)
}

fn ident_part(b: u8) -> (r: bool)
    ensures
        r == is_ident_part(b),
{
    ident_start(b) || (DIGIT_0 <= b && b <= DIGIT_9)
}

fn space(b: u8) -> (r: bool)
    ensures
        r == is_space(b),
{
    b == SPACE || b == TAB || b == CARRIAGE_RETURN || b == LINE_FEED
}

fn punctuation_token<'a>(b: u8) -> (r: Option<TokenType<'a>>)
    ensures
        match r {
            Some(token) => punctuation(b) == Some(token@),
            None => punctuation(b) is None,
        },
{
    if b == COMMA {
        Some(TokenType::Comma)
    } else if b == COLON {
        Some(TokenType::Colon)
    } else if b == LBRACE {
        Some(TokenType::LBrace)
    } else if b == RBRACE {
        Some(TokenType::RBrace)
    } else if b == LBRACKET {
        Some(TokenType::LBracket)
    } else if b == RBRACKET {
        Some(TokenType::RBracket)
    } else if b == HASH {
        Some(TokenType::Hash)
    } else if b == EQUALS {
        Some(TokenType::Equals)
    } else if b == LPAREN {
        Some(TokenType::LParen)
    } else if b == RPAREN {
        Some(TokenType::RParen)
    } else if b == LANGLE {
        Some(TokenType::Langle)
    } else if b == RANGLE {
        Some(TokenType::Rangle)
    } else {
        None
    }
}

/// A scanner over one source text.
pub struct Lexer<'a> {
    input: &'a str,
    tokens: Vec<LexicalToken<'a>>,
    /// The offset of the next byte to read.
    cursor: usize,
    /// The offset at which the current lexeme starts.
    start: usize,
    /// The line feeds before the cursor.
    line: usize,
    /// The bytes between the cursor and the line feed before it.
    column: usize,
}

impl<'a> Lexer<'a> {
    /// The UTF-8 bytes of the source text.
    pub closed spec fn source(&self) -> Seq<u8> {
        self.input.spec_bytes()
    }

    /// Nothing has been scanned yet.
    pub closed spec fn is_fresh(&self) -> bool {
        &&& self.cursor == 0
        &&& self.start == 0
        &&& self.line == 0
        &&& self.column == 0
        &&& self.tokens@.len() == 0
    }

    /// The cursor lies in the text, and line and column belong to it.
    spec fn tracking(&self) -> bool {
        &&& self.cursor <= self.source().len()
        &&& self.line + 1 == line_at(self.source(), self.cursor as int)
        &&& self.column + 1 == column_at(self.source(), self.cursor as int)
    }

    /// The same text and the same tokens, whatever the cursor.
    spec fn same_tokens(&self, before: &Self) -> bool {
        &&& self.input == before.input
        &&& self.tokens == before.tokens
        &&& self.start == before.start
    }

    /// One more token, for the lexeme from `start` to the cursor.
    spec fn one_more_token(&self, before: &Self, kind: TokenKind) -> bool {
        &&& self.input == before.input
        &&& self.start == before.start
        &&& self.tokens@.len() == before.tokens@.len() + 1
        &&& self.tokens@.drop_last() == before.tokens@
        &&& self.tokens@.last()@ == Token {
            kind,
            start: self.start as int,
            end: self.cursor as int,
        }
    }

    /// A lexer at the start of `input`.
    pub fn new(input: &'a str) -> (lexer: Self)
        ensures
            lexer.is_fresh(),
            lexer.source() == input.spec_bytes(),
    {
        Lexer { input, tokens: Vec::new(), cursor: 0, start: 0, line: 0, column: 0 }
    }

    /// The tokens of the source text in source order, each with the span of
    /// its lexeme, or the first error.
    #[verifier::rlimit(50)]
    pub fn lex(self) -> (r: Result<Vec<LexicalToken<'a>>, LexError>)
        ensures
            match r {
                Ok(tokens) => lex_result(self.source()) == Ok::<Seq<Token>, LexError>(
                    token_models(tokens@),
                ),
                Err(e) => lex_result(self.source()) == Err::<Seq<Token>, LexError>(e),
            },
            r matches Ok(tokens) ==> forall|i: int|
                0 <= i < tokens@.len() ==> is_lexeme_of(self.source(), 0, #[trigger] tokens@[i]@),
            r matches Ok(tokens) ==> forall|i: int, j: int|
                0 <= i < j < tokens@.len() ==> (#[trigger] tokens@[i]).span.end
                    <= (#[trigger] tokens@[j]).span.start,
    {
        // Scanning starts at the beginning of the text.
        let mut lexer = Lexer::new(self.input);
        let ghost source = lexer.source();
        let ghost input = lexer.input;
        let len = lexer.input.as_bytes().len();
        proof {
            assert(source.skip(0) =~= source);
            assert(token_models(lexer.tokens@) =~= Seq::<Token>::empty());
            assert(after(Seq::<Token>::empty(), scan(source, 0)) == scan(source, 0)) by {
                if let Ok(more) = scan(source, 0) {
                    assert(Seq::<Token>::empty() + more =~= more);
                }
            }
        }
        while lexer.cursor < len
            invariant
                lexer.input == input,
                source == self.source(),
                source == lexer.source(),
                len == source.len(),
                lexer.tracking(),
                scan(source, 0) == after(
                    token_models(lexer.tokens@),
                    scan(source.skip(lexer.cursor as int), lexer.cursor as int),
                ),
            decreases len - lexer.cursor,
        {
            let line = lexer.line;
            let column = lexer.column;
            let c = lexer.input.as_bytes()[lexer.cursor];
            let ghost at = lexer.cursor as int;
            let ghost rest = source.skip(at);
            let ghost found = token_models(lexer.tokens@);
            proof {
                lemma_lexeme_bounds(rest);
                lemma_position_bounds(source, lexer.cursor as int);
            }
            lexer.start = lexer.cursor;
            lexer.advance();
            if let Some(token) = punctuation_token(c) {
                lexer.push_token(token);
            } else if space(c) {
            } else if ident_start(c) {
                lexer.lex_identifier();
            } else if c == QUOTE {
                match lexer.lex_string(line, column) {
                    Ok(()) => {},
                    Err(e) => {
                        proof {
                            assert(rest[0] == source[at]);
                            assert(head_lexeme(rest) is Unterminated);
                            assert(scan(rest, at) == Err::<Seq<Token>, ScanError>(
                                ScanError::UnterminatedString { at },
                            ));
                        }
                        return Err(e);
                    },
                }
            } else if c == SLASH && lexer.next_is(SLASH) {
                lexer.skip_line_comment();
            } else if c == SLASH && lexer.next_is(STAR) {
                lexer.skip_block_comment();
            } else {
                proof {
                    assert(rest[0] == source[at]);
                    if rest.len() >= 2 {
                        assert(rest[1] == source[at + 1]);
                    }
                    assert(head_lexeme(rest) is Unexpected);
                    assert(scan(rest, at) == Err::<Seq<Token>, ScanError>(
                        ScanError::UnexpectedCharacter { at },
                    ));
                }
                return Err(
                    LexError::UnexpectedCharacter { byte: c, line: line + 1, column: column + 1 },
                );
            }
            proof {
                let next = scan(source.skip(lexer.cursor as int), lexer.cursor as int);
                match head_lexeme(rest) {
                    Lexeme::Token { kind, len: n } => {
                        assert(rest.skip(n as int) =~= source.skip(lexer.cursor as int));
                        let token = lexer.tokens@.last()@;
                        assert(token_models(lexer.tokens@) =~= found.push(token));
                        lemma_after_push(found, token, next);
                    },
                    Lexeme::Filler { len: n } => {
                        assert(rest.skip(n as int) =~= source.skip(lexer.cursor as int));
                    },
                    _ => {},
                }
            }
        }
        proof {
            if let Ok(more) = scan(source.skip(lexer.cursor as int), lexer.cursor as int) {
                assert(token_models(lexer.tokens@) + more =~= token_models(lexer.tokens@));
            }
            lemma_scan_spans(source, 0);
            let found = token_models(lexer.tokens@);
            assert forall|i: int| 0 <= i < lexer.tokens@.len() implies is_lexeme_of(
                source,
                0,
                #[trigger] lexer.tokens@[i]@,
            ) by {
                assert(found[i] == lexer.tokens@[i]@);
            }
            assert forall|i: int, j: int| 0 <= i < j < lexer.tokens@.len() implies (
            #[trigger] lexer.tokens@[i]).span.end <= (#[trigger] lexer.tokens@[j]).span.start by {
                assert(found[i] == lexer.tokens@[i]@);
                assert(found[j] == lexer.tokens@[j]@);
            }
        }
        Ok(lexer.tokens)
    }

    /// Whether the byte at the cursor is `b`.
    fn next_is(&self, b: u8) -> (r: bool)
        ensures
            r == (self.cursor < self.source().len() && self.source()[self.cursor as int] == b),
    {
        let bytes = self.input.as_bytes();
        self.cursor < bytes.len() && bytes[self.cursor] == b
    }

    /// Moves the cursor over one byte.
    fn advance(&mut self)
        requires
            old(self).tracking(),
            old(self).cursor < old(self).source().len(),
        ensures
            final(self).tracking(),
            final(self).cursor == old(self).cursor + 1,
            final(self).same_tokens(old(self)),
    {
        proof {
            lemma_position_bounds(self.source(), self.cursor as int);
        }
        if self.input.as_bytes()[self.cursor] == LINE_FEED {
            self.line += 1;
            self.column = 0;
        } else {
            self.column += 1;
        }
        self.cursor += 1;
    }

    /// Adds a token whose lexeme runs from `start` to the cursor.
    fn push_token(&mut self, token: TokenType<'a>)
        ensures
            final(self).cursor == old(self).cursor,
            final(self).line == old(self).line,
            final(self).column == old(self).column,
            final(self).one_more_token(old(self), token@),
    {
        let span = Span { start: self.start, end: self.cursor };
        self.tokens.push(LexicalToken { token, span });
        assert(self.tokens@.drop_last() =~= old(self).tokens@);
    }

    /// The source text from `start` to the cursor.
    fn lexeme(&self) -> (r: &'a str)
        requires
            self.start <= self.cursor <= self.source().len(),
            is_char_boundary(self.source(), self.start as int),
            is_char_boundary(self.source(), self.cursor as int),
        ensures
            r@ == decode_utf8(self.source().subrange(self.start as int, self.cursor as int)),
    {
        substring(self.input, self.start, self.cursor)
    }

    /// Scans a string literal whose opening quote, at `line` and `column`,
    /// has just been read.
    fn lex_string(&mut self, line: usize, column: usize) -> (r: Result<(), LexError>)
        requires
            old(self).tracking(),
            old(self).start + 1 == old(self).cursor,
            old(self).source()[old(self).start as int] == QUOTE,
            line + 1 == line_at(old(self).source(), old(self).start as int),
            column + 1 == column_at(old(self).source(), old(self).start as int),
        ensures
            final(self).tracking(),
            match head_lexeme(old(self).source().skip(old(self).start as int)) {
                Lexeme::Token { kind, len } => {
                    &&& r is Ok
                    &&& final(self).cursor == old(self).start + len
                    &&& final(self).one_more_token(old(self), kind)
                },
                _ => r == Err::<(), LexError>(
                    lex_error(
                        old(self).source(),
                        ScanError::UnterminatedString { at: old(self).start as int },
                    ),
                ),
            },
    {
        broadcast use vstd::utf8::group_utf8_lib;

        let ghost source = self.source();
        let ghost rest = source.skip(self.start as int);
        let len = self.input.as_bytes().len();
        while self.cursor < len && self.input.as_bytes()[self.cursor] != QUOTE
            invariant
                self.tracking(),
                self.same_tokens(old(self)),
                source == self.source(),
                len == source.len(),
                self.start < self.cursor,
                forall|k: int| self.start < k < self.cursor ==> source[k] != QUOTE,
            decreases len - self.cursor,
        {
            self.advance();
        }
        proof {
            let body = rest.drop_first();
            let n = self.cursor - self.start - 1;
            assert forall|k: int| 0 <= k < n implies body[k] != QUOTE by {
                assert(body[k] == source[self.start + 1 + k]);
            }
            if self.cursor < len {
                assert(body[n] == source[self.cursor as int]);
            }
            lemma_len_until(body, QUOTE, n);
            lemma_position_bounds(source, self.start as int);
        }
        if self.cursor >= len {
            return Err(LexError::UnterminatedString { line: line + 1, column: column + 1 });
        }
        proof {
            lemma_boundary_after_ascii(source, self.start as int);
            lemma_boundary_after_ascii(source, self.cursor as int);
            assert(rest.subrange(1, self.cursor - self.start) =~= source.subrange(
                self.start + 1,
                self.cursor as int,
            ));
        }
        let text = substring(self.input, self.start + 1, self.cursor);
        self.advance();
        self.push_token(TokenType::String(text));
        Ok(())
    }

    /// Scans an identifier or keyword whose first byte has just been read.
    fn lex_identifier(&mut self)
        requires
            old(self).tracking(),
            old(self).start + 1 == old(self).cursor,
            is_ident_start(old(self).source()[old(self).start as int]),
        ensures
            final(self).tracking(),
            head_lexeme(old(self).source().skip(old(self).start as int)) matches Lexeme::Token {
                kind,
                len,
            } && final(self).cursor == old(self).start + len && final(self).one_more_token(
                old(self),
                kind,
            ),
    {
        broadcast use vstd::utf8::group_utf8_lib;

        let ghost source = self.source();
        let ghost rest = source.skip(self.start as int);
        let len = self.input.as_bytes().len();
        while self.cursor < len && ident_part(self.input.as_bytes()[self.cursor])
            invariant
                self.tracking(),
                self.same_tokens(old(self)),
                source == self.source(),
                len == source.len(),
                self.start < self.cursor,
                forall|k: int| self.start <= k < self.cursor ==> is_ident_part(source[k]),
            decreases len - self.cursor,
        {
            self.advance();
        }
        proof {
            let n = self.cursor - self.start;
            assert forall|k: int| 0 <= k < n implies is_ident_part(rest[k]) by {
                assert(rest[k] == source[self.start + k]);
            }
            if self.cursor < len {
                assert(rest[n] == source[self.cursor as int]);
            }
            lemma_ident_len(rest, n);
            lemma_boundary_after_ascii(source, self.start as int);
            lemma_boundary_after_ascii(source, self.cursor - 1);
            assert(rest.take(n) =~= source.subrange(self.start as int, self.cursor as int));
        }
        let lexeme = self.lexeme();
        if str_eq(lexeme, "struct") {
            self.push_token(TokenType::Struct);
        } else if str_eq(lexeme, "enum") {
            self.push_token(TokenType::Enum);
        } else if str_eq(lexeme, "pub") {
            self.push_token(TokenType::Pub);
        } else {
            self.push_token(TokenType::Identifier(lexeme));
        }
    }

    /// Skips a line comment whose first `/` has just been read.
    fn skip_line_comment(&mut self)
        requires
            old(self).tracking(),
            old(self).start + 1 == old(self).cursor,
            old(self).cursor < old(self).source().len(),
            old(self).source()[old(self).start as int] == SLASH,
            old(self).source()[old(self).cursor as int] == SLASH,
        ensures
            final(self).tracking(),
            final(self).same_tokens(old(self)),
            match head_lexeme(old(self).source().skip(old(self).start as int)) {
                Lexeme::Filler { len } => final(self).cursor == old(self).start + len,
                Lexeme::OpenComment => final(self).cursor == old(self).source().len(),
                _ => false,
            },
    {
        let ghost source = self.source();
        let ghost rest = source.skip(self.start as int);
        let len = self.input.as_bytes().len();
        self.advance();
        while self.cursor < len && self.input.as_bytes()[self.cursor] != LINE_FEED
            invariant
                self.tracking(),
                self.same_tokens(old(self)),
                source == self.source(),
                len == source.len(),
                self.start + 2 <= self.cursor,
                forall|k: int| self.start + 2 <= k < self.cursor ==> source[k] != LINE_FEED,
            decreases len - self.cursor,
        {
            self.advance();
        }
        proof {
            let body = rest.skip(2);
            let n = self.cursor - self.start - 2;
            assert forall|k: int| 0 <= k < n implies body[k] != LINE_FEED by {
                assert(body[k] == source[self.start + 2 + k]);
            }
            if self.cursor < len {
                assert(body[n] == source[self.cursor as int]);
            }
            lemma_len_until(body, LINE_FEED, n);
            assert(rest[0] == source[self.start as int]);
            assert(rest[1] == source[self.start + 1]);
        }
        if self.cursor < len {
            self.advance();
        }
    }

    /// Skips a block comment whose `/` has just been read.
    fn skip_block_comment(&mut self)
        requires
            old(self).tracking(),
            old(self).start + 1 == old(self).cursor,
            old(self).cursor < old(self).source().len(),
            old(self).source()[old(self).start as int] == SLASH,
            old(self).source()[old(self).cursor as int] == STAR,
        ensures
            final(self).tracking(),
            final(self).same_tokens(old(self)),
            match head_lexeme(old(self).source().skip(old(self).start as int)) {
                Lexeme::Filler { len } => final(self).cursor == old(self).start + len,
                Lexeme::OpenComment => final(self).cursor == old(self).source().len(),
                _ => false,
            },
    {
        let ghost source = self.source();
        let ghost rest = source.skip(self.start as int);
        let len = self.input.as_bytes().len();
        self.advance();
        while self.cursor < len && !(self.input.as_bytes()[self.cursor] == STAR && self.cursor + 1
            < len && self.input.as_bytes()[self.cursor + 1] == SLASH)
            invariant
                self.tracking(),
                self.same_tokens(old(self)),
                source == self.source(),
                len == source.len(),
                self.start + 2 <= self.cursor,
                forall|k: int| self.start + 2 <= k < self.cursor ==> !closes_at(source, k),
            decreases len - self.cursor,
        {
            self.advance();
        }
        proof {
            let body = rest.skip(2);
            let n = self.cursor - self.start - 2;
            assert forall|k: int| 0 <= k < n implies !closes_at(body, k) by {
                assert(!closes_at(source, self.start + 2 + k));
            }
            if self.cursor < len {
                assert(closes_at(source, self.cursor as int));
                assert(closes_at(body, n));
            }
            lemma_len_until_close(body, n);
            assert(rest[0] == source[self.start as int]);
            assert(rest[1] == source[self.start + 1]);
        }
        if self.cursor < len {
            self.advance();
            self.advance();
        }
    }
}

} // verus!
