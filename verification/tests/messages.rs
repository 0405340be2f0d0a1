use serde_pygen::codegen::CodegenError;
use serde_pygen::lexer::{LexError, TokenType};
use serde_pygen::parser::{Expected, ParseError};

#[test]
fn lexical_error_messages() {
    let e = LexError::UnexpectedCharacter { byte: b'?', line: 3, column: 15 };
    assert_eq!(e.to_string(), "unexpected byte 63 at 3:15");
    let e = LexError::UnterminatedString { line: 120, column: 1 };
    assert_eq!(e.to_string(), "unterminated string at 120:1");
}

#[test]
fn syntax_error_messages() {
    let e = ParseError::UnexpectedToken {
        index: 4,
        found: TokenType::Identifier("u8"),
        expected: Expected::Token(TokenType::Colon),
    };
    assert_eq!(e.to_string(), "unexpected token u8 at token 4; expected :");
    let e = ParseError::UnexpectedToken {
        index: 0,
        found: TokenType::String("x"),
        expected: Expected::StructOrEnum,
    };
    assert_eq!(e.to_string(), "unexpected token \"x\" at token 0; expected struct or enum");
    let e = ParseError::UnexpectedEnd { expected: Expected::Separator };
    assert_eq!(e.to_string(), "unexpected end of input; expected , or }");
    let e = ParseError::UnexpectedEnd { expected: Expected::Token(TokenType::Identifier("serde")) };
    assert_eq!(e.to_string(), "unexpected end of input; expected serde");
    let e = ParseError::UnknownDirective { index: 7, name: "unknown_thing" };
    assert_eq!(e.to_string(), "unexpected serde attribute unknown_thing at token 7");
}

#[test]
fn what_was_expected() {
    assert_eq!(Expected::Identifier.to_string(), "identifier");
    assert_eq!(Expected::String.to_string(), "string");
    assert_eq!(Expected::Token(TokenType::Langle).to_string(), "<");
}

#[test]
fn code_generation_error_message() {
    let e = CodegenError::UnsupportedDefault { field: "owner" };
    assert_eq!(e.to_string(), "no default value is known for the type of field owner");
}
