use serde_pygen::lexer::{Lexer, LexicalToken, TokenType};
use serde_pygen::parser::{
    same_token, DeclaredType, EnumVariantInner, Expected, InnerType, ParseError, Parser,
    SerdeAttribute, StructField, Type,
};

fn tokens(source: &'static str) -> Vec<LexicalToken<'static>> {
    Lexer::new(source).lex().unwrap()
}

fn fields<'a>(types: &'a [DeclaredType<'a>]) -> &'a [StructField<'a>] {
    match &types[0].inner {
        InnerType::Struct(s) => &s.fields,
        InnerType::Enum(_) => panic!("a struct was declared"),
    }
}

#[test]
fn no_tokens_no_declarations() {
    let toks = tokens("  // nothing\n");
    assert_eq!(Parser::new(&toks).parse(), Ok(Vec::new()));
}

#[test]
fn every_type_form() {
    let toks = tokens(
        "struct S { a: (), b: bool, c: i8, d: i16, e: i32, f: i64, g: u8, h: u16, i: u32, j: u64, \
         k: f32, l: f64, m: String, n: Vec<bool>, o: Array[u8], p: Option<String>, q: (u8, bool), \
         r: Other, s: (u8) }",
    );
    let types = Parser::new(&toks).parse().unwrap();
    let got: Vec<&Type> = fields(&types).iter().map(|f| &f.ty).collect();
    let expected = vec![
        Type::Unit,
        Type::Bool,
        Type::Int,
        Type::Int,
        Type::Int,
        Type::Int,
        Type::Int,
        Type::Int,
        Type::Int,
        Type::Int,
        Type::Float,
        Type::Float,
        Type::String,
        Type::Vec(Box::new(Type::Bool)),
        Type::Array(Box::new(Type::Int)),
        Type::Option(Box::new(Type::String)),
        Type::Tuple(vec![Type::Int, Type::Bool]),
        Type::User("Other"),
        Type::Tuple(vec![Type::Int]),
    ];
    assert_eq!(got, expected.iter().collect::<Vec<_>>());
}

#[test]
fn type_names_are_case_sensitive() {
    let toks = tokens("struct S { a: Bool, b: string, c: vec, d: I32 }");
    let types = Parser::new(&toks).parse().unwrap();
    let got: Vec<&Type> = fields(&types).iter().map(|f| &f.ty).collect();
    assert_eq!(
        got,
        vec![&Type::User("Bool"), &Type::User("string"), &Type::User("vec"), &Type::User("I32")]
    );
}

#[test]
fn every_directive() {
    let toks = tokens(
        "struct S { #[serde(skip, skip_serializing, skip_deserializing, skip_serializing_if = \"a\", \
         skip_deserializing_if = \"b\", serialize_with = \"c\", deserialize_with = \"d\", \
         rename = \"e\", default, default = \"f\")] x: u8 }",
    );
    let types = Parser::new(&toks).parse().unwrap();
    assert_eq!(
        fields(&types)[0].attrs,
        vec![
            SerdeAttribute::Skip,
            SerdeAttribute::SkipSerializing,
            SerdeAttribute::SkipDeserializing,
            SerdeAttribute::SkipSerializingIf("a"),
            SerdeAttribute::SkipDeserializingIf("b"),
            SerdeAttribute::SerializeWith("c"),
            SerdeAttribute::DeserializeWith("d"),
            SerdeAttribute::Rename("e"),
            SerdeAttribute::Default(None),
            SerdeAttribute::Default(Some("f")),
        ]
    );
}

#[test]
fn a_comma_before_the_closing_brace_is_accepted() {
    let with = tokens("struct S { a: u8, b: u8, } enum E { A, B, }");
    let without = tokens("struct S { a: u8, b: u8 } enum E { A, B }");
    let with = Parser::new(&with).parse().unwrap();
    let without = Parser::new(&without).parse().unwrap();
    assert_eq!(with, without);
    assert_eq!(with.len(), 2);
}

#[test]
fn a_comma_before_the_closing_parenthesis() {
    // Accepted in the list of a tuple-shaped variant ...
    let toks = tokens("enum E { A(u8, bool,) }");
    let types = Parser::new(&toks).parse().unwrap();
    match &types[0].inner {
        InnerType::Enum(e) => {
            assert_eq!(e.variants[0].inner, EnumVariantInner::Tuple(vec![Type::Int, Type::Bool]))
        }
        InnerType::Struct(_) => panic!("an enum was declared"),
    }
    // ... but not in a tuple type.
    let toks = tokens("struct S { a: (u8, bool,) }");
    assert_eq!(
        Parser::new(&toks).parse(),
        Err(ParseError::UnexpectedToken {
            index: 10,
            found: TokenType::RParen,
            expected: Expected::Identifier
        })
    );
}

#[test]
fn the_block_before_a_declaration_is_checked_and_dropped() {
    let toks = tokens("#[serde(rename = \"x\")] struct S { a: u8 }");
    let types = Parser::new(&toks).parse().unwrap();
    assert_eq!(types.len(), 1);
    assert_eq!(types[0].name, "S");
    let toks = tokens("#[serde(nonsense)] struct S { a: u8 }");
    assert_eq!(
        Parser::new(&toks).parse(),
        Err(ParseError::UnknownDirective { index: 4, name: "nonsense" })
    );
    let toks = tokens("#[derive(Debug)] struct S { a: u8 }");
    assert_eq!(
        Parser::new(&toks).parse(),
        Err(ParseError::UnexpectedToken {
            index: 2,
            found: TokenType::Identifier("derive"),
            expected: Expected::Token(TokenType::Identifier("serde"))
        })
    );
}

#[test]
fn expected_struct_or_enum() {
    let toks = tokens("pub struct S { a: u8 }");
    assert_eq!(
        Parser::new(&toks).parse(),
        Err(ParseError::UnexpectedToken {
            index: 0,
            found: TokenType::Pub,
            expected: Expected::StructOrEnum
        })
    );
    let toks = tokens("#[serde(skip)]");
    assert_eq!(
        Parser::new(&toks).parse(),
        Err(ParseError::UnexpectedEnd { expected: Expected::StructOrEnum })
    );
}

#[test]
fn a_missing_delimiter() {
    let toks = tokens("struct S a: u8 }");
    assert_eq!(
        Parser::new(&toks).parse(),
        Err(ParseError::UnexpectedToken {
            index: 2,
            found: TokenType::Identifier("a"),
            expected: Expected::Token(TokenType::LBrace)
        })
    );
    let toks = tokens("struct S { a u8 }");
    assert_eq!(
        Parser::new(&toks).parse(),
        Err(ParseError::UnexpectedToken {
            index: 4,
            found: TokenType::Identifier("u8"),
            expected: Expected::Token(TokenType::Colon)
        })
    );
    let toks = tokens("struct S { a: Vec<u8 }");
    assert_eq!(
        Parser::new(&toks).parse(),
        Err(ParseError::UnexpectedToken {
            index: 8,
            found: TokenType::RBrace,
            expected: Expected::Token(TokenType::Rangle)
        })
    );
}

#[test]
fn a_field_needs_a_comma_or_the_closing_brace_behind_it() {
    let toks = tokens("struct S { a: u8 b: u8 }");
    assert_eq!(
        Parser::new(&toks).parse(),
        Err(ParseError::UnexpectedToken {
            index: 6,
            found: TokenType::Identifier("b"),
            expected: Expected::Separator
        })
    );
    let toks = tokens("enum E { A B }");
    assert_eq!(
        Parser::new(&toks).parse(),
        Err(ParseError::UnexpectedToken {
            index: 4,
            found: TokenType::Identifier("B"),
            expected: Expected::Separator
        })
    );
}

#[test]
fn the_tokens_end_too_early() {
    let toks = tokens("struct S { a: u8");
    assert_eq!(
        Parser::new(&toks).parse(),
        Err(ParseError::UnexpectedEnd { expected: Expected::Separator })
    );
    let toks = tokens("struct");
    assert_eq!(
        Parser::new(&toks).parse(),
        Err(ParseError::UnexpectedEnd { expected: Expected::Identifier })
    );
    let toks = tokens("struct S { #[serde(rename =");
    assert_eq!(
        Parser::new(&toks).parse(),
        Err(ParseError::UnexpectedEnd { expected: Expected::String })
    );
}

#[test]
fn a_body_needs_a_member() {
    let toks = tokens("struct S { }");
    assert_eq!(
        Parser::new(&toks).parse(),
        Err(ParseError::UnexpectedToken {
            index: 3,
            found: TokenType::RBrace,
            expected: Expected::Identifier
        })
    );
    let toks = tokens("enum E { A() }");
    assert_eq!(
        Parser::new(&toks).parse(),
        Err(ParseError::UnexpectedToken {
            index: 5,
            found: TokenType::RParen,
            expected: Expected::Identifier
        })
    );
}

#[test]
fn a_directive_with_a_value_needs_it() {
    let toks = tokens("struct S { #[serde(rename)] a: u8 }");
    assert_eq!(
        Parser::new(&toks).parse(),
        Err(ParseError::UnexpectedToken {
            index: 8,
            found: TokenType::RParen,
            expected: Expected::Token(TokenType::Equals)
        })
    );
    let toks = tokens("struct S { #[serde(skip = \"x\")] a: u8 }");
    assert_eq!(
        Parser::new(&toks).parse(),
        Err(ParseError::UnexpectedToken {
            index: 8,
            found: TokenType::Equals,
            expected: Expected::Token(TokenType::Comma)
        })
    );
    let toks = tokens("struct S { #[serde(default = x)] a: u8 }");
    assert_eq!(
        Parser::new(&toks).parse(),
        Err(ParseError::UnexpectedToken {
            index: 9,
            found: TokenType::Identifier("x"),
            expected: Expected::String
        })
    );
}

#[test]
fn the_parser_goes_on_from_its_cursor() {
    let toks = tokens("struct A { a: u8 } struct B { b: u8 }");
    let mut parser = Parser::new(&toks);
    parser.cursor = 7;
    let types = parser.parse().unwrap();
    assert_eq!(types.len(), 1);
    assert_eq!(types[0].name, "B");
    let mut parser = Parser::new(&toks);
    parser.cursor = 100;
    assert_eq!(parser.parse(), Ok(Vec::new()));
}

#[test]
fn tokens_are_compared_by_kind_and_text() {
    assert!(same_token(&TokenType::Hash, &TokenType::Hash));
    assert!(!same_token(&TokenType::Hash, &TokenType::Comma));
    assert!(same_token(&TokenType::Identifier("a"), &TokenType::Identifier("a")));
    assert!(!same_token(&TokenType::Identifier("a"), &TokenType::Identifier("b")));
    assert!(!same_token(&TokenType::Identifier("a"), &TokenType::String("a")));
    assert!(same_token(&TokenType::String(""), &TokenType::String("")));
    assert!(!same_token(&TokenType::Struct, &TokenType::Enum));
}
