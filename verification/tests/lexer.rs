use serde_pygen::lexer::{LexError, Lexer, LexicalToken, Span, TokenType};

fn kinds<'a>(tokens: &[LexicalToken<'a>]) -> Vec<TokenType<'a>> {
    tokens.iter().map(|t| t.token).collect()
}

#[test]
fn punctuation_and_words() {
    let tokens = Lexer::new("struct A { pub b: u8, }").lex().unwrap();
    assert_eq!(
        kinds(&tokens),
        vec![
            TokenType::Struct,
            TokenType::Identifier("A"),
            TokenType::LBrace,
            TokenType::Pub,
            TokenType::Identifier("b"),
            TokenType::Colon,
            TokenType::Identifier("u8"),
            TokenType::Comma,
            TokenType::RBrace,
        ]
    );
    assert_eq!(tokens[1].span, Span { start: 7, end: 8 });
}

#[test]
fn string_literal_and_comments() {
    let tokens = Lexer::new("// c\n#[x = \"a b\"] /* y\n */ \"\"").lex().unwrap();
    assert_eq!(
        kinds(&tokens),
        vec![
            TokenType::Hash,
            TokenType::LBracket,
            TokenType::Identifier("x"),
            TokenType::Equals,
            TokenType::String("a b"),
            TokenType::RBracket,
            TokenType::String(""),
        ]
    );
    assert_eq!(tokens[4].span, Span { start: 11, end: 16 });
}

#[test]
fn unexpected_character_has_position() {
    let r = Lexer::new("a\n  /* x\n */ ?").lex();
    assert_eq!(r, Err(LexError::UnexpectedCharacter { byte: b'?', line: 3, column: 5 }));
}

#[test]
fn unterminated_string() {
    let r = Lexer::new("a \"bc").lex();
    assert_eq!(r, Err(LexError::UnterminatedString { line: 1, column: 3 }));
}

#[test]
fn empty_source() {
    assert_eq!(Lexer::new("").lex(), Ok(Vec::new()));
    assert_eq!(Lexer::new(" \t\r\n").lex(), Ok(Vec::new()));
}

#[test]
fn every_punctuation() {
    let tokens = Lexer::new("#[],:={}()<>").lex().unwrap();
    assert_eq!(
        kinds(&tokens),
        vec![
            TokenType::Hash,
            TokenType::LBracket,
            TokenType::RBracket,
            TokenType::Comma,
            TokenType::Colon,
            TokenType::Equals,
            TokenType::LBrace,
            TokenType::RBrace,
            TokenType::LParen,
            TokenType::RParen,
            TokenType::Langle,
            TokenType::Rangle,
        ]
    );
    for (i, token) in tokens.iter().enumerate() {
        assert_eq!(token.span, Span { start: i, end: i + 1 });
    }
}

#[test]
fn keywords_are_whole_words() {
    let tokens = Lexer::new("struct structs enum _enum pub pub2 Pub").lex().unwrap();
    assert_eq!(
        kinds(&tokens),
        vec![
            TokenType::Struct,
            TokenType::Identifier("structs"),
            TokenType::Enum,
            TokenType::Identifier("_enum"),
            TokenType::Pub,
            TokenType::Identifier("pub2"),
            TokenType::Identifier("Pub"),
        ]
    );
}

#[test]
fn identifiers_run_as_far_as_they_can() {
    let tokens = Lexer::new("a_1B9,_x").lex().unwrap();
    assert_eq!(
        kinds(&tokens),
        vec![TokenType::Identifier("a_1B9"), TokenType::Comma, TokenType::Identifier("_x")]
    );
    assert_eq!(tokens[0].span, Span { start: 0, end: 5 });
    assert_eq!(tokens[2].span, Span { start: 6, end: 8 });
}

#[test]
fn a_digit_starts_no_token() {
    assert_eq!(
        Lexer::new("a 1").lex(),
        Err(LexError::UnexpectedCharacter { byte: b'1', line: 1, column: 3 })
    );
}

#[test]
fn a_lone_slash_starts_no_token() {
    assert_eq!(
        Lexer::new("a / b").lex(),
        Err(LexError::UnexpectedCharacter { byte: b'/', line: 1, column: 3 })
    );
    assert_eq!(
        Lexer::new("/").lex(),
        Err(LexError::UnexpectedCharacter { byte: b'/', line: 1, column: 1 })
    );
}

#[test]
fn the_span_of_a_string_literal_holds_its_quotes() {
    let source = "x \"a,b\" y";
    let tokens = Lexer::new(source).lex().unwrap();
    assert_eq!(tokens[1].token, TokenType::String("a,b"));
    assert_eq!(tokens[1].span, Span { start: 2, end: 7 });
    assert_eq!(&source[tokens[1].span.start..tokens[1].span.end], "\"a,b\"");
}

#[test]
fn string_literals_have_no_escapes() {
    let tokens = Lexer::new("\"a\\\" b").lex().unwrap();
    assert_eq!(kinds(&tokens), vec![TokenType::String("a\\"), TokenType::Identifier("b")]);
}

#[test]
fn string_literals_may_hold_anything_but_a_quote() {
    let tokens = Lexer::new("\"é // x\n/* \"").lex().unwrap();
    assert_eq!(kinds(&tokens), vec![TokenType::String("é // x\n/* ")]);
}

#[test]
fn comments_may_hold_anything() {
    let tokens = Lexer::new("a // ü \" ? \n b /* ß \" ? \n * / */ c").lex().unwrap();
    assert_eq!(
        kinds(&tokens),
        vec![TokenType::Identifier("a"), TokenType::Identifier("b"), TokenType::Identifier("c")]
    );
}

#[test]
fn block_comments_do_not_nest() {
    let tokens = Lexer::new("/* a /* b */ c").lex().unwrap();
    assert_eq!(kinds(&tokens), vec![TokenType::Identifier("c")]);
    assert_eq!(
        Lexer::new("/* a /* b */ */").lex(),
        Err(LexError::UnexpectedCharacter { byte: b'*', line: 1, column: 14 })
    );
}

#[test]
fn a_block_comment_needs_its_own_star() {
    let tokens = Lexer::new("/*/ a */ b").lex().unwrap();
    assert_eq!(kinds(&tokens), vec![TokenType::Identifier("b")]);
}

#[test]
fn a_comment_may_run_to_the_end() {
    let tokens = Lexer::new("a /* b").lex().unwrap();
    assert_eq!(kinds(&tokens), vec![TokenType::Identifier("a")]);
    let tokens = Lexer::new("a // b").lex().unwrap();
    assert_eq!(kinds(&tokens), vec![TokenType::Identifier("a")]);
}

#[test]
fn a_byte_outside_ascii_starts_no_token() {
    assert_eq!(
        Lexer::new("a\né").lex(),
        Err(LexError::UnexpectedCharacter { byte: 0xc3, line: 2, column: 1 })
    );
    assert_eq!(
        Lexer::new("aé").lex(),
        Err(LexError::UnexpectedCharacter { byte: 0xc3, line: 1, column: 2 })
    );
}

#[test]
fn lines_are_counted_in_strings_and_comments() {
    assert_eq!(
        Lexer::new("\"a\nb\" /* c\n\n */ // d\n  ?").lex(),
        Err(LexError::UnexpectedCharacter { byte: b'?', line: 5, column: 3 })
    );
}

#[test]
fn an_unterminated_string_reports_its_opening_quote() {
    assert_eq!(
        Lexer::new("a\n b \"c\nd").lex(),
        Err(LexError::UnterminatedString { line: 2, column: 4 })
    );
    assert_eq!(Lexer::new("\"").lex(), Err(LexError::UnterminatedString { line: 1, column: 1 }));
}

#[test]
fn tokens_as_they_are_written() {
    let tokens = Lexer::new("#[serde(rename = \"a b\")] pub struct enum x : < > { } ,").lex().unwrap();
    let written: Vec<String> = tokens.iter().map(|t| t.to_string()).collect();
    assert_eq!(
        written,
        vec![
            "#", "[", "serde", "(", "rename", "=", "\"a b\"", ")", "]", "pub", "struct", "enum", "x",
            ":", "<", ">", "{", "}", ","
        ]
    );
    assert_eq!(tokens[6].token.to_string(), "\"a b\"");
}

#[test]
fn spans_stand_in_source_order() {
    let source = "struct A { /* c */ a: \"x\", }";
    let tokens = Lexer::new(source).lex().unwrap();
    let mut last = 0;
    for token in &tokens {
        assert!(last <= token.span.start);
        assert!(token.span.start < token.span.end);
        assert!(token.span.end <= source.len());
        last = token.span.end;
    }
}
