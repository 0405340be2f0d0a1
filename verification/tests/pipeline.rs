use serde_pygen::codegen::{Codegen, CodegenError};
use serde_pygen::lexer::{Lexer, TokenType};
use serde_pygen::parser::{
    DeclaredType, EnumVariantInner, InnerType, ParseError, Parser, SerdeAttribute, Type,
};

const HEADER: &str = "# Generated code\n\nfrom lib.marshal import TupleVariant, dataclass, asdict\n\n";

fn generated(source: &str) -> String {
    let tokens = Lexer::new(source).lex().unwrap();
    let types = Parser::new(&tokens).parse().unwrap();
    Codegen::new(types).generate().unwrap()
}

#[test]
fn struct_with_default_and_condition() {
    let out = generated(
        "struct User { #[serde(default, skip_serializing_if = \"is_empty\")] age: u32, name: String }",
    );
    let expected = format!(
        "{}{}",
        HEADER,
        "@dataclass\nclass User:\n    SKIP_SERIALIZING_IF = {\n        \"age\": is_empty,\n    }\n\n    name: str\n    age: int = 0\n\n\n"
    );
    assert_eq!(out, expected);
}

#[test]
fn enum_with_unit_and_tuple_variant() {
    let out = generated("enum Color { Red, Custom(u8, u8, u8) }");
    let expected = format!(
        "{}{}{}{}",
        HEADER,
        "@dataclass\nclass Red:\n    ENUM_DATA = (ENUM_VARIANT_UNIT, \"Red\")\n\n",
        "@dataclass\nclass Custom(TupleVariant):\n    ENUM_DATA = (ENUM_VARIANT_TUPLE, \"Custom\")\n\n    _0: int\n    _1: int\n    _2: int\n\n",
        "Color = Red | Custom\n\n\n"
    );
    assert_eq!(out, expected);
}

#[test]
fn unknown_directive_is_an_error() {
    let tokens = Lexer::new("struct A { #[serde(unknown_thing)] a: u8 }").lex().unwrap();
    let r = Parser::new(&tokens).parse();
    assert_eq!(r, Err(ParseError::UnknownDirective { index: 7, name: "unknown_thing" }));
}

#[test]
fn nested_type_spelling() {
    let tokens = Lexer::new("struct S { f: Vec<Option<i32>> }").lex().unwrap();
    let types = Parser::new(&tokens).parse().unwrap();
    assert_eq!(types.len(), 1);
    let field = match &types[0].inner {
        InnerType::Struct(s) => &s.fields[0],
        InnerType::Enum(_) => panic!("a struct was declared"),
    };
    assert_eq!(field.ty, Type::Vec(Box::new(Type::Option(Box::new(Type::Int)))));
    let spelled = Codegen::new(Vec::new()).generate_type(&field.ty);
    assert_eq!(spelled, "list[int | None]");
}

#[test]
fn comments_and_white_space_do_not_change_the_tokens() {
    let plain = Lexer::new("struct A{a:u8}").lex().unwrap();
    let spaced = Lexer::new("// head\nstruct /* x */ A\n{\ta : u8 // tail\n}\r\n/* end").lex().unwrap();
    let kinds = |tokens: &[serde_pygen::lexer::LexicalToken<'static>]| -> Vec<TokenType<'static>> {
        tokens.iter().map(|t| t.token).collect()
    };
    assert_eq!(kinds(&plain), kinds(&spaced));
}

#[test]
fn reserved_names_are_sanitized() {
    let out = generated("enum type { None, type }");
    let expected = format!(
        "{}{}{}{}",
        HEADER,
        "@dataclass\nclass None_:\n    ENUM_DATA = (ENUM_VARIANT_UNIT, \"None\")\n\n",
        "@dataclass\nclass type_:\n    ENUM_DATA = (ENUM_VARIANT_UNIT, \"type\")\n\n",
        "type_ = None_ | type_\n\n\n"
    );
    assert_eq!(out, expected);
}

#[test]
fn reserved_names_of_variants_with_data() {
    let out = generated("enum E { None(u8), type { a: u8 } }");
    let expected = format!(
        "{}{}{}{}",
        HEADER,
        "@dataclass\nclass None_(TupleVariant):\n    ENUM_DATA = (ENUM_VARIANT_TUPLE, \"None\")\n\n    _0: int\n\n",
        "@dataclass\nclass type_:\n    ENUM_DATA = (ENUM_VARIANT_STRUCT, \"type\")\n    \n\n    a: int\n\n",
        "E = None_ | type_\n\n\n"
    );
    assert_eq!(out, expected);
}

#[test]
fn sample_declarations() {
    let source = "enum Name {\n    None,\n    First(String),\n    FirstLast(String, String),\n    FirstMiddleLast {\n        first: String,\n\n        #[serde(skip_serializing_if = \"is_empty\")]\n        middle: Vec<String>,\n\n        last: String,\n    },\n}\n\nstruct User {\n    name: Name,\n\n    // this is a comment\n    #[serde(default, skip_serializing_if = \"under_18\")]\n    age: u32,\n\n    birthday: (u32, u32, u32),\n}\n";
    let out = generated(source);
    let expected = format!(
        "{}{}{}{}{}{}{}",
        HEADER,
        "@dataclass\nclass None_:\n    ENUM_DATA = (ENUM_VARIANT_UNIT, \"None\")\n\n",
        "@dataclass\nclass First(TupleVariant):\n    ENUM_DATA = (ENUM_VARIANT_TUPLE, \"First\")\n\n    _0: str\n\n",
        "@dataclass\nclass FirstLast(TupleVariant):\n    ENUM_DATA = (ENUM_VARIANT_TUPLE, \"FirstLast\")\n\n    _0: str\n    _1: str\n\n",
        "@dataclass\nclass FirstMiddleLast:\n    ENUM_DATA = (ENUM_VARIANT_STRUCT, \"FirstMiddleLast\")\n    SKIP_SERIALIZING_IF = {\n        \"middle\": is_empty,\n    }\n\n    first: str\n    middle: list[str]\n    last: str\n\n",
        "Name = None_ | First | FirstLast | FirstMiddleLast\n\n\n",
        "@dataclass\nclass User:\n    SKIP_SERIALIZING_IF = {\n        \"age\": under_18,\n    }\n\n    name: Name\n    birthday: tuple[int, int, int]\n    age: int = 0\n\n\n"
    );
    assert_eq!(out, expected);
}

#[test]
fn bare_default_on_a_user_type_is_rejected() {
    let tokens = Lexer::new("struct A { a: u8, #[serde(default)] b: Other }").lex().unwrap();
    let types = Parser::new(&tokens).parse().unwrap();
    let r = Codegen::new(types).generate();
    assert_eq!(r, Err(CodegenError::UnsupportedDefault { field: "b" }));
}

#[test]
fn default_with_a_value_on_a_user_type() {
    let out = generated("struct A { #[serde(default = \"Other()\")] b: Other }");
    let expected = format!("{}{}", HEADER, "@dataclass\nclass A:\n    \n\n    b: Other = Other()\n\n\n");
    assert_eq!(out, expected);
}

#[test]
fn parsed_declarations_have_the_expected_shape() {
    let tokens = Lexer::new("enum E { #[serde(rename = \"a\")] A, B(u8,), C { pub x: () } }")
        .lex()
        .unwrap();
    let types: Vec<DeclaredType> = Parser::new(&tokens).parse().unwrap();
    assert_eq!(types.len(), 1);
    assert_eq!(types[0].name, "E");
    let variants = match &types[0].inner {
        InnerType::Enum(e) => &e.variants,
        InnerType::Struct(_) => panic!("an enum was declared"),
    };
    assert_eq!(variants.len(), 3);
    assert_eq!(variants[0].attrs, vec![SerdeAttribute::Rename("a")]);
    assert_eq!(variants[0].inner, EnumVariantInner::Unit);
    assert_eq!(variants[1].inner, EnumVariantInner::Tuple(vec![Type::Int]));
    match &variants[2].inner {
        EnumVariantInner::Struct(s) => {
            assert_eq!(s.fields.len(), 1);
            assert_eq!(s.fields[0].name, "x");
            assert_eq!(s.fields[0].ty, Type::Unit);
        }
        _ => panic!("a struct-shaped variant was declared"),
    }
}
