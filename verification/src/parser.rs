//! The declarations that the parser builds, and the parser.
//!
//! Each type here borrows its names from the source text and has a view: the
//! same shape over plain texts and sequences. The grammar is stated over the
//! views in `crate::grammar`; `Parser` follows it.

use crate::grammar::{
    attributes_at, bracketed_at, continued, declaration_at, declarations_at, directive_at,
    directives_at, enum_at, field_at, fields_at, holds, kind_at, lemma_continued_push,
    lemma_declaration_within, lemma_field_within, lemma_type_within, lemma_variant_within, miss,
    opening_at, struct_at, type_at, types_at, value_at, variant_at, variants_at, Parsed,
    SyntaxError, Wanted,
};
use crate::lexer::{token_text, LexicalToken, TokenKind, TokenType};
use crate::text::{decimal, decimal_text, str_eq};
use vstd::prelude::*;

verus! {

/// A type expression.
#[derive(Debug, PartialEq, Eq)]
pub enum Type<'a> {
    Unit,
    Bool,
    Int,
    Float,
    String,
    Option(Box<Type<'a>>),
    Tuple(Vec<Type<'a>>),
    Array(Box<Type<'a>>),
    Vec(Box<Type<'a>>),
    User(&'a str),
}

/// What a `Type` stands for.
pub enum TypeExpr {
    Unit,
    Bool,
    Int,
    Float,
    String,
    Option(Box<TypeExpr>),
    Tuple(Seq<TypeExpr>),
    Array(Box<TypeExpr>),
    Vec(Box<TypeExpr>),
    User(Seq<char>),
}

impl<'a> Type<'a> {
    pub open spec fn view(&self) -> TypeExpr
        decreases self,
    {
        match self {
            Type::Unit => TypeExpr::Unit,
            Type::Bool => TypeExpr::Bool,
            Type::Int => TypeExpr::Int,
            Type::Float => TypeExpr::Float,
            Type::String => TypeExpr::String,
            Type::Option(inner) => TypeExpr::Option(Box::new(inner.view())),
            Type::Tuple(items) => TypeExpr::Tuple(
                Seq::new(
                    items@.len(),
                    |i: int|
                        if 0 <= i < items@.len() {
                            items@[i].view()
                        } else {
                            TypeExpr::Unit
                        },
                ),
            ),
            Type::Array(inner) => TypeExpr::Array(Box::new(inner.view())),
            Type::Vec(inner) => TypeExpr::Vec(Box::new(inner.view())),
            Type::User(name) => TypeExpr::User(name@),
        }
    }
}

/// The views of a sequence of types.
pub open spec fn type_views(types: Seq<Type<'_>>) -> Seq<TypeExpr> {
    types.map_values(|t: Type| t@)
}

/// The view of a tuple type holds the views of its items.
pub proof fn lemma_tuple_view(items: Vec<Type<'_>>)
    ensures
        Type::Tuple(items)@ == TypeExpr::Tuple(type_views(items@)),
{
    assert(Type::Tuple(items)@->Tuple_0 =~= type_views(items@));
}

/// A recognised serialization directive.
#[derive(Debug, PartialEq, Eq)]
pub enum SerdeAttribute<'a> {
    Rename(&'a str),
    Default(Option<&'a str>),
    Skip,
    SkipSerializing,
    SkipDeserializing,
    SkipSerializingIf(&'a str),
    SkipDeserializingIf(&'a str),
    SerializeWith(&'a str),
    DeserializeWith(&'a str),
}

/// What a `SerdeAttribute` stands for.
pub enum Attribute {
    Rename(Seq<char>),
    Default(Option<Seq<char>>),
    Skip,
    SkipSerializing,
    SkipDeserializing,
    SkipSerializingIf(Seq<char>),
    SkipDeserializingIf(Seq<char>),
    SerializeWith(Seq<char>),
    DeserializeWith(Seq<char>),
}

impl<'a> SerdeAttribute<'a> {
    pub open spec fn view(&self) -> Attribute {
        match self {
            SerdeAttribute::Rename(name) => Attribute::Rename(name@),
            SerdeAttribute::Default(Some(value)) => Attribute::Default(Some(value@)),
            SerdeAttribute::Default(None) => Attribute::Default(None),
            SerdeAttribute::Skip => Attribute::Skip,
            SerdeAttribute::SkipSerializing => Attribute::SkipSerializing,
            SerdeAttribute::SkipDeserializing => Attribute::SkipDeserializing,
            SerdeAttribute::SkipSerializingIf(expr) => Attribute::SkipSerializingIf(expr@),
            SerdeAttribute::SkipDeserializingIf(expr) => Attribute::SkipDeserializingIf(expr@),
            SerdeAttribute::SerializeWith(expr) => Attribute::SerializeWith(expr@),
            SerdeAttribute::DeserializeWith(expr) => Attribute::DeserializeWith(expr@),
        }
    }
}

/// The views of a sequence of attributes.
pub open spec fn attribute_views(attrs: Seq<SerdeAttribute<'_>>) -> Seq<Attribute> {
    attrs.map_values(|a: SerdeAttribute| a@)
}

/// A named field with its directives.
#[derive(Debug, PartialEq, Eq)]
pub struct StructField<'a> {
    pub attrs: Vec<SerdeAttribute<'a>>,
    pub name: &'a str,
    pub ty: Type<'a>,
}

/// What a `StructField` stands for.
pub struct Field {
    pub attrs: Seq<Attribute>,
    pub name: Seq<char>,
    pub ty: TypeExpr,
}

impl<'a> StructField<'a> {
    pub open spec fn view(&self) -> Field {
        Field { attrs: attribute_views(self.attrs@), name: self.name@, ty: self.ty@ }
    }
}

/// The views of a sequence of fields.
pub open spec fn field_views(fields: Seq<StructField<'_>>) -> Seq<Field> {
    fields.map_values(|f: StructField| f@)
}

/// The fields of a struct, in source order.
#[derive(Debug, PartialEq, Eq)]
pub struct Struct<'a> {
    pub fields: Vec<StructField<'a>>,
}

/// What a `Struct` stands for.
pub struct StructDecl {
    pub fields: Seq<Field>,
}

impl<'a> Struct<'a> {
    pub open spec fn view(&self) -> StructDecl {
        StructDecl { fields: field_views(self.fields@) }
    }
}

/// The shape of an enum variant.
#[derive(Debug, PartialEq, Eq)]
pub enum EnumVariantInner<'a> {
    Unit,
    Tuple(Vec<Type<'a>>),
    Struct(Struct<'a>),
}

/// What an `EnumVariantInner` stands for.
pub enum VariantShape {
    Unit,
    Tuple(Seq<TypeExpr>),
    Struct(StructDecl),
}

impl<'a> EnumVariantInner<'a> {
    pub open spec fn view(&self) -> VariantShape {
        match self {
            EnumVariantInner::Unit => VariantShape::Unit,
            EnumVariantInner::Tuple(types) => VariantShape::Tuple(type_views(types@)),
            EnumVariantInner::Struct(fields) => VariantShape::Struct(fields@),
        }
    }
}

/// A named enum variant with its directives.
#[derive(Debug, PartialEq, Eq)]
pub struct EnumVariant<'a> {
    pub attrs: Vec<SerdeAttribute<'a>>,
    pub name: &'a str,
    pub inner: EnumVariantInner<'a>,
}

/// What an `EnumVariant` stands for.
pub struct Variant {
    pub attrs: Seq<Attribute>,
    pub name: Seq<char>,
    pub inner: VariantShape,
}

impl<'a> EnumVariant<'a> {
    pub open spec fn view(&self) -> Variant {
        Variant { attrs: attribute_views(self.attrs@), name: self.name@, inner: self.inner@ }
    }
}

/// The views of a sequence of variants.
pub open spec fn variant_views(variants: Seq<EnumVariant<'_>>) -> Seq<Variant> {
    variants.map_values(|v: EnumVariant| v@)
}

/// The variants of an enum, in source order.
#[derive(Debug, PartialEq, Eq)]
pub struct Enum<'a> {
    pub variants: Vec<EnumVariant<'a>>,
}

/// What an `Enum` stands for.
pub struct EnumDecl {
    pub variants: Seq<Variant>,
}

impl<'a> Enum<'a> {
    pub open spec fn view(&self) -> EnumDecl {
        EnumDecl { variants: variant_views(self.variants@) }
    }
}

/// What a declaration declares.
#[derive(Debug, PartialEq, Eq)]
pub enum InnerType<'a> {
    Struct(Struct<'a>),
    Enum(Enum<'a>),
}

/// What an `InnerType` stands for.
pub enum Definition {
    Struct(StructDecl),
    Enum(EnumDecl),
}

impl<'a> InnerType<'a> {
    pub open spec fn view(&self) -> Definition {
        match self {
            InnerType::Struct(s) => Definition::Struct(s@),
            InnerType::Enum(e) => Definition::Enum(e@),
        }
    }
}

/// One struct or enum declaration.
#[derive(Debug, PartialEq, Eq)]
pub struct DeclaredType<'a> {
    pub name: &'a str,
    pub inner: InnerType<'a>,
}

/// What a `DeclaredType` stands for.
pub struct Declaration {
    pub name: Seq<char>,
    pub inner: Definition,
}

impl<'a> DeclaredType<'a> {
    pub open spec fn view(&self) -> Declaration {
        Declaration { name: self.name@, inner: self.inner@ }
    }
}

/// The views of a sequence of declarations.
pub open spec fn declaration_views(types: Seq<DeclaredType<'_>>) -> Seq<Declaration> {
    types.map_values(|t: DeclaredType| t@)
}

/// What the parser was looking for when it stopped.
#[derive(Debug, Clone, Copy, PartialEq, Eq)]
pub enum Expected<'a> {
    /// This very token.
    Token(TokenType<'a>),
    Identifier,
    String,
    /// The keyword `struct` or `enum`.
    StructOrEnum,
    /// A comma or a closing brace, after a field or a variant.
    Separator,
}

impl<'a> Expected<'a> {
    pub open spec fn view(&self) -> Wanted {
        match self {
            Expected::Token(token) => Wanted::Token(token@),
            Expected::Identifier => Wanted::Identifier,
            Expected::String => Wanted::String,
            Expected::StructOrEnum => Wanted::StructOrEnum,
            Expected::Separator => Wanted::Separator,
        }
    }
}

/// How what the parser was looking for is named in a message.
pub open spec fn wanted_text(wanted: Wanted) -> Seq<char> {
    match wanted {
        Wanted::Token(kind) => token_text(kind),
        Wanted::Identifier => "identifier"@,
        Wanted::String => "string"@,
        Wanted::StructOrEnum => "struct or enum"@,
        Wanted::Separator => ", or }"@,
    }
}

impl<'a> Expected<'a> {
    /// How this is named in a message.
    pub fn to_string(&self) -> (r: String)
        ensures
            r@ == wanted_text(self@),
    {
        match self {
            Expected::Token(token) => token.to_string(),
            Expected::Identifier => String::from_str("identifier"),
            Expected::String => String::from_str("string"),
            Expected::StructOrEnum => String::from_str("struct or enum"),
            Expected::Separator => String::from_str(", or }"),
        }
    }
}

/// Why a token sequence is no sequence of declarations.
#[derive(Debug, Clone, Copy, PartialEq, Eq)]
pub enum ParseError<'a> {
    /// The token at `index`, `found`, is not what the grammar asks for there.
    UnexpectedToken { index: usize, found: TokenType<'a>, expected: Expected<'a> },
    /// The tokens end where the grammar asks for more.
    UnexpectedEnd { expected: Expected<'a> },
    /// The identifier at `index` names no known directive.
    UnknownDirective { index: usize, name: &'a str },
}

impl<'a> ParseError<'a> {
    pub open spec fn view(&self) -> SyntaxError {
        match self {
            ParseError::UnexpectedToken { index, found, expected } => SyntaxError::UnexpectedToken {
                index: *index as int,
                found: found@,
                expected: expected@,
            },
            ParseError::UnexpectedEnd { expected } => SyntaxError::UnexpectedEnd {
                expected: expected@,
            },
            ParseError::UnknownDirective { index, name } => SyntaxError::UnknownDirective {
                index: *index as int,
                name: name@,
            },
        }
    }
}

/// The message for a syntax error: the offending token, its place among the
/// tokens (they count from 0), and what stood in its place in the grammar.
pub open spec fn syntax_error_text(e: SyntaxError) -> Seq<char> {
    match e {
        SyntaxError::UnexpectedToken { index, found, expected } => "unexpected token "@
            + token_text(found) + " at token "@ + decimal_text(index as nat) + "; expected "@
            + wanted_text(expected),
        SyntaxError::UnexpectedEnd { expected } => "unexpected end of input; expected "@
            + wanted_text(expected),
        SyntaxError::UnknownDirective { index, name } => "unexpected serde attribute "@ + name
            + " at token "@ + decimal_text(index as nat),
    }
}

impl<'a> ParseError<'a> {
    /// The message for the error.
    pub fn to_string(&self) -> (r: String)
        ensures
            r@ == syntax_error_text(self@),
    {
        match self {
            ParseError::UnexpectedToken { index, found, expected } => {
                let mut r = String::from_str("unexpected token ");
                r.append(found.to_string().as_str());
                r.append(" at token ");
                r.append(decimal(*index).as_str());
                r.append("; expected ");
                r.append(expected.to_string().as_str());
                r
            },
            ParseError::UnexpectedEnd { expected } => {
                let mut r = String::from_str("unexpected end of input; expected ");
                r.append(expected.to_string().as_str());
                r
            },
            ParseError::UnknownDirective { index, name } => {
                let mut r = String::from_str("unexpected serde attribute ");
                r.append(name);
                r.append(" at token ");
                r.append(decimal(*index).as_str());
                r
            },
        }
    }
}

/// Whether two tokens are of the same kind and hold the same text.
pub fn same_token(a: &TokenType<'_>, b: &TokenType<'_>) -> (r: bool)
    ensures
        r == (a@ == b@),
{
    match (a, b) {
        (TokenType::Hash, TokenType::Hash) => true,
        (TokenType::LBracket, TokenType::LBracket) => true,
        (TokenType::RBracket, TokenType::RBracket) => true,
        (TokenType::Comma, TokenType::Comma) => true,
        (TokenType::Identifier(x), TokenType::Identifier(y)) => str_eq(x, y),
        (TokenType::Colon, TokenType::Colon) => true,
        (TokenType::String(x), TokenType::String(y)) => str_eq(x, y),
        (TokenType::Equals, TokenType::Equals) => true,
        (TokenType::LBrace, TokenType::LBrace) => true,
        (TokenType::RBrace, TokenType::RBrace) => true,
        (TokenType::LParen, TokenType::LParen) => true,
        (TokenType::RParen, TokenType::RParen) => true,
        (TokenType::Struct, TokenType::Struct) => true,
        (TokenType::Enum, TokenType::Enum) => true,
        (TokenType::Pub, TokenType::Pub) => true,
        (TokenType::Langle, TokenType::Langle) => true,
        (TokenType::Rangle, TokenType::Rangle) => true,
        _ => false,
    }
}

/// The kinds of a sequence of tokens.
pub open spec fn token_kinds(tokens: Seq<LexicalToken<'_>>) -> Seq<TokenKind> {
    tokens.map_values(|t: LexicalToken| t.token@)
}

/// `done` in front of the declarations that follow, if there was no error.
pub open spec fn following(
    done: Seq<Declaration>,
    rest: Result<Seq<Declaration>, SyntaxError>,
) -> Result<Seq<Declaration>, SyntaxError> {
    match rest {
        Ok(more) => Ok(done + more),
        Err(e) => Err(e),
    }
}

/// Putting one more declaration in front of what follows is associative.
pub proof fn lemma_following_push(
    done: Seq<Declaration>,
    decl: Declaration,
    rest: Result<Seq<Declaration>, SyntaxError>,
)
    ensures
        following(done, following(seq![decl], rest)) == following(done.push(decl), rest),
{
    if let Ok(more) = rest {
        assert(done + (seq![decl] + more) =~= done.push(decl) + more);
    }
}

/// A recursive-descent parser over a slice of tokens.
pub struct Parser<'a> {
    pub tokens: &'a [LexicalToken<'a>],
    pub types: Vec<DeclaredType<'a>>,
    pub cursor: usize,
}

impl<'a> Parser<'a> {
    /// The kinds of the tokens.
    pub open spec fn kinds(&self) -> Seq<TokenKind> {
        token_kinds(self.tokens@)
    }

    /// The same parser, `n` tokens further.
    pub open spec fn moved(&self, before: &Self, n: nat) -> bool {
        &&& self.tokens == before.tokens
        &&& self.types == before.types
        &&& self.cursor == before.cursor + n
    }

    /// What a step leaves behind that parses `expected` at the cursor: the
    /// value with that view and the cursor behind it, or the error.
    pub open spec fn parsed<T, V>(
        &self,
        before: &Self,
        r: Result<T, ParseError<'a>>,
        view: spec_fn(T) -> V,
        expected: Parsed<V>,
    ) -> bool {
        &&& self.tokens == before.tokens
        &&& self.types == before.types
        &&& match expected {
            Ok((value, n)) => r matches Ok(v) && view(v) == value && self.cursor == before.cursor
                + n,
            Err(e) => r matches Err(x) && x@ == e,
        }
    }

    /// What a step leaves behind that parses the declaration `expected` at the
    /// cursor: one more declaration and the cursor behind it, or the error
    /// and the declarations as they were.
    pub open spec fn declared(
        &self,
        before: &Self,
        r: Result<(), ParseError<'a>>,
        expected: Parsed<Declaration>,
    ) -> bool {
        &&& self.tokens == before.tokens
        &&& match expected {
            Ok((decl, n)) => {
                &&& r is Ok
                &&& self.cursor == before.cursor + n
                &&& self.types@.len() == before.types@.len() + 1
                &&& self.types@.drop_last() == before.types@
                &&& self.types@.last()@ == decl
            },
            Err(e) => {
                &&& r matches Err(x) && x@ == e
                &&& self.types == before.types
            },
        }
    }

    /// A parser at the first of `tokens`.
    pub fn new(tokens: &'a [LexicalToken<'a>]) -> (parser: Self)
        ensures
            parser.tokens == tokens,
            parser.types@.len() == 0,
            parser.cursor == 0,
    {
        Parser { tokens, types: Vec::new(), cursor: 0 }
    }

    /// The declarations that the tokens from the cursor on spell, after those
    /// that the parser held before; or the first error.
    pub fn parse(self) -> (r: Result<Vec<DeclaredType<'a>>, ParseError<'a>>)
        ensures
            match declarations_at(self.kinds(), self.cursor as int) {
                Ok(decls) => r matches Ok(types) && declaration_views(types@) == declaration_views(
                    self.types@,
                ) + decls,
                Err(e) => r matches Err(x) && x@ == e,
            },
    {
        let mut parser = self;
        match parser.parse_decls() {
            Ok(()) => Ok(parser.types),
            Err(e) => Err(e),
        }
    }

    /// Parses declarations to the end of the tokens and adds them to `types`.
    fn parse_decls(&mut self) -> (r: Result<(), ParseError<'a>>)
        ensures
            match declarations_at(old(self).kinds(), old(self).cursor as int) {
                Ok(decls) => r is Ok && declaration_views(final(self).types@) == declaration_views(
                    old(self).types@,
                ) + decls,
                Err(e) => r matches Err(x) && x@ == e,
            },
    {
        let ghost tokens = self.kinds();
        let ghost mut done = Seq::<Declaration>::empty();
        proof {
            assert(declaration_views(self.types@) + done =~= declaration_views(self.types@));
            if let Ok(more) = declarations_at(tokens, self.cursor as int) {
                assert(done + more =~= more);
            }
        }
        while self.cursor < self.tokens.len()
            invariant
                self.tokens == old(self).tokens,
                tokens == self.kinds(),
                declaration_views(self.types@) == declaration_views(old(self).types@) + done,
                declarations_at(tokens, old(self).cursor as int) == following(
                    done,
                    declarations_at(tokens, self.cursor as int),
                ),
            decreases self.tokens@.len() - self.cursor,
        {
            let ghost before = declaration_views(self.types@);
            let ghost at = self.cursor as int;
            proof {
                lemma_declaration_within(tokens, at);
            }
            match self.parse_decl() {
                Ok(()) => {},
                Err(e) => {
                    return Err(e);
                },
            }
            proof {
                let decl = self.types@.last()@;
                let rest = declarations_at(tokens, self.cursor as int);
                assert(declaration_views(self.types@) =~= before.push(decl));
                assert(before.push(decl) =~= declaration_views(old(self).types@) + done.push(decl));
                assert(declarations_at(tokens, at) == following(seq![decl], rest));
                lemma_following_push(done, decl, rest);
                done = done.push(decl);
            }
        }
        assert(done + Seq::<Declaration>::empty() =~= done);
        Ok(())
    }

    /// Parses one declaration and adds it to `types`.
    fn parse_decl(&mut self) -> (r: Result<(), ParseError<'a>>)
        ensures
            final(self).declared(
                old(self),
                r,
                declaration_at(old(self).kinds(), old(self).cursor as int),
            ),
    {
        reveal(declaration_at);
        match self.parse_serde_attributes() {
            Ok(_) => {},
            Err(e) => {
                return Err(e);
            },
        }
        if self.eat(&TokenType::Enum) {
            self.parse_enum()
        } else if self.eat(&TokenType::Struct) {
            self.parse_struct()
        } else {
            Err(self.fail(Expected::StructOrEnum))
        }
    }

    /// The error for not finding `expected` at the cursor.
    fn fail(&self, expected: Expected<'a>) -> (e: ParseError<'a>)
        ensures
            e@ == miss(self.kinds(), self.cursor as int, expected@),
    {
        if self.cursor < self.tokens.len() {
            ParseError::UnexpectedToken {
                index: self.cursor,
                found: self.tokens[self.cursor].token,
                expected,
            }
        } else {
            ParseError::UnexpectedEnd { expected }
        }
    }

    /// The identifier at the cursor.
    fn get_ident(&self) -> (r: Result<&'a str, ParseError<'a>>)
        ensures
            match kind_at(self.kinds(), self.cursor as int) {
                Some(TokenKind::Identifier(name)) => r matches Ok(s) && s@ == name,
                _ => r matches Err(x) && x@ == miss(
                    self.kinds(),
                    self.cursor as int,
                    Wanted::Identifier,
                ),
            },
    {
        if self.cursor < self.tokens.len() {
            if let TokenType::Identifier(name) = self.tokens[self.cursor].token {
                return Ok(name);
            }
        }
        Err(self.fail(Expected::Identifier))
    }

    /// The identifier at the cursor, which moves behind it.
    fn eat_ident(&mut self) -> (r: Result<&'a str, ParseError<'a>>)
        ensures
            match kind_at(old(self).kinds(), old(self).cursor as int) {
                Some(TokenKind::Identifier(name)) => {
                    &&& r matches Ok(s) && s@ == name
                    &&& final(self).moved(old(self), 1)
                },
                _ => {
                    &&& r matches Err(x) && x@ == miss(
                        old(self).kinds(),
                        old(self).cursor as int,
                        Wanted::Identifier,
                    )
                    &&& final(self).moved(old(self), 0)
                },
            },
    {
        match self.get_ident() {
            Ok(name) => {
                self.step();
                Ok(name)
            },
            Err(e) => Err(e),
        }
    }

    /// The string literal at the cursor, which moves behind it.
    fn eat_string(&mut self) -> (r: Result<&'a str, ParseError<'a>>)
        ensures
            match kind_at(old(self).kinds(), old(self).cursor as int) {
                Some(TokenKind::String(text)) => {
                    &&& r matches Ok(s) && s@ == text
                    &&& final(self).moved(old(self), 1)
                },
                _ => {
                    &&& r matches Err(x) && x@ == miss(
                        old(self).kinds(),
                        old(self).cursor as int,
                        Wanted::String,
                    )
                    &&& final(self).moved(old(self), 0)
                },
            },
    {
        match self.get_string() {
            Ok(text) => {
                self.step();
                Ok(text)
            },
            Err(e) => Err(e),
        }
    }

    /// The string literal at the cursor.
    fn get_string(&self) -> (r: Result<&'a str, ParseError<'a>>)
        ensures
            match kind_at(self.kinds(), self.cursor as int) {
                Some(TokenKind::String(text)) => r matches Ok(s) && s@ == text,
                _ => r matches Err(x) && x@ == miss(
                    self.kinds(),
                    self.cursor as int,
                    Wanted::String,
                ),
            },
    {
        if self.cursor < self.tokens.len() {
            if let TokenType::String(text) = self.tokens[self.cursor].token {
                return Ok(text);
            }
        }
        Err(self.fail(Expected::String))
    }

    /// Parses one enum variant.
    fn parse_variant(&mut self) -> (r: Result<EnumVariant<'a>, ParseError<'a>>)
        ensures
            final(self).parsed(
                old(self),
                r,
                |v: EnumVariant| v@,
                variant_at(old(self).kinds(), old(self).cursor as int),
            ),
    {
        reveal(variant_at);
        let attrs = match self.parse_serde_attributes() {
            Ok(attrs) => attrs,
            Err(e) => {
                return Err(e);
            },
        };
        let name = match self.eat_ident() {
            Ok(name) => name,
            Err(e) => {
                return Err(e);
            },
        };
        let inner = if self.eat(&TokenType::LParen) {
            match self.parse_tuple_inner(true) {
                Ok(types) => EnumVariantInner::Tuple(types),
                Err(e) => {
                    return Err(e);
                },
            }
        } else if self.eat(&TokenType::LBrace) {
            match self.parse_struct_fields() {
                Ok(fields) => EnumVariantInner::Struct(Struct { fields }),
                Err(e) => {
                    return Err(e);
                },
            }
        } else {
            EnumVariantInner::Unit
        };
        Ok(EnumVariant { attrs, name, inner })
    }

    /// The name of a declaration and the `{` behind it.
    fn parse_opening(&mut self) -> (r: Result<&'a str, ParseError<'a>>)
        ensures
            final(self).tokens == old(self).tokens,
            final(self).types == old(self).types,
            match opening_at(old(self).kinds(), old(self).cursor as int) {
                Ok(name) => r matches Ok(s) && s@ == name && final(self).cursor == old(self).cursor
                    + 2,
                Err(e) => r matches Err(x) && x@ == e,
            },
    {
        let name = match self.eat_ident() {
            Ok(name) => name,
            Err(e) => {
                return Err(e);
            },
        };
        match self.must_eat(TokenType::LBrace) {
            Ok(()) => Ok(name),
            Err(e) => Err(e),
        }
    }

    /// The variants of an enum body, whose `{` has just been read, through
    /// its `}`.
    fn parse_variants(&mut self) -> (r: Result<Vec<EnumVariant<'a>>, ParseError<'a>>)
        ensures
            final(self).parsed(
                old(self),
                r,
                |v: Vec<EnumVariant>| variant_views(v@),
                variants_at(old(self).kinds(), old(self).cursor as int),
            ),
    {
        let ghost tokens = self.kinds();
        let ghost start = self.cursor as int;
        let mut fields: Vec<EnumVariant<'a>> = Vec::new();
        proof {
            assert(variant_views(fields@) =~= Seq::<Variant>::empty());
            if let Ok((more, m)) = variants_at(tokens, start) {
                assert(Seq::<Variant>::empty() + more =~= more);
            }
        }
        loop
            invariant
                self.tokens == old(self).tokens,
                self.types == old(self).types,
                tokens == self.kinds(),
                start == old(self).cursor,
                start <= self.cursor,
                variants_at(tokens, start) == continued(
                    variant_views(fields@),
                    (self.cursor - start) as nat,
                    variants_at(tokens, self.cursor as int),
                ),
            decreases tokens.len() - self.cursor,
        {
            let ghost at = self.cursor as int;
            let ghost done = variant_views(fields@);
            proof {
                lemma_variant_within(tokens, at);
            }
            let f = match self.parse_variant() {
                Ok(f) => f,
                Err(e) => {
                    return Err(e);
                },
            };
            let ghost n = (self.cursor - at) as nat;
            proof {
                assert(variant_views(fields@.push(f)) =~= done.push(f@));
                assert(done + seq![f@] =~= done.push(f@));
            }
            fields.push(f);
            if self.eat(&TokenType::RBrace) {
                return Ok(fields);
            }
            if self.eat(&TokenType::Comma) {
                if self.eat(&TokenType::RBrace) {
                    return Ok(fields);
                }
                proof {
                    lemma_continued_push(
                        done,
                        (at - start) as nat,
                        f@,
                        n + 1,
                        variants_at(tokens, self.cursor as int),
                    );
                }
            } else {
                return Err(self.fail(Expected::Separator));
            }
        }
    }

    /// Parses an enum, whose keyword has just been read, and adds it to
    /// `types`.
    fn parse_enum(&mut self) -> (r: Result<(), ParseError<'a>>)
        ensures
            final(self).declared(old(self), r, enum_at(old(self).kinds(), old(self).cursor as int)),
    {
        let name = match self.parse_opening() {
            Ok(name) => name,
            Err(e) => {
                return Err(e);
            },
        };
        let variants = match self.parse_variants() {
            Ok(variants) => variants,
            Err(e) => {
                return Err(e);
            },
        };
        let en = DeclaredType { name, inner: InnerType::Enum(Enum { variants }) };
        self.types.push(en);
        assert(self.types@.drop_last() =~= old(self).types@);
        Ok(())
    }

    /// The fields of a struct body, whose `{` has just been read, through
    /// its `}`.
    fn parse_struct_fields(&mut self) -> (r: Result<Vec<StructField<'a>>, ParseError<'a>>)
        ensures
            final(self).parsed(
                old(self),
                r,
                |v: Vec<StructField>| field_views(v@),
                fields_at(old(self).kinds(), old(self).cursor as int),
            ),
    {
        let ghost tokens = self.kinds();
        let ghost start = self.cursor as int;
        let mut fields: Vec<StructField<'a>> = Vec::new();
        proof {
            assert(field_views(fields@) =~= Seq::<Field>::empty());
            if let Ok((more, m)) = fields_at(tokens, start) {
                assert(Seq::<Field>::empty() + more =~= more);
            }
        }
        loop
            invariant
                self.tokens == old(self).tokens,
                self.types == old(self).types,
                tokens == self.kinds(),
                start == old(self).cursor,
                start <= self.cursor,
                fields_at(tokens, start) == continued(
                    field_views(fields@),
                    (self.cursor - start) as nat,
                    fields_at(tokens, self.cursor as int),
                ),
            decreases tokens.len() - self.cursor,
        {
            let ghost at = self.cursor as int;
            let ghost done = field_views(fields@);
            proof {
                lemma_field_within(tokens, at);
            }
            let f = match self.parse_field() {
                Ok(f) => f,
                Err(e) => {
                    return Err(e);
                },
            };
            let ghost n = (self.cursor - at) as nat;
            proof {
                assert(field_views(fields@.push(f)) =~= done.push(f@));
                assert(done + seq![f@] =~= done.push(f@));
            }
            fields.push(f);
            if self.eat(&TokenType::Comma) {
                if self.eat(&TokenType::RBrace) {
                    return Ok(fields);
                }
                proof {
                    lemma_continued_push(
                        done,
                        (at - start) as nat,
                        f@,
                        n + 1,
                        fields_at(tokens, self.cursor as int),
                    );
                }
            } else if self.eat(&TokenType::RBrace) {
                return Ok(fields);
            } else {
                return Err(self.fail(Expected::Separator));
            }
        }
    }

    /// Parses a struct, whose keyword has just been read, and adds it to
    /// `types`.
    fn parse_struct(&mut self) -> (r: Result<(), ParseError<'a>>)
        ensures
            final(self).declared(
                old(self),
                r,
                struct_at(old(self).kinds(), old(self).cursor as int),
            ),
    {
        let name = match self.parse_opening() {
            Ok(name) => name,
            Err(e) => {
                return Err(e);
            },
        };
        let fields = match self.parse_struct_fields() {
            Ok(fields) => fields,
            Err(e) => {
                return Err(e);
            },
        };
        let struc = DeclaredType { name, inner: InnerType::Struct(Struct { fields }) };
        self.types.push(struc);
        assert(self.types@.drop_last() =~= old(self).types@);
        Ok(())
    }

    /// Parses one field.
    fn parse_field(&mut self) -> (r: Result<StructField<'a>, ParseError<'a>>)
        ensures
            final(self).parsed(
                old(self),
                r,
                |f: StructField| f@,
                field_at(old(self).kinds(), old(self).cursor as int),
            ),
    {
        reveal(field_at);
        let attrs = match self.parse_serde_attributes() {
            Ok(attrs) => attrs,
            Err(e) => {
                return Err(e);
            },
        };
        // The visibility has no meaning here.
        self.eat(&TokenType::Pub);
        let name = match self.eat_ident() {
            Ok(name) => name,
            Err(e) => {
                return Err(e);
            },
        };
        match self.must_eat(TokenType::Colon) {
            Ok(()) => {},
            Err(e) => {
                return Err(e);
            },
        }
        let ty = match self.parse_type() {
            Ok(ty) => ty,
            Err(e) => {
                return Err(e);
            },
        };
        Ok(StructField { attrs, name, ty })
    }

    /// Parses a tuple type, whose `(` has just been read.
    fn parse_tuple(&mut self) -> (r: Result<Type<'a>, ParseError<'a>>)
        ensures
            final(self).parsed(
                old(self),
                r,
                |t: Type| t@,
                match types_at(old(self).kinds(), old(self).cursor as int, false) {
                    Ok((items, n)) => Ok((TypeExpr::Tuple(items), n)),
                    Err(e) => Err(e),
                },
            ),
        decreases old(self).tokens@.len() - old(self).cursor, 2int,
    {
        match self.parse_tuple_inner(false) {
            Ok(types) => {
                proof {
                    lemma_tuple_view(types);
                }
                Ok(Type::Tuple(types))
            },
            Err(e) => Err(e),
        }
    }

    /// The types of a list, whose `(` has just been read, through its `)`.
    fn parse_tuple_inner(&mut self, trailing: bool) -> (r: Result<Vec<Type<'a>>, ParseError<'a>>)
        ensures
            final(self).parsed(
                old(self),
                r,
                |v: Vec<Type>| type_views(v@),
                types_at(old(self).kinds(), old(self).cursor as int, trailing),
            ),
        decreases old(self).tokens@.len() - old(self).cursor, 1int,
    {
        let ghost tokens = self.kinds();
        let ghost start = self.cursor as int;
        let mut types: Vec<Type<'a>> = Vec::new();
        proof {
            assert(type_views(types@) =~= Seq::<TypeExpr>::empty());
            if let Ok((more, m)) = types_at(tokens, start, trailing) {
                assert(Seq::<TypeExpr>::empty() + more =~= more);
            }
        }
        loop
            invariant
                self.tokens == old(self).tokens,
                self.types == old(self).types,
                tokens == self.kinds(),
                start == old(self).cursor,
                start <= self.cursor,
                self.cursor == start || self.cursor <= tokens.len(),
                types_at(tokens, start, trailing) == continued(
                    type_views(types@),
                    (self.cursor - start) as nat,
                    types_at(tokens, self.cursor as int, trailing),
                ),
            decreases tokens.len() - self.cursor,
        {
            let ghost at = self.cursor as int;
            let ghost done = type_views(types@);
            proof {
                lemma_type_within(tokens, at, trailing);
            }
            let ty = match self.parse_type() {
                Ok(ty) => ty,
                Err(e) => {
                    return Err(e);
                },
            };
            let ghost n = (self.cursor - at) as nat;
            proof {
                assert(type_views(types@.push(ty)) =~= done.push(ty@));
                assert(done + seq![ty@] =~= done.push(ty@));
            }
            types.push(ty);
            if self.eat(&TokenType::RParen) {
                return Ok(types);
            }
            match self.must_eat(TokenType::Comma) {
                Ok(()) => {},
                Err(e) => {
                    return Err(e);
                },
            }
            if trailing && self.eat(&TokenType::RParen) {
                return Ok(types);
            }
            proof {
                lemma_continued_push(
                    done,
                    (at - start) as nat,
                    ty@,
                    n + 1,
                    types_at(tokens, self.cursor as int, trailing),
                );
            }
        }
    }

    /// One type between the given brackets.
    fn parse_bracketed(&mut self, open: TokenType<'a>, close: TokenType<'a>) -> (r: Result<
        Type<'a>,
        ParseError<'a>,
    >)
        ensures
            final(self).parsed(
                old(self),
                r,
                |t: Type| t@,
                bracketed_at(old(self).kinds(), old(self).cursor as int, open@, close@),
            ),
        decreases old(self).tokens@.len() - old(self).cursor, 1int,
    {
        match self.must_eat(open) {
            Ok(()) => {},
            Err(e) => {
                return Err(e);
            },
        }
        let ty = match self.parse_type() {
            Ok(ty) => ty,
            Err(e) => {
                return Err(e);
            },
        };
        match self.must_eat(close) {
            Ok(()) => Ok(ty),
            Err(e) => Err(e),
        }
    }

    /// Parses a type expression.
    fn parse_type(&mut self) -> (r: Result<Type<'a>, ParseError<'a>>)
        ensures
            final(self).parsed(
                old(self),
                r,
                |t: Type| t@,
                type_at(old(self).kinds(), old(self).cursor as int),
            ),
        decreases old(self).tokens@.len() - old(self).cursor, 0int,
    {
        if self.eat(&TokenType::LParen) {
            if self.eat(&TokenType::RParen) {
                return Ok(Type::Unit);
            }
            self.parse_tuple()
        } else {
            // Every other type starts with an identifier.
            let ident = match self.eat_ident() {
                Ok(ident) => ident,
                Err(e) => {
                    return Err(e);
                },
            };
            if str_eq(ident, "bool") {
                Ok(Type::Bool)
            } else if str_eq(ident, "i8") || str_eq(ident, "i16") || str_eq(ident, "i32") || str_eq(
                ident,
                "i64",
            ) || str_eq(ident, "u8") || str_eq(ident, "u16") || str_eq(ident, "u32") || str_eq(
                ident,
                "u64",
            ) {
                Ok(Type::Int)
            } else if str_eq(ident, "f32") || str_eq(ident, "f64") {
                Ok(Type::Float)
            } else if str_eq(ident, "String") {
                Ok(Type::String)
            } else if str_eq(ident, "Vec") {
                match self.parse_bracketed(TokenType::Langle, TokenType::Rangle) {
                    Ok(ty) => Ok(Type::Vec(Box::new(ty))),
                    Err(e) => Err(e),
                }
            } else if str_eq(ident, "Array") {
                match self.parse_bracketed(TokenType::LBracket, TokenType::RBracket) {
                    Ok(ty) => Ok(Type::Array(Box::new(ty))),
                    Err(e) => Err(e),
                }
            } else if str_eq(ident, "Option") {
                match self.parse_bracketed(TokenType::Langle, TokenType::Rangle) {
                    Ok(ty) => Ok(Type::Option(Box::new(ty))),
                    Err(e) => Err(e),
                }
            } else {
                Ok(Type::User(ident))
            }
        }
    }

    /// Whether the token at the cursor is `tok`.
    fn peek(&self, tok: TokenType<'a>) -> (r: bool)
        ensures
            r == holds(self.kinds(), self.cursor as int, tok@),
    {
        self.cursor < self.tokens.len() && same_token(&self.tokens[self.cursor].token, &tok)
    }

    /// Moves behind the token at the cursor if it is `tok`.
    fn eat(&mut self, tok: &TokenType<'a>) -> (r: bool)
        ensures
            r == holds(old(self).kinds(), old(self).cursor as int, tok@),
            final(self).moved(
                old(self),
                if r {
                    1
                } else {
                    0
                },
            ),
    {
        if self.peek(*tok) {
            self.step();
            true
        } else {
            false
        }
    }

    /// Moves behind the token at the cursor.
    fn step(&mut self)
        requires
            old(self).cursor < old(self).tokens@.len(),
        ensures
            final(self).moved(old(self), 1),
    {
        // The comparison bounds the cursor, so that the addition cannot overflow.
        if self.cursor < self.tokens.len() {
            self.cursor += 1;
        }
    }

    /// Moves behind the token at the cursor, which has to be `tok`.
    fn must_eat(&mut self, tok: TokenType<'a>) -> (r: Result<(), ParseError<'a>>)
        ensures
            if holds(old(self).kinds(), old(self).cursor as int, tok@) {
                r is Ok && final(self).moved(old(self), 1)
            } else {
                final(self).moved(old(self), 0) && (r matches Err(x) && x@ == miss(
                    old(self).kinds(),
                    old(self).cursor as int,
                    Wanted::Token(tok@),
                ))
            },
    {
        if self.eat(&tok) {
            Ok(())
        } else {
            Err(self.fail(Expected::Token(tok)))
        }
    }

    /// The value of a directive: `=` and a string literal.
    fn parse_value(&mut self) -> (r: Result<&'a str, ParseError<'a>>)
        ensures
            final(self).tokens == old(self).tokens,
            final(self).types == old(self).types,
            match value_at(old(self).kinds(), old(self).cursor as int) {
                Ok(text) => r matches Ok(s) && s@ == text && final(self).cursor == old(self).cursor
                    + 2,
                Err(e) => r matches Err(x) && x@ == e,
            },
    {
        match self.must_eat(TokenType::Equals) {
            Ok(()) => {},
            Err(e) => {
                return Err(e);
            },
        }
        self.eat_string()
    }

    /// Parses one directive.
    fn parse_directive(&mut self) -> (r: Result<SerdeAttribute<'a>, ParseError<'a>>)
        ensures
            final(self).parsed(
                old(self),
                r,
                |a: SerdeAttribute| a@,
                directive_at(old(self).kinds(), old(self).cursor as int),
            ),
    {
        let index = self.cursor;
        let name = match self.eat_ident() {
            Ok(name) => name,
            Err(e) => {
                return Err(e);
            },
        };
        if str_eq(name, "skip") {
            Ok(SerdeAttribute::Skip)
        } else if str_eq(name, "skip_serializing") {
            Ok(SerdeAttribute::SkipSerializing)
        } else if str_eq(name, "skip_deserializing") {
            Ok(SerdeAttribute::SkipDeserializing)
        } else if str_eq(name, "skip_serializing_if") {
            match self.parse_value() {
                Ok(cond) => Ok(SerdeAttribute::SkipSerializingIf(cond)),
                Err(e) => Err(e),
            }
        } else if str_eq(name, "skip_deserializing_if") {
            match self.parse_value() {
                Ok(cond) => Ok(SerdeAttribute::SkipDeserializingIf(cond)),
                Err(e) => Err(e),
            }
        } else if str_eq(name, "serialize_with") {
            match self.parse_value() {
                Ok(cond) => Ok(SerdeAttribute::SerializeWith(cond)),
                Err(e) => Err(e),
            }
        } else if str_eq(name, "deserialize_with") {
            match self.parse_value() {
                Ok(cond) => Ok(SerdeAttribute::DeserializeWith(cond)),
                Err(e) => Err(e),
            }
        } else if str_eq(name, "rename") {
            match self.parse_value() {
                Ok(cond) => Ok(SerdeAttribute::Rename(cond)),
                Err(e) => Err(e),
            }
        } else if str_eq(name, "default") {
            if self.peek(TokenType::Equals) {
                match self.parse_value() {
                    Ok(cond) => Ok(SerdeAttribute::Default(Some(cond))),
                    Err(e) => Err(e),
                }
            } else {
                Ok(SerdeAttribute::Default(None))
            }
        } else {
            Err(ParseError::UnknownDirective { index, name })
        }
    }

    /// Parses an optional block of directives, `#[serde(...)]`.
    fn parse_serde_attributes(&mut self) -> (r: Result<Vec<SerdeAttribute<'a>>, ParseError<'a>>)
        ensures
            final(self).parsed(
                old(self),
                r,
                |v: Vec<SerdeAttribute>| attribute_views(v@),
                attributes_at(old(self).kinds(), old(self).cursor as int),
            ),
    {
        let mut attrs: Vec<SerdeAttribute<'a>> = Vec::new();
        assert(attribute_views(attrs@) =~= Seq::<Attribute>::empty());
        if !self.eat(&TokenType::Hash) {
            return Ok(attrs);
        }
        match self.must_eat(TokenType::LBracket) {
            Ok(()) => {},
            Err(e) => {
                return Err(e);
            },
        }
        match self.must_eat(TokenType::Identifier("serde")) {
            Ok(()) => {},
            Err(e) => {
                return Err(e);
            },
        }
        match self.must_eat(TokenType::LParen) {
            Ok(()) => {},
            Err(e) => {
                return Err(e);
            },
        }
        let ghost tokens = self.kinds();
        let ghost start = self.cursor as int;
        proof {
            if let Ok((more, m)) = directives_at(tokens, start) {
                assert(Seq::<Attribute>::empty() + more =~= more);
            }
        }
        loop
            invariant
                self.tokens == old(self).tokens,
                self.types == old(self).types,
                tokens == self.kinds(),
                start == old(self).cursor + 4,
                start <= self.cursor,
                attributes_at(tokens, old(self).cursor as int) == match directives_at(
                    tokens,
                    start,
                ) {
                    Ok((found, n)) => Ok::<(Seq<Attribute>, nat), SyntaxError>((found, n + 4)),
                    Err(e) => Err(e),
                },
                directives_at(tokens, start) == continued(
                    attribute_views(attrs@),
                    (self.cursor - start) as nat,
                    directives_at(tokens, self.cursor as int),
                ),
            decreases tokens.len() - self.cursor,
        {
            let ghost at = self.cursor as int;
            let ghost done = attribute_views(attrs@);
            let attr = match self.parse_directive() {
                Ok(attr) => attr,
                Err(e) => {
                    return Err(e);
                },
            };
            let ghost n = (self.cursor - at) as nat;
            proof {
                assert(attribute_views(attrs@.push(attr)) =~= done.push(attr@));
                assert(done + seq![attr@] =~= done.push(attr@));
            }
            attrs.push(attr);
            if self.eat(&TokenType::RParen) {
                match self.must_eat(TokenType::RBracket) {
                    Ok(()) => {
                        return Ok(attrs);
                    },
                    Err(e) => {
                        return Err(e);
                    },
                }
            }
            match self.must_eat(TokenType::Comma) {
                Ok(()) => {},
                Err(e) => {
                    return Err(e);
                },
            }
            proof {
                lemma_continued_push(
                    done,
                    (at - start) as nat,
                    attr@,
                    n + 1,
                    directives_at(tokens, self.cursor as int),
                );
            }
        }
    }
}

} // verus!
