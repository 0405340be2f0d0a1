//! The grammar of declarations, stated over the kinds of the tokens.
//!
//! Each production is a function of the tokens and a position. It yields what
//! stands there together with the number of tokens it takes up, or the first
//! error.

use crate::lexer::TokenKind;
use crate::parser::{
    Attribute, Declaration, Definition, EnumDecl, Field, StructDecl, TypeExpr, Variant,
    VariantShape,
};
use vstd::prelude::*;

verus! {

/// What the parser was looking for when it stopped.
pub enum Wanted {
    /// This very token.
    Token(TokenKind),
    Identifier,
    String,
    /// The keyword `struct` or `enum`.
    StructOrEnum,
    /// A comma or a closing brace, after a field or a variant.
    Separator,
}

/// Why a token sequence is no sequence of declarations.
pub enum SyntaxError {
    /// The token at `index` is not what the grammar asks for there.
    UnexpectedToken { index: int, found: TokenKind, expected: Wanted },
    /// The tokens end where the grammar asks for more.
    UnexpectedEnd { expected: Wanted },
    /// The identifier at `index` names no known directive.
    UnknownDirective { index: int, name: Seq<char> },
}

/// A parsed value with the number of tokens it takes up, or an error.
pub type Parsed<T> = Result<(T, nat), SyntaxError>;

/// The token at a position, if there is one.
pub open spec fn kind_at(tokens: Seq<TokenKind>, pos: int) -> Option<TokenKind> {
    if 0 <= pos < tokens.len() {
        Some(tokens[pos])
    } else {
        None
    }
}

/// Whether the token at a position is `kind`.
pub open spec fn holds(tokens: Seq<TokenKind>, pos: int, kind: TokenKind) -> bool {
    kind_at(tokens, pos) == Some(kind)
}

/// The error for not finding `expected` at a position.
pub open spec fn miss(tokens: Seq<TokenKind>, pos: int, expected: Wanted) -> SyntaxError {
    match kind_at(tokens, pos) {
        Some(found) => SyntaxError::UnexpectedToken { index: pos, found, expected },
        None => SyntaxError::UnexpectedEnd { expected },
    }
}

/// `done`, which took up `used` tokens, in front of what follows.
pub open spec fn continued<T>(done: Seq<T>, used: nat, rest: Parsed<Seq<T>>) -> Parsed<Seq<T>> {
    match rest {
        Ok((more, n)) => Ok((done + more, used + n)),
        Err(e) => Err(e),
    }
}

/// Putting one more item in front of what follows is associative.
pub proof fn lemma_continued_push<T>(
    done: Seq<T>,
    used: nat,
    item: T,
    n: nat,
    rest: Parsed<Seq<T>>,
)
    ensures
        continued(done, used, continued(seq![item], n, rest)) == continued(
            done.push(item),
            used + n,
            rest,
        ),
{
    if let Ok((more, m)) = rest {
        assert(done + (seq![item] + more) =~= done.push(item) + more);
    }
}

/// A type expression:
///
/// ```text
/// type = "(" ")" | "(" type { "," type } ")" | "Vec" "<" type ">"
///      | "Option" "<" type ">" | "Array" "[" type "]" | identifier
/// ```
///
/// `bool` is the boolean type, `i8` to `i64` and `u8` to `u64` are the one
/// integer type, `f32` and `f64` the one float type, `String` the string
/// type; any other identifier names a user-defined type.
pub open spec fn type_at(tokens: Seq<TokenKind>, pos: int) -> Parsed<TypeExpr>
    decreases tokens.len() - pos, 0int,
{
    match kind_at(tokens, pos) {
        Some(TokenKind::LParen) => {
            if holds(tokens, pos + 1, TokenKind::RParen) {
                Ok((TypeExpr::Unit, 2))
            } else {
                match types_at(tokens, pos + 1, false) {
                    Ok((items, n)) => Ok((TypeExpr::Tuple(items), n + 1)),
                    Err(e) => Err(e),
                }
            }
        },
        Some(TokenKind::Identifier(name)) => {
            if name == "bool"@ {
                Ok((TypeExpr::Bool, 1))
            } else if name == "i8"@ || name == "i16"@ || name == "i32"@ || name == "i64"@ || name
                == "u8"@ || name == "u16"@ || name == "u32"@ || name == "u64"@ {
                Ok((TypeExpr::Int, 1))
            } else if name == "f32"@ || name == "f64"@ {
                Ok((TypeExpr::Float, 1))
            } else if name == "String"@ {
                Ok((TypeExpr::String, 1))
            } else if name == "Vec"@ {
                match bracketed_at(tokens, pos + 1, TokenKind::Langle, TokenKind::Rangle) {
                    Ok((inner, n)) => Ok((TypeExpr::Vec(Box::new(inner)), n + 1)),
                    Err(e) => Err(e),
                }
            } else if name == "Array"@ {
                match bracketed_at(tokens, pos + 1, TokenKind::LBracket, TokenKind::RBracket) {
                    Ok((inner, n)) => Ok((TypeExpr::Array(Box::new(inner)), n + 1)),
                    Err(e) => Err(e),
                }
            } else if name == "Option"@ {
                match bracketed_at(tokens, pos + 1, TokenKind::Langle, TokenKind::Rangle) {
                    Ok((inner, n)) => Ok((TypeExpr::Option(Box::new(inner)), n + 1)),
                    Err(e) => Err(e),
                }
            } else {
                Ok((TypeExpr::User(name), 1))
            }
        },
        _ => Err(miss(tokens, pos, Wanted::Identifier)),
    }
}

/// One type between the given brackets.
pub open spec fn bracketed_at(
    tokens: Seq<TokenKind>,
    pos: int,
    open: TokenKind,
    close: TokenKind,
) -> Parsed<TypeExpr>
    decreases tokens.len() - pos, 1int,
{
    if !holds(tokens, pos, open) {
        Err(miss(tokens, pos, Wanted::Token(open)))
    } else {
        match type_at(tokens, pos + 1) {
            Ok((inner, n)) => {
                if holds(tokens, pos + 1 + n, close) {
                    Ok((inner, n + 2))
                } else {
                    Err(miss(tokens, pos + 1 + n, Wanted::Token(close)))
                }
            },
            Err(e) => Err(e),
        }
    }
}

/// The types of a list that ends with `)`, the `)` included: at least one
/// type, with a comma between each two. A comma before the `)` is accepted
/// where `trailing` says so.
pub open spec fn types_at(tokens: Seq<TokenKind>, pos: int, trailing: bool) -> Parsed<
    Seq<TypeExpr>,
>
    decreases tokens.len() - pos, 1int,
{
    match type_at(tokens, pos) {
        Ok((item, n)) => {
            let next = pos + n;
            if holds(tokens, next, TokenKind::RParen) {
                Ok((seq![item], n + 1))
            } else if !holds(tokens, next, TokenKind::Comma) {
                Err(miss(tokens, next, Wanted::Token(TokenKind::Comma)))
            } else if trailing && holds(tokens, next + 1, TokenKind::RParen) {
                Ok((seq![item], n + 2))
            } else {
                continued(seq![item], n + 1, types_at(tokens, next + 1, trailing))
            }
        },
        Err(e) => Err(e),
    }
}

/// `= "text"`: the value of a directive.
pub open spec fn value_at(tokens: Seq<TokenKind>, pos: int) -> Result<Seq<char>, SyntaxError> {
    if !holds(tokens, pos, TokenKind::Equals) {
        Err(miss(tokens, pos, Wanted::Token(TokenKind::Equals)))
    } else {
        match kind_at(tokens, pos + 1) {
            Some(TokenKind::String(text)) => Ok(text),
            _ => Err(miss(tokens, pos + 1, Wanted::String)),
        }
    }
}

/// A directive with a value.
pub open spec fn valued_at(
    tokens: Seq<TokenKind>,
    pos: int,
    make: spec_fn(Seq<char>) -> Attribute,
) -> Parsed<Attribute> {
    match value_at(tokens, pos + 1) {
        Ok(text) => Ok((make(text), 3)),
        Err(e) => Err(e),
    }
}

/// One directive: `skip`, `skip_serializing` and `skip_deserializing` stand
/// alone; `skip_serializing_if`, `skip_deserializing_if`, `serialize_with`,
/// `deserialize_with` and `rename` are followed by a value; `default` may be.
/// Any other identifier is an unknown directive.
pub open spec fn directive_at(tokens: Seq<TokenKind>, pos: int) -> Parsed<Attribute> {
    match kind_at(tokens, pos) {
        Some(TokenKind::Identifier(name)) => {
            if name == "skip"@ {
                Ok((Attribute::Skip, 1))
            } else if name == "skip_serializing"@ {
                Ok((Attribute::SkipSerializing, 1))
            } else if name == "skip_deserializing"@ {
                Ok((Attribute::SkipDeserializing, 1))
            } else if name == "skip_serializing_if"@ {
                valued_at(tokens, pos, |text: Seq<char>| Attribute::SkipSerializingIf(text))
            } else if name == "skip_deserializing_if"@ {
                valued_at(tokens, pos, |text: Seq<char>| Attribute::SkipDeserializingIf(text))
            } else if name == "serialize_with"@ {
                valued_at(tokens, pos, |text: Seq<char>| Attribute::SerializeWith(text))
            } else if name == "deserialize_with"@ {
                valued_at(tokens, pos, |text: Seq<char>| Attribute::DeserializeWith(text))
            } else if name == "rename"@ {
                valued_at(tokens, pos, |text: Seq<char>| Attribute::Rename(text))
            } else if name == "default"@ {
                if holds(tokens, pos + 1, TokenKind::Equals) {
                    valued_at(tokens, pos, |text: Seq<char>| Attribute::Default(Some(text)))
                } else {
                    Ok((Attribute::Default(None), 1))
                }
            } else {
                Err(SyntaxError::UnknownDirective { index: pos, name })
            }
        },
        _ => Err(miss(tokens, pos, Wanted::Identifier)),
    }
}

/// The directives of a block, from the first one through `)` and `]`: at
/// least one, with a comma between each two.
pub open spec fn directives_at(tokens: Seq<TokenKind>, pos: int) -> Parsed<Seq<Attribute>>
    decreases tokens.len() - pos,
{
    match directive_at(tokens, pos) {
        Ok((attr, n)) => {
            let next = pos + n;
            if holds(tokens, next, TokenKind::RParen) {
                if holds(tokens, next + 1, TokenKind::RBracket) {
                    Ok((seq![attr], n + 2))
                } else {
                    Err(miss(tokens, next + 1, Wanted::Token(TokenKind::RBracket)))
                }
            } else if !holds(tokens, next, TokenKind::Comma) {
                Err(miss(tokens, next, Wanted::Token(TokenKind::Comma)))
            } else {
                continued(seq![attr], n + 1, directives_at(tokens, next + 1))
            }
        },
        Err(e) => Err(e),
    }
}

/// An optional block of directives: nothing, or `#[serde(` directives `)]`.
pub open spec fn attributes_at(tokens: Seq<TokenKind>, pos: int) -> Parsed<Seq<Attribute>> {
    if !holds(tokens, pos, TokenKind::Hash) {
        Ok((Seq::empty(), 0))
    } else if !holds(tokens, pos + 1, TokenKind::LBracket) {
        Err(miss(tokens, pos + 1, Wanted::Token(TokenKind::LBracket)))
    } else if !holds(tokens, pos + 2, TokenKind::Identifier("serde"@)) {
        Err(miss(tokens, pos + 2, Wanted::Token(TokenKind::Identifier("serde"@))))
    } else if !holds(tokens, pos + 3, TokenKind::LParen) {
        Err(miss(tokens, pos + 3, Wanted::Token(TokenKind::LParen)))
    } else {
        match directives_at(tokens, pos + 4) {
            Ok((attrs, n)) => Ok((attrs, n + 4)),
            Err(e) => Err(e),
        }
    }
}

/// A field: its directives, an optional `pub`, its name, `:` and its type.
#[verifier::opaque]
pub open spec fn field_at(tokens: Seq<TokenKind>, pos: int) -> Parsed<Field> {
    match attributes_at(tokens, pos) {
        Ok((attrs, n)) => {
            let visibility: nat = if holds(tokens, pos + n, TokenKind::Pub) {
                1
            } else {
                0
            };
            let at = pos + n + visibility;
            match kind_at(tokens, at) {
                Some(TokenKind::Identifier(name)) => {
                    if !holds(tokens, at + 1, TokenKind::Colon) {
                        Err(miss(tokens, at + 1, Wanted::Token(TokenKind::Colon)))
                    } else {
                        match type_at(tokens, at + 2) {
                            Ok((ty, m)) => Ok((Field { attrs, name, ty }, n + visibility + 2 + m)),
                            Err(e) => Err(e),
                        }
                    }
                },
                _ => Err(miss(tokens, at, Wanted::Identifier)),
            }
        },
        Err(e) => Err(e),
    }
}

/// The fields of a body that ends with `}`, the `}` included: at least one
/// field, with a comma between each two, and an optional comma before the
/// `}`.
pub open spec fn fields_at(tokens: Seq<TokenKind>, pos: int) -> Parsed<Seq<Field>>
    decreases tokens.len() - pos,
{
    match field_at(tokens, pos) {
        Ok((field, n)) => {
            let next = pos + n;
            if holds(tokens, next, TokenKind::RBrace) {
                Ok((seq![field], n + 1))
            } else if !holds(tokens, next, TokenKind::Comma) {
                Err(miss(tokens, next, Wanted::Separator))
            } else if holds(tokens, next + 1, TokenKind::RBrace) {
                Ok((seq![field], n + 2))
            } else {
                continued(seq![field], n + 1, fields_at(tokens, next + 1))
            }
        },
        Err(e) => Err(e),
    }
}

/// An enum variant: its directives and its name, then nothing, or `(` and a
/// list of types in which a comma before the `)` is accepted, or `{` and
/// fields.
#[verifier::opaque]
pub open spec fn variant_at(tokens: Seq<TokenKind>, pos: int) -> Parsed<Variant> {
    match attributes_at(tokens, pos) {
        Ok((attrs, n)) => {
            let at = pos + n;
            match kind_at(tokens, at) {
                Some(TokenKind::Identifier(name)) => {
                    if holds(tokens, at + 1, TokenKind::LParen) {
                        match types_at(tokens, at + 2, true) {
                            Ok((types, m)) => Ok(
                                (
                                    Variant { attrs, name, inner: VariantShape::Tuple(types) },
                                    n + 2 + m,
                                ),
                            ),
                            Err(e) => Err(e),
                        }
                    } else if holds(tokens, at + 1, TokenKind::LBrace) {
                        match fields_at(tokens, at + 2) {
                            Ok((fields, m)) => Ok(
                                (
                                    Variant {
                                        attrs,
                                        name,
                                        inner: VariantShape::Struct(StructDecl { fields }),
                                    },
                                    n + 2 + m,
                                ),
                            ),
                            Err(e) => Err(e),
                        }
                    } else {
                        Ok((Variant { attrs, name, inner: VariantShape::Unit }, n + 1))
                    }
                },
                _ => Err(miss(tokens, at, Wanted::Identifier)),
            }
        },
        Err(e) => Err(e),
    }
}

/// The variants of a body that ends with `}`, the `}` included: at least one
/// variant, with a comma between each two, and an optional comma before the
/// `}`.
pub open spec fn variants_at(tokens: Seq<TokenKind>, pos: int) -> Parsed<Seq<Variant>>
    decreases tokens.len() - pos,
{
    match variant_at(tokens, pos) {
        Ok((variant, n)) => {
            let next = pos + n;
            if holds(tokens, next, TokenKind::RBrace) {
                Ok((seq![variant], n + 1))
            } else if !holds(tokens, next, TokenKind::Comma) {
                Err(miss(tokens, next, Wanted::Separator))
            } else if holds(tokens, next + 1, TokenKind::RBrace) {
                Ok((seq![variant], n + 2))
            } else {
                continued(seq![variant], n + 1, variants_at(tokens, next + 1))
            }
        },
        Err(e) => Err(e),
    }
}

/// The name of a declaration and the `{` that opens its body.
pub open spec fn opening_at(tokens: Seq<TokenKind>, pos: int) -> Result<Seq<char>, SyntaxError> {
    match kind_at(tokens, pos) {
        Some(TokenKind::Identifier(name)) => {
            if holds(tokens, pos + 1, TokenKind::LBrace) {
                Ok(name)
            } else {
                Err(miss(tokens, pos + 1, Wanted::Token(TokenKind::LBrace)))
            }
        },
        _ => Err(miss(tokens, pos, Wanted::Identifier)),
    }
}

/// A struct after its keyword: name, `{`, fields, `}`.
pub open spec fn struct_at(tokens: Seq<TokenKind>, pos: int) -> Parsed<Declaration> {
    match opening_at(tokens, pos) {
        Ok(name) => match fields_at(tokens, pos + 2) {
            Ok((fields, n)) => Ok(
                (Declaration { name, inner: Definition::Struct(StructDecl { fields }) }, n + 2),
            ),
            Err(e) => Err(e),
        },
        Err(e) => Err(e),
    }
}

/// An enum after its keyword: name, `{`, variants, `}`.
pub open spec fn enum_at(tokens: Seq<TokenKind>, pos: int) -> Parsed<Declaration> {
    match opening_at(tokens, pos) {
        Ok(name) => match variants_at(tokens, pos + 2) {
            Ok((variants, n)) => Ok(
                (Declaration { name, inner: Definition::Enum(EnumDecl { variants }) }, n + 2),
            ),
            Err(e) => Err(e),
        },
        Err(e) => Err(e),
    }
}

/// A declaration: an optional block of directives, which is checked and then
/// dropped, the keyword `struct` or `enum`, and the struct or enum.
#[verifier::opaque]
pub open spec fn declaration_at(tokens: Seq<TokenKind>, pos: int) -> Parsed<Declaration> {
    match attributes_at(tokens, pos) {
        Ok((_, n)) => {
            let at = pos + n;
            let body = if holds(tokens, at, TokenKind::Struct) {
                struct_at(tokens, at + 1)
            } else if holds(tokens, at, TokenKind::Enum) {
                enum_at(tokens, at + 1)
            } else {
                Err(miss(tokens, at, Wanted::StructOrEnum))
            };
            match body {
                Ok((decl, m)) => Ok((decl, n + 1 + m)),
                Err(e) => Err(e),
            }
        },
        Err(e) => Err(e),
    }
}

/// Whether what was parsed at `pos` lies within the tokens.
pub open spec fn within<T>(tokens: Seq<TokenKind>, pos: int, parsed: Parsed<T>) -> bool {
    parsed matches Ok((_, n)) ==> n > 0 && pos + n <= tokens.len()
}

/// A type takes up at least one token and ends within the tokens; so does a
/// list of types.
pub proof fn lemma_type_within(tokens: Seq<TokenKind>, pos: int, trailing: bool)
    ensures
        within(tokens, pos, type_at(tokens, pos)),
        within(tokens, pos, types_at(tokens, pos, trailing)),
    decreases tokens.len() - pos,
{
    if holds(tokens, pos, TokenKind::LParen) {
        lemma_type_within(tokens, pos + 1, false);
    }
    if let Ok((item, n)) = type_at(tokens, pos) {
        if holds(tokens, pos + n, TokenKind::Comma) {
            lemma_type_within(tokens, pos + n + 1, trailing);
        }
    }
}

/// A field ends within the tokens.
pub proof fn lemma_field_within(tokens: Seq<TokenKind>, pos: int)
    ensures
        within(tokens, pos, field_at(tokens, pos)),
{
    reveal(field_at);
    if let Ok((attrs, n)) = attributes_at(tokens, pos) {
        lemma_type_within(tokens, pos + n + 3, false);
    }
}

/// A list of fields ends within the tokens.
pub proof fn lemma_fields_within(tokens: Seq<TokenKind>, pos: int)
    ensures
        within(tokens, pos, fields_at(tokens, pos)),
    decreases tokens.len() - pos,
{
    if let Ok((field, n)) = field_at(tokens, pos) {
        if holds(tokens, pos + n, TokenKind::Comma) {
            lemma_fields_within(tokens, pos + n + 1);
        }
    }
}

/// A variant ends within the tokens.
pub proof fn lemma_variant_within(tokens: Seq<TokenKind>, pos: int)
    ensures
        within(tokens, pos, variant_at(tokens, pos)),
{
    reveal(variant_at);
    if let Ok((attrs, n)) = attributes_at(tokens, pos) {
        lemma_type_within(tokens, pos + n + 2, true);
        lemma_fields_within(tokens, pos + n + 2);
    }
}

/// A list of variants ends within the tokens.
pub proof fn lemma_variants_within(tokens: Seq<TokenKind>, pos: int)
    ensures
        within(tokens, pos, variants_at(tokens, pos)),
    decreases tokens.len() - pos,
{
    if let Ok((variant, n)) = variant_at(tokens, pos) {
        if holds(tokens, pos + n, TokenKind::Comma) {
            lemma_variants_within(tokens, pos + n + 1);
        }
    }
}

/// A declaration takes up at least one token and ends within the tokens.
pub proof fn lemma_declaration_within(tokens: Seq<TokenKind>, pos: int)
    ensures
        within(tokens, pos, declaration_at(tokens, pos)),
{
    reveal(declaration_at);
    if let Ok((attrs, n)) = attributes_at(tokens, pos) {
        lemma_fields_within(tokens, pos + n + 3);
        lemma_variants_within(tokens, pos + n + 3);
    }
}

/// The declarations from a position to the end of the tokens.
pub open spec fn declarations_at(tokens: Seq<TokenKind>, pos: int) -> Result<
    Seq<Declaration>,
    SyntaxError,
>
    decreases tokens.len() - pos,
{
    if pos >= tokens.len() {
        Ok(Seq::empty())
    } else {
        proof {
            lemma_declaration_within(tokens, pos);
        }
        match declaration_at(tokens, pos) {
            Ok((decl, n)) => match declarations_at(tokens, pos + n) {
                Ok(more) => Ok(seq![decl] + more),
                Err(e) => Err(e),
            },
            Err(e) => Err(e),
        }
    }
}

} // verus!
