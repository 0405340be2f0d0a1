//! The generated text: what the code generator writes for each declaration.
//!
//! Every function here is a specification over the views of the parsed
//! declarations. A text that cannot be written (a field with a bare
//! `default` directive and a user-defined type) is an `Err` that names the
//! field.

use crate::grammar::{bracketed_at, holds, type_at, SyntaxError};
use crate::lexer::TokenKind;
use crate::parser::{
    Attribute, Declaration, Definition, EnumDecl, Field, StructDecl, TypeExpr, Variant,
    VariantShape,
};
use crate::text::{decimal_text, joined, lines_of};
use vstd::prelude::*;

verus! {

/// A text, or the name of the field that has no text.
pub type Written = Result<Seq<char>, Seq<char>>;

/// `first`, and `second` after it; the first failure where there is one.
pub open spec fn then(first: Written, second: Written) -> Written {
    match first {
        Err(field) => Err(field),
        Ok(a) => match second {
            Err(field) => Err(field),
            Ok(b) => Ok(a + b),
        },
    }
}

/// The texts of the items one after the other; the first failure where there
/// is one.
pub open spec fn sequence_text<T>(items: Seq<T>, text: spec_fn(T) -> Written) -> Written
    decreases items.len(),
{
    if items.len() == 0 {
        Ok(Seq::empty())
    } else {
        then(sequence_text(items.drop_last(), text), text(items.last()))
    }
}

/// The text of the first `i + 1` items is that of the first `i`, then that of
/// item `i`.
pub proof fn lemma_sequence_text_step<T>(items: Seq<T>, text: spec_fn(T) -> Written, i: int)
    requires
        0 <= i < items.len(),
    ensures
        sequence_text(items.take(i + 1), text) == then(
            sequence_text(items.take(i), text),
            text(items[i]),
        ),
{
    assert(items.take(i + 1).drop_last() =~= items.take(i));
}

/// A failure among the first `i` items is the failure of the whole sequence.
pub proof fn lemma_sequence_text_failure<T>(items: Seq<T>, text: spec_fn(T) -> Written, i: int)
    requires
        0 <= i <= items.len(),
        sequence_text(items.take(i), text) is Err,
    ensures
        sequence_text(items, text) == sequence_text(items.take(i), text),
    decreases items.len() - i,
{
    if i < items.len() {
        lemma_sequence_text_step(items, text, i);
        lemma_sequence_text_failure(items, text, i + 1);
    } else {
        assert(items.take(i) =~= items);
    }
}

/// Four spaces for each level.
pub open spec fn spaces(level: nat) -> Seq<char>
    decreases level,
{
    if level == 0 {
        Seq::empty()
    } else {
        spaces((level - 1) as nat) + "    "@
    }
}

/// The lines of a text, each but the first indented by `level` levels; a
/// final line ending is dropped.
pub open spec fn indented(text: Seq<char>, level: nat) -> Seq<char> {
    joined(lines_of(text), "\n"@ + spaces(level))
}

/// A name that is no reserved word of the target language: `type` and `None`
/// get an underscore appended.
pub open spec fn safe_name(name: Seq<char>) -> Seq<char> {
    if name == "type"@ {
        "type_"@
    } else if name == "None"@ {
        "None_"@
    } else {
        name
    }
}

/// The spellings of a sequence of types.
pub open spec fn type_texts(types: Seq<TypeExpr>) -> Seq<Seq<char>>
    decreases types, 0int,
{
    Seq::new(
        types.len(),
        |i: int|
            if 0 <= i < types.len() {
                type_text(types[i])
            } else {
                Seq::empty()
            },
    )
}

/// How a type is spelled in the target language.
pub open spec fn type_text(t: TypeExpr) -> Seq<char>
    decreases t, 1int,
{
    match t {
        TypeExpr::String => "str"@,
        TypeExpr::Int => "int"@,
        TypeExpr::Bool => "bool"@,
        TypeExpr::Unit => "None"@,
        TypeExpr::Float => "float"@,
        TypeExpr::Tuple(items) => "tuple["@ + joined(type_texts(items), ", "@) + "]"@,
        TypeExpr::Vec(inner) => "list["@ + type_text(*inner) + "]"@,
        TypeExpr::Array(inner) => "list["@ + type_text(*inner) + "]"@,
        TypeExpr::User(name) => name,
        TypeExpr::Option(inner) => type_text(*inner) + " | None"@,
    }
}

/// The value of the first `default` directive, if there is one.
pub open spec fn first_default(attrs: Seq<Attribute>) -> Option<Option<Seq<char>>>
    decreases attrs.len(),
{
    if attrs.len() == 0 {
        None
    } else {
        match attrs[0] {
            Attribute::Default(value) => Some(value),
            _ => first_default(attrs.drop_first()),
        }
    }
}

/// Whether a field has a `default` directive.
#[verifier::opaque]
pub open spec fn carries_default(field: Field) -> bool {
    first_default(field.attrs) is Some
}

/// The default value of a type, for a `default` directive without a value.
/// A user-defined type has none.
pub open spec fn synthesized_default(t: TypeExpr) -> Option<Seq<char>> {
    match t {
        TypeExpr::String => Some("\"\""@),
        TypeExpr::Int => Some("0"@),
        TypeExpr::Bool => Some("False"@),
        TypeExpr::Unit => Some("None"@),
        TypeExpr::Float => Some("0.0"@),
        TypeExpr::Tuple(_) => Some("()"@),
        TypeExpr::Vec(_) => Some("[]"@),
        TypeExpr::Array(_) => Some("[]"@),
        TypeExpr::Option(_) => Some("None"@),
        TypeExpr::User(_) => None,
    }
}

/// The declaration of one field: name and type, and the default value where
/// the field has a `default` directive. The first such directive decides.
pub open spec fn field_text(field: Field) -> Written {
    let head = "    "@ + field.name + ": "@ + type_text(field.ty);
    match first_default(field.attrs) {
        None => Ok(head + "\n"@),
        Some(Some(value)) => Ok(head + " = "@ + value + "\n"@),
        Some(None) => match synthesized_default(field.ty) {
            Some(value) => Ok(head + " = "@ + value + "\n"@),
            None => Err(field.name),
        },
    }
}

/// `field_text` as a function value.
pub open spec fn field_writer() -> spec_fn(Field) -> Written {
    |field: Field| field_text(field)
}

/// The declarations of a sequence of fields, in that order.
pub open spec fn fields_text(fields: Seq<Field>) -> Written {
    sequence_text(fields, field_writer())
}

/// `carries_default` as a function value.
pub open spec fn with_default() -> spec_fn(Field) -> bool {
    |field: Field| carries_default(field)
}

/// The opposite of `carries_default`, as a function value.
pub open spec fn without_default() -> spec_fn(Field) -> bool {
    |field: Field| !carries_default(field)
}

/// The order in which the fields of a struct are declared: those without a
/// `default` directive first, then those with one, each group in source
/// order.
#[verifier::opaque]
pub open spec fn ordered_fields(fields: Seq<Field>) -> Seq<Field> {
    fields.filter(without_default()) + fields.filter(with_default())
}

/// The five tables of the support block.
#[derive(Debug, Clone, Copy, PartialEq, Eq)]
pub enum Table {
    SkipSerializing,
    SkipSerializingIf,
    SkipDeserializing,
    SkipDeserializingIf,
    Rename,
}

/// The name of a table in the generated text.
pub open spec fn table_title(table: Table) -> Seq<char> {
    match table {
        Table::SkipSerializing => "SKIP_SERIALIZING"@,
        Table::SkipSerializingIf => "SKIP_SERIALIZING_IF"@,
        Table::SkipDeserializing => "SKIP_DESERIALIZING"@,
        Table::SkipDeserializingIf => "SKIP_DESERIALIZING_IF"@,
        Table::Rename => "RENAME"@,
    }
}

/// What a directive enters into a table: nothing (`None`), or a text, which
/// is empty for the directives without a value.
pub open spec fn directive_value(attr: Attribute, table: Table) -> Option<Seq<char>> {
    match (table, attr) {
        (Table::SkipSerializing, Attribute::Skip) => Some(Seq::empty()),
        (Table::SkipSerializing, Attribute::SkipSerializing) => Some(Seq::empty()),
        (Table::SkipSerializingIf, Attribute::SkipSerializingIf(expr)) => Some(expr),
        (Table::SkipDeserializing, Attribute::Skip) => Some(Seq::empty()),
        (Table::SkipDeserializing, Attribute::SkipDeserializing) => Some(Seq::empty()),
        (Table::SkipDeserializingIf, Attribute::SkipDeserializingIf(expr)) => Some(expr),
        (Table::Rename, Attribute::Rename(name)) => Some(name),
        _ => None,
    }
}

/// The value of the first directive that enters something into the table.
pub open spec fn first_value(attrs: Seq<Attribute>, table: Table) -> Option<Seq<char>>
    decreases attrs.len(),
{
    if attrs.len() == 0 {
        None
    } else {
        match directive_value(attrs[0], table) {
            Some(value) => Some(value),
            None => first_value(attrs.drop_first(), table),
        }
    }
}

/// The line of a table for a field with the given value.
pub open spec fn entry_text(name: Seq<char>, value: Seq<char>, table: Table) -> Seq<char> {
    match table {
        Table::SkipSerializing => "\""@ + name + "\","@,
        Table::SkipDeserializing => "\""@ + name + "\","@,
        Table::SkipSerializingIf => "\""@ + name + "\": "@ + value + ","@,
        Table::SkipDeserializingIf => "\""@ + name + "\": "@ + value + ","@,
        Table::Rename => "\""@ + name + "\": \""@ + value + "\","@,
    }
}

/// The line that a field has in a table, if it has one.
pub open spec fn table_entry(field: Field, table: Table) -> Option<Seq<char>> {
    match first_value(field.attrs, table) {
        Some(value) => Some(entry_text(field.name, value, table)),
        None => None,
    }
}

/// `table_entry` for one table, as a function value.
pub open spec fn entry_of(table: Table) -> spec_fn(Field) -> Option<Seq<char>> {
    |field: Field| table_entry(field, table)
}

/// The lines of a table: one for each field that has one, in source order.
pub open spec fn table_entries(fields: Seq<Field>, table: Table) -> Seq<Seq<char>> {
    fields.filter_map(entry_of(table))
}

/// The text of a table: nothing where no field has a line in it; else its
/// title, ` = {`, its lines and `}`, indented by one level from the second
/// line on. The lines of the table of conditions for reading are indented
/// once more.
pub open spec fn table_text(decl: StructDecl, table: Table) -> Seq<char> {
    let entries = table_entries(decl.fields, table);
    if entries.len() == 0 {
        Seq::empty()
    } else {
        let lines = joined(entries, "\n"@);
        let body = if table == Table::SkipDeserializingIf {
            indented(lines, 1)
        } else {
            lines
        };
        indented(table_title(table) + " = {\n    "@ + body + "\n}\n"@, 1)
    }
}

/// The support block of a struct: its tables one directly after the other,
/// then a line feed.
pub open spec fn support_text(decl: StructDecl) -> Seq<char> {
    table_text(decl, Table::SkipSerializing)
        + table_text(decl, Table::SkipSerializingIf)
        + table_text(decl, Table::SkipDeserializing)
        + table_text(decl, Table::SkipDeserializingIf)
        + table_text(decl, Table::Rename)
        + "\n"@
}

/// The body of a record: the support block of the struct, then the
/// declarations of the given fields.
pub open spec fn body_text(decl: StructDecl, fields: Seq<Field>) -> Written {
    then(Ok("    "@ + support_text(decl) + "\n"@), fields_text(fields))
}

/// The record for a struct under the given name: the support block, then the
/// fields in the order of `ordered_fields`.
pub open spec fn struct_text(name: Seq<char>, decl: StructDecl) -> Written {
    then(
        Ok("@dataclass\n"@ + "class "@ + name + ":\n"@),
        body_text(decl, ordered_fields(decl.fields)),
    )
}

/// The components of a tuple-shaped variant, named by their position.
pub open spec fn components_text(types: Seq<TypeExpr>) -> Seq<char>
    decreases types.len(),
{
    if types.len() == 0 {
        Seq::empty()
    } else {
        components_text(types.drop_last()) + "    _"@ + decimal_text((types.len() - 1) as nat)
            + ": "@ + type_text(types.last()) + "\n"@
    }
}

/// The record for a unit variant: it is named by the sanitized name of the
/// variant and tagged with the name as declared.
pub open spec fn unit_variant_text(name: Seq<char>) -> Seq<char> {
    "@dataclass\n"@ + "class "@ + safe_name(name) + ":\n"@
        + "    ENUM_DATA = (ENUM_VARIANT_UNIT, \""@ + name + "\")\n\n"@
}

/// The record for a tuple-shaped variant: it is named by the sanitized name
/// of the variant and tagged with the name as declared; its components are
/// named by their position.
pub open spec fn tuple_variant_text(name: Seq<char>, types: Seq<TypeExpr>) -> Seq<char> {
    "@dataclass\n"@ + "class "@ + safe_name(name) + "(TupleVariant):\n"@
        + "    ENUM_DATA = (ENUM_VARIANT_TUPLE, \""@ + name + "\")\n\n"@ + components_text(types)
        + "\n"@
}

/// The first lines of the record for a struct-shaped variant: it is named by
/// the sanitized name of the variant and tagged with the name as declared.
pub open spec fn struct_variant_head(name: Seq<char>) -> Seq<char> {
    "@dataclass\n"@ + "class "@ + safe_name(name) + ":\n"@
        + "    ENUM_DATA = (ENUM_VARIANT_STRUCT, \""@ + name + "\")\n"@
}

/// The record for a struct-shaped variant: its first lines, then the body as
/// that of a struct, the fields in the order of `ordered_fields`, then a line
/// feed.
pub open spec fn struct_variant_text(name: Seq<char>, decl: StructDecl) -> Written {
    then(
        then(Ok(struct_variant_head(name)), body_text(decl, ordered_fields(decl.fields))),
        Ok("\n"@),
    )
}

/// The record for one enum variant.
pub open spec fn variant_text(variant: Variant) -> Written {
    match variant.inner {
        VariantShape::Unit => Ok(unit_variant_text(variant.name)),
        VariantShape::Tuple(types) => Ok(tuple_variant_text(variant.name, types)),
        VariantShape::Struct(decl) => struct_variant_text(variant.name, decl),
    }
}

/// `variant_text` as a function value.
pub open spec fn variant_writer() -> spec_fn(Variant) -> Written {
    |variant: Variant| variant_text(variant)
}

/// The records of a sequence of variants, in that order.
pub open spec fn variants_text(variants: Seq<Variant>) -> Written {
    sequence_text(variants, variant_writer())
}

/// The sanitized name of a variant, as a function value.
pub open spec fn safe_variant_name() -> spec_fn(Variant) -> Seq<char> {
    |variant: Variant| safe_name(variant.name)
}

/// The names of the variants as the alias of their enum lists them.
pub open spec fn alias_names(variants: Seq<Variant>) -> Seq<Seq<char>> {
    variants.map_values(safe_variant_name())
}

/// The alias that binds the name of an enum to the union of its variants.
pub open spec fn alias_text(name: Seq<char>, variants: Seq<Variant>) -> Seq<char> {
    name + " = "@ + joined(alias_names(variants), " | "@) + "\n"@
}

/// The records of the variants of an enum, then its alias.
pub open spec fn enum_text(name: Seq<char>, decl: EnumDecl) -> Written {
    then(variants_text(decl.variants), Ok(alias_text(name, decl.variants)))
}

/// The text for one declaration, followed by two line feeds.
pub open spec fn declaration_text(decl: Declaration) -> Written {
    let name = safe_name(decl.name);
    then(
        match decl.inner {
            Definition::Struct(s) => struct_text(name, s),
            Definition::Enum(e) => enum_text(name, e),
        },
        Ok("\n\n"@),
    )
}

/// `declaration_text` as a function value.
pub open spec fn declaration_writer() -> spec_fn(Declaration) -> Written {
    |decl: Declaration| declaration_text(decl)
}

/// The texts of a sequence of declarations, in that order.
pub open spec fn declarations_text(decls: Seq<Declaration>) -> Written {
    sequence_text(decls, declaration_writer())
}

/// The first lines of every generated text.
pub open spec fn header_text() -> Seq<char> {
    "# Generated code\n\n"@ + "from lib.marshal import TupleVariant, dataclass, asdict\n\n"@
}

/// The whole generated text.
pub open spec fn document_text(decls: Seq<Declaration>) -> Written {
    then(Ok(header_text()), declarations_text(decls))
}

/// Filtering a sequence whose items all pass keeps it; one whose items all
/// fail is left empty.
pub proof fn lemma_filter_all<T>(items: Seq<T>, keep: spec_fn(T) -> bool)
    ensures
        (forall|i: int| 0 <= i < items.len() ==> keep(#[trigger] items[i])) ==> items.filter(keep)
            == items,
        (forall|i: int| 0 <= i < items.len() ==> !keep(#[trigger] items[i])) ==> items.filter(
            keep,
        ).len() == 0,
    decreases items.len(),
{
    reveal(Seq::filter);
    if items.len() > 0 {
        let front = items.drop_last();
        lemma_filter_all(front, keep);
        if forall|i: int| 0 <= i < items.len() ==> keep(#[trigger] items[i]) {
            assert forall|i: int| 0 <= i < front.len() implies keep(#[trigger] front[i]) by {
                assert(front[i] == items[i]);
            }
            assert(front.push(items.last()) =~= items);
        }
        if forall|i: int| 0 <= i < items.len() ==> !keep(#[trigger] items[i]) {
            assert forall|i: int| 0 <= i < front.len() implies !keep(#[trigger] front[i]) by {
                assert(front[i] == items[i]);
            }
        }
    }
}

/// What passes a filter and what passes its opposite make up the sequence.
pub proof fn lemma_filter_lengths<T>(
    items: Seq<T>,
    keep: spec_fn(T) -> bool,
    drop: spec_fn(T) -> bool,
)
    requires
        forall|item: T| #![trigger drop(item)] #![trigger keep(item)] drop(item) == !keep(item),
    ensures
        items.filter(keep).len() + items.filter(drop).len() == items.len(),
    decreases items.len(),
{
    reveal(Seq::filter);
    if items.len() > 0 {
        lemma_filter_lengths(items.drop_last(), keep, drop);
    }
}

/// Every item of a filtered sequence passes the filter.
pub proof fn lemma_filter_members<T>(items: Seq<T>, keep: spec_fn(T) -> bool)
    ensures
        forall|i: int| 0 <= i < items.filter(keep).len() ==> keep(#[trigger] items.filter(keep)[i]),
{
    assert forall|i: int| 0 <= i < items.filter(keep).len() implies keep(
        #[trigger] items.filter(keep)[i],
    ) by {
        items.lemma_filter_pred(keep, i);
    }
}

/// In a sequence of failing items followed by passing items, no passing item
/// stands before a failing one.
pub proof fn lemma_partition_order<T>(
    failing: Seq<T>,
    passing: Seq<T>,
    keep: spec_fn(T) -> bool,
    i: int,
    j: int,
)
    requires
        forall|k: int| 0 <= k < failing.len() ==> !keep(#[trigger] failing[k]),
        forall|k: int| 0 <= k < passing.len() ==> keep(#[trigger] passing[k]),
        0 <= i < j < failing.len() + passing.len(),
        keep((failing + passing)[i]),
    ensures
        keep((failing + passing)[j]),
{
    if i < failing.len() {
        assert(!keep(failing[i]));
    }
    assert(keep(passing[j - failing.len()]));
}

/// Filtering a sequence of failing items followed by passing items leaves
/// the passing ones.
pub proof fn lemma_partition_keeps<T>(failing: Seq<T>, passing: Seq<T>, keep: spec_fn(T) -> bool)
    requires
        forall|k: int| 0 <= k < failing.len() ==> !keep(#[trigger] failing[k]),
        forall|k: int| 0 <= k < passing.len() ==> keep(#[trigger] passing[k]),
    ensures
        (failing + passing).filter(keep) == passing,
{
    Seq::filter_distributes_over_add(failing, passing, keep);
    lemma_filter_all(failing, keep);
    lemma_filter_all(passing, keep);
    assert(failing.filter(keep) + passing =~= passing);
}

/// Filtering a sequence of failing items followed by passing items for the
/// failing ones leaves those.
pub proof fn lemma_partition_drops<T>(failing: Seq<T>, passing: Seq<T>, drop: spec_fn(T) -> bool)
    requires
        forall|k: int| 0 <= k < failing.len() ==> drop(#[trigger] failing[k]),
        forall|k: int| 0 <= k < passing.len() ==> !drop(#[trigger] passing[k]),
    ensures
        (failing + passing).filter(drop) == failing,
{
    Seq::filter_distributes_over_add(failing, passing, drop);
    lemma_filter_all(failing, drop);
    lemma_filter_all(passing, drop);
    assert(failing + passing.filter(drop) =~= failing);
}

/// Whether no field with a `default` directive stands before one without.
#[verifier::opaque]
pub open spec fn defaults_last(fields: Seq<Field>) -> bool {
    forall|i: int, j: int|
        0 <= i < j < fields.len() ==> !(carries_default(#[trigger] fields[i]) && !carries_default(
            #[trigger] fields[j],
        ))
}

/// What holds of all the fields holds of all but the last.
proof fn lemma_defaults_last_front(fields: Seq<Field>)
    requires
        fields.len() > 0,
        defaults_last(fields),
    ensures
        defaults_last(fields.drop_last()),
        !carries_default(fields.last()) ==> forall|i: int|
            0 <= i < fields.len() - 1 ==> !carries_default(#[trigger] fields.drop_last()[i]),
{
    reveal(defaults_last);
    let front = fields.drop_last();
    assert forall|i: int, j: int| 0 <= i < j < front.len() implies !(carries_default(
        #[trigger] front[i],
    ) && !carries_default(#[trigger] front[j])) by {
        assert(front[i] == fields[i] && front[j] == fields[j]);
    }
    if !carries_default(fields.last()) {
        assert forall|i: int| 0 <= i < fields.len() - 1 implies !carries_default(
            #[trigger] front[i],
        ) by {
            assert(front[i] == fields[i]);
            assert(fields.last() == fields[fields.len() - 1]);
        }
    }
}

/// Fields of which none has a `default` directive are declared in their
/// order.
proof fn lemma_order_without_defaults(fields: Seq<Field>)
    requires
        forall|i: int| 0 <= i < fields.len() ==> !carries_default(#[trigger] fields[i]),
    ensures
        ordered_fields(fields) == fields,
{
    reveal(ordered_fields);
    assert forall|i: int| 0 <= i < fields.len() implies !with_default()(#[trigger] fields[i]) by {}
    assert forall|i: int| 0 <= i < fields.len() implies without_default()(
        #[trigger] fields[i],
    ) by {}
    lemma_filter_all(fields, with_default());
    lemma_filter_all(fields, without_default());
}

/// A field with a `default` directive behind other fields is declared last.
proof fn lemma_order_push_default(front: Seq<Field>, last: Field)
    requires
        carries_default(last),
    ensures
        ordered_fields(front.push(last)) == ordered_fields(front).push(last),
{
    reveal(ordered_fields);
    reveal(Seq::filter);
    assert(front.push(last).drop_last() =~= front);
}

/// Fields with the same fields with and without a `default` directive are
/// declared in the same order.
proof fn lemma_same_order(a: Seq<Field>, b: Seq<Field>)
    requires
        a.filter(with_default()) == b.filter(with_default()),
        a.filter(without_default()) == b.filter(without_default()),
    ensures
        ordered_fields(a) == ordered_fields(b),
{
    reveal(ordered_fields);
}

/// A sequence in which no field with a `default` directive stands before one
/// without is in the order of declaration.
pub proof fn lemma_defaults_last(fields: Seq<Field>)
    requires
        defaults_last(fields),
    ensures
        fields == ordered_fields(fields),
    decreases fields.len(),
{
    if fields.len() == 0 {
        lemma_order_without_defaults(fields);
    } else {
        let front = fields.drop_last();
        let last = fields.last();
        lemma_defaults_last_front(fields);
        lemma_defaults_last(front);
        assert(front.push(last) =~= fields);
        if carries_default(last) {
            lemma_order_push_default(front, last);
        } else {
            assert forall|i: int| 0 <= i < fields.len() implies !carries_default(
                #[trigger] fields[i],
            ) by {
                if i < fields.len() - 1 {
                    assert(fields[i] == front[i]);
                }
            }
            lemma_order_without_defaults(fields);
        }
    }
}

/// A stable sort that puts the fields with a `default` directive last gives
/// the order of declaration: a sequence in which no field with the directive
/// stands before one without, and which holds the fields with the directive
/// and those without in their source order, is `ordered_fields`.
pub proof fn lemma_stable_sort_is_order(sorted: Seq<Field>, fields: Seq<Field>)
    requires
        defaults_last(sorted),
        sorted.filter(with_default()) == fields.filter(with_default()),
        sorted.filter(without_default()) == fields.filter(without_default()),
    ensures
        sorted == ordered_fields(fields),
{
    lemma_defaults_last(sorted);
    lemma_same_order(sorted, fields);
}

/// The order of declaration keeps the number of fields and puts no field
/// with a `default` directive before one without.
pub proof fn lemma_field_order(fields: Seq<Field>)
    ensures
        ordered_fields(fields).len() == fields.len(),
        forall|i: int, j: int|
            #![trigger ordered_fields(fields)[i], ordered_fields(fields)[j]]
            0 <= i < j < fields.len() && carries_default(ordered_fields(fields)[i])
                ==> carries_default(ordered_fields(fields)[j]),
{
    reveal(ordered_fields);
    let plain = fields.filter(without_default());
    let defaulted = fields.filter(with_default());
    lemma_filter_lengths(fields, with_default(), without_default());
    lemma_filter_members(fields, with_default());
    lemma_filter_members(fields, without_default());
    assert forall|k: int| 0 <= k < plain.len() implies !with_default()(#[trigger] plain[k]) by {
        assert(without_default()(plain[k]));
    }
    assert forall|k: int| 0 <= k < defaulted.len() implies !without_default()(
        #[trigger] defaulted[k],
    ) by {
        assert(with_default()(defaulted[k]));
    }
    assert forall|i: int, j: int|
        #![trigger ordered_fields(fields)[i], ordered_fields(fields)[j]]
        0 <= i < j < fields.len() && carries_default(
            ordered_fields(fields)[i],
        ) implies carries_default(ordered_fields(fields)[j]) by {
        lemma_partition_order(plain, defaulted, with_default(), i, j);
    }
}

/// The order of declaration keeps the source order within the fields with a
/// `default` directive.
pub proof fn lemma_defaulted_fields_in_order(fields: Seq<Field>)
    ensures
        ordered_fields(fields).filter(with_default()) == fields.filter(with_default()),
{
    reveal(ordered_fields);
    let plain = fields.filter(without_default());
    let defaulted = fields.filter(with_default());
    let keep = with_default();
    assert forall|k: int| 0 <= k < plain.len() implies !keep(#[trigger] plain[k]) by {
        fields.lemma_filter_pred(without_default(), k);
    }
    assert forall|k: int| 0 <= k < defaulted.len() implies keep(#[trigger] defaulted[k]) by {
        fields.lemma_filter_pred(keep, k);
    }
    lemma_partition_keeps(plain, defaulted, keep);
}

/// The order of declaration keeps the source order within the fields without
/// a `default` directive.
pub proof fn lemma_plain_fields_in_order(fields: Seq<Field>)
    ensures
        ordered_fields(fields).filter(without_default()) == fields.filter(without_default()),
{
    reveal(ordered_fields);
    let plain = fields.filter(without_default());
    let defaulted = fields.filter(with_default());
    let drop = without_default();
    assert forall|k: int| 0 <= k < plain.len() implies drop(#[trigger] plain[k]) by {
        fields.lemma_filter_pred(drop, k);
    }
    assert forall|k: int| 0 <= k < defaulted.len() implies !drop(#[trigger] defaulted[k]) by {
        fields.lemma_filter_pred(with_default(), k);
    }
    lemma_partition_drops(plain, defaulted, drop);
}

/// The texts one after the other.
pub open spec fn concat(parts: Seq<Seq<char>>) -> Seq<char>
    decreases parts.len(),
{
    if parts.len() == 0 {
        Seq::empty()
    } else {
        concat(parts.drop_last()) + parts.last()
    }
}

/// The declaration of each of the fields, in their order; it is meant for
/// fields that all have one.
pub open spec fn field_lines(fields: Seq<Field>) -> Seq<Seq<char>> {
    Seq::new(fields.len(), |i: int| field_text(fields[i])->Ok_0)
}

/// The declarations of fields are written exactly if each field has one, and
/// then they are one declaration for each field and nothing else, in the
/// order of the fields.
pub proof fn lemma_field_lines(fields: Seq<Field>)
    ensures
        fields_text(fields) is Ok <==> forall|i: int|
            0 <= i < fields.len() ==> field_text(#[trigger] fields[i]) is Ok,
        fields_text(fields) matches Ok(text) ==> text == concat(field_lines(fields)),
        field_lines(fields).len() == fields.len(),
    decreases fields.len(),
{
    if fields.len() > 0 {
        let front = fields.drop_last();
        lemma_field_lines(front);
        assert(field_lines(fields).drop_last() =~= field_lines(front));
        assert forall|i: int| 0 <= i < front.len() implies front[i] == fields[i] by {}
        if fields_text(fields) is Ok {
            assert forall|i: int| 0 <= i < fields.len() implies field_text(
                #[trigger] fields[i],
            ) is Ok by {
                if i < front.len() {
                    assert(field_text(front[i]) is Ok);
                }
            }
        }
        if forall|i: int| 0 <= i < fields.len() ==> field_text(#[trigger] fields[i]) is Ok {
            assert forall|i: int| 0 <= i < front.len() implies field_text(
                #[trigger] front[i],
            ) is Ok by {
                assert(field_text(fields[i]) is Ok);
            }
            assert(field_text(fields[fields.len() - 1]) is Ok);
        }
    }
}

/// The record of a struct holds one declaration for each of its fields and
/// no other, in the order of `ordered_fields`: the fields without a `default`
/// directive before those with one.
pub proof fn lemma_struct_fields(name: Seq<char>, decl: StructDecl)
    ensures
        struct_text(name, decl) matches Ok(text) ==> text == "@dataclass\n"@ + "class "@ + name
            + ":\n"@ + "    "@ + support_text(decl) + "\n"@ + concat(
            field_lines(ordered_fields(decl.fields)),
        ),
        field_lines(ordered_fields(decl.fields)).len() == decl.fields.len(),
{
    lemma_field_lines(ordered_fields(decl.fields));
    lemma_field_order(decl.fields);
}

/// The text of an enum ends with its alias: the name of the enum, ` = `, and
/// the sanitized names of all its variants in source order with ` | `
/// between them.
#[verifier::rlimit(50)]
pub proof fn lemma_enum_alias(name: Seq<char>, decl: EnumDecl)
    ensures
        enum_text(name, decl) matches Ok(text) ==> variants_text(decl.variants) matches Ok(
            records,
        ) && text == records + name + " = "@ + joined(alias_names(decl.variants), " | "@) + "\n"@,
        alias_names(decl.variants).len() == decl.variants.len(),
        forall|i: int|
            0 <= i < decl.variants.len() ==> #[trigger] alias_names(decl.variants)[i] == safe_name(
                decl.variants[i].name,
            ),
{
}

/// A reserved word gets an underscore appended; every other name is kept.
pub proof fn lemma_safe_name(name: Seq<char>)
    ensures
        name == "type"@ || name == "None"@ ==> safe_name(name) == name.push('_'),
        !(name == "type"@ || name == "None"@) ==> safe_name(name) == name,
{
    reveal_strlit("type");
    reveal_strlit("type_");
    reveal_strlit("None");
    reveal_strlit("None_");
    assert("type_"@ =~= "type"@.push('_'));
    assert("None_"@ =~= "None"@.push('_'));
    assert("type"@ !~= "None"@) by {
        assert("type"@[0] == 't');
        assert("None"@[0] == 'N');
    }
}

/// The record of a variant, whatever its shape, is named by the sanitized
/// name of the variant, and its tag holds the name as it was declared.
pub proof fn lemma_variant_names(variant: Variant)
    ensures
        variant.inner is Unit ==> variant_text(variant) == Ok::<Seq<char>, Seq<char>>(
            "@dataclass\n"@ + "class "@ + safe_name(variant.name) + ":\n"@
                + "    ENUM_DATA = (ENUM_VARIANT_UNIT, \""@ + variant.name + "\")\n\n"@,
        ),
        variant.inner matches VariantShape::Tuple(types) ==> variant_text(variant) == Ok::<
            Seq<char>,
            Seq<char>,
        >(
            "@dataclass\n"@ + "class "@ + safe_name(variant.name) + "(TupleVariant):\n"@
                + "    ENUM_DATA = (ENUM_VARIANT_TUPLE, \""@ + variant.name + "\")\n\n"@
                + components_text(types) + "\n"@,
        ),
        variant.inner matches VariantShape::Struct(decl) ==> variant_text(variant) == then(
            then(
                Ok(
                    "@dataclass\n"@ + "class "@ + safe_name(variant.name) + ":\n"@
                        + "    ENUM_DATA = (ENUM_VARIANT_STRUCT, \""@ + variant.name + "\")\n"@,
                ),
                body_text(decl, ordered_fields(decl.fields)),
            ),
            Ok("\n"@),
        ),
{
}

/// A declared struct is written under its sanitized name, and a declared
/// enum is bound to it.
pub proof fn lemma_declared_names(decl: Declaration)
    ensures
        decl.inner matches Definition::Struct(s) ==> declaration_text(decl) == then(
            struct_text(safe_name(decl.name), s),
            Ok("\n\n"@),
        ),
        decl.inner matches Definition::Enum(e) ==> declaration_text(decl) == then(
            then(variants_text(e.variants), Ok(alias_text(safe_name(decl.name), e.variants))),
            Ok("\n\n"@),
        ),
{
}

/// The names of the container types are the names of no other type.
proof fn lemma_container_names()
    ensures
        "Vec"@ != "bool"@ && "Vec"@ != "i8"@ && "Vec"@ != "i16"@ && "Vec"@ != "i32"@ && "Vec"@
            != "i64"@ && "Vec"@ != "u8"@ && "Vec"@ != "u16"@ && "Vec"@ != "u32"@ && "Vec"@
            != "u64"@ && "Vec"@ != "f32"@ && "Vec"@ != "f64"@ && "Vec"@ != "String"@,
        "Option"@ != "bool"@ && "Option"@ != "i8"@ && "Option"@ != "i16"@ && "Option"@ != "i32"@
            && "Option"@ != "i64"@ && "Option"@ != "u8"@ && "Option"@ != "u16"@ && "Option"@
            != "u32"@ && "Option"@ != "u64"@ && "Option"@ != "f32"@ && "Option"@ != "f64"@
            && "Option"@ != "String"@ && "Option"@ != "Vec"@ && "Option"@ != "Array"@,
        "Array"@ != "bool"@ && "Array"@ != "i8"@ && "Array"@ != "i16"@ && "Array"@ != "i32"@
            && "Array"@ != "i64"@ && "Array"@ != "u8"@ && "Array"@ != "u16"@ && "Array"@
            != "u32"@ && "Array"@ != "u64"@ && "Array"@ != "f32"@ && "Array"@ != "f64"@
            && "Array"@ != "String"@ && "Array"@ != "Vec"@,
{
    reveal_strlit("Vec");
    reveal_strlit("Option");
    reveal_strlit("Array");
    reveal_strlit("bool");
    reveal_strlit("i8");
    reveal_strlit("i16");
    reveal_strlit("i32");
    reveal_strlit("i64");
    reveal_strlit("u8");
    reveal_strlit("u16");
    reveal_strlit("u32");
    reveal_strlit("u64");
    reveal_strlit("f32");
    reveal_strlit("f64");
    reveal_strlit("String");
    assert("Vec"@[0] == 'V');
    assert("Option"@[0] == 'O');
    assert("Array"@[0] == 'A');
    assert("bool"@[0] == 'b');
    assert("i8"@[0] == 'i' && "i16"@[0] == 'i' && "i32"@[0] == 'i' && "i64"@[0] == 'i');
    assert("u8"@[0] == 'u' && "u16"@[0] == 'u' && "u32"@[0] == 'u' && "u64"@[0] == 'u');
    assert("f32"@[0] == 'f' && "f64"@[0] == 'f');
    assert("String"@[0] == 'S');
}

/// Spelling follows nesting: a type that is written around an inner type is
/// parsed to a type around the parsed inner type, and is spelled around the
/// spelling of the inner type. `Vec<T>` and `Array[T]` become `list[..]`,
/// `Option<T>` becomes `.. | None`.
pub proof fn lemma_nested_spelling(tokens: Seq<TokenKind>, pos: int)
    ensures
        holds(tokens, pos, TokenKind::Identifier("Vec"@)) ==> match bracketed_at(
            tokens,
            pos + 1,
            TokenKind::Langle,
            TokenKind::Rangle,
        ) {
            Ok((inner, n)) => type_at(tokens, pos) == Ok::<(TypeExpr, nat), SyntaxError>(
                (TypeExpr::Vec(Box::new(inner)), n + 1),
            ) && type_text(TypeExpr::Vec(Box::new(inner))) == "list["@ + type_text(inner) + "]"@,
            Err(e) => type_at(tokens, pos) == Err::<(TypeExpr, nat), SyntaxError>(e),
        },
        holds(tokens, pos, TokenKind::Identifier("Array"@)) ==> match bracketed_at(
            tokens,
            pos + 1,
            TokenKind::LBracket,
            TokenKind::RBracket,
        ) {
            Ok((inner, n)) => type_at(tokens, pos) == Ok::<(TypeExpr, nat), SyntaxError>(
                (TypeExpr::Array(Box::new(inner)), n + 1),
            ) && type_text(TypeExpr::Array(Box::new(inner))) == "list["@ + type_text(inner) + "]"@,
            Err(e) => type_at(tokens, pos) == Err::<(TypeExpr, nat), SyntaxError>(e),
        },
        holds(tokens, pos, TokenKind::Identifier("Option"@)) ==> match bracketed_at(
            tokens,
            pos + 1,
            TokenKind::Langle,
            TokenKind::Rangle,
        ) {
            Ok((inner, n)) => type_at(tokens, pos) == Ok::<(TypeExpr, nat), SyntaxError>(
                (TypeExpr::Option(Box::new(inner)), n + 1),
            ) && type_text(TypeExpr::Option(Box::new(inner))) == type_text(inner) + " | None"@,
            Err(e) => type_at(tokens, pos) == Err::<(TypeExpr, nat), SyntaxError>(e),
        },
{
    lemma_container_names();
}

} // verus!
