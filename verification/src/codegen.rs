//! The code generator: from declarations to the generated text.
//!
//! What is written is stated in `crate::python`; the functions here write it.

use crate::parser::{
    attribute_views, declaration_views, field_views, type_views, variant_views, Declaration,
    DeclaredType, Enum, EnumVariant, EnumVariantInner, Field, InnerType, SerdeAttribute, Struct,
    StructField, Type,
};
use crate::python::{
    alias_names, body_text, carries_default, components_text, concat, declaration_text,
    declaration_writer, declarations_text, defaults_last, directive_value, document_text, entry_of,
    entry_text, enum_text, field_lines, field_text, field_writer, fields_text, first_default,
    first_value, indented, lemma_enum_alias, lemma_sequence_text_failure, lemma_sequence_text_step,
    lemma_stable_sort_is_order, lemma_struct_fields, ordered_fields, spaces, struct_text,
    struct_variant_head, struct_variant_text, support_text, synthesized_default, table_entries,
    table_text, table_title, tuple_variant_text, type_text, type_texts, variant_text,
    variant_writer, variants_text, with_default, without_default, Table, Written,
};
use crate::text::{decimal, join_with, joined, split_lines, str_eq, texts};
use itertools::Itertools;
use vstd::prelude::*;

verus! {

/// Why no text was generated.
#[derive(Debug, Clone, Copy, PartialEq, Eq)]
pub enum CodegenError<'a> {
    /// The named field has a `default` directive without a value, and a
    /// user-defined type, for which no default value is known.
    UnsupportedDefault { field: &'a str },
}

/// The message for a field without text.
pub open spec fn unsupported_text(field: Seq<char>) -> Seq<char> {
    "no default value is known for the type of field "@ + field
}

impl<'a> CodegenError<'a> {
    /// The message for the error.
    pub fn to_string(&self) -> (r: String)
        ensures
            self matches CodegenError::UnsupportedDefault { field } && r@ == unsupported_text(
                field@,
            ),
    {
        match self {
            CodegenError::UnsupportedDefault { field } => {
                let mut r = String::from_str("no default value is known for the type of field ");
                r.append(field);
                r
            },
        }
    }
}

/// Whether `r` reports what `expected` says: success, or the failure for the
/// same field.
pub open spec fn reports(r: Result<(), CodegenError<'_>>, expected: Written) -> bool {
    match expected {
        Ok(_) => r is Ok,
        Err(name) => r matches Err(CodegenError::UnsupportedDefault { field }) && field@ == name,
    }
}

/// The views of a sequence of borrowed fields.
pub open spec fn field_ref_views(fields: Seq<&StructField<'_>>) -> Seq<Field> {
    fields.map_values(|f: &StructField| f@)
}

/// The lines of `s`, each but the first indented by `level` levels.
pub fn indent(s: &str, level: usize) -> (r: String)
    ensures
        r@ == indented(s@, level as nat),
{
    let mut sep = String::from_str("\n");
    let mut i: usize = 0;
    assert(sep@ =~= "\n"@ + spaces(0));
    while i < level
        invariant
            i <= level,
            sep@ == "\n"@ + spaces(i as nat),
        decreases level - i,
    {
        sep.append("    ");
        i += 1;
        assert(sep@ =~= "\n"@ + spaces(i as nat));
    }
    let lines = split_lines(s);
    join_with(&lines, sep.as_str())
}

/// What one directive enters into a table.
fn value_of<'a>(attr: &SerdeAttribute<'a>, table: Table) -> (r: Option<&'a str>)
    ensures
        match r {
            Some(value) => directive_value(attr@, table) == Some(value@),
            None => directive_value(attr@, table) is None,
        },
{
    proof {
        reveal_strlit("");
        assert(""@ =~= Seq::<char>::empty());
    }
    match (table, attr) {
        (Table::SkipSerializing, SerdeAttribute::Skip) => Some(""),
        (Table::SkipSerializing, SerdeAttribute::SkipSerializing) => Some(""),
        (Table::SkipSerializingIf, SerdeAttribute::SkipSerializingIf(expr)) => Some(*expr),
        (Table::SkipDeserializing, SerdeAttribute::Skip) => Some(""),
        (Table::SkipDeserializing, SerdeAttribute::SkipDeserializing) => Some(""),
        (Table::SkipDeserializingIf, SerdeAttribute::SkipDeserializingIf(expr)) => Some(*expr),
        (Table::Rename, SerdeAttribute::Rename(name)) => Some(*name),
        _ => None,
    }
}

/// The value of the first directive that enters something into the table.
fn find_value<'a>(attrs: &Vec<SerdeAttribute<'a>>, table: Table) -> (r: Option<&'a str>)
    ensures
        match r {
            Some(value) => first_value(attribute_views(attrs@), table) == Some(value@),
            None => first_value(attribute_views(attrs@), table) is None,
        },
{
    let ghost views = attribute_views(attrs@);
    let mut i: usize = 0;
    assert(views.skip(0) =~= views);
    while i < attrs.len()
        invariant
            i <= attrs.len(),
            views == attribute_views(attrs@),
            first_value(views, table) == first_value(views.skip(i as int), table),
        decreases attrs.len() - i,
    {
        proof {
            assert(views.skip(i as int)[0] == attrs@[i as int]@);
            assert(views.skip(i as int).drop_first() =~= views.skip(i + 1));
        }
        if let Some(value) = value_of(&attrs[i], table) {
            return Some(value);
        }
        i += 1;
    }
    None
}

/// The value of the first `default` directive.
fn find_default<'a>(attrs: &Vec<SerdeAttribute<'a>>) -> (r: Option<Option<&'a str>>)
    ensures
        match r {
            Some(Some(value)) => first_default(attribute_views(attrs@)) == Some(Some(value@)),
            Some(None) => first_default(attribute_views(attrs@)) == Some(
                None::<Seq<char>>,
            ),
            None => first_default(attribute_views(attrs@)) is None,
        },
{
    let ghost views = attribute_views(attrs@);
    let mut i: usize = 0;
    assert(views.skip(0) =~= views);
    while i < attrs.len()
        invariant
            i <= attrs.len(),
            views == attribute_views(attrs@),
            first_default(views) == first_default(views.skip(i as int)),
        decreases attrs.len() - i,
    {
        proof {
            assert(views.skip(i as int)[0] == attrs@[i as int]@);
            assert(views.skip(i as int).drop_first() =~= views.skip(i + 1));
        }
        if let SerdeAttribute::Default(value) = &attrs[i] {
            return Some(*value);
        }
        i += 1;
    }
    None
}

/// Whether the field has a `default` directive.
pub fn has_default(field: &StructField<'_>) -> (r: bool)
    ensures
        r == carries_default(field@),
{
    reveal(carries_default);
    find_default(&field.attrs).is_some()
}

/// The default value of a type, where it has one.
fn default_for(ty: &Type<'_>) -> (r: Option<&'static str>)
    ensures
        match r {
            Some(value) => synthesized_default(ty@) == Some(value@),
            None => synthesized_default(ty@) is None,
        },
{
    match ty {
        Type::String => Some("\"\""),
        Type::Int => Some("0"),
        Type::Bool => Some("False"),
        Type::Unit => Some("None"),
        Type::Float => Some("0.0"),
        Type::Tuple(_) => Some("()"),
        Type::Vec(_) => Some("[]"),
        Type::Array(_) => Some("[]"),
        Type::Option(_) => Some("None"),
        Type::User(_) => None,
    }
}

/// The name of a table in the generated text.
fn title(table: Table) -> (r: &'static str)
    ensures
        r@ == table_title(table),
{
    match table {
        Table::SkipSerializing => "SKIP_SERIALIZING",
        Table::SkipSerializingIf => "SKIP_SERIALIZING_IF",
        Table::SkipDeserializing => "SKIP_DESERIALIZING",
        Table::SkipDeserializingIf => "SKIP_DESERIALIZING_IF",
        Table::Rename => "RENAME",
    }
}

/// The line of a table for a field with the given value.
fn entry(name: &str, value: &str, table: Table) -> (r: String)
    ensures
        r@ == entry_text(name@, value@, table),
{
    let mut line = String::from_str("\"");
    line.append(name);
    match table {
        Table::SkipSerializing | Table::SkipDeserializing => {
            line.append("\",");
        },
        Table::SkipSerializingIf | Table::SkipDeserializingIf => {
            line.append("\": ");
            line.append(value);
            line.append(",");
        },
        Table::Rename => {
            line.append("\": \"");
            line.append(value);
            line.append("\",");
        },
    }
    line
}

/// The text of one table of the support block.
fn table(struc: &Struct<'_>, which: Table) -> (r: String)
    ensures
        r@ == table_text(struc@, which),
{
    let ghost fields = field_views(struc.fields@);
    let mut entries: Vec<String> = Vec::new();
    let mut i: usize = 0;
    assert(texts(entries@) =~= table_entries(fields.take(0), which));
    while i < struc.fields.len()
        invariant
            i <= struc.fields.len(),
            fields == field_views(struc.fields@),
            texts(entries@) == table_entries(fields.take(i as int), which),
        decreases struc.fields.len() - i,
    {
        let field = &struc.fields[i];
        proof {
            fields.lemma_filter_map_take_succ(entry_of(which), i as int);
            assert(fields[i as int] == field@);
        }
        if let Some(value) = find_value(&field.attrs, which) {
            let line = entry(field.name, value, which);
            proof {
                assert(texts(entries@.push(line)) =~= texts(entries@) + seq![line@]);
            }
            entries.push(line);
        }
        i += 1;
    }
    assert(fields.take(i as int) =~= fields);
    if entries.len() == 0 {
        return String::new();
    }
    let lines = join_with(&entries, "\n");
    let body = match which {
        Table::SkipDeserializingIf => indent(lines.as_str(), 1),
        _ => lines,
    };
    let mut block = String::from_str(title(which));
    block.append(" = {\n    ");
    block.append(body.as_str());
    block.append("\n}\n");
    indent(block.as_str(), 1)
}

/// The support block of a struct: the tables that say which fields are
/// skipped, skipped on a condition, or renamed.
pub fn support_struct(struc: &Struct<'_>) -> (r: String)
    ensures
        r@ == support_text(struc@),
{
    let mut support = table(struc, Table::SkipSerializing);
    support.append(table(struc, Table::SkipSerializingIf).as_str());
    support.append(table(struc, Table::SkipDeserializing).as_str());
    support.append(table(struc, Table::SkipDeserializingIf).as_str());
    support.append(table(struc, Table::Rename).as_str());
    support.append("\n");
    support
}

/// `Itertools::sorted_by_key` on the fields of a struct, the key being
/// whether a field has a `default` directive. Trusted: the result is sorted
/// by the key, `false` before `true`, and the sort is stable, so that the
/// fields with the same key keep their order.
#[verifier::external_body]
fn sorted_by_default<'a, 'b>(fields: &'b Vec<StructField<'a>>) -> (sorted: Vec<
    &'b StructField<'a>,
>)
    ensures
        defaults_last(field_ref_views(sorted@)),
        field_ref_views(sorted@).filter(with_default()) == field_views(fields@).filter(
            with_default(),
        ),
        field_ref_views(sorted@).filter(without_default()) == field_views(fields@).filter(
            without_default(),
        ),
{
    fields.iter().sorted_by_key(|field| has_default(field)).collect()
}

/// Writes the generated text for a list of declarations.
pub struct Codegen<'a> {
    types: Vec<DeclaredType<'a>>,
    output: String,
}

impl<'a> Codegen<'a> {
    /// The declarations to generate text for.
    pub closed spec fn declarations(&self) -> Seq<Declaration> {
        declaration_views(self.types@)
    }

    /// The text written so far.
    pub closed spec fn written(&self) -> Seq<char> {
        self.output@
    }

    /// `text` was written behind what was written before, and the
    /// declarations are the same.
    pub open spec fn wrote(&self, before: &Self, text: Seq<char>) -> bool {
        self.declarations() == before.declarations() && self.written() =~= before.written() + text
    }

    /// What a step that writes `expected` leaves behind: it reports success
    /// and has written the text, or it reports the field that has none.
    pub open spec fn did(
        &self,
        before: &Self,
        r: Result<(), CodegenError<'a>>,
        expected: Written,
    ) -> bool {
        &&& reports(r, expected)
        &&& expected matches Ok(text) ==> self.wrote(before, text)
    }

    /// A generator for `types` that has written nothing yet.
    pub fn new(types: Vec<DeclaredType<'a>>) -> (codegen: Self)
        ensures
            codegen.declarations() == declaration_views(types@),
            codegen.written() == Seq::<char>::empty(),
    {
        Codegen { types, output: String::new() }
    }

    /// Writes `s` behind what was written before.
    fn write(&mut self, s: &str)
        ensures
            final(self).wrote(old(self), s@),
    {
        self.output.append(s);
    }

    /// How a type is spelled in the target language.
    #[verifier::rlimit(50)]
    pub fn generate_type(&self, type_: &Type<'a>) -> (r: String)
        ensures
            r@ == type_text(type_@),
        decreases type_,
    {
        match type_ {
            Type::String => String::from_str("str"),
            Type::Int => String::from_str("int"),
            Type::Bool => String::from_str("bool"),
            Type::Unit => String::from_str("None"),
            Type::Float => String::from_str("float"),
            Type::Tuple(types) => {
                let ghost items = type_@->Tuple_0;
                let mut parts: Vec<String> = Vec::new();
                let mut i: usize = 0;
                while i < types.len()
                    invariant
                        i <= types.len(),
                        type_ == Type::Tuple(*types),
                        items == type_@->Tuple_0,
                        items.len() == types@.len(),
                        parts@.len() == i,
                        forall|k: int| 0 <= k < i ==> parts@[k]@ == type_text(items[k]),
                    decreases types.len() - i,
                {
                    let part = self.generate_type(&types[i]);
                    assert(items[i as int] == types@[i as int]@);
                    parts.push(part);
                    i += 1;
                }
                assert(texts(parts@) =~= type_texts(items));
                let mut r = String::from_str("tuple[");
                r.append(join_with(&parts, ", ").as_str());
                r.append("]");
                r
            },
            Type::Vec(ty) => {
                let mut r = String::from_str("list[");
                r.append(self.generate_type(ty).as_str());
                r.append("]");
                r
            },
            Type::Array(ty) => {
                let mut r = String::from_str("list[");
                r.append(self.generate_type(ty).as_str());
                r.append("]");
                r
            },
            Type::User(name) => String::from_str(name),
            Type::Option(ty) => {
                let mut r = self.generate_type(ty);
                r.append(" | None");
                r
            },
        }
    }

    /// Writes the declaration of one field.
    pub fn generate_field(&mut self, field: &StructField<'a>) -> (r: Result<(), CodegenError<'a>>)
        ensures
            final(self).did(old(self), r, field_text(field@)),
    {
        let tyname = self.generate_type(&field.ty);
        let default = match find_default(&field.attrs) {
            None => None,
            Some(Some(value)) => Some(value),
            Some(None) => match default_for(&field.ty) {
                Some(value) => Some(value),
                None => {
                    return Err(CodegenError::UnsupportedDefault { field: field.name });
                },
            },
        };
        self.write("    ");
        self.write(field.name);
        self.write(": ");
        self.write(tyname.as_str());
        if let Some(value) = default {
            self.write(" = ");
            self.write(value);
        }
        self.write("\n");
        Ok(())
    }

    /// Writes the declarations of the given fields, in their order.
    fn generate_fields(&mut self, fields: &Vec<&StructField<'a>>) -> (r: Result<
        (),
        CodegenError<'a>,
    >)
        ensures
            final(self).did(old(self), r, fields_text(field_ref_views(fields@))),
    {
        let ghost views = field_ref_views(fields@);
        let mut i: usize = 0;
        assert(old(self).output@ + Seq::<char>::empty() =~= old(self).output@);
        while i < fields.len()
            invariant
                i <= fields.len(),
                views == field_ref_views(fields@),
                fields_text(views.take(i as int)) is Ok,
                self.wrote(old(self), fields_text(views.take(i as int))->Ok_0),
            decreases fields.len() - i,
        {
            proof {
                lemma_sequence_text_step(views, field_writer(), i as int);
                assert(views[i as int] == fields@[i as int]@);
            }
            match self.generate_field(fields[i]) {
                Ok(()) => {},
                Err(e) => {
                    proof {
                        lemma_sequence_text_failure(views, field_writer(), i + 1);
                    }
                    return Err(e);
                },
            }
            i += 1;
        }
        assert(views.take(i as int) =~= views);
        Ok(())
    }

    /// Writes the body of a record: the support block of the struct, then
    /// the declarations of the given fields.
    #[verifier::rlimit(50)]
    fn generate_body(&mut self, struc: &Struct<'a>, fields: &Vec<&StructField<'a>>) -> (r: Result<
        (),
        CodegenError<'a>,
    >)
        ensures
            final(self).did(old(self), r, body_text(struc@, field_ref_views(fields@))),
    {
        self.write("    ");
        self.write(support_struct(struc).as_str());
        self.write("\n");
        self.generate_fields(fields)
    }

    /// Writes the record for a struct: the support block, then one
    /// declaration for each field, those with a `default` directive last.
    #[verifier::rlimit(50)]
    pub fn generate_struct(&mut self, name: &str, struc: &Struct<'a>) -> (r: Result<
        (),
        CodegenError<'a>,
    >)
        ensures
            final(self).did(old(self), r, struct_text(name@, struc@)),
            r is Ok ==> field_lines(ordered_fields(struc@.fields)).len() == struc@.fields.len()
                && final(self).written() == old(self).written() + "@dataclass\n"@ + "class "@
                + name@ + ":\n"@ + "    "@ + support_text(struc@) + "\n"@ + concat(
                field_lines(ordered_fields(struc@.fields)),
            ),
    {
        proof {
            lemma_struct_fields(name@, struc@);
        }
        self.write("@dataclass\n");
        self.write("class ");
        self.write(name);
        self.write(":\n");
        let fields = sorted_by_default(&struc.fields);
        proof {
            lemma_stable_sort_is_order(field_ref_views(fields@), field_views(struc.fields@));
        }
        let r = self.generate_body(struc, &fields);
        proof {
            if r is Ok {
                let lines = concat(field_lines(ordered_fields(struc@.fields)));
                let text = struct_text(name@, struc@)->Ok_0;
                assert(struct_text(name@, struc@) is Ok);
                assert(self.written() =~= old(self).written() + text);
                assert(text == "@dataclass\n"@ + "class "@ + name@ + ":\n"@ + "    "@
                    + support_text(struc@) + "\n"@ + lines);
                assert(self.written() =~= old(self).written() + "@dataclass\n"@ + "class "@
                    + name@ + ":\n"@ + "    "@ + support_text(struc@) + "\n"@ + lines);
            }
        }
        r
    }

    /// Writes the record for a tuple-shaped variant.
    pub fn generate_enum_tuple(
        &mut self,
        name: &str,
        _attrs: &Vec<SerdeAttribute<'a>>,
        types: &Vec<Type<'a>>,
    )
        ensures
            final(self).wrote(old(self), tuple_variant_text(name@, type_views(types@))),
    {
        self.write("@dataclass\n");
        self.write("class ");
        self.write(Self::safe_name(name));
        self.write("(TupleVariant):\n");
        self.write("    ENUM_DATA = (ENUM_VARIANT_TUPLE, \"");
        self.write(name);
        self.write("\")\n\n");
        self.generate_components(types);
        self.write("\n");
    }

    /// Writes the components of a tuple-shaped variant, named by their
    /// position.
    fn generate_components(&mut self, types: &Vec<Type<'a>>)
        ensures
            final(self).wrote(old(self), components_text(type_views(types@))),
    {
        let ghost views = type_views(types@);
        let mut i: usize = 0;
        assert(self.output@ + components_text(views.take(0)) =~= self.output@);
        while i < types.len()
            invariant
                i <= types.len(),
                views == type_views(types@),
                self.wrote(old(self), components_text(views.take(i as int))),
            decreases types.len() - i,
        {
            let tyname = self.generate_type(&types[i]);
            proof {
                assert(views.take(i + 1).drop_last() =~= views.take(i as int));
                assert(views.take(i + 1).last() == types@[i as int]@);
            }
            self.write("    _");
            self.write(decimal(i).as_str());
            self.write(": ");
            self.write(tyname.as_str());
            self.write("\n");
            i += 1;
        }
        assert(views.take(i as int) =~= views);
    }

    /// Writes the first lines of the record for a struct-shaped variant.
    fn generate_enum_struct_head(&mut self, name: &str)
        ensures
            final(self).wrote(old(self), struct_variant_head(name@)),
    {
        self.write("@dataclass\n");
        self.write("class ");
        self.write(Self::safe_name(name));
        self.write(":\n");
        self.write("    ENUM_DATA = (ENUM_VARIANT_STRUCT, \"");
        self.write(name);
        self.write("\")\n");
    }

    /// Writes the record for a struct-shaped variant: its first lines, then
    /// the body as that of a struct, the fields with a `default` directive
    /// last.
    pub fn generate_enum_struct(
        &mut self,
        name: &str,
        _attrs: &Vec<SerdeAttribute<'a>>,
        struc: &Struct<'a>,
    ) -> (r: Result<(), CodegenError<'a>>)
        ensures
            final(self).did(old(self), r, struct_variant_text(name@, struc@)),
    {
        self.generate_enum_struct_head(name);
        let fields = sorted_by_default(&struc.fields);
        proof {
            lemma_stable_sort_is_order(field_ref_views(fields@), field_views(struc.fields@));
        }
        match self.generate_body(struc, &fields) {
            Ok(()) => {},
            Err(e) => {
                return Err(e);
            },
        }
        self.write("\n");
        Ok(())
    }

    /// A name that is no reserved word of the target language.
    pub fn safe_name<'b>(name: &'b str) -> (r: &'b str)
        ensures
            r@ == crate::python::safe_name(name@),
    {
        if str_eq(name, "type") {
            "type_"
        } else if str_eq(name, "None") {
            "None_"
        } else {
            name
        }
    }

    /// Writes the record for one enum variant.
    #[verifier::rlimit(50)]
    pub fn generate_enum_variant(&mut self, variant: &EnumVariant<'a>) -> (r: Result<
        (),
        CodegenError<'a>,
    >)
        ensures
            final(self).did(old(self), r, variant_text(variant@)),
    {
        match &variant.inner {
            EnumVariantInner::Unit => {
                self.write("@dataclass\n");
                self.write("class ");
                self.write(Self::safe_name(variant.name));
                self.write(":\n");
                self.write("    ENUM_DATA = (ENUM_VARIANT_UNIT, \"");
                self.write(variant.name);
                self.write("\")\n\n");
                Ok(())
            },
            EnumVariantInner::Tuple(types) => {
                self.generate_enum_tuple(variant.name, &variant.attrs, types);
                Ok(())
            },
            EnumVariantInner::Struct(struc) => self.generate_enum_struct(
                variant.name,
                &variant.attrs,
                struc,
            ),
        }
    }

    /// Writes the records of the given variants, in their order.
    #[verifier::rlimit(50)]
    fn generate_enum_variants(&mut self, variants: &Vec<EnumVariant<'a>>) -> (r: Result<
        (),
        CodegenError<'a>,
    >)
        ensures
            final(self).did(old(self), r, variants_text(variant_views(variants@))),
    {
        let ghost views = variant_views(variants@);
        let mut i: usize = 0;
        assert(old(self).output@ + Seq::<char>::empty() =~= old(self).output@);
        while i < variants.len()
            invariant
                i <= variants.len(),
                views == variant_views(variants@),
                variants_text(views.take(i as int)) is Ok,
                self.wrote(old(self), variants_text(views.take(i as int))->Ok_0),
            decreases variants.len() - i,
        {
            proof {
                lemma_sequence_text_step(views, variant_writer(), i as int);
                assert(views[i as int] == variants@[i as int]@);
            }
            match self.generate_enum_variant(&variants[i]) {
                Ok(()) => {},
                Err(e) => {
                    proof {
                        lemma_sequence_text_failure(views, variant_writer(), i + 1);
                    }
                    return Err(e);
                },
            }
            i += 1;
        }
        assert(views.take(i as int) =~= views);
        Ok(())
    }

    /// The names of the variants as the alias of their enum lists them.
    fn alias_names(variants: &Vec<EnumVariant<'a>>) -> (names: Vec<String>)
        ensures
            texts(names@) == alias_names(variant_views(variants@)),
    {
        let mut names: Vec<String> = Vec::new();
        let mut i: usize = 0;
        while i < variants.len()
            invariant
                i <= variants.len(),
                names@.len() == i,
                forall|k: int|
                    0 <= k < i ==> (#[trigger] names@[k])@ == crate::python::safe_name(
                        variants@[k]@.name,
                    ),
            decreases variants.len() - i,
        {
            names.push(String::from_str(Self::safe_name(variants[i].name)));
            i += 1;
        }
        assert(texts(names@) =~= alias_names(variant_views(variants@)));
        names
    }

    /// Writes the records of the variants of an enum, then the alias that
    /// binds its name to the union of the sanitized names of all its variants,
    /// in source order.
    #[verifier::rlimit(50)]
    pub fn generate_enum(&mut self, name: &str, enum_: &Enum<'a>) -> (r: Result<
        (),
        CodegenError<'a>,
    >)
        ensures
            final(self).did(old(self), r, enum_text(name@, enum_@)),
            r is Ok ==> (variants_text(enum_@.variants) matches Ok(records)
                && final(self).written() == old(self).written() + records + name@ + " = "@
                + joined(alias_names(enum_@.variants), " | "@) + "\n"@),
    {
        proof {
            lemma_enum_alias(name@, enum_@);
        }
        match self.generate_enum_variants(&enum_.variants) {
            Ok(()) => {},
            Err(e) => {
                return Err(e);
            },
        }
        let names = Self::alias_names(&enum_.variants);
        self.write(name);
        self.write(" = ");
        self.write(join_with(&names, " | ").as_str());
        self.write("\n");
        Ok(())
    }

    /// Writes the text for one declaration.
    #[verifier::rlimit(50)]
    pub fn generate_decl_type(&mut self, type_: &DeclaredType<'a>) -> (r: Result<
        (),
        CodegenError<'a>,
    >)
        ensures
            final(self).did(old(self), r, declaration_text(type_@)),
    {
        let name = Self::safe_name(type_.name);
        let r = match &type_.inner {
            InnerType::Struct(struc) => self.generate_struct(name, struc),
            InnerType::Enum(enum_) => self.generate_enum(name, enum_),
        };
        match r {
            Ok(()) => {},
            Err(e) => {
                return Err(e);
            },
        }
        self.write("\n\n");
        Ok(())
    }

    /// Writes the texts of the declarations, in their order.
    #[verifier::rlimit(50)]
    fn generate_decl_types(&mut self, types: &Vec<DeclaredType<'a>>) -> (r: Result<
        (),
        CodegenError<'a>,
    >)
        ensures
            final(self).did(old(self), r, declarations_text(declaration_views(types@))),
    {
        let ghost views = declaration_views(types@);
        let mut i: usize = 0;
        assert(old(self).output@ + Seq::<char>::empty() =~= old(self).output@);
        while i < types.len()
            invariant
                i <= types.len(),
                views == declaration_views(types@),
                declarations_text(views.take(i as int)) is Ok,
                self.wrote(old(self), declarations_text(views.take(i as int))->Ok_0),
            decreases types.len() - i,
        {
            proof {
                lemma_sequence_text_step(views, declaration_writer(), i as int);
                assert(views[i as int] == types@[i as int]@);
            }
            match self.generate_decl_type(&types[i]) {
                Ok(()) => {},
                Err(e) => {
                    proof {
                        lemma_sequence_text_failure(views, declaration_writer(), i + 1);
                    }
                    return Err(e);
                },
            }
            i += 1;
        }
        assert(views.take(i as int) =~= views);
        Ok(())
    }

    /// The generated text for the declarations, after what was written
    /// before; or the first field that has no text.
    #[verifier::rlimit(50)]
    pub fn generate(self) -> (r: Result<String, CodegenError<'a>>)
        ensures
            match document_text(self.declarations()) {
                Ok(text) => r matches Ok(out) && out@ == self.written() + text,
                Err(name) => r matches Err(CodegenError::UnsupportedDefault { field }) && field@
                    == name,
            },
    {
        let Codegen { types, output } = self;
        let mut writer = Codegen { types: Vec::new(), output };
        writer.write("# Generated code\n\n");
        writer.write("from lib.marshal import TupleVariant, dataclass, asdict\n\n");
        match writer.generate_decl_types(&types) {
            Ok(()) => Ok(writer.output),
            Err(e) => Err(e),
        }
    }
}

} // verus!
