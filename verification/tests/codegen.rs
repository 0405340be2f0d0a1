use serde_pygen::codegen::{has_default, indent, support_struct, Codegen, CodegenError};
use serde_pygen::parser::{
    DeclaredType, Enum, EnumVariant, EnumVariantInner, InnerType, SerdeAttribute, Struct,
    StructField, Type,
};

const HEADER: &str = "# Generated code\n\nfrom lib.marshal import TupleVariant, dataclass, asdict\n\n";

fn field<'a>(name: &'a str, ty: Type<'a>, attrs: Vec<SerdeAttribute<'a>>) -> StructField<'a> {
    StructField { attrs, name, ty }
}

fn spell(ty: Type) -> String {
    Codegen::new(Vec::new()).generate_type(&ty)
}

fn generate_struct<'a>(name: &'a str, fields: Vec<StructField<'a>>) -> Result<String, CodegenError<'a>> {
    Codegen::new(vec![DeclaredType { name, inner: InnerType::Struct(Struct { fields }) }]).generate()
}

#[test]
fn indent_one_level() {
    assert_eq!(indent("a\nb\nc\n", 1), "a\n    b\n    c");
}

#[test]
fn indent_two_levels() {
    assert_eq!(indent("a\r\nb", 2), "a\n        b");
}

#[test]
fn indent_no_level() {
    assert_eq!(indent("a\nb", 0), "a\nb");
}

#[test]
fn indent_of_one_line_and_of_nothing() {
    assert_eq!(indent("a", 3), "a");
    assert_eq!(indent("", 1), "");
}

#[test]
fn spelling_of_the_simple_types() {
    assert_eq!(spell(Type::String), "str");
    assert_eq!(spell(Type::Int), "int");
    assert_eq!(spell(Type::Bool), "bool");
    assert_eq!(spell(Type::Unit), "None");
    assert_eq!(spell(Type::Float), "float");
    assert_eq!(spell(Type::User("Thing")), "Thing");
}

#[test]
fn spelling_of_the_composed_types() {
    assert_eq!(spell(Type::Vec(Box::new(Type::Int))), "list[int]");
    assert_eq!(spell(Type::Array(Box::new(Type::Bool))), "list[bool]");
    assert_eq!(spell(Type::Option(Box::new(Type::String))), "str | None");
    assert_eq!(spell(Type::Tuple(vec![Type::Int, Type::String, Type::Unit])), "tuple[int, str, None]");
    assert_eq!(spell(Type::Tuple(vec![Type::Int])), "tuple[int]");
    assert_eq!(spell(Type::Tuple(Vec::new())), "tuple[]");
    assert_eq!(
        spell(Type::Option(Box::new(Type::Vec(Box::new(Type::Tuple(vec![
            Type::User("A"),
            Type::Option(Box::new(Type::Float)),
        ])))))),
        "list[tuple[A, float | None]] | None"
    );
}

#[test]
fn safe_names() {
    assert_eq!(Codegen::safe_name("type"), "type_");
    assert_eq!(Codegen::safe_name("None"), "None_");
    assert_eq!(Codegen::safe_name("Type"), "Type");
    assert_eq!(Codegen::safe_name("none"), "none");
    assert_eq!(Codegen::safe_name("type_"), "type_");
    assert_eq!(Codegen::safe_name(""), "");
}

#[test]
fn fields_with_a_default_directive() {
    assert!(has_default(&field("a", Type::Int, vec![SerdeAttribute::Default(None)])));
    assert!(has_default(&field(
        "a",
        Type::Int,
        vec![SerdeAttribute::Skip, SerdeAttribute::Default(Some("1"))]
    )));
    assert!(!has_default(&field("a", Type::Int, vec![SerdeAttribute::Skip])));
    assert!(!has_default(&field("a", Type::Int, Vec::new())));
}

#[test]
fn support_block_without_directives() {
    let s = Struct { fields: vec![field("a", Type::Int, Vec::new())] };
    assert_eq!(support_struct(&s), "\n");
}

#[test]
fn support_block_with_every_table() {
    let s = Struct {
        fields: vec![
            field("a", Type::Int, vec![SerdeAttribute::Skip, SerdeAttribute::Rename("x")]),
            field(
                "b",
                Type::Int,
                vec![
                    SerdeAttribute::SkipSerializing,
                    SerdeAttribute::SkipSerializingIf("p"),
                    SerdeAttribute::SkipDeserializingIf("q"),
                ],
            ),
            field(
                "c",
                Type::Int,
                vec![
                    SerdeAttribute::SkipDeserializing,
                    SerdeAttribute::SkipDeserializingIf("r"),
                    SerdeAttribute::SerializeWith("s"),
                    SerdeAttribute::DeserializeWith("t"),
                ],
            ),
        ],
    };
    let expected = concat_all(&[
        "SKIP_SERIALIZING = {\n        \"a\",\n    \"b\",\n    }",
        "SKIP_SERIALIZING_IF = {\n        \"b\": p,\n    }",
        "SKIP_DESERIALIZING = {\n        \"a\",\n    \"c\",\n    }",
        "SKIP_DESERIALIZING_IF = {\n        \"b\": q,\n        \"c\": r,\n    }",
        "RENAME = {\n        \"a\": \"x\",\n    }",
        "\n",
    ]);
    assert_eq!(support_struct(&s), expected);
}

fn concat_all(parts: &[&str]) -> String {
    let mut out = String::new();
    for p in parts {
        out.push_str(p);
    }
    out
}

#[test]
fn the_first_directive_of_a_kind_decides() {
    let s = Struct {
        fields: vec![field(
            "a",
            Type::Int,
            vec![SerdeAttribute::Rename("x"), SerdeAttribute::Rename("y")],
        )],
    };
    assert_eq!(support_struct(&s), "RENAME = {\n        \"a\": \"x\",\n    }\n");
    let out = generate_struct(
        "A",
        vec![field(
            "a",
            Type::Int,
            vec![SerdeAttribute::Default(Some("1")), SerdeAttribute::Default(None)],
        )],
    )
    .unwrap();
    assert_eq!(out, format!("{}{}", HEADER, "@dataclass\nclass A:\n    \n\n    a: int = 1\n\n\n"));
}

#[test]
fn the_first_default_decides_also_for_a_user_type() {
    let ok = generate_struct(
        "A",
        vec![field(
            "a",
            Type::User("B"),
            vec![SerdeAttribute::Default(Some("B()")), SerdeAttribute::Default(None)],
        )],
    );
    assert!(ok.is_ok());
    let err = generate_struct(
        "A",
        vec![field(
            "a",
            Type::User("B"),
            vec![SerdeAttribute::Default(None), SerdeAttribute::Default(Some("B()"))],
        )],
    );
    assert_eq!(err, Err(CodegenError::UnsupportedDefault { field: "a" }));
}

#[test]
fn synthesized_defaults() {
    let bare = || vec![SerdeAttribute::Default(None)];
    let out = generate_struct(
        "D",
        vec![
            field("a", Type::String, bare()),
            field("b", Type::Int, bare()),
            field("c", Type::Bool, bare()),
            field("d", Type::Unit, bare()),
            field("e", Type::Float, bare()),
            field("f", Type::Tuple(vec![Type::Int, Type::Int]), bare()),
            field("g", Type::Vec(Box::new(Type::Int)), bare()),
            field("h", Type::Array(Box::new(Type::Int)), bare()),
            field("i", Type::Option(Box::new(Type::Int)), bare()),
        ],
    )
    .unwrap();
    let expected = concat_all(&[
        HEADER,
        "@dataclass\nclass D:\n    \n\n",
        "    a: str = \"\"\n",
        "    b: int = 0\n",
        "    c: bool = False\n",
        "    d: None = None\n",
        "    e: float = 0.0\n",
        "    f: tuple[int, int] = ()\n",
        "    g: list[int] = []\n",
        "    h: list[int] = []\n",
        "    i: int | None = None\n",
        "\n\n",
    ]);
    assert_eq!(out, expected);
}

#[test]
fn fields_with_defaults_come_last_in_their_order() {
    let d = || vec![SerdeAttribute::Default(None)];
    let out = generate_struct(
        "S",
        vec![
            field("a", Type::Int, d()),
            field("b", Type::Int, Vec::new()),
            field("c", Type::Int, d()),
            field("d", Type::Int, Vec::new()),
            field("e", Type::Int, vec![SerdeAttribute::Skip]),
        ],
    )
    .unwrap();
    let expected = concat_all(&[
        HEADER,
        "@dataclass\nclass S:\n    SKIP_SERIALIZING = {\n        \"e\",\n    }SKIP_DESERIALIZING = {\n        \"e\",\n    }\n\n",
        "    b: int\n    d: int\n    e: int\n    a: int = 0\n    c: int = 0\n",
        "\n\n",
    ]);
    assert_eq!(out, expected);
}

#[test]
fn fields_of_a_variant_with_defaults_come_last() {
    let variant = EnumVariant {
        attrs: Vec::new(),
        name: "V",
        inner: EnumVariantInner::Struct(Struct {
            fields: vec![
                field("a", Type::Int, vec![SerdeAttribute::Default(None)]),
                field("b", Type::Int, Vec::new()),
            ],
        }),
    };
    let out = Codegen::new(vec![DeclaredType {
        name: "E",
        inner: InnerType::Enum(Enum { variants: vec![variant] }),
    }])
    .generate()
    .unwrap();
    let expected = concat_all(&[
        HEADER,
        "@dataclass\nclass V:\n    ENUM_DATA = (ENUM_VARIANT_STRUCT, \"V\")\n    \n\n",
        "    b: int\n    a: int = 0\n\n",
        "E = V\n\n\n",
    ]);
    assert_eq!(out, expected);
}

#[test]
fn tuple_variant_with_many_components() {
    let types: Vec<Type> = (0..11).map(|_| Type::Bool).collect();
    let out = Codegen::new(vec![DeclaredType {
        name: "E",
        inner: InnerType::Enum(Enum {
            variants: vec![EnumVariant { attrs: Vec::new(), name: "T", inner: EnumVariantInner::Tuple(types) }],
        }),
    }])
    .generate()
    .unwrap();
    assert!(out.contains("    _9: bool\n    _10: bool\n\n"));
}

#[test]
fn no_declarations() {
    assert_eq!(Codegen::new(Vec::new()).generate().unwrap(), HEADER);
}

#[test]
fn the_first_unsupported_field_is_reported() {
    let d = || vec![SerdeAttribute::Default(None)];
    // In the order of declaration `x` comes before `a`, which has a default.
    let r = generate_struct(
        "S",
        vec![field("a", Type::User("A"), d()), field("x", Type::Int, Vec::new()), field("b", Type::User("B"), d())],
    );
    assert_eq!(r, Err(CodegenError::UnsupportedDefault { field: "a" }));
}

#[test]
fn condition_texts_with_line_breaks_are_indented() {
    let s = Struct {
        fields: vec![field("a", Type::Int, vec![SerdeAttribute::SkipSerializingIf("p\nq")])],
    };
    assert_eq!(
        support_struct(&s),
        "SKIP_SERIALIZING_IF = {\n        \"a\": p\n    q,\n    }\n"
    );
}

fn written(codegen: Codegen) -> String {
    // `generate` hands out what was written, followed by the header.
    let out = codegen.generate().unwrap();
    out.strip_suffix(HEADER).unwrap().to_string()
}

#[test]
fn tuple_variant_with_a_reserved_name() {
    let mut codegen = Codegen::new(Vec::new());
    codegen.generate_enum_tuple("None", &Vec::new(), &vec![Type::Int]);
    assert_eq!(
        written(codegen),
        "@dataclass\nclass None_(TupleVariant):\n    ENUM_DATA = (ENUM_VARIANT_TUPLE, \"None\")\n\n    _0: int\n\n"
    );
}

#[test]
fn struct_variant_with_a_reserved_name() {
    let mut codegen = Codegen::new(Vec::new());
    let struc = Struct { fields: vec![field("x", Type::Bool, Vec::new())] };
    codegen.generate_enum_struct("type", &Vec::new(), &struc).unwrap();
    assert_eq!(
        written(codegen),
        "@dataclass\nclass type_:\n    ENUM_DATA = (ENUM_VARIANT_STRUCT, \"type\")\n    \n\n    x: bool\n\n"
    );
}

#[test]
fn struct_variant_with_a_default_before_a_plain_field() {
    let mut codegen = Codegen::new(Vec::new());
    let struc = Struct {
        fields: vec![
            field("a", Type::Int, vec![SerdeAttribute::Default(None)]),
            field("b", Type::Int, Vec::new()),
        ],
    };
    codegen.generate_enum_struct("V", &Vec::new(), &struc).unwrap();
    assert_eq!(
        written(codegen),
        "@dataclass\nclass V:\n    ENUM_DATA = (ENUM_VARIANT_STRUCT, \"V\")\n    \n\n    b: int\n    a: int = 0\n\n"
    );
}

#[test]
fn a_struct_has_one_line_for_each_field() {
    let d = || vec![SerdeAttribute::Default(Some("1"))];
    let struc = Struct {
        fields: vec![
            field("g", Type::Int, d()),
            field("f", Type::Int, Vec::new()),
            field("h", Type::Int, d()),
            field("e", Type::Int, Vec::new()),
        ],
    };
    let mut codegen = Codegen::new(Vec::new());
    codegen.generate_struct("S", &struc).unwrap();
    let out = written(codegen);
    assert_eq!(
        out,
        "@dataclass\nclass S:\n    \n\n    f: int\n    e: int\n    g: int = 1\n    h: int = 1\n"
    );
    let lines: Vec<&str> = out.lines().filter(|l| l.contains(": int")).collect();
    assert_eq!(lines.len(), struc.fields.len());
}

#[test]
fn the_alias_lists_every_variant_once_in_its_order() {
    let unit = |name: &'static str| EnumVariant { attrs: Vec::new(), name, inner: EnumVariantInner::Unit };
    let enum_ = Enum { variants: vec![unit("b"), unit("None"), unit("a"), unit("b"), unit("type")] };
    let mut codegen = Codegen::new(Vec::new());
    codegen.generate_enum("E", &enum_).unwrap();
    let out = written(codegen);
    assert_eq!(out.lines().last().unwrap(), "E = b | None_ | a | b | type_");
}

#[test]
fn a_field_line_and_a_variant_record() {
    let mut codegen = Codegen::new(Vec::new());
    codegen.generate_field(&field("n", Type::String, vec![SerdeAttribute::Default(None)])).unwrap();
    let unit = EnumVariant { attrs: Vec::new(), name: "type", inner: EnumVariantInner::Unit };
    codegen.generate_enum_variant(&unit).unwrap();
    assert_eq!(
        written(codegen),
        "    n: str = \"\"\n@dataclass\nclass type_:\n    ENUM_DATA = (ENUM_VARIANT_UNIT, \"type\")\n\n"
    );
}

#[test]
fn one_declaration_with_its_blank_lines() {
    let mut codegen = Codegen::new(Vec::new());
    let decl = DeclaredType {
        name: "type",
        inner: InnerType::Struct(Struct { fields: vec![field("a", Type::Int, Vec::new())] }),
    };
    codegen.generate_decl_type(&decl).unwrap();
    assert_eq!(written(codegen), "@dataclass\nclass type_:\n    \n\n    a: int\n\n\n");
}
