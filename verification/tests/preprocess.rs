use fiasco_lsp_proxy::preprocess::ast::{
    sanitize_words, AccessSpecifier, ClassOrStructKind, Declaration, FppSection, Identifier, IdentifierTemplate,
    MethodBody, QualifiedIdentifier, ReturnType, SourceSpan, TypeModifier,
};
use fiasco_lsp_proxy::preprocess::generator::{generate_cpp_triple, Source};
use fiasco_lsp_proxy::preprocess::parser::{parse_translation_unit, rule_name_str, ParseError, ParseNode, Rule};

fn err_of<T>(r: Result<T, ParseError>) -> ParseError {
    match r {
        Err(e) => e,
        Ok(_) => panic!("expected a failure"),
    }
}

const BANNER: &str = "// AUTOMATICALLY GENERATED -- DO NOT EDIT!         -*- c++ -*-\n\n";

/// A node covering the `nth` occurrence of `text` in `src`.
fn at(src: &str, text: &str, nth: usize, rule: Rule, children: Vec<ParseNode>) -> ParseNode {
    let start = src.match_indices(text).nth(nth).expect("text occurs").0;
    ParseNode { rule, span: SourceSpan { start, end: start + text.len() }, children }
}

fn leaf(src: &str, text: &str, nth: usize, rule: Rule) -> ParseNode {
    at(src, text, nth, rule, vec![])
}

fn whole(src: &str, rule: Rule, children: Vec<ParseNode>) -> ParseNode {
    ParseNode { rule, span: SourceSpan { start: 0, end: src.len() }, children }
}

fn ident_tmplt(src: &str, text: &str, nth: usize) -> ParseNode {
    at(src, text, nth, Rule::identifier_tmplt, vec![leaf(src, text, nth, Rule::identifier)])
}

fn return_type(src: &str, text: &str, nth: usize) -> ParseNode {
    at(src, text, nth, Rule::return_type, vec![at(src, text, nth, Rule::quali_identifier_tmplt, vec![ident_tmplt(src, text, nth)])])
}

const CLASS_SRC: &str = "#include \"foo.h\"\nINTERFACE:\nclass Foo : public Bar\n{\n};\nIMPLEMENTATION:\nPUBLIC\nint\nFoo::get() const\n{ return 1; }\n";

fn class_tree() -> ParseNode {
    let s = CLASS_SRC;
    let class = at(s, "class Foo : public Bar\n{\n}", 0, Rule::fpp_class_or_struct, vec![
        leaf(s, "Foo", 0, Rule::identifier),
        leaf(s, " public Bar", 0, Rule::valid_class_or_struct_suffix_char_seq),
        leaf(s, "{\n}", 0, Rule::balanced_block),
    ]);
    let method = at(s, "PUBLIC\nint\nFoo::get() const\n{ return 1; }", 0, Rule::fpp_method, vec![
        leaf(s, "PUBLIC", 0, Rule::fpp_access_specifier),
        return_type(s, "int", 0),
        at(s, "Foo::get", 0, Rule::fpp_method_core, vec![
            at(s, "Foo", 1, Rule::fpp_parent_name, vec![ident_tmplt(s, "Foo", 1)]),
            at(s, "get", 0, Rule::fpp_method_name, vec![ident_tmplt(s, "get", 0)]),
        ]),
        leaf(s, "()", 0, Rule::balanced_parentheses),
        leaf(s, "{ return 1; }", 0, Rule::balanced_block),
    ]);
    whole(s, Rule::translation_unit, vec![
        at(s, "#include \"foo.h\"", 0, Rule::declaration, vec![leaf(s, "#include \"foo.h\"", 0, Rule::preprocess_line)]),
        at(s, "INTERFACE:\nclass Foo : public Bar\n{\n};", 0, Rule::fpp_interface_section, vec![
            at(s, "class Foo : public Bar\n{\n}", 0, Rule::declaration, vec![class]),
        ]),
        at(s, "IMPLEMENTATION:\nPUBLIC", 0, Rule::fpp_implementation_section, vec![
            at(s, "PUBLIC\nint\nFoo::get() const\n{ return 1; }", 0, Rule::declaration, vec![method]),
        ]),
        ParseNode { rule: Rule::EOI, span: SourceSpan { start: s.len(), end: s.len() }, children: vec![] },
        leaf(s, "Foo", 0, Rule::identifier),
    ])
}

#[test]
fn parse_class_and_method() {
    let tu = parse_translation_unit(CLASS_SRC, &vec![class_tree()]).unwrap();
    assert_eq!(tu.declarations.len(), 1);
    assert!(matches!(tu.declarations[0], Declaration::PreprocessLine(_)));
    assert_eq!(tu.sections.len(), 2);
    match &tu.sections[0] {
        FppSection::Interface(data) => {
            assert!(data.guard.is_none());
            match &data.declarations[0] {
                Declaration::ClassOrStruct(c) => {
                    assert_eq!(c.kind, ClassOrStructKind::Class);
                    assert!(!c.extension);
                    assert_eq!(c.name.0, "Foo");
                    assert_eq!(c.inheritance.as_deref(), Some("public Bar"));
                    assert_eq!(c.body, "{\n}");
                    assert!(c.additional_methods.is_empty());
                }
                _ => panic!("expected a class"),
            }
        }
        _ => panic!("expected an interface section"),
    }
    match &tu.sections[1] {
        FppSection::Implementation(data) => match &data.declarations[0] {
            Declaration::Method(m) => {
                assert_eq!(m.access, Some(AccessSpecifier::Public));
                assert_eq!(m.parent.get(CLASS_SRC), "Foo");
                assert_eq!(m.name.get(CLASS_SRC), "get");
                assert_eq!(m.parameters.as_deref(), Some("()"));
                assert_eq!(m.suffix, "const");
                assert_eq!(m.body, MethodBody::Definition("{ return 1; }".to_string()));
                assert_eq!(m.return_type.as_ref().unwrap().to_string(), "int");
                assert_eq!(m.return_type.as_ref().unwrap().modifier, None);
                assert!(!m.is_static && !m.inline && !m.is_constexpr && !m.noexport);
                assert_eq!(m.get_sanitized_prefix(CLASS_SRC), "int");
            }
            _ => panic!("expected a method"),
        },
        _ => panic!("expected an implementation section"),
    }
}

#[test]
fn generate_class_with_public_method() {
    let tu = parse_translation_unit(CLASS_SRC, &vec![class_tree()]).unwrap();
    let triple = generate_cpp_triple("foo", Source::new(CLASS_SRC.to_string()), Vec::new(), tu);
    assert_eq!(triple.filename, "foo");
    assert_eq!(
        triple.public_header,
        format!("{BANNER}#pragma once\n\n//\n// INTERFACE definition follows\n//\n\n\n#line 2 \"foo\"\nclass Foo :\npublic Bar\n{{\npublic:\n\n#line 6 \"foo\"\n\tint\n\tget()const;\n}};\n")
    );
    assert_eq!(triple.private_header, format!("{BANNER}#pragma once\n#include \"foo.h\"\n"));
    assert_eq!(
        triple.implementation,
        format!("{BANNER}#include \"foo.h\"\n#include \"foo_i.h\"\n\n//\n// IMPLEMENTATION definition follows\n//\n\nint\nFoo::get()const\n{{ return 1; }}\n")
    );
}

const FUNCTION_SRC: &str = "#include <x.h>\nIMPLEMENTATION:\n#define X 1\nint\nf(int a)\n{ return a; }\n";

fn function_tree(extra: Vec<ParseNode>) -> ParseNode {
    let s = FUNCTION_SRC;
    let mut children = vec![
        return_type(s, "int", 0),
        leaf(s, "f", 1, Rule::identifier),
        leaf(s, "(int a)", 0, Rule::balanced_parentheses),
        leaf(s, "{ return a; }", 0, Rule::balanced_block),
    ];
    children.extend(extra);
    let function = at(s, "int\nf(int a)\n{ return a; }", 0, Rule::fpp_function, children);
    whole(s, Rule::translation_unit, vec![
        at(s, "#include <x.h>", 0, Rule::declaration, vec![leaf(s, "#include <x.h>", 0, Rule::preprocess_line)]),
        at(s, "IMPLEMENTATION:", 0, Rule::fpp_implementation_section, vec![
            at(s, "#define X 1", 0, Rule::declaration, vec![leaf(s, "#define X 1", 0, Rule::preprocess_line)]),
            at(s, "int\nf(int a)\n{ return a; }", 0, Rule::declaration, vec![function]),
        ]),
    ])
}

#[test]
fn generate_function_with_includes() {
    let tu = parse_translation_unit(FUNCTION_SRC, &vec![function_tree(vec![])]).unwrap();
    match &tu.sections[0] {
        FppSection::Implementation(data) => match &data.declarations[1] {
            Declaration::Function(f) => {
                assert_eq!(f.name.get(FUNCTION_SRC), "f");
                assert_eq!(f.body, "{ return a; }");
                assert_eq!(f.suffix, "");
                assert_eq!(f.get_prefix_span().get(FUNCTION_SRC), "int");
            }
            _ => panic!("expected a function"),
        },
        _ => panic!("expected an implementation section"),
    }
    let triple = generate_cpp_triple("g", Source::new(FUNCTION_SRC.to_string()), Vec::new(), tu);
    assert_eq!(
        triple.public_header,
        format!("{BANNER}#pragma once\n\n//\n// INTERFACE definition follows\n//\n\n\n#line 3 \"g\"\nint\nf(int a);\n\n//\n// IMPLEMENTATION includes follow (for use by inline functions/templates)\n//\n\n\n#line 0 \"g\"\n#include <x.h>\n")
    );
    assert_eq!(
        triple.implementation,
        format!("{BANNER}#include \"g.h\"\n#include \"g_i.h\"\n\n//\n// IMPLEMENTATION definition follows\n//\n\n\n#line 2 \"g\"\n#define X 1\n\n#line 3 \"g\"\nint\nf(int a)\n{{ return a; }}\n")
    );
}

#[test]
fn source_lines() {
    let s = Source::new("ab\ncd\n\nx".to_string());
    assert_eq!(s.line_beginnings, vec![0, 3, 6, 7]);
    assert_eq!(s.text(), "ab\ncd\n\nx");
    assert_eq!(s.line_at(0), 0);
    assert_eq!(s.line_at(2), 0);
    assert_eq!(s.line_at(3), 1);
    assert_eq!(s.line_at(6), 2);
    assert_eq!(s.line_at(100), 3);
}

#[test]
fn no_parse_tree_is_missing_translation_unit() {
    let e = err_of(parse_translation_unit("", &vec![]));
    assert!(matches!(e, ParseError::Missing("translation_unit")));
    assert_eq!(e.to_string(), "missing required grammar rule `translation_unit`");
}

#[test]
fn unexpected_child_of_translation_unit() {
    let s = "Foo";
    let e = err_of(parse_translation_unit(s, &vec![whole(s, Rule::translation_unit, vec![leaf(s, "Foo", 0, Rule::identifier)])]));
    match &e {
        ParseError::Unexpected { expected, found, source } => {
            assert_eq!(*expected, "declaration or FPP section");
            assert_eq!(*found, Rule::identifier);
            assert_eq!(source, "Foo");
        }
        _ => panic!("expected an unexpected-rule error"),
    }
    assert_eq!(e.to_string(), "expected declaration or FPP section, found identifier: \"Foo\"");
    assert_eq!(rule_name_str(Rule::quali_identifier_tmplt), format!("{:?}", Rule::quali_identifier_tmplt));
}

#[test]
fn declaration_without_child() {
    let s = "x";
    let e = err_of(parse_translation_unit(s, &vec![whole(s, Rule::translation_unit, vec![whole(s, Rule::declaration, vec![])])]));
    assert!(matches!(e, ParseError::Missing("declaration child")));
}

fn one_declaration(s: &str, child: ParseNode) -> Result<Declaration, ParseError> {
    let tree = whole(s, Rule::translation_unit, vec![whole(s, Rule::declaration, vec![child])]);
    let mut tu = parse_translation_unit(s, &vec![tree])?;
    Ok(tu.declarations.remove(0))
}

fn structure_message(e: ParseError) -> String {
    match e {
        ParseError::InvalidStructure(m) => m,
        other => panic!("expected a structure error, got {:?}", other),
    }
}

#[test]
fn class_needs_keyword_and_name() {
    let s = "union U {}";
    let e = err_of(one_declaration(s, whole(s, Rule::fpp_class_or_struct, vec![leaf(s, "U", 0, Rule::identifier)])));
    assert_eq!(structure_message(e), "class/struct declaration has no class or struct keyword");
    let s = "struct {}";
    let e = err_of(one_declaration(s, whole(s, Rule::fpp_class_or_struct, vec![])));
    assert!(matches!(e, ParseError::Missing("class/struct identifier")));
    let s = "EXTENSION struct S : B {}";
    match one_declaration(s, whole(s, Rule::fpp_class_or_struct, vec![
        leaf(s, "EXTENSION", 0, Rule::fpp_extension_specifier),
        leaf(s, "S", 1, Rule::identifier),
        leaf(s, " B ", 0, Rule::valid_class_or_struct_suffix_char_seq),
    ])).unwrap() {
        Declaration::ClassOrStruct(c) => {
            assert_eq!(c.kind, ClassOrStructKind::Struct);
            assert!(c.extension);
            assert_eq!(c.name.0, "S");
            assert_eq!(c.inheritance.as_deref(), Some("B"));
            assert_eq!(c.body, "");
        }
        _ => panic!("expected a struct"),
    }
}

fn method_node(s: &str, extra: Vec<ParseNode>) -> ParseNode {
    let mut children = vec![at(s, "A::f", 0, Rule::fpp_method_core, vec![
        at(s, "A", 0, Rule::fpp_parent_name, vec![ident_tmplt(s, "A", 0)]),
        at(s, "f", 0, Rule::fpp_method_name, vec![ident_tmplt(s, "f", 0)]),
    ])];
    children.extend(extra);
    whole(s, Rule::fpp_method, children)
}

#[test]
fn method_bodies() {
    let s = "A::f() = default;";
    match one_declaration(s, method_node(s, vec![leaf(s, "()", 0, Rule::balanced_parentheses)])).unwrap() {
        Declaration::Method(m) => {
            assert_eq!(m.body, MethodBody::Default);
            assert_eq!(m.body.to_string(), " = default;");
            assert_eq!(m.suffix, "=");
            assert!(m.return_type.is_none());
        }
        _ => panic!("expected a method"),
    }
    let s = "A::f() = delete; ";
    match one_declaration(s, method_node(s, vec![])).unwrap() {
        Declaration::Method(m) => assert_eq!(m.body, MethodBody::Delete),
        _ => panic!("expected a method"),
    }
    let s = "A::f();";
    let e = err_of(one_declaration(s, method_node(s, vec![])));
    assert_eq!(structure_message(e), "method has neither a body nor default/delete");
}

#[test]
fn method_specifiers_and_templates() {
    let s = "IMPLEMENT_OVERRIDE template<typename T> static inline T * A::f() {}";
    let extra = vec![
        leaf(s, "IMPLEMENT_OVERRIDE", 0, Rule::fpp_implement_specifier),
        at(s, "template<typename T>", 0, Rule::template, vec![leaf(s, "<typename T>", 0, Rule::balanced_angles)]),
        at(s, "T * ", 0, Rule::return_type, vec![at(s, "T", 1, Rule::quali_identifier_tmplt, vec![ident_tmplt(s, "T", 1)])]),
        leaf(s, "{}", 0, Rule::balanced_block),
    ];
    let s2 = s;
    match one_declaration(s2, method_node(s2, extra)).unwrap() {
        Declaration::Method(m) => {
            assert_eq!(m.implementation.map(|i| format!("{:?}", i)), Some("ImplementOverride".to_string()));
            assert_eq!(m.templates.len(), 1);
            assert_eq!(m.templates[0].arguments, "<typename T>");
            assert!(m.is_static && m.inline);
            assert_eq!(m.return_type.as_ref().unwrap().modifier, Some(TypeModifier::Pointer));
            assert_eq!(m.body.to_string(), "{}");
        }
        _ => panic!("expected a method"),
    }
}

#[test]
fn unknown_access_specifier() {
    let s = "PUBLICX A::f() {}";
    let e = err_of(one_declaration(s, method_node(s, vec![leaf(s, "PUBLICX", 0, Rule::fpp_access_specifier)])));
    assert_eq!(structure_message(e), "unknown access specifier \"PUBLICX\"");
}

#[test]
fn method_core_needs_parent() {
    let s = "f() {}";
    let node = whole(s, Rule::fpp_method, vec![at(s, "f", 0, Rule::fpp_method_core, vec![
        at(s, "f", 0, Rule::fpp_method_name, vec![ident_tmplt(s, "f", 0)]),
    ])]);
    assert!(matches!(err_of(one_declaration(s, node)), ParseError::Missing("method parent name")));
}

#[test]
fn dependencies() {
    let s = "int NEEDS [\"a.h\", b ] f() {}";
    let extra = vec![leaf(s, "NEEDS [\"a.h\", b ]", 0, Rule::fpp_dependency)];
    let func = whole(s, Rule::fpp_function, {
        let mut c = vec![return_type(s, "int", 0), leaf(s, "f", 0, Rule::identifier)];
        c.extend(extra);
        c
    });
    match one_declaration(s, func).unwrap() {
        Declaration::Function(f) => {
            assert_eq!(f.dependency.unwrap().expression, "\"a.h\", b");
            assert_eq!(f.parameters, None);
        }
        _ => panic!("expected a function"),
    }
    let s = "int NEEDS ]x[ f";
    let func = whole(s, Rule::fpp_function, vec![leaf(s, "NEEDS ]x[", 0, Rule::fpp_dependency)]);
    assert_eq!(structure_message(err_of(one_declaration(s, func))), "invalid NEEDS bracket range");
    let s = "int NEEDS x] f";
    let func = whole(s, Rule::fpp_function, vec![leaf(s, "NEEDS x]", 0, Rule::fpp_dependency)]);
    assert_eq!(structure_message(err_of(one_declaration(s, func))), "NEEDS has no opening bracket");
    let s = "int NEEDS [x f";
    let func = whole(s, Rule::fpp_function, vec![leaf(s, "NEEDS [x", 0, Rule::fpp_dependency)]);
    assert_eq!(structure_message(err_of(one_declaration(s, func))), "NEEDS has no closing bracket");
}

#[test]
fn function_needs_return_type_and_name() {
    let s = "f();";
    let e = err_of(one_declaration(s, whole(s, Rule::fpp_function, vec![leaf(s, "f", 0, Rule::identifier)])));
    assert!(matches!(e, ParseError::Missing("function return_type")));
    let s = "int ();";
    let e = err_of(one_declaration(s, whole(s, Rule::fpp_function, vec![return_type(s, "int", 0)])));
    assert!(matches!(e, ParseError::Missing("function name")));
}

#[test]
fn extern_c_and_verbatim() {
    let s = "extern \"C\" { int x; }";
    match one_declaration(s, whole(s, Rule::extern_c, vec![])).unwrap() {
        Declaration::ExternC(e) => assert_eq!(e.body, "{ int x; }"),
        _ => panic!("expected extern C"),
    }
    let s = "extern \"C\" int x;";
    assert_eq!(structure_message(err_of(one_declaration(s, whole(s, Rule::extern_c, vec![])))), "extern_c has no opening `{`");
    let s = "asm(\"nop\");";
    match one_declaration(s, whole(s, Rule::verbatim_copy, vec![])).unwrap() {
        Declaration::Verbatim(v) => assert_eq!(v, s),
        _ => panic!("expected verbatim text"),
    }
}

#[test]
fn spans() {
    let s = SourceSpan::new(2, 5);
    assert_eq!((s.start, s.end, s.len(), s.is_empty()), (2, 5, 3, false));
    assert_eq!(s.get("abcdefg"), "cde");
    let e = SourceSpan::new(4, 4);
    assert!(e.is_empty());
    assert_eq!(e.len(), 0);
    assert_eq!(sanitize_words("PUBLIC static\n  inline PRIVATE int *"), "static inline int *");
    assert_eq!(sanitize_words("PROTECTED"), "");
}

#[test]
fn identifiers_as_text() {
    let a = IdentifierTemplate { name: Identifier("vector".to_string()), template_arguments: Some("<int>".to_string()) };
    let b = IdentifierTemplate { name: Identifier("iterator".to_string()), template_arguments: None };
    assert_eq!(Identifier("x".to_string()).to_string(), "x");
    assert_eq!(a.to_string(), "vector<int>");
    let q = QualifiedIdentifier(vec![a, b]);
    assert_eq!(q.to_string(), "vector<int>::iterator");
    let r = ReturnType { name: q, modifier: Some(TypeModifier::Reference) };
    assert_eq!(r.to_string(), "vector<int>::iterator&");
    assert_eq!(MethodBody::Delete.to_string(), " = delete;");
}

#[test]
fn every_line_start_is_in_its_own_line() {
    let s = Source::new("x\n\nyy\nz\n".to_string());
    for (k, start) in s.line_beginnings.clone().into_iter().enumerate() {
        assert_eq!(s.line_at(start), k);
    }
}

#[test]
fn spans_of_unprinted_methods_are_not_read() {
    let mut tu = parse_translation_unit(CLASS_SRC, &vec![class_tree()]).unwrap();
    match &mut tu.sections[1] {
        FppSection::Implementation(data) => match &mut data.declarations[0] {
            Declaration::Method(m) => {
                m.access = Some(AccessSpecifier::Private);
                m.name = SourceSpan { start: 1000, end: 2000 };
            }
            _ => panic!("expected a method"),
        },
        _ => panic!("expected an implementation section"),
    }
    let triple = generate_cpp_triple("foo", Source::new(CLASS_SRC.to_string()), Vec::new(), tu);
    assert_eq!(
        triple.public_header,
        format!("{BANNER}#pragma once\n\n//\n// INTERFACE definition follows\n//\n\n\n#line 2 \"foo\"\nclass Foo :\npublic Bar\n{{\npublic:\n}};\n")
    );
    assert_eq!(
        triple.implementation,
        format!("{BANNER}#include \"foo.h\"\n#include \"foo_i.h\"\n\n//\n// IMPLEMENTATION definition follows\n//\n\n")
    );
}
