//! Building the syntax tree of a Fiasco source file from the parse tree
//! that its grammar produces.

use vstd::prelude::*;
use vstd::string::*;
use vstd::utf8::*;
use crate::text::{
    str_eq, str_slice, str_suffix, trim_str, trim_end_str, trim_chars, trim_end_chars, ends_with_str,
    contains_str, has_suffix, occurs_in, lemma_ascii_boundary, lemma_view_is_decoded_bytes, lemma_next_boundary, utf8_width,
};
use crate::preprocess::ast::{
    SourceSpan, PestSpanExt, AccessSpecifier, ImplementSpecifier, Dependency, Template, Identifier,
    IdentifierTemplate, QualifiedIdentifier, ReturnType, TypeModifier, IdentifierTemplateView,
    identifier_template_view, qualified_view, ReturnTypeView, return_type_view, ClassOrStruct,
    ClassOrStructKind, ClassOrStructView, class_or_struct_view, Method, opt_text, Function,
    FunctionView, function_view, templates_view, dependency_view, opt_return_type_view,
    attributes_view, MethodBody, MethodBodyView, MethodView, method_view, Declaration,
    DeclarationView, declaration_view, declarations_view, ExternC, FppSection, FppSectionData,
    FppSectionDataView, FppSectionView, section_data_view, section_view, TranslationUnit,
    TranslationUnitView, translation_unit_view,
};
use crate::preprocess::scan::{
    extract_attributes, contains_token, extract_function_suffix, extract_method_suffix,
    attributes_from, attribute_texts, keyword_from, function_suffix, method_suffix, byte_from,
    find_byte,
};

verus! {

/// The rules of the Fiasco preprocess grammar that the tree builder meets.
#[allow(non_camel_case_types)]
#[derive(Debug, Clone, Copy, PartialEq, Eq, Hash, Structural)]
pub enum Rule {
    EOI,
    translation_unit,
    declaration,
    fpp_interface_section,
    fpp_implementation_section,
    preprocess_line,
    fpp_class_or_struct,
    fpp_function,
    fpp_method,
    extern_c,
    verbatim_copy,
    fpp_extension_specifier,
    valid_class_or_struct_prefix_char_seq,
    identifier,
    valid_class_or_struct_suffix_char_seq,
    balanced_block,
    template,
    fpp_noexport,
    fpp_dependency,
    return_type,
    operator,
    balanced_parentheses,
    balanced_angles,
    fpp_access_specifier,
    fpp_implement_specifier,
    fpp_method_core,
    fpp_parent_name,
    fpp_method_name,
    identifier_tmplt,
    quali_identifier_tmplt,
}

/// Names the Fiasco preprocess grammar, whose parse trees reach the library
/// as [`ParseNode`] values.
pub struct FPPParser;

/// A node of the parse tree: the rule it matched, the span of source text
/// it covers and its children in order.
pub struct ParseNode {
    pub rule: Rule,
    pub span: SourceSpan,
    pub children: Vec<ParseNode>,
}

impl PestSpanExt for ParseNode {
    /// The span of source text the node matched.
    fn source_span(&self) -> (r: SourceSpan)
        ensures
            r == self.span,
    {
        self.span
    }
}

/// The spans of a node and of all nodes below it lie within the text.
pub open spec fn node_ok(n: ParseNode, tb: Seq<u8>) -> bool
    decreases n, 1nat,
{
    &&& n.span.valid_in(tb)
    &&& children_ok(n.children@, tb)
}

/// The spans of the nodes of `ch` and of all nodes below them lie within the
/// text.
pub open spec fn children_ok(ch: Seq<ParseNode>, tb: Seq<u8>) -> bool
    decreases ch, 0nat,
{
    if ch.len() == 0 {
        true
    } else {
        &&& node_ok(ch.last(), tb)
        &&& children_ok(ch.drop_last(), tb)
    }
}

/// Every node of a sequence whose spans lie within the text has its spans
/// within the text.
proof fn lemma_children_ok(ch: Seq<ParseNode>, tb: Seq<u8>, i: int)
    requires
        children_ok(ch, tb),
        0 <= i < ch.len(),
    ensures
        node_ok(ch[i], tb),
    decreases ch.len(),
{
    if i < ch.len() - 1 {
        assert(ch.drop_last()[i] == ch[i]);
        lemma_children_ok(ch.drop_last(), tb, i);
    }
}

/// The children of a node whose spans lie within the text do so too.
pub proof fn lemma_child_ok(n: ParseNode, tb: Seq<u8>, i: int)
    requires
        node_ok(n, tb),
        0 <= i < n.children@.len(),
    ensures
        node_ok(n.children@[i], tb),
        n.children@[i].span.valid_in(tb),
{
    lemma_children_ok(n.children@, tb, i);
}

/// The text a node covers.
pub open spec fn node_text(n: ParseNode, tb: Seq<u8>) -> Seq<char> {
    n.span.text_in(tb)
}

/// The bytes a node covers.
pub open spec fn node_bytes(n: ParseNode, tb: Seq<u8>) -> Seq<u8> {
    tb.subrange(n.span.start as int, n.span.end as int)
}

/// Why building the syntax tree failed.
#[derive(Debug)]
pub enum ParseError {
    Missing(&'static str),
    Unexpected { expected: &'static str, found: Rule, source: String },
    InvalidOperator(String),
    InvalidIdentifier(String),
    InvalidStructure(String),
}

/// A failure, with its texts.
pub enum ParseErrorView {
    Missing(Seq<char>),
    Unexpected { expected: Seq<char>, found: Rule, source: Seq<char> },
    InvalidOperator(Seq<char>),
    InvalidIdentifier(Seq<char>),
    InvalidStructure(Seq<char>),
}

impl View for ParseError {
    type V = ParseErrorView;

    open spec fn view(&self) -> ParseErrorView {
        match self {
            ParseError::Missing(s) => ParseErrorView::Missing(s@),
            ParseError::Unexpected { expected, found, source } => ParseErrorView::Unexpected {
                expected: expected@,
                found: *found,
                source: source@,
            },
            ParseError::InvalidOperator(s) => ParseErrorView::InvalidOperator(s@),
            ParseError::InvalidIdentifier(s) => ParseErrorView::InvalidIdentifier(s@),
            ParseError::InvalidStructure(s) => ParseErrorView::InvalidStructure(s@),
        }
    }
}

/// The model of a result: its value taken by `f`, its error by its view.
pub open spec fn result_view<T, V>(r: Result<T, ParseError>, f: spec_fn(T) -> V) -> Result<
    V,
    ParseErrorView,
> {
    match r {
        Ok(t) => Ok(f(t)),
        Err(e) => Err(e@),
    }
}

/// The failure for a child whose rule does not belong where it stands.
pub open spec fn unexpected(expected: Seq<char>, c: ParseNode, tb: Seq<u8>) -> ParseErrorView {
    ParseErrorView::Unexpected { expected, found: c.rule, source: node_text(c, tb) }
}

/// `{:?}` of a string: the text in double quotes, with escapes.
pub uninterp spec fn debug_text(s: Seq<char>) -> Seq<char>;

/// `<str as Debug>::fmt`: the string quoted and escaped, as `{:?}` prints
/// it; the escaping itself is left to std and only named here.
#[verifier::external_body]
fn debug_quoted(s: &str) -> (r: String)
    ensures
        r@ == debug_text(s@),
{
    format!("{:?}", s)
}

/// The first child at or after `i` that matched `rule`.
pub open spec fn first_rule_from(ch: Seq<ParseNode>, rule: Rule, i: int) -> Option<int>
    decreases ch.len() - i,
{
    if i < 0 || i >= ch.len() {
        None
    } else if ch[i].rule == rule {
        Some(i)
    } else {
        first_rule_from(ch, rule, i + 1)
    }
}

/// The child that `first_rule_from` finds matched the rule.
proof fn lemma_first_rule(ch: Seq<ParseNode>, rule: Rule, i: int)
    requires
        first_rule_from(ch, rule, i) is Some,
    ensures
        i <= first_rule_from(ch, rule, i)->0 < ch.len(),
        ch[first_rule_from(ch, rule, i)->0].rule == rule,
    decreases ch.len() - i,
{
    if 0 <= i < ch.len() && ch[i].rule != rule {
        lemma_first_rule(ch, rule, i + 1);
    }
}

/// The position of the first child that matched `rule`.
fn find_child(node: &ParseNode, rule: Rule) -> (r: Option<usize>)
    ensures
        r matches Some(i) ==> first_rule_from(node.children@, rule, 0) == Some(i as int) && i
            < node.children@.len() && node.children@[i as int].rule == rule,
        r is None ==> first_rule_from(node.children@, rule, 0) is None,
{
    let mut i: usize = 0;
    while i < node.children.len()
        invariant
            i <= node.children@.len(),
            first_rule_from(node.children@, rule, i as int) == first_rule_from(node.children@, rule, 0),
        decreases node.children@.len() - i,
    {
        if node.children[i].rule == rule {
            return Some(i);
        }
        i = i + 1;
    }
    None
}

/// The access specifier that `t` names.
pub open spec fn access_spec(t: Seq<char>) -> Result<AccessSpecifier, ParseErrorView> {
    if t == "PRIVATE"@ {
        Ok(AccessSpecifier::Private)
    } else if t == "PROTECTED"@ {
        Ok(AccessSpecifier::Protected)
    } else if t == "PUBLIC"@ {
        Ok(AccessSpecifier::Public)
    } else {
        Err(ParseErrorView::InvalidStructure("unknown access specifier "@ + debug_text(t)))
    }
}

/// Each access specifier is named by exactly one word: `PUBLIC` names
/// public access, `PROTECTED` protected access and `PRIVATE` private
/// access, and any other text names none.
pub proof fn lemma_access_specifier_words(t: Seq<char>)
    ensures
        access_spec(t) == Ok::<AccessSpecifier, ParseErrorView>(AccessSpecifier::Public) <==> t == "PUBLIC"@,
        access_spec(t) == Ok::<AccessSpecifier, ParseErrorView>(AccessSpecifier::Protected) <==> t == "PROTECTED"@,
        access_spec(t) == Ok::<AccessSpecifier, ParseErrorView>(AccessSpecifier::Private) <==> t == "PRIVATE"@,
        access_spec(t) is Err <==> (t != "PUBLIC"@ && t != "PROTECTED"@ && t != "PRIVATE"@),
{
    reveal_strlit("PUBLIC");
    reveal_strlit("PROTECTED");
    reveal_strlit("PRIVATE");
    assert("PUBLIC"@ != "PROTECTED"@) by {
        assert("PUBLIC"@.len() != "PROTECTED"@.len());
    }
    assert("PUBLIC"@ != "PRIVATE"@) by {
        assert("PUBLIC"@[1] != "PRIVATE"@[1]);
    }
    assert("PROTECTED"@ != "PRIVATE"@) by {
        assert("PROTECTED"@.len() != "PRIVATE"@.len());
    }
}

/// `PRIVATE`, `PROTECTED` or `PUBLIC`.
fn parse_access_specifier(source: &str, node: &ParseNode) -> (r: Result<AccessSpecifier, ParseError>)
    requires
        node_ok(*node, source.spec_bytes()),
    ensures
        result_view(r, |a: AccessSpecifier| a) == access_spec(node_text(*node, source.spec_bytes())),
{
    let text = node.span.get(source);
    if str_eq(text, "PRIVATE") {
        Ok(AccessSpecifier::Private)
    } else if str_eq(text, "PROTECTED") {
        Ok(AccessSpecifier::Protected)
    } else if str_eq(text, "PUBLIC") {
        Ok(AccessSpecifier::Public)
    } else {
        let mut message = String::from_str("unknown access specifier ");
        let quoted = debug_quoted(text);
        message.append(quoted.as_str());
        Err(ParseError::InvalidStructure(message))
    }
}

/// The implementation specifier that `t` names.
pub open spec fn implement_spec(t: Seq<char>) -> Result<ImplementSpecifier, ParseErrorView> {
    if t == "IMPLEMENT"@ {
        Ok(ImplementSpecifier::Implement)
    } else if t == "IMPLEMENT_DEFAULT"@ {
        Ok(ImplementSpecifier::ImplementDefault)
    } else if t == "IMPLEMENT_OVERRIDE"@ {
        Ok(ImplementSpecifier::ImplementOverride)
    } else {
        Err(ParseErrorView::InvalidStructure("unknown implementation specifier "@ + debug_text(t)))
    }
}

/// `IMPLEMENT`, `IMPLEMENT_DEFAULT` or `IMPLEMENT_OVERRIDE`.
fn parse_implement_specifier(source: &str, node: &ParseNode) -> (r: Result<
    ImplementSpecifier,
    ParseError,
>)
    requires
        node_ok(*node, source.spec_bytes()),
    ensures
        result_view(r, |a: ImplementSpecifier| a) == implement_spec(
            node_text(*node, source.spec_bytes()),
        ),
{
    let text = node.span.get(source);
    if str_eq(text, "IMPLEMENT") {
        Ok(ImplementSpecifier::Implement)
    } else if str_eq(text, "IMPLEMENT_DEFAULT") {
        Ok(ImplementSpecifier::ImplementDefault)
    } else if str_eq(text, "IMPLEMENT_OVERRIDE") {
        Ok(ImplementSpecifier::ImplementOverride)
    } else {
        let mut message = String::from_str("unknown implementation specifier ");
        let quoted = debug_quoted(text);
        message.append(quoted.as_str());
        Err(ParseError::InvalidStructure(message))
    }
}

/// The index of the last byte `x` of `b`.
pub open spec fn last_byte(b: Seq<u8>, x: u8) -> Option<int>
    decreases b.len(),
{
    if b.len() == 0 {
        None
    } else if b.last() == x {
        Some(b.len() - 1)
    } else {
        last_byte(b.drop_last(), x)
    }
}

/// `str::rfind` for an ASCII character: the index of its last byte.
fn rfind_byte(s: &str, x: u8) -> (r: Option<usize>)
    ensures
        r matches Some(i) ==> last_byte(s.spec_bytes(), x) == Some(i as int) && i
            < s.spec_bytes().len() && s.spec_bytes()[i as int] == x,
        r is None ==> last_byte(s.spec_bytes(), x) is None,
{
    let b = s.as_bytes();
    let mut i: usize = b.len();
    assert(b@.take(i as int) =~= b@);
    while i > 0
        invariant
            b@ == s.spec_bytes(),
            i <= b@.len(),
            last_byte(b@, x) == last_byte(b@.take(i as int), x),
        decreases i,
    {
        assert(b@.take(i as int).drop_last() =~= b@.take(i - 1));
        if b[i - 1] == x {
            return Some(i - 1);
        }
        i = i - 1;
    }
    None
}

/// The expression between the first `[` and the last `]` of a `NEEDS`
/// annotation, trimmed.
pub open spec fn dependency_spec(n: ParseNode, tb: Seq<u8>) -> Result<Seq<char>, ParseErrorView> {
    let b = node_bytes(n, tb);
    match byte_from(b, 91, 0) {
        None => Err(ParseErrorView::InvalidStructure("NEEDS has no opening bracket"@)),
        Some(open) => match last_byte(b, 93) {
            None => Err(ParseErrorView::InvalidStructure("NEEDS has no closing bracket"@)),
            Some(close) => if close <= open {
                Err(ParseErrorView::InvalidStructure("invalid NEEDS bracket range"@))
            } else {
                Ok(trim_chars(decode_utf8(b.subrange(open + 1, close))))
            },
        },
    }
}

/// A `NEEDS [...]` annotation.
fn parse_dependency(source: &str, node: &ParseNode) -> (r: Result<Dependency, ParseError>)
    requires
        node.rule == Rule::fpp_dependency,
        node_ok(*node, source.spec_bytes()),
    ensures
        result_view(r, |d: Dependency| d.expression@) == dependency_spec(*node, source.spec_bytes()),
{
    let text = node.span.get(source);
    let open = match find_byte(text, 91) {
        Some(o) => o,
        None => {
            return Err(ParseError::InvalidStructure(String::from_str("NEEDS has no opening bracket")));
        },
    };
    let close = match rfind_byte(text, 93) {
        Some(c) => c,
        None => {
            return Err(ParseError::InvalidStructure(String::from_str("NEEDS has no closing bracket")));
        },
    };
    if close <= open {
        return Err(ParseError::InvalidStructure(String::from_str("invalid NEEDS bracket range")));
    }
    proof {
        lemma_ascii_boundary(text, open as int);
        lemma_view_is_decoded_bytes(text);
        lemma_next_boundary(text.spec_bytes(), open as int);
        lemma_ascii_boundary(text, close as int);
    }
    let inner = str_slice(text, open + 1, close);
    let expression = trim_str(inner);
    Ok(Dependency { expression: expression.to_owned() })
}

/// The arguments of a template: the text of its first `balanced_angles`
/// child.
pub open spec fn template_spec(n: ParseNode, tb: Seq<u8>) -> Result<Seq<char>, ParseErrorView> {
    match first_rule_from(n.children@, Rule::balanced_angles, 0) {
        Some(i) => Ok(node_text(n.children@[i], tb)),
        None => Err(ParseErrorView::Missing("template balanced_angles"@)),
    }
}

/// A `template <...>` prefix.
fn parse_template(source: &str, node: &ParseNode) -> (r: Result<Template, ParseError>)
    requires
        node.rule == Rule::template,
        node_ok(*node, source.spec_bytes()),
    ensures
        result_view(r, |t: Template| t.arguments@) == template_spec(*node, source.spec_bytes()),
{
    match find_child(node, Rule::balanced_angles) {
        Some(i) => {
            proof { lemma_child_ok(*node, source.spec_bytes(), i as int); }
            let text = node.children[i].span.get(source);
            Ok(Template { arguments: text.to_owned() })
        },
        None => Err(ParseError::Missing("template balanced_angles")),
    }
}

/// An identifier from the first child, with the text of the second child
/// as template arguments when there is one.
pub open spec fn identifier_template_spec(n: ParseNode, tb: Seq<u8>) -> Result<
    IdentifierTemplateView,
    ParseErrorView,
> {
    if n.children@.len() == 0 {
        Err(ParseErrorView::Missing("identifier"@))
    } else {
        Ok(
            IdentifierTemplateView {
                name: node_text(n.children@[0], tb),
                template_arguments: if n.children@.len() > 1 {
                    Some(node_text(n.children@[1], tb))
                } else {
                    None
                },
            },
        )
    }
}

/// An identifier with optional template arguments.
fn parse_identifier_template(source: &str, node: &ParseNode) -> (r: Result<
    IdentifierTemplate,
    ParseError,
>)
    requires
        node.rule == Rule::identifier_tmplt,
        node_ok(*node, source.spec_bytes()),
    ensures
        result_view(r, |t: IdentifierTemplate| identifier_template_view(t))
            == identifier_template_spec(*node, source.spec_bytes()),
{
    if node.children.len() == 0 {
        return Err(ParseError::Missing("identifier"));
    }
    proof { lemma_child_ok(*node, source.spec_bytes(), 0); }
    let name = node.children[0].span.get(source).to_owned();
    let template_arguments = if node.children.len() > 1 {
        proof { lemma_child_ok(*node, source.spec_bytes(), 1); }
        Some(node.children[1].span.get(source).to_owned())
    } else {
        None
    };
    Ok(IdentifierTemplate { name: Identifier(name), template_arguments })
}

/// The components of a qualified identifier: the `identifier_tmplt`
/// children from `i` on, in order; the first that fails decides.
pub open spec fn qualified_from(ch: Seq<ParseNode>, tb: Seq<u8>, i: int) -> Result<
    Seq<IdentifierTemplateView>,
    ParseErrorView,
>
    decreases ch.len() - i,
{
    if i < 0 || i >= ch.len() {
        Ok(seq![])
    } else if ch[i].rule == Rule::identifier_tmplt {
        match identifier_template_spec(ch[i], tb) {
            Err(e) => Err(e),
            Ok(t) => match qualified_from(ch, tb, i + 1) {
                Err(e) => Err(e),
                Ok(rest) => Ok(seq![t] + rest),
            },
        }
    } else {
        qualified_from(ch, tb, i + 1)
    }
}

/// A `::`-separated identifier.
fn parse_qualified_identifier(source: &str, node: &ParseNode) -> (r: Result<
    QualifiedIdentifier,
    ParseError,
>)
    requires
        node.rule == Rule::quali_identifier_tmplt,
        node_ok(*node, source.spec_bytes()),
    ensures
        result_view(r, |q: QualifiedIdentifier| qualified_view(q.0@)) == qualified_from(
            node.children@,
            source.spec_bytes(),
            0,
        ),
{
    let ghost tb = source.spec_bytes();
    let ghost ch = node.children@;
    let mut components: Vec<IdentifierTemplate> = Vec::new();
    let mut i: usize = 0;
    while i < node.children.len()
        invariant
            tb == source.spec_bytes(),
            ch == node.children@,
            node_ok(*node, tb),
            i <= ch.len(),
            qualified_from(ch, tb, 0) == match qualified_from(ch, tb, i as int) {
                Ok(rest) => Ok(qualified_view(components@) + rest),
                Err(e) => Err(e),
            },
        decreases ch.len() - i,
    {
        let child = &node.children[i];
        proof { lemma_child_ok(*node, tb, i as int); }
        if child.rule == Rule::identifier_tmplt {
            match parse_identifier_template(source, child) {
                Ok(t) => {
                    let ghost before = components@;
                    components.push(t);
                    assert(qualified_view(components@) =~= qualified_view(before).push(
                        identifier_template_view(t),
                    ));
                    proof {
                        match qualified_from(ch, tb, i + 1) {
                            Ok(rest) => {
                                assert(qualified_view(before) + (seq![identifier_template_view(t)] + rest)
                                    =~= qualified_view(components@) + rest);
                            },
                            Err(e) => {},
                        }
                    }
                },
                Err(e) => {
                    return Err(e);
                },
            }
        }
        i = i + 1;
    }
    assert(qualified_view(components@) + seq![] =~= qualified_view(components@));
    Ok(QualifiedIdentifier(components))
}

/// A return type: the qualified identifier of its first
/// `quali_identifier_tmplt` child, with the `*` or `&` that ends it.
pub open spec fn return_type_spec(n: ParseNode, tb: Seq<u8>) -> Result<ReturnTypeView, ParseErrorView> {
    match first_rule_from(n.children@, Rule::quali_identifier_tmplt, 0) {
        None => Err(ParseErrorView::Missing("qualified return type"@)),
        Some(i) => match qualified_from(n.children@[i].children@, tb, 0) {
            Err(e) => Err(e),
            Ok(name) => {
                let t = trim_end_chars(node_text(n, tb));
                Ok(
                    ReturnTypeView {
                        name,
                        modifier: if has_suffix(t, "*"@) {
                            Some(TypeModifier::Pointer)
                        } else if has_suffix(t, "&"@) {
                            Some(TypeModifier::Reference)
                        } else {
                            None
                        },
                    },
                )
            },
        },
    }
}

/// The return type of a function or method.
fn parse_return_type(source: &str, node: &ParseNode) -> (r: Result<ReturnType, ParseError>)
    requires
        node.rule == Rule::return_type,
        node_ok(*node, source.spec_bytes()),
    ensures
        result_view(r, |t: ReturnType| return_type_view(t)) == return_type_spec(
            *node,
            source.spec_bytes(),
        ),
{
    let ghost tb = source.spec_bytes();
    let text = node.span.get(source);
    let i = match find_child(node, Rule::quali_identifier_tmplt) {
        Some(i) => i,
        None => {
            return Err(ParseError::Missing("qualified return type"));
        },
    };
    proof { lemma_child_ok(*node, tb, i as int); }
    let name = match parse_qualified_identifier(source, &node.children[i]) {
        Ok(q) => q,
        Err(e) => {
            return Err(e);
        },
    };
    let trimmed = trim_end_str(text);
    let modifier = if ends_with_str(trimmed, "*") {
        Some(TypeModifier::Pointer)
    } else if ends_with_str(trimmed, "&") {
        Some(TypeModifier::Reference)
    } else {
        None
    };
    Ok(ReturnType { name, modifier })
}

/// The class named by the first child of a method's parent name.
pub open spec fn parent_name_spec(n: ParseNode, tb: Seq<u8>) -> Result<SourceSpan, ParseErrorView> {
    if n.children@.len() == 0 {
        Err(ParseErrorView::Missing("method parent child"@))
    } else if n.children@[0].rule == Rule::identifier_tmplt {
        Ok(n.children@[0].span)
    } else {
        Err(unexpected("identifier template"@, n.children@[0], tb))
    }
}

/// The class a method belongs to.
fn parse_parent_name(source: &str, node: &ParseNode) -> (r: Result<SourceSpan, ParseError>)
    requires
        node.rule == Rule::fpp_parent_name,
        node_ok(*node, source.spec_bytes()),
    ensures
        result_view(r, |s: SourceSpan| s) == parent_name_spec(*node, source.spec_bytes()),
{
    if node.children.len() == 0 {
        return Err(ParseError::Missing("method parent child"));
    }
    let child = &node.children[0];
    if child.rule == Rule::identifier_tmplt {
        Ok(child.span)
    } else {
        proof {
            lemma_child_ok(*node, source.spec_bytes(), 0);
        }
        Err(
            ParseError::Unexpected {
                expected: "identifier template",
                found: child.rule,
                source: child.span.get(source).to_owned(),
            },
        )
    }
}

/// The name of a method: its first child, an operator or an identifier.
pub open spec fn method_name_spec(n: ParseNode, tb: Seq<u8>) -> Result<SourceSpan, ParseErrorView> {
    if n.children@.len() == 0 {
        Err(ParseErrorView::Missing("method name child"@))
    } else if n.children@[0].rule == Rule::operator || n.children@[0].rule == Rule::identifier_tmplt {
        Ok(n.children@[0].span)
    } else {
        Err(unexpected("operator or identifier template"@, n.children@[0], tb))
    }
}

/// The name of a method.
fn parse_method_name(source: &str, node: &ParseNode) -> (r: Result<SourceSpan, ParseError>)
    requires
        node.rule == Rule::fpp_method_name,
        node_ok(*node, source.spec_bytes()),
    ensures
        result_view(r, |s: SourceSpan| s) == method_name_spec(*node, source.spec_bytes()),
{
    if node.children.len() == 0 {
        return Err(ParseError::Missing("method name child"));
    }
    let child = &node.children[0];
    match child.rule {
        Rule::operator => Ok(child.span),
        Rule::identifier_tmplt => Ok(child.span),
        _ => {
            proof {
                lemma_child_ok(*node, source.spec_bytes(), 0);
            }
            Err(
                ParseError::Unexpected {
                    expected: "operator or identifier template",
                    found: child.rule,
                    source: child.span.get(source).to_owned(),
                },
            )
        },
    }
}

/// The parent and name of a method as far as the children read so far
/// give them.
pub struct MethodCoreParts {
    pub parent: Option<SourceSpan>,
    pub name: Option<SourceSpan>,
}

/// The parent and name of a method after its children from `i` on; the
/// last of each kind counts.
pub open spec fn method_core_from(p: MethodCoreParts, ch: Seq<ParseNode>, tb: Seq<u8>, i: int) -> Result<
    MethodCoreParts,
    ParseErrorView,
>
    decreases ch.len() - i,
{
    if i < 0 || i >= ch.len() {
        Ok(p)
    } else {
        let c = ch[i];
        if c.rule == Rule::fpp_parent_name {
            match parent_name_spec(c, tb) {
                Err(e) => Err(e),
                Ok(s) => method_core_from(MethodCoreParts { parent: Some(s), ..p }, ch, tb, i + 1),
            }
        } else if c.rule == Rule::fpp_method_name {
            match method_name_spec(c, tb) {
                Err(e) => Err(e),
                Ok(s) => method_core_from(MethodCoreParts { name: Some(s), ..p }, ch, tb, i + 1),
            }
        } else {
            Err(unexpected("method core component"@, c, tb))
        }
    }
}

/// The parent class and the name of a method.
pub open spec fn method_core_spec(n: ParseNode, tb: Seq<u8>) -> Result<(SourceSpan, SourceSpan), ParseErrorView> {
    match method_core_from(MethodCoreParts { parent: None, name: None }, n.children@, tb, 0) {
        Err(e) => Err(e),
        Ok(p) => match p.parent {
            None => Err(ParseErrorView::Missing("method parent name"@)),
            Some(parent) => match p.name {
                None => Err(ParseErrorView::Missing("method name"@)),
                Some(name) => Ok((parent, name)),
            },
        },
    }
}

/// `Parent::name` of a method.
fn parse_method_core(source: &str, node: &ParseNode) -> (r: Result<(SourceSpan, SourceSpan), ParseError>)
    requires
        node.rule == Rule::fpp_method_core,
        node_ok(*node, source.spec_bytes()),
    ensures
        result_view(r, |p: (SourceSpan, SourceSpan)| p) == method_core_spec(*node, source.spec_bytes()),
{
    let ghost tb = source.spec_bytes();
    let ghost ch = node.children@;
    let mut parent: Option<SourceSpan> = None;
    let mut name: Option<SourceSpan> = None;
    let mut i: usize = 0;
    while i < node.children.len()
        invariant
            tb == source.spec_bytes(),
            ch == node.children@,
            node_ok(*node, tb),
            i <= ch.len(),
            method_core_from(MethodCoreParts { parent, name }, ch, tb, i as int) == method_core_from(
                MethodCoreParts { parent: None, name: None },
                ch,
                tb,
                0,
            ),
        decreases ch.len() - i,
    {
        let child = &node.children[i];
        proof {
            lemma_child_ok(*node, tb, i as int);
        }
        match child.rule {
            Rule::fpp_parent_name => {
                match parse_parent_name(source, child) {
                    Ok(s) => {
                        parent = Some(s);
                    },
                    Err(e) => {
                        return Err(e);
                    },
                }
            },
            Rule::fpp_method_name => {
                match parse_method_name(source, child) {
                    Ok(s) => {
                        name = Some(s);
                    },
                    Err(e) => {
                        return Err(e);
                    },
                }
            },
            _ => {
                return Err(
                    ParseError::Unexpected {
                        expected: "method core component",
                        found: child.rule,
                        source: child.span.get(source).to_owned(),
                    },
                );
            },
        }
        i = i + 1;
    }
    let parent = match parent {
        Some(p) => p,
        None => {
            return Err(ParseError::Missing("method parent name"));
        },
    };
    let name = match name {
        Some(n) => n,
        None => {
            return Err(ParseError::Missing("method name"));
        },
    };
    Ok((parent, name))
}

/// The block of an `extern "C"` declaration: its text from the first `{`.
pub open spec fn extern_c_spec(n: ParseNode, tb: Seq<u8>) -> Result<Seq<char>, ParseErrorView> {
    let b = node_bytes(n, tb);
    match byte_from(b, 123, 0) {
        None => Err(ParseErrorView::InvalidStructure("extern_c has no opening `{`"@)),
        Some(i) => Ok(decode_utf8(b.subrange(i, b.len() as int))),
    }
}

/// The block of an `extern "C"` declaration, from its `{` on.
fn parse_extern_c(source: &str, node: &ParseNode) -> (r: Result<String, ParseError>)
    requires
        node.rule == Rule::extern_c,
        node_ok(*node, source.spec_bytes()),
    ensures
        result_view(r, |s: String| s@) == extern_c_spec(*node, source.spec_bytes()),
{
    let text = node.span.get(source);
    let start = match find_byte(text, 123) {
        Some(i) => i,
        None => {
            return Err(ParseError::InvalidStructure(String::from_str("extern_c has no opening `{`")));
        },
    };
    proof {
        lemma_ascii_boundary(text, start as int);
    }
    Ok(str_suffix(text, start).to_owned())
}

/// A class or struct declaration as far as the children read so far give
/// it.
pub struct ClassParts {
    pub extension: bool,
    pub name: Option<Seq<char>>,
    pub inheritance: Option<Seq<char>>,
    pub body: Seq<char>,
}

/// A class or struct declaration after its children from `i` on: an
/// extension marker, the name, the base classes (trimmed) and the body; the
/// last of each kind counts.
pub open spec fn class_from(p: ClassParts, ch: Seq<ParseNode>, tb: Seq<u8>, i: int) -> Result<
    ClassParts,
    ParseErrorView,
>
    decreases ch.len() - i,
{
    if i < 0 || i >= ch.len() {
        Ok(p)
    } else {
        let c = ch[i];
        let t = node_text(c, tb);
        if c.rule == Rule::fpp_extension_specifier {
            class_from(ClassParts { extension: true, ..p }, ch, tb, i + 1)
        } else if c.rule == Rule::valid_class_or_struct_prefix_char_seq {
            class_from(p, ch, tb, i + 1)
        } else if c.rule == Rule::identifier {
            class_from(ClassParts { name: Some(t), ..p }, ch, tb, i + 1)
        } else if c.rule == Rule::valid_class_or_struct_suffix_char_seq {
            class_from(ClassParts { inheritance: Some(trim_chars(t)), ..p }, ch, tb, i + 1)
        } else if c.rule == Rule::balanced_block {
            class_from(ClassParts { body: t, ..p }, ch, tb, i + 1)
        } else {
            Err(unexpected("class/struct component"@, c, tb))
        }
    }
}

/// A class or struct declaration: `class` if its text holds `class`, else
/// `struct` if it holds `struct`.
pub open spec fn class_or_struct_spec(n: ParseNode, tb: Seq<u8>) -> Result<ClassOrStructView, ParseErrorView> {
    let t = node_text(n, tb);
    match class_from(ClassParts { extension: false, name: None, inheritance: None, body: seq![] }, n.children@, tb, 0) {
        Err(e) => Err(e),
        Ok(p) => if !occurs_in(t, "class"@) && !occurs_in(t, "struct"@) {
            Err(ParseErrorView::InvalidStructure("class/struct declaration has no class or struct keyword"@))
        } else {
            match p.name {
                None => Err(ParseErrorView::Missing("class/struct identifier"@)),
                Some(name) => Ok(
                    ClassOrStructView {
                        span: n.span,
                        kind: if occurs_in(t, "class"@) {
                            ClassOrStructKind::Class
                        } else {
                            ClassOrStructKind::Struct
                        },
                        extension: p.extension,
                        name,
                        inheritance: p.inheritance,
                        body: p.body,
                        additional_methods: seq![],
                    },
                ),
            }
        },
    }
}

/// A class or struct declaration.
fn parse_class_or_struct(source: &str, node: &ParseNode) -> (r: Result<ClassOrStruct, ParseError>)
    requires
        node.rule == Rule::fpp_class_or_struct,
        node_ok(*node, source.spec_bytes()),
    ensures
        result_view(r, |c: ClassOrStruct| class_or_struct_view(c)) == class_or_struct_spec(
            *node,
            source.spec_bytes(),
        ),
{
    let ghost tb = source.spec_bytes();
    let ghost ch = node.children@;
    let span = node.span;
    let text = node.span.get(source);
    let kind = if contains_str(text, "class") {
        Some(ClassOrStructKind::Class)
    } else if contains_str(text, "struct") {
        Some(ClassOrStructKind::Struct)
    } else {
        None
    };
    let mut extension = false;
    let mut name: Option<String> = None;
    let mut inheritance: Option<String> = None;
    let mut body = String::new();
    let additional_methods: Vec<Method> = Vec::new();
    let ghost start = ClassParts { extension: false, name: None, inheritance: None, body: seq![] };
    let mut i: usize = 0;
    while i < node.children.len()
        invariant
            tb == source.spec_bytes(),
            ch == node.children@,
            node_ok(*node, tb),
            i <= ch.len(),
            start == (ClassParts { extension: false, name: None, inheritance: None, body: seq![] }),
            class_from(
                ClassParts {
                    extension,
                    name: opt_text(name),
                    inheritance: opt_text(inheritance),
                    body: body@,
                },
                ch,
                tb,
                i as int,
            ) == class_from(start, ch, tb, 0),
        decreases ch.len() - i,
    {
        let child = &node.children[i];
        proof {
            lemma_child_ok(*node, tb, i as int);
        }
        let t = child.span.get(source);
        match child.rule {
            Rule::fpp_extension_specifier => {
                extension = true;
            },
            Rule::valid_class_or_struct_prefix_char_seq => {},
            Rule::identifier => {
                name = Some(t.to_owned());
            },
            Rule::valid_class_or_struct_suffix_char_seq => {
                inheritance = Some(trim_str(t).to_owned());
            },
            Rule::balanced_block => {
                body = t.to_owned();
            },
            _ => {
                let e = ParseError::Unexpected {
                    expected: "class/struct component",
                    found: child.rule,
                    source: t.to_owned(),
                };
                return Err(e);
            },
        }
        i = i + 1;
    }
    let kind = match kind {
        Some(k) => k,
        None => {
            return Err(
                ParseError::InvalidStructure(
                    String::from_str("class/struct declaration has no class or struct keyword"),
                ),
            );
        },
    };
    let name = match name {
        Some(n) => n,
        None => {
            return Err(ParseError::Missing("class/struct identifier"));
        },
    };
    let r = ClassOrStruct {
        span,
        kind,
        extension,
        name: Identifier(name),
        inheritance,
        body,
        additional_methods,
    };
    assert(class_or_struct_view(r).additional_methods =~= seq![]);
    Ok(r)
}

/// Whether `kw` occurs in `b` as a whole word.
pub open spec fn has_token(b: Seq<u8>, kw: Seq<char>) -> bool {
    keyword_from(b, 0, encode_utf8(kw)) is Some
}

/// A function as far as the children read so far give it.
pub struct FunctionParts {
    pub templates: Seq<Seq<char>>,
    pub noexport: bool,
    pub dependency: Option<Seq<char>>,
    pub return_type: Option<ReturnTypeView>,
    pub name: Option<SourceSpan>,
    pub parameters: Option<Seq<char>>,
    pub body: Option<Seq<char>>,
}

/// A function after its children from `i` on: templates add up; for the
/// other parts the last of each kind counts; the first child that fails
/// decides the failure.
pub open spec fn function_from(p: FunctionParts, ch: Seq<ParseNode>, tb: Seq<u8>, i: int) -> Result<
    FunctionParts,
    ParseErrorView,
>
    decreases ch.len() - i,
{
    if i < 0 || i >= ch.len() {
        Ok(p)
    } else {
        let c = ch[i];
        let t = node_text(c, tb);
        if c.rule == Rule::template {
            match template_spec(c, tb) {
                Err(e) => Err(e),
                Ok(a) => function_from(FunctionParts { templates: p.templates.push(a), ..p }, ch, tb, i + 1),
            }
        } else if c.rule == Rule::fpp_noexport {
            function_from(FunctionParts { noexport: true, ..p }, ch, tb, i + 1)
        } else if c.rule == Rule::fpp_dependency {
            match dependency_spec(c, tb) {
                Err(e) => Err(e),
                Ok(d) => function_from(FunctionParts { dependency: Some(d), ..p }, ch, tb, i + 1),
            }
        } else if c.rule == Rule::return_type {
            match return_type_spec(c, tb) {
                Err(e) => Err(e),
                Ok(r) => function_from(FunctionParts { return_type: Some(r), ..p }, ch, tb, i + 1),
            }
        } else if c.rule == Rule::identifier || c.rule == Rule::operator {
            function_from(FunctionParts { name: Some(c.span), ..p }, ch, tb, i + 1)
        } else if c.rule == Rule::balanced_parentheses {
            function_from(FunctionParts { parameters: Some(t), ..p }, ch, tb, i + 1)
        } else if c.rule == Rule::balanced_block {
            function_from(FunctionParts { body: Some(t), ..p }, ch, tb, i + 1)
        } else {
            Err(unexpected("function component"@, c, tb))
        }
    }
}

/// A function: its parts from the children; attributes, `extern "C"`,
/// `static`, `inline`, `constexpr` and the suffix from its text.
pub open spec fn function_spec(n: ParseNode, tb: Seq<u8>) -> Result<FunctionView, ParseErrorView> {
    let b = node_bytes(n, tb);
    let start = FunctionParts {
        templates: seq![],
        noexport: false,
        dependency: None,
        return_type: None,
        name: None,
        parameters: None,
        body: None,
    };
    match function_from(start, n.children@, tb, 0) {
        Err(e) => Err(e),
        Ok(p) => match p.return_type {
            None => Err(ParseErrorView::Missing("function return_type"@)),
            Some(return_type) => match p.name {
                None => Err(ParseErrorView::Missing("function name"@)),
                Some(name) => Ok(
                    FunctionView {
                        span: n.span,
                        extern_c: has_token(b, "extern \"C\""@),
                        templates: p.templates,
                        attributes: attributes_from(b, 0),
                        is_static: has_token(b, "static"@),
                        is_inline: has_token(b, "inline"@),
                        noexport: p.noexport,
                        is_constexpr: has_token(b, "constexpr"@),
                        dependency: p.dependency,
                        return_type,
                        name,
                        parameters: p.parameters,
                        suffix: function_suffix(b),
                        body: match p.body {
                            Some(x) => x,
                            None => seq![],
                        },
                    },
                ),
            },
        },
    }
}

/// A free function.
fn parse_function(source: &str, node: &ParseNode) -> (r: Result<Function, ParseError>)
    requires
        node.rule == Rule::fpp_function,
        node_ok(*node, source.spec_bytes()),
    ensures
        result_view(r, |f: Function| function_view(f)) == function_spec(*node, source.spec_bytes()),
{
    let ghost tb = source.spec_bytes();
    let ghost ch = node.children@;
    let text = node.span.get(source);
    let mut templates: Vec<Template> = Vec::new();
    let mut noexport = false;
    let mut dependency: Option<Dependency> = None;
    let mut return_type: Option<ReturnType> = None;
    let mut name: Option<SourceSpan> = None;
    let mut parameters: Option<String> = None;
    let mut body: Option<String> = None;
    let ghost start = FunctionParts {
        templates: seq![],
        noexport: false,
        dependency: None,
        return_type: None,
        name: None,
        parameters: None,
        body: None,
    };
    assert(templates_view(templates@) =~= seq![]);
    let mut i: usize = 0;
    while i < node.children.len()
        invariant
            tb == source.spec_bytes(),
            ch == node.children@,
            node_ok(*node, tb),
            i <= ch.len(),
            start == (FunctionParts {
                templates: seq![],
                noexport: false,
                dependency: None,
                return_type: None,
                name: None,
                parameters: None,
                body: None,
            }),
            function_from(
                FunctionParts {
                    templates: templates_view(templates@),
                    noexport,
                    dependency: dependency_view(dependency),
                    return_type: opt_return_type_view(return_type),
                    name,
                    parameters: opt_text(parameters),
                    body: opt_text(body),
                },
                ch,
                tb,
                i as int,
            ) == function_from(start, ch, tb, 0),
        decreases ch.len() - i,
    {
        let child = &node.children[i];
        proof {
            lemma_child_ok(*node, tb, i as int);
        }
        let t = child.span.get(source);
        match child.rule {
            Rule::template => {
                match parse_template(source, child) {
                    Ok(x) => {
                        let ghost before = templates@;
                        templates.push(x);
                        assert(templates_view(templates@) =~= templates_view(before).push(x.arguments@));
                    },
                    Err(e) => {
                        return Err(e);
                    },
                }
            },
            Rule::fpp_noexport => {
                noexport = true;
            },
            Rule::fpp_dependency => {
                match parse_dependency(source, child) {
                    Ok(x) => {
                        dependency = Some(x);
                    },
                    Err(e) => {
                        return Err(e);
                    },
                }
            },
            Rule::return_type => {
                match parse_return_type(source, child) {
                    Ok(x) => {
                        return_type = Some(x);
                    },
                    Err(e) => {
                        return Err(e);
                    },
                }
            },
            Rule::identifier => {
                name = Some(child.span);
            },
            Rule::operator => {
                name = Some(child.span);
            },
            Rule::balanced_parentheses => {
                parameters = Some(t.to_owned());
            },
            Rule::balanced_block => {
                body = Some(t.to_owned());
            },
            _ => {
                return Err(
                    ParseError::Unexpected {
                        expected: "function component",
                        found: child.rule,
                        source: t.to_owned(),
                    },
                );
            },
        }
        i = i + 1;
    }
    let return_type = match return_type {
        Some(x) => x,
        None => {
            return Err(ParseError::Missing("function return_type"));
        },
    };
    let name = match name {
        Some(x) => x,
        None => {
            return Err(ParseError::Missing("function name"));
        },
    };
    let attributes = extract_attributes(text);
    let extern_c = contains_token(text, "extern \"C\"");
    let is_static = contains_token(text, "static");
    let is_inline = contains_token(text, "inline");
    let is_constexpr = contains_token(text, "constexpr");
    let body = match body {
        Some(x) => x,
        None => String::new(),
    };
    let suffix = extract_function_suffix(text);
    let r = Function {
        span: node.span,
        extern_c,
        templates,
        attributes,
        is_static,
        is_inline,
        noexport,
        is_constexpr,
        dependency,
        return_type,
        name,
        parameters,
        suffix,
        body,
    };
    assert(attributes_view(r.attributes@) =~= attribute_texts(r.attributes@));
    Ok(r)
}

/// A method as far as the children read so far give it.
pub struct MethodParts {
    pub access: Option<AccessSpecifier>,
    pub implementation: Option<ImplementSpecifier>,
    pub templates: Seq<Seq<char>>,
    pub noexport: bool,
    pub dependency: Option<Seq<char>>,
    pub return_type: Option<ReturnTypeView>,
    pub parent: Option<SourceSpan>,
    pub name: Option<SourceSpan>,
    pub parameters: Option<Seq<char>>,
    pub body: Option<Seq<char>>,
}

/// A method after its children from `i` on: templates add up; for the
/// other parts the last of each kind counts; the first child that fails
/// decides the failure.
pub open spec fn method_from(p: MethodParts, ch: Seq<ParseNode>, tb: Seq<u8>, i: int) -> Result<
    MethodParts,
    ParseErrorView,
>
    decreases ch.len() - i,
{
    if i < 0 || i >= ch.len() {
        Ok(p)
    } else {
        let c = ch[i];
        let t = node_text(c, tb);
        if c.rule == Rule::fpp_access_specifier {
            match access_spec(t) {
                Err(e) => Err(e),
                Ok(a) => method_from(MethodParts { access: Some(a), ..p }, ch, tb, i + 1),
            }
        } else if c.rule == Rule::fpp_implement_specifier {
            match implement_spec(t) {
                Err(e) => Err(e),
                Ok(a) => method_from(MethodParts { implementation: Some(a), ..p }, ch, tb, i + 1),
            }
        } else if c.rule == Rule::template {
            match template_spec(c, tb) {
                Err(e) => Err(e),
                Ok(a) => method_from(MethodParts { templates: p.templates.push(a), ..p }, ch, tb, i + 1),
            }
        } else if c.rule == Rule::fpp_noexport {
            method_from(MethodParts { noexport: true, ..p }, ch, tb, i + 1)
        } else if c.rule == Rule::fpp_dependency {
            match dependency_spec(c, tb) {
                Err(e) => Err(e),
                Ok(d) => method_from(MethodParts { dependency: Some(d), ..p }, ch, tb, i + 1),
            }
        } else if c.rule == Rule::return_type {
            match return_type_spec(c, tb) {
                Err(e) => Err(e),
                Ok(r) => method_from(MethodParts { return_type: Some(r), ..p }, ch, tb, i + 1),
            }
        } else if c.rule == Rule::fpp_method_core {
            match method_core_spec(c, tb) {
                Err(e) => Err(e),
                Ok(pn) => method_from(
                    MethodParts { parent: Some(pn.0), name: Some(pn.1), ..p },
                    ch,
                    tb,
                    i + 1,
                ),
            }
        } else if c.rule == Rule::balanced_parentheses {
            method_from(MethodParts { parameters: Some(t), ..p }, ch, tb, i + 1)
        } else if c.rule == Rule::balanced_block {
            method_from(MethodParts { body: Some(t), ..p }, ch, tb, i + 1)
        } else {
            Err(unexpected("method component"@, c, tb))
        }
    }
}

/// A method: its parts from the children; attributes, `static`, `inline`,
/// `constexpr` and the suffix from its text; without a block its text must
/// end in `default;` or `delete;`.
pub open spec fn method_spec(n: ParseNode, tb: Seq<u8>) -> Result<MethodView, ParseErrorView> {
    let b = node_bytes(n, tb);
    let start = MethodParts {
        access: None,
        implementation: None,
        templates: seq![],
        noexport: false,
        dependency: None,
        return_type: None,
        parent: None,
        name: None,
        parameters: None,
        body: None,
    };
    match method_from(start, n.children@, tb, 0) {
        Err(e) => Err(e),
        Ok(p) => match p.parent {
            None => Err(ParseErrorView::Missing("method parent"@)),
            Some(parent) => match p.name {
                None => Err(ParseErrorView::Missing("method name"@)),
                Some(name) => {
                    let tail = trim_end_chars(node_text(n, tb));
                    let body = match p.body {
                        Some(x) => Some(MethodBodyView::Definition(x)),
                        None => if has_suffix(tail, "default;"@) {
                            Some(MethodBodyView::Default)
                        } else if has_suffix(tail, "delete;"@) {
                            Some(MethodBodyView::Delete)
                        } else {
                            None
                        },
                    };
                    match body {
                        None => Err(
                            ParseErrorView::InvalidStructure(
                                "method has neither a body nor default/delete"@,
                            ),
                        ),
                        Some(body) => Ok(
                            MethodView {
                                span: n.span,
                                access: p.access,
                                implementation: p.implementation,
                                inline: has_token(b, "inline"@),
                                templates: p.templates,
                                attributes: attributes_from(b, 0),
                                is_static: has_token(b, "static"@),
                                noexport: p.noexport,
                                is_constexpr: has_token(b, "constexpr"@),
                                dependency: p.dependency,
                                return_type: p.return_type,
                                parent,
                                name,
                                parameters: p.parameters,
                                suffix: method_suffix(b),
                                body,
                            },
                        ),
                    }
                },
            },
        },
    }
}

/// A method defined outside its class.
fn parse_method(source: &str, node: &ParseNode) -> (r: Result<Method, ParseError>)
    requires
        node.rule == Rule::fpp_method,
        node_ok(*node, source.spec_bytes()),
    ensures
        result_view(r, |m: Method| method_view(m)) == method_spec(*node, source.spec_bytes()),
{
    let ghost tb = source.spec_bytes();
    let ghost ch = node.children@;
    let text = node.span.get(source);
    let mut access: Option<AccessSpecifier> = None;
    let mut implementation: Option<ImplementSpecifier> = None;
    let mut templates: Vec<Template> = Vec::new();
    let mut noexport = false;
    let mut dependency: Option<Dependency> = None;
    let mut return_type: Option<ReturnType> = None;
    let mut parent: Option<SourceSpan> = None;
    let mut name: Option<SourceSpan> = None;
    let mut parameters: Option<String> = None;
    let mut body: Option<String> = None;
    let ghost start = MethodParts {
        access: None,
        implementation: None,
        templates: seq![],
        noexport: false,
        dependency: None,
        return_type: None,
        parent: None,
        name: None,
        parameters: None,
        body: None,
    };
    assert(templates_view(templates@) =~= seq![]);
    let mut i: usize = 0;
    while i < node.children.len()
        invariant
            tb == source.spec_bytes(),
            ch == node.children@,
            node_ok(*node, tb),
            i <= ch.len(),
            start == (MethodParts {
                access: None,
                implementation: None,
                templates: seq![],
                noexport: false,
                dependency: None,
                return_type: None,
                parent: None,
                name: None,
                parameters: None,
                body: None,
            }),
            method_from(
                MethodParts {
                    access,
                    implementation,
                    templates: templates_view(templates@),
                    noexport,
                    dependency: dependency_view(dependency),
                    return_type: opt_return_type_view(return_type),
                    parent,
                    name,
                    parameters: opt_text(parameters),
                    body: opt_text(body),
                },
                ch,
                tb,
                i as int,
            ) == method_from(start, ch, tb, 0),
        decreases ch.len() - i,
    {
        let child = &node.children[i];
        proof {
            lemma_child_ok(*node, tb, i as int);
        }
        let t = child.span.get(source);
        match child.rule {
            Rule::fpp_access_specifier => {
                match parse_access_specifier(source, child) {
                    Ok(x) => {
                        access = Some(x);
                    },
                    Err(e) => {
                        return Err(e);
                    },
                }
            },
            Rule::fpp_implement_specifier => {
                match parse_implement_specifier(source, child) {
                    Ok(x) => {
                        implementation = Some(x);
                    },
                    Err(e) => {
                        return Err(e);
                    },
                }
            },
            Rule::template => {
                match parse_template(source, child) {
                    Ok(x) => {
                        let ghost before = templates@;
                        templates.push(x);
                        assert(templates_view(templates@) =~= templates_view(before).push(x.arguments@));
                    },
                    Err(e) => {
                        return Err(e);
                    },
                }
            },
            Rule::fpp_noexport => {
                noexport = true;
            },
            Rule::fpp_dependency => {
                match parse_dependency(source, child) {
                    Ok(x) => {
                        dependency = Some(x);
                    },
                    Err(e) => {
                        return Err(e);
                    },
                }
            },
            Rule::return_type => {
                match parse_return_type(source, child) {
                    Ok(x) => {
                        return_type = Some(x);
                    },
                    Err(e) => {
                        return Err(e);
                    },
                }
            },
            Rule::fpp_method_core => {
                match parse_method_core(source, child) {
                    Ok((p, n)) => {
                        parent = Some(p);
                        name = Some(n);
                    },
                    Err(e) => {
                        return Err(e);
                    },
                }
            },
            Rule::balanced_parentheses => {
                parameters = Some(t.to_owned());
            },
            Rule::balanced_block => {
                body = Some(t.to_owned());
            },
            _ => {
                return Err(
                    ParseError::Unexpected {
                        expected: "method component",
                        found: child.rule,
                        source: t.to_owned(),
                    },
                );
            },
        }
        i = i + 1;
    }
    let parent = match parent {
        Some(x) => x,
        None => {
            return Err(ParseError::Missing("method parent"));
        },
    };
    let name = match name {
        Some(x) => x,
        None => {
            return Err(ParseError::Missing("method name"));
        },
    };
    let attributes = extract_attributes(text);
    let is_static = contains_token(text, "static");
    let is_inline = contains_token(text, "inline");
    let is_constexpr = contains_token(text, "constexpr");
    let body = match body {
        Some(x) => MethodBody::Definition(x),
        None => {
            let tail = trim_end_str(text);
            if ends_with_str(tail, "default;") {
                MethodBody::Default
            } else if ends_with_str(tail, "delete;") {
                MethodBody::Delete
            } else {
                return Err(
                    ParseError::InvalidStructure(
                        String::from_str("method has neither a body nor default/delete"),
                    ),
                );
            }
        },
    };
    let suffix = extract_method_suffix(text);
    let r = Method {
        span: node.span,
        access,
        implementation,
        inline: is_inline,
        templates,
        attributes,
        is_static,
        noexport,
        is_constexpr,
        dependency,
        return_type,
        parent,
        name,
        parameters,
        suffix,
        body,
    };
    assert(attributes_view(r.attributes@) =~= attribute_texts(r.attributes@));
    Ok(r)
}

/// A declaration, by the rule of its first child.
pub open spec fn declaration_spec(n: ParseNode, tb: Seq<u8>) -> Result<DeclarationView, ParseErrorView> {
    if n.children@.len() == 0 {
        Err(ParseErrorView::Missing("declaration child"@))
    } else {
        let c = n.children@[0];
        if c.rule == Rule::preprocess_line {
            Ok(DeclarationView::PreprocessLine(c.span))
        } else if c.rule == Rule::fpp_class_or_struct {
            match class_or_struct_spec(c, tb) {
                Err(e) => Err(e),
                Ok(x) => Ok(DeclarationView::ClassOrStruct(x)),
            }
        } else if c.rule == Rule::fpp_function {
            match function_spec(c, tb) {
                Err(e) => Err(e),
                Ok(x) => Ok(DeclarationView::Function(x)),
            }
        } else if c.rule == Rule::fpp_method {
            match method_spec(c, tb) {
                Err(e) => Err(e),
                Ok(x) => Ok(DeclarationView::Method(x)),
            }
        } else if c.rule == Rule::extern_c {
            match extern_c_spec(c, tb) {
                Err(e) => Err(e),
                Ok(x) => Ok(DeclarationView::ExternC(x)),
            }
        } else if c.rule == Rule::verbatim_copy {
            Ok(DeclarationView::Verbatim(node_text(c, tb)))
        } else {
            Err(unexpected("declaration"@, c, tb))
        }
    }
}

/// One declaration.
fn parse_declaration_pair(source: &str, node: &ParseNode) -> (r: Result<Declaration, ParseError>)
    requires
        node.rule == Rule::declaration,
        node_ok(*node, source.spec_bytes()),
    ensures
        result_view(r, |d: Declaration| declaration_view(d)) == declaration_spec(
            *node,
            source.spec_bytes(),
        ),
{
    if node.children.len() == 0 {
        return Err(ParseError::Missing("declaration child"));
    }
    proof {
        lemma_child_ok(*node, source.spec_bytes(), 0);
    }
    let child = &node.children[0];
    match child.rule {
        Rule::preprocess_line => Ok(Declaration::PreprocessLine(child.span)),
        Rule::fpp_class_or_struct => match parse_class_or_struct(source, child) {
            Ok(x) => Ok(Declaration::ClassOrStruct(x)),
            Err(e) => Err(e),
        },
        Rule::fpp_function => match parse_function(source, child) {
            Ok(x) => Ok(Declaration::Function(x)),
            Err(e) => Err(e),
        },
        Rule::fpp_method => match parse_method(source, child) {
            Ok(x) => Ok(Declaration::Method(x)),
            Err(e) => Err(e),
        },
        Rule::extern_c => match parse_extern_c(source, child) {
            Ok(body) => Ok(Declaration::ExternC(ExternC { body })),
            Err(e) => Err(e),
        },
        Rule::verbatim_copy => Ok(Declaration::Verbatim(child.span.get(source).to_owned())),
        _ => Err(
            ParseError::Unexpected {
                expected: "declaration",
                found: child.rule,
                source: child.span.get(source).to_owned(),
            },
        ),
    }
}

/// The declarations of a section from its children from `i` on; every
/// child must be a declaration, and the first that fails decides.
pub open spec fn section_from(ch: Seq<ParseNode>, tb: Seq<u8>, i: int) -> Result<
    Seq<DeclarationView>,
    ParseErrorView,
>
    decreases ch.len() - i,
{
    if i < 0 || i >= ch.len() {
        Ok(seq![])
    } else if ch[i].rule == Rule::declaration {
        match declaration_spec(ch[i], tb) {
            Err(e) => Err(e),
            Ok(d) => match section_from(ch, tb, i + 1) {
                Err(e) => Err(e),
                Ok(rest) => Ok(seq![d] + rest),
            },
        }
    } else {
        Err(unexpected("declaration"@, ch[i], tb))
    }
}

/// An interface or implementation section: its declarations, with no
/// guard.
pub open spec fn section_spec(n: ParseNode, tb: Seq<u8>) -> Result<FppSectionDataView, ParseErrorView> {
    match section_from(n.children@, tb, 0) {
        Err(e) => Err(e),
        Ok(declarations) => Ok(FppSectionDataView { guard: None, declarations }),
    }
}

/// The contents of an interface or implementation section.
fn parse_section_pair(source: &str, node: &ParseNode) -> (r: Result<FppSectionData, ParseError>)
    requires
        node_ok(*node, source.spec_bytes()),
    ensures
        result_view(r, |d: FppSectionData| section_data_view(d)) == section_spec(
            *node,
            source.spec_bytes(),
        ),
{
    let ghost tb = source.spec_bytes();
    let ghost ch = node.children@;
    let mut declarations: Vec<Declaration> = Vec::new();
    let mut i: usize = 0;
    while i < node.children.len()
        invariant
            tb == source.spec_bytes(),
            ch == node.children@,
            node_ok(*node, tb),
            i <= ch.len(),
            section_from(ch, tb, 0) == match section_from(ch, tb, i as int) {
                Ok(rest) => Ok(declarations_view(declarations@) + rest),
                Err(e) => Err(e),
            },
        decreases ch.len() - i,
    {
        let child = &node.children[i];
        proof {
            lemma_child_ok(*node, tb, i as int);
        }
        if child.rule == Rule::declaration {
            match parse_declaration_pair(source, child) {
                Ok(d) => {
                    let ghost before = declarations@;
                    declarations.push(d);
                    assert(declarations_view(declarations@) =~= declarations_view(before).push(
                        declaration_view(d),
                    ));
                    proof {
                        match section_from(ch, tb, i + 1) {
                            Ok(rest) => {
                                assert(declarations_view(before) + (seq![declaration_view(d)] + rest)
                                    =~= declarations_view(declarations@) + rest);
                            },
                            Err(e) => {},
                        }
                    }
                },
                Err(e) => {
                    return Err(e);
                },
            }
        } else {
            return Err(
                ParseError::Unexpected {
                    expected: "declaration",
                    found: child.rule,
                    source: child.span.get(source).to_owned(),
                },
            );
        }
        i = i + 1;
    }
    assert(declarations_view(declarations@) + seq![] =~= declarations_view(declarations@));
    Ok(FppSectionData { guard: None, declarations })
}

/// A translation unit as far as the children read so far give it, and
/// whether its end has been reached.
pub struct UnitParts {
    pub declarations: Seq<DeclarationView>,
    pub sections: Seq<FppSectionView>,
    pub done: bool,
}

/// A translation unit after its children from `i` on: declarations and
/// sections in order, up to the end of input; the first child that fails
/// decides the failure.
pub open spec fn unit_from(p: UnitParts, ch: Seq<ParseNode>, tb: Seq<u8>, i: int) -> Result<
    UnitParts,
    ParseErrorView,
>
    decreases ch.len() - i,
{
    if i < 0 || i >= ch.len() || p.done {
        Ok(p)
    } else {
        let c = ch[i];
        if c.rule == Rule::declaration {
            match declaration_spec(c, tb) {
                Err(e) => Err(e),
                Ok(d) => unit_from(UnitParts { declarations: p.declarations.push(d), ..p }, ch, tb, i + 1),
            }
        } else if c.rule == Rule::fpp_interface_section {
            match section_spec(c, tb) {
                Err(e) => Err(e),
                Ok(s) => unit_from(
                    UnitParts { sections: p.sections.push(FppSectionView::Interface(s)), ..p },
                    ch,
                    tb,
                    i + 1,
                ),
            }
        } else if c.rule == Rule::fpp_implementation_section {
            match section_spec(c, tb) {
                Err(e) => Err(e),
                Ok(s) => unit_from(
                    UnitParts { sections: p.sections.push(FppSectionView::Implementation(s)), ..p },
                    ch,
                    tb,
                    i + 1,
                ),
            }
        } else if c.rule == Rule::EOI {
            unit_from(UnitParts { done: true, ..p }, ch, tb, i + 1)
        } else {
            Err(unexpected("declaration or FPP section"@, c, tb))
        }
    }
}

/// A translation unit: the declarations and sections of its children.
pub open spec fn translation_unit_spec(n: ParseNode, tb: Seq<u8>) -> Result<
    TranslationUnitView,
    ParseErrorView,
> {
    match unit_from(UnitParts { declarations: seq![], sections: seq![], done: false }, n.children@, tb, 0) {
        Err(e) => Err(e),
        Ok(p) => Ok(TranslationUnitView { declarations: p.declarations, sections: p.sections }),
    }
}

/// The models of sections.
pub open spec fn sections_view(v: Seq<FppSection>) -> Seq<FppSectionView> {
    v.map_values(|s: FppSection| section_view(s))
}

/// A whole translation unit from its parse tree node.
fn parse_translation_unit_pair(source: &str, node: &ParseNode) -> (r: Result<TranslationUnit, ParseError>)
    requires
        node.rule == Rule::translation_unit,
        node_ok(*node, source.spec_bytes()),
    ensures
        result_view(r, |t: TranslationUnit| translation_unit_view(t)) == translation_unit_spec(
            *node,
            source.spec_bytes(),
        ),
{
    let ghost tb = source.spec_bytes();
    let ghost ch = node.children@;
    let mut declarations: Vec<Declaration> = Vec::new();
    let mut sections: Vec<FppSection> = Vec::new();
    let ghost start = UnitParts { declarations: seq![], sections: seq![], done: false };
    assert(declarations_view(declarations@) =~= seq![]);
    assert(sections_view(sections@) =~= seq![]);
    let mut i: usize = 0;
    loop
        invariant
            tb == source.spec_bytes(),
            ch == node.children@,
            node_ok(*node, tb),
            i <= ch.len(),
            start == (UnitParts { declarations: seq![], sections: seq![], done: false }),
            unit_from(
                UnitParts {
                    declarations: declarations_view(declarations@),
                    sections: sections_view(sections@),
                    done: false,
                },
                ch,
                tb,
                i as int,
            ) == unit_from(start, ch, tb, 0),
        decreases ch.len() - i,
    {
        if i >= node.children.len() {
            return Ok(TranslationUnit { declarations, sections });
        }
        let child = &node.children[i];
        proof {
            lemma_child_ok(*node, tb, i as int);
        }
        let ghost dv = declarations_view(declarations@);
        let ghost sv = sections_view(sections@);
        match child.rule {
            Rule::declaration => {
                match parse_declaration_pair(source, child) {
                    Ok(d) => {
                        declarations.push(d);
                        assert(declarations_view(declarations@) =~= dv.push(declaration_view(d)));
                    },
                    Err(e) => {
                        return Err(e);
                    },
                }
            },
            Rule::fpp_interface_section => {
                match parse_section_pair(source, child) {
                    Ok(data) => {
                        sections.push(FppSection::Interface(data));
                        assert(sections_view(sections@) =~= sv.push(
                            FppSectionView::Interface(section_data_view(data)),
                        ));
                    },
                    Err(e) => {
                        return Err(e);
                    },
                }
            },
            Rule::fpp_implementation_section => {
                match parse_section_pair(source, child) {
                    Ok(data) => {
                        sections.push(FppSection::Implementation(data));
                        assert(sections_view(sections@) =~= sv.push(
                            FppSectionView::Implementation(section_data_view(data)),
                        ));
                    },
                    Err(e) => {
                        return Err(e);
                    },
                }
            },
            Rule::EOI => {
                assert(unit_from(
                    UnitParts { declarations: dv, sections: sv, done: true },
                    ch,
                    tb,
                    i + 1,
                ) == Ok::<UnitParts, ParseErrorView>(UnitParts { declarations: dv, sections: sv, done: true }));
                return Ok(TranslationUnit { declarations, sections });
            },
            _ => {
                return Err(
                    ParseError::Unexpected {
                        expected: "declaration or FPP section",
                        found: child.rule,
                        source: child.span.get(source).to_owned(),
                    },
                );
            },
        }
        i = i + 1;
    }
}

/// The syntax tree of a source file from the parse tree that the grammar
/// produced for it: the first of `pairs`, which must be there.
pub fn parse_translation_unit(source: &str, pairs: &Vec<ParseNode>) -> (r: Result<
    TranslationUnit,
    ParseError,
>)
    requires
        pairs@.len() > 0 ==> pairs@[0].rule == Rule::translation_unit,
        pairs@.len() > 0 ==> node_ok(pairs@[0], source.spec_bytes()),
    ensures
        pairs@.len() == 0 ==> (r matches Err(e) && e@ == ParseErrorView::Missing("translation_unit"@)),
        pairs@.len() > 0 ==> result_view(r, |t: TranslationUnit| translation_unit_view(t))
            == translation_unit_spec(pairs@[0], source.spec_bytes()),
{
    if pairs.len() == 0 {
        return Err(ParseError::Missing("translation_unit"));
    }
    parse_translation_unit_pair(source, &pairs[0])
}

/// The name of a rule, as `{:?}` prints it.
pub open spec fn rule_name(r: Rule) -> Seq<char> {
    match r {
        Rule::EOI => "EOI"@,
        Rule::translation_unit => "translation_unit"@,
        Rule::declaration => "declaration"@,
        Rule::fpp_interface_section => "fpp_interface_section"@,
        Rule::fpp_implementation_section => "fpp_implementation_section"@,
        Rule::preprocess_line => "preprocess_line"@,
        Rule::fpp_class_or_struct => "fpp_class_or_struct"@,
        Rule::fpp_function => "fpp_function"@,
        Rule::fpp_method => "fpp_method"@,
        Rule::extern_c => "extern_c"@,
        Rule::verbatim_copy => "verbatim_copy"@,
        Rule::fpp_extension_specifier => "fpp_extension_specifier"@,
        Rule::valid_class_or_struct_prefix_char_seq => "valid_class_or_struct_prefix_char_seq"@,
        Rule::identifier => "identifier"@,
        Rule::valid_class_or_struct_suffix_char_seq => "valid_class_or_struct_suffix_char_seq"@,
        Rule::balanced_block => "balanced_block"@,
        Rule::template => "template"@,
        Rule::fpp_noexport => "fpp_noexport"@,
        Rule::fpp_dependency => "fpp_dependency"@,
        Rule::return_type => "return_type"@,
        Rule::operator => "operator"@,
        Rule::balanced_parentheses => "balanced_parentheses"@,
        Rule::balanced_angles => "balanced_angles"@,
        Rule::fpp_access_specifier => "fpp_access_specifier"@,
        Rule::fpp_implement_specifier => "fpp_implement_specifier"@,
        Rule::fpp_method_core => "fpp_method_core"@,
        Rule::fpp_parent_name => "fpp_parent_name"@,
        Rule::fpp_method_name => "fpp_method_name"@,
        Rule::identifier_tmplt => "identifier_tmplt"@,
        Rule::quali_identifier_tmplt => "quali_identifier_tmplt"@,
    }
}

/// The name of a rule.
pub fn rule_name_str(r: Rule) -> (s: &'static str)
    ensures
        s@ == rule_name(r),
{
    match r {
        Rule::EOI => "EOI",
        Rule::translation_unit => "translation_unit",
        Rule::declaration => "declaration",
        Rule::fpp_interface_section => "fpp_interface_section",
        Rule::fpp_implementation_section => "fpp_implementation_section",
        Rule::preprocess_line => "preprocess_line",
        Rule::fpp_class_or_struct => "fpp_class_or_struct",
        Rule::fpp_function => "fpp_function",
        Rule::fpp_method => "fpp_method",
        Rule::extern_c => "extern_c",
        Rule::verbatim_copy => "verbatim_copy",
        Rule::fpp_extension_specifier => "fpp_extension_specifier",
        Rule::valid_class_or_struct_prefix_char_seq => "valid_class_or_struct_prefix_char_seq",
        Rule::identifier => "identifier",
        Rule::valid_class_or_struct_suffix_char_seq => "valid_class_or_struct_suffix_char_seq",
        Rule::balanced_block => "balanced_block",
        Rule::template => "template",
        Rule::fpp_noexport => "fpp_noexport",
        Rule::fpp_dependency => "fpp_dependency",
        Rule::return_type => "return_type",
        Rule::operator => "operator",
        Rule::balanced_parentheses => "balanced_parentheses",
        Rule::balanced_angles => "balanced_angles",
        Rule::fpp_access_specifier => "fpp_access_specifier",
        Rule::fpp_implement_specifier => "fpp_implement_specifier",
        Rule::fpp_method_core => "fpp_method_core",
        Rule::fpp_parent_name => "fpp_parent_name",
        Rule::fpp_method_name => "fpp_method_name",
        Rule::identifier_tmplt => "identifier_tmplt",
        Rule::quali_identifier_tmplt => "quali_identifier_tmplt",
    }
}

/// The message that describes a failure.
pub open spec fn error_message(e: ParseErrorView) -> Seq<char> {
    match e {
        ParseErrorView::Missing(name) => "missing required grammar rule `"@ + name + "`"@,
        ParseErrorView::Unexpected { expected, found, source } => "expected "@ + expected + ", found "@
            + rule_name(found) + ": "@ + debug_text(source),
        ParseErrorView::InvalidOperator(op) => "unknown overloadable operator: "@ + debug_text(op),
        ParseErrorView::InvalidIdentifier(i) => "invalid identifier: "@ + debug_text(i),
        ParseErrorView::InvalidStructure(m) => "invalid AST structure: "@ + m,
    }
}

impl ParseError {
    /// The message that describes the failure.
    pub fn to_string(&self) -> (r: String)
        ensures
            r@ == error_message(self@),
    {
        match self {
            ParseError::Missing(name) => {
                let mut r = String::from_str("missing required grammar rule `");
                r.append(name);
                r.append("`");
                r
            },
            ParseError::Unexpected { expected, found, source } => {
                let mut r = String::from_str("expected ");
                r.append(expected);
                r.append(", found ");
                r.append(rule_name_str(*found));
                r.append(": ");
                let quoted = debug_quoted(source.as_str());
                r.append(quoted.as_str());
                r
            },
            ParseError::InvalidOperator(op) => {
                let mut r = String::from_str("unknown overloadable operator: ");
                let quoted = debug_quoted(op.as_str());
                r.append(quoted.as_str());
                r
            },
            ParseError::InvalidIdentifier(i) => {
                let mut r = String::from_str("invalid identifier: ");
                let quoted = debug_quoted(i.as_str());
                r.append(quoted.as_str());
                r
            },
            ParseError::InvalidStructure(m) => {
                let mut r = String::from_str("invalid AST structure: ");
                r.append(m.as_str());
                r
            },
        }
    }
}

} // verus!
