//! The syntax tree of a Fiasco preprocess (`.cpp`) source file.

use vstd::prelude::*;
use vstd::utf8::*;
use vstd::string::*;
use crate::text::{str_slice, split_whitespace, split_ws, string_views, str_eq};

verus! {

/// A range of byte offsets into the source text.
#[derive(Debug, Clone, Copy, PartialEq, Eq, Hash, Structural)]
pub struct SourceSpan {
    pub start: usize,
    pub end: usize,
}

impl SourceSpan {
    /// The span `start..end`.
    pub fn new(start: usize, end: usize) -> (r: Self)
        ensures
            r.start == start,
            r.end == end,
    {
        Self { start, end }
    }

    /// The number of bytes in the span.
    pub fn len(self) -> (r: usize)
        requires
            self.start <= self.end,
        ensures
            r == self.end - self.start,
    {
        self.end - self.start
    }

    /// Whether the span holds no bytes.
    pub fn is_empty(self) -> (r: bool)
        ensures
            r == (self.start == self.end),
    {
        self.start == self.end
    }

    /// Whether the span lies within `source` and starts and ends on char
    /// boundaries.
    pub open spec fn valid_in(self, source: Seq<u8>) -> bool {
        &&& self.start <= self.end <= source.len()
        &&& is_char_boundary(source, self.start as int)
        &&& is_char_boundary(source, self.end as int)
    }

    /// The characters of `source` that the span covers.
    pub open spec fn text_in(self, source: Seq<u8>) -> Seq<char> {
        decode_utf8(source.subrange(self.start as int, self.end as int))
    }

    /// The text of `source` that the span covers.
    pub fn get(self, source: &str) -> (r: &str)
        requires
            self.valid_in(source.spec_bytes()),
        ensures
            r@ == self.text_in(source.spec_bytes()),
            r.spec_bytes() == source.spec_bytes().subrange(self.start as int, self.end as int),
    {
        str_slice(source, self.start, self.end)
    }
}

/// The empty span is the one of length zero.
pub proof fn lemma_span_empty_iff_len_zero(span: SourceSpan)
    requires
        span.start <= span.end,
    ensures
        (span.start == span.end) <==> (span.end - span.start == 0),
{
}

/// Anything that covers a span of the source text.
pub trait Spanned {
    fn span(&self) -> SourceSpan;
}

/// A parse tree node that knows the span of source text it matched.
pub trait PestSpanExt {
    fn source_span(&self) -> SourceSpan;
}

/// The declarations of one `INTERFACE` or `IMPLEMENTATION` section, with
/// the tag expression that guards it, if any.
pub struct FppSectionData {
    pub guard: Option<String>,
    pub declarations: Vec<Declaration>,
}

/// A section of a Fiasco source file.
pub enum FppSection {
    Interface(FppSectionData),
    Implementation(FppSectionData),
}

/// A whole Fiasco source file: the declarations before the first section,
/// then the sections.
pub struct TranslationUnit {
    pub declarations: Vec<Declaration>,
    pub sections: Vec<FppSection>,
}

/// One top-level declaration.
pub enum Declaration {
    PreprocessLine(SourceSpan),
    ClassOrStruct(ClassOrStruct),
    Function(Function),
    Method(Method),
    ExternC(ExternC),
    Verbatim(String),
}

/// `class` or `struct`.
#[derive(Debug, Clone, Copy, PartialEq, Eq, Structural)]
pub enum ClassOrStructKind {
    Class,
    Struct,
}

/// A C++ identifier.
#[derive(Debug, Clone, PartialEq, Eq)]
pub struct Identifier(pub String);


/// A class or struct declaration; an extension (`EXTENSION class X`) adds to
/// an earlier declaration of the same class.
#[derive(Debug, Clone, PartialEq, Eq)]
pub struct ClassOrStruct {
    pub span: SourceSpan,
    pub kind: ClassOrStructKind,
    pub extension: bool,
    pub name: Identifier,
    pub inheritance: Option<String>,
    pub body: String,
    pub additional_methods: Vec<Method>,
}


/// An `extern "C"` block.
pub struct ExternC {
    pub body: String,
}

/// A `NEEDS [...]` dependency annotation.
#[derive(Debug, Clone, PartialEq, Eq)]
pub struct Dependency {
    pub expression: String,
}


/// The `*` or `&` that ends a return type.
#[derive(Debug, Clone, Copy, PartialEq, Eq, Structural)]
pub enum TypeModifier {
    Pointer,
    Reference,
}

/// An identifier with optional template arguments.
#[derive(Debug, Clone, PartialEq, Eq)]
pub struct IdentifierTemplate {
    pub name: Identifier,
    pub template_arguments: Option<String>,
}


/// A `::`-separated identifier.
#[derive(Debug, Clone, PartialEq, Eq)]
pub struct QualifiedIdentifier(pub Vec<IdentifierTemplate>);


/// A return type.
#[derive(Debug, Clone, PartialEq, Eq)]
pub struct ReturnType {
    pub name: QualifiedIdentifier,
    pub modifier: Option<TypeModifier>,
}


/// A `template <...>` prefix.
#[derive(Debug, Clone, PartialEq, Eq)]
pub struct Template {
    pub arguments: String,
}


/// An attribute, as written in the source.
#[derive(Debug, Clone, PartialEq, Eq)]
pub struct Attribute {
    pub source: String,
}


/// A free function definition or declaration.
#[derive(Debug, Clone, PartialEq, Eq)]
pub struct Function {
    pub span: SourceSpan,
    pub extern_c: bool,
    pub templates: Vec<Template>,
    pub attributes: Vec<Attribute>,
    pub is_static: bool,
    pub is_inline: bool,
    pub noexport: bool,
    pub is_constexpr: bool,
    pub dependency: Option<Dependency>,
    pub return_type: ReturnType,
    pub name: SourceSpan,
    pub parameters: Option<String>,
    pub suffix: String,
    pub body: String,
}

impl Function {
    /// The span from the start of the function to the byte before its name.
    pub fn get_prefix_span(&self) -> (r: SourceSpan)
        requires
            self.name.start >= 1,
        ensures
            r.start == self.span.start,
            r.end == self.name.start - 1,
    {
        SourceSpan { start: self.span.start, end: self.name.start - 1 }
    }
}

/// `PRIVATE`, `PROTECTED` or `PUBLIC`.
#[derive(Debug, Clone, Copy, PartialEq, Eq, Structural)]
pub enum AccessSpecifier {
    Private,
    Protected,
    Public,
}

/// `IMPLEMENT`, `IMPLEMENT_DEFAULT` or `IMPLEMENT_OVERRIDE`.
#[derive(Debug, Clone, Copy, PartialEq, Eq, Structural)]
pub enum ImplementSpecifier {
    Implement,
    ImplementDefault,
    ImplementOverride,
}

/// The body of a method: a block, `= default;` or `= delete;`.
#[derive(Debug, Clone, PartialEq, Eq)]
pub enum MethodBody {
    Definition(String),
    Default,
    Delete,
}


/// A method defined outside its class (`Parent::name(...)`).
#[derive(Debug, Clone, PartialEq, Eq)]
pub struct Method {
    pub span: SourceSpan,
    pub access: Option<AccessSpecifier>,
    pub implementation: Option<ImplementSpecifier>,
    pub inline: bool,
    pub templates: Vec<Template>,
    pub attributes: Vec<Attribute>,
    pub is_static: bool,
    pub noexport: bool,
    pub is_constexpr: bool,
    pub dependency: Option<Dependency>,
    pub return_type: Option<ReturnType>,
    pub parent: SourceSpan,
    pub name: SourceSpan,
    pub parameters: Option<String>,
    pub suffix: String,
    pub body: MethodBody,
}


impl Method {
    /// The span from the start of the method to the byte before its parent
    /// class name.
    pub fn get_prefix_span(&self) -> (r: SourceSpan)
        requires
            self.parent.start >= 1,
        ensures
            r.start == self.span.start,
            r.end == self.parent.start - 1,
    {
        SourceSpan { start: self.span.start, end: self.parent.start - 1 }
    }
}

/// `PUBLIC`, `PROTECTED` or `PRIVATE`.
pub open spec fn is_access_word(w: Seq<char>) -> bool {
    w == "PUBLIC"@ || w == "PROTECTED"@ || w == "PRIVATE"@
}

/// The words that are not access specifiers, in order.
pub open spec fn kept_words(words: Seq<Seq<char>>) -> Seq<Seq<char>>
    decreases words.len(),
{
    if words.len() == 0 {
        seq![]
    } else if is_access_word(words.last()) {
        kept_words(words.drop_last())
    } else {
        kept_words(words.drop_last()).push(words.last())
    }
}

/// The words joined by single spaces.
pub open spec fn join_spaced(words: Seq<Seq<char>>) -> Seq<char>
    decreases words.len(),
{
    if words.len() == 0 {
        seq![]
    } else if words.len() == 1 {
        words[0]
    } else {
        join_spaced(words.drop_last()) + " "@ + words.last()
    }
}

/// `text` with its words separated by single spaces and without the words
/// `PUBLIC`, `PROTECTED` and `PRIVATE`.
pub open spec fn sanitized(text: Seq<char>) -> Seq<char> {
    join_spaced(kept_words(split_ws(text)))
}

/// The words of `text` that are not access specifiers, joined by single spaces.
pub fn sanitize_words(text: &str) -> (r: String)
    ensures
        r@ == sanitized(text@),
{
    let words = split_whitespace(text);
    let ghost wv = string_views(words@);
    let mut out = String::new();
    let mut first = true;
    let mut i: usize = 0;
    while i < words.len()
        invariant
            wv == string_views(words@),
            i <= words@.len(),
            out@ == join_spaced(kept_words(wv.take(i as int))),
            first == (kept_words(wv.take(i as int)).len() == 0),
        decreases words@.len() - i,
    {
        let w = words[i].as_str();
        assert(wv[i as int] == w@);
        assert(wv.take(i + 1).drop_last() =~= wv.take(i as int));
        assert(wv.take(i + 1).last() == w@);
        let access = str_eq(w, "PUBLIC") || str_eq(w, "PROTECTED") || str_eq(w, "PRIVATE");
        if !access {
            let ghost kept = kept_words(wv.take(i as int));
            if !first {
                out.append(" ");
            }
            out.append(w);
            proof {
                let k2 = kept.push(w@);
                if kept.len() == 0 {
                    assert(k2.len() == 1);
                    assert(out@ =~= k2[0]);
                } else {
                    assert(k2.drop_last() =~= kept);
                }
            }
            first = false;
        }
        i = i + 1;
    }
    assert(wv.take(words@.len() as int) =~= wv);
    out
}

impl Method {
    /// The text before the parent class name, with its words separated by
    /// single spaces and the access specifiers left out.
    pub fn get_sanitized_prefix(&self, source: &str) -> (r: String)
        requires
            self.parent.start >= 1,
            (SourceSpan { start: self.span.start, end: (self.parent.start - 1) as usize }).valid_in(
                source.spec_bytes(),
            ),
        ensures
            r@ == sanitized(
                (SourceSpan { start: self.span.start, end: (self.parent.start - 1) as usize }).text_in(
                    source.spec_bytes(),
                ),
            ),
    {
        sanitize_words(self.get_prefix_span().get(source))
    }
}

impl Identifier {
    /// The identifier as text.
    pub fn to_string(&self) -> (r: String)
        ensures
            r@ == self.0@,
    {
        self.0.clone()
    }
}

impl IdentifierTemplate {
    /// The identifier followed by its template arguments.
    pub fn to_string(&self) -> (r: String)
        ensures
            r@ == self.name.0@ + match self.template_arguments {
                Some(a) => a@,
                None => Seq::<char>::empty(),
            },
    {
        let mut r = self.name.to_string();
        match &self.template_arguments {
            Some(a) => r.append(a.as_str()),
            None => {
                assert(r@ =~= self.name.0@ + Seq::<char>::empty());
            },
        }
        r
    }
}

/// The text of an identifier with its template arguments.
pub open spec fn identifier_template_text(t: IdentifierTemplate) -> Seq<char> {
    t.name.0@ + match t.template_arguments {
        Some(a) => a@,
        None => Seq::<char>::empty(),
    }
}

/// The components joined by `::`.
pub open spec fn qualified_text(parts: Seq<IdentifierTemplate>) -> Seq<char>
    decreases parts.len(),
{
    if parts.len() == 0 {
        seq![]
    } else if parts.len() == 1 {
        identifier_template_text(parts[0])
    } else {
        qualified_text(parts.drop_last()) + "::"@ + identifier_template_text(parts.last())
    }
}

impl QualifiedIdentifier {
    /// The components joined by `::`.
    pub fn to_string(&self) -> (r: String)
        ensures
            r@ == qualified_text(self.0@),
    {
        let mut r = String::new();
        let mut i: usize = 0;
        while i < self.0.len()
            invariant
                i <= self.0@.len(),
                r@ == qualified_text(self.0@.take(i as int)),
            decreases self.0@.len() - i,
        {
            assert(self.0@.take(i + 1).drop_last() =~= self.0@.take(i as int));
            if i != 0 {
                r.append("::");
            }
            let part = self.0[i].to_string();
            r.append(part.as_str());
            proof {
                if i == 0 {
                    assert(r@ =~= identifier_template_text(self.0@[0]));
                }
            }
            i = i + 1;
        }
        assert(self.0@.take(self.0@.len() as int) =~= self.0@);
        r
    }
}

impl ReturnType {
    /// The type name followed by `*` or `&`.
    pub fn to_string(&self) -> (r: String)
        ensures
            r@ == qualified_text(self.name.0@) + match self.modifier {
                Some(TypeModifier::Pointer) => "*"@,
                Some(TypeModifier::Reference) => "&"@,
                None => Seq::<char>::empty(),
            },
    {
        let mut r = self.name.to_string();
        match self.modifier {
            Some(TypeModifier::Pointer) => r.append("*"),
            Some(TypeModifier::Reference) => r.append("&"),
            None => {
                assert(r@ =~= qualified_text(self.name.0@) + Seq::<char>::empty());
            },
        }
        r
    }
}

/// The text that a method body is written as.
pub open spec fn body_text(b: MethodBody) -> Seq<char> {
    match b {
        MethodBody::Definition(d) => d@,
        MethodBody::Default => " = default;"@,
        MethodBody::Delete => " = delete;"@,
    }
}

impl MethodBody {
    /// The block, ` = default;` or ` = delete;`.
    pub fn to_string(&self) -> (r: String)
        ensures
            r@ == body_text(*self),
    {
        match self {
            MethodBody::Definition(d) => d.clone(),
            MethodBody::Default => String::from_str(" = default;"),
            MethodBody::Delete => String::from_str(" = delete;"),
        }
    }
}

/// The characters of an optional string.
pub open spec fn opt_text(o: Option<String>) -> Option<Seq<char>> {
    match o {
        Some(s) => Some(s@),
        None => None,
    }
}

/// An identifier with its template arguments, as text.
pub struct IdentifierTemplateView {
    pub name: Seq<char>,
    pub template_arguments: Option<Seq<char>>,
}

/// The text of an identifier with template arguments.
pub open spec fn identifier_template_view(t: IdentifierTemplate) -> IdentifierTemplateView {
    IdentifierTemplateView { name: t.name.0@, template_arguments: opt_text(t.template_arguments) }
}

/// The texts of the components of a qualified identifier.
pub open spec fn qualified_view(parts: Seq<IdentifierTemplate>) -> Seq<IdentifierTemplateView> {
    parts.map_values(|t: IdentifierTemplate| identifier_template_view(t))
}

/// A return type, as text.
pub struct ReturnTypeView {
    pub name: Seq<IdentifierTemplateView>,
    pub modifier: Option<TypeModifier>,
}

/// The text of a return type.
pub open spec fn return_type_view(r: ReturnType) -> ReturnTypeView {
    ReturnTypeView { name: qualified_view(r.name.0@), modifier: r.modifier }
}

/// The text of an optional return type.
pub open spec fn opt_return_type_view(r: Option<ReturnType>) -> Option<ReturnTypeView> {
    match r {
        Some(t) => Some(return_type_view(t)),
        None => None,
    }
}

/// The argument lists of templates.
pub open spec fn templates_view(v: Seq<Template>) -> Seq<Seq<char>> {
    v.map_values(|t: Template| t.arguments@)
}

/// The expression of an optional dependency.
pub open spec fn dependency_view(d: Option<Dependency>) -> Option<Seq<char>> {
    match d {
        Some(x) => Some(x.expression@),
        None => None,
    }
}

/// The texts of attributes.
pub open spec fn attributes_view(v: Seq<Attribute>) -> Seq<Seq<char>> {
    v.map_values(|a: Attribute| a.source@)
}

/// A function, with its texts.
pub struct FunctionView {
    pub span: SourceSpan,
    pub extern_c: bool,
    pub templates: Seq<Seq<char>>,
    pub attributes: Seq<Seq<char>>,
    pub is_static: bool,
    pub is_inline: bool,
    pub noexport: bool,
    pub is_constexpr: bool,
    pub dependency: Option<Seq<char>>,
    pub return_type: ReturnTypeView,
    pub name: SourceSpan,
    pub parameters: Option<Seq<char>>,
    pub suffix: Seq<char>,
    pub body: Seq<char>,
}

/// The model of a function.
pub open spec fn function_view(f: Function) -> FunctionView {
    FunctionView {
        span: f.span,
        extern_c: f.extern_c,
        templates: templates_view(f.templates@),
        attributes: attributes_view(f.attributes@),
        is_static: f.is_static,
        is_inline: f.is_inline,
        noexport: f.noexport,
        is_constexpr: f.is_constexpr,
        dependency: dependency_view(f.dependency),
        return_type: return_type_view(f.return_type),
        name: f.name,
        parameters: opt_text(f.parameters),
        suffix: f.suffix@,
        body: f.body@,
    }
}

/// The body of a method, with its text.
pub enum MethodBodyView {
    Definition(Seq<char>),
    Default,
    Delete,
}

/// The model of a method body.
pub open spec fn method_body_view(b: MethodBody) -> MethodBodyView {
    match b {
        MethodBody::Definition(d) => MethodBodyView::Definition(d@),
        MethodBody::Default => MethodBodyView::Default,
        MethodBody::Delete => MethodBodyView::Delete,
    }
}

/// A method, with its texts.
pub struct MethodView {
    pub span: SourceSpan,
    pub access: Option<AccessSpecifier>,
    pub implementation: Option<ImplementSpecifier>,
    pub inline: bool,
    pub templates: Seq<Seq<char>>,
    pub attributes: Seq<Seq<char>>,
    pub is_static: bool,
    pub noexport: bool,
    pub is_constexpr: bool,
    pub dependency: Option<Seq<char>>,
    pub return_type: Option<ReturnTypeView>,
    pub parent: SourceSpan,
    pub name: SourceSpan,
    pub parameters: Option<Seq<char>>,
    pub suffix: Seq<char>,
    pub body: MethodBodyView,
}

/// The model of a method.
pub open spec fn method_view(m: Method) -> MethodView {
    MethodView {
        span: m.span,
        access: m.access,
        implementation: m.implementation,
        inline: m.inline,
        templates: templates_view(m.templates@),
        attributes: attributes_view(m.attributes@),
        is_static: m.is_static,
        noexport: m.noexport,
        is_constexpr: m.is_constexpr,
        dependency: dependency_view(m.dependency),
        return_type: opt_return_type_view(m.return_type),
        parent: m.parent,
        name: m.name,
        parameters: opt_text(m.parameters),
        suffix: m.suffix@,
        body: method_body_view(m.body),
    }
}

/// A class or struct declaration, with its texts.
pub struct ClassOrStructView {
    pub span: SourceSpan,
    pub kind: ClassOrStructKind,
    pub extension: bool,
    pub name: Seq<char>,
    pub inheritance: Option<Seq<char>>,
    pub body: Seq<char>,
    pub additional_methods: Seq<MethodView>,
}

/// The model of a class or struct declaration.
pub open spec fn class_or_struct_view(c: ClassOrStruct) -> ClassOrStructView {
    ClassOrStructView {
        span: c.span,
        kind: c.kind,
        extension: c.extension,
        name: c.name.0@,
        inheritance: opt_text(c.inheritance),
        body: c.body@,
        additional_methods: c.additional_methods@.map_values(|m: Method| method_view(m)),
    }
}

/// A declaration, with its texts.
pub enum DeclarationView {
    PreprocessLine(SourceSpan),
    ClassOrStruct(ClassOrStructView),
    Function(FunctionView),
    Method(MethodView),
    ExternC(Seq<char>),
    Verbatim(Seq<char>),
}

/// The model of a declaration.
pub open spec fn declaration_view(d: Declaration) -> DeclarationView {
    match d {
        Declaration::PreprocessLine(s) => DeclarationView::PreprocessLine(s),
        Declaration::ClassOrStruct(c) => DeclarationView::ClassOrStruct(class_or_struct_view(c)),
        Declaration::Function(f) => DeclarationView::Function(function_view(f)),
        Declaration::Method(m) => DeclarationView::Method(method_view(m)),
        Declaration::ExternC(e) => DeclarationView::ExternC(e.body@),
        Declaration::Verbatim(v) => DeclarationView::Verbatim(v@),
    }
}

/// The models of declarations.
pub open spec fn declarations_view(v: Seq<Declaration>) -> Seq<DeclarationView> {
    v.map_values(|d: Declaration| declaration_view(d))
}

/// A section, with its texts.
pub struct FppSectionDataView {
    pub guard: Option<Seq<char>>,
    pub declarations: Seq<DeclarationView>,
}

/// The model of the contents of a section.
pub open spec fn section_data_view(d: FppSectionData) -> FppSectionDataView {
    FppSectionDataView { guard: opt_text(d.guard), declarations: declarations_view(d.declarations@) }
}

/// An interface or implementation section, with its texts.
pub enum FppSectionView {
    Interface(FppSectionDataView),
    Implementation(FppSectionDataView),
}

/// The model of a section.
pub open spec fn section_view(s: FppSection) -> FppSectionView {
    match s {
        FppSection::Interface(d) => FppSectionView::Interface(section_data_view(d)),
        FppSection::Implementation(d) => FppSectionView::Implementation(section_data_view(d)),
    }
}

/// A translation unit, with its texts.
pub struct TranslationUnitView {
    pub declarations: Seq<DeclarationView>,
    pub sections: Seq<FppSectionView>,
}

/// The model of a translation unit.
pub open spec fn translation_unit_view(t: TranslationUnit) -> TranslationUnitView {
    TranslationUnitView {
        declarations: declarations_view(t.declarations@),
        sections: t.sections@.map_values(|s: FppSection| section_view(s)),
    }
}

} // verus!
