//! Generating the C++ public header, private header and implementation
//! file from a parsed Fiasco source file.

use vstd::prelude::*;
use vstd::string::*;
use vstd::utf8::*;
use crate::text::{chars_of, usize_to_decimal, decimal, starts_with, str_eq};
use crate::preprocess::ast::{
    AccessSpecifier, ClassOrStruct, Declaration, FppSection, Function, Method, MethodBody, SourceSpan,
    TranslationUnit, body_text, sanitized, opt_text,
};

verus! {

/// The three files generated from one source file.
pub struct CPPTriple {
    pub filename: String,
    pub public_header: String,
    pub private_header: String,
    pub implementation: String,
}

/// Whether a section guarded by `guard` is enabled by the active tags;
/// every section is enabled.
fn guard_matches(guard: &str, active_tags: &Vec<String>) -> (r: bool)
    ensures
        r,
{
    true
}

/// The char offsets at which the lines of `s` start: 0 and the offset
/// after each `\n`.
pub open spec fn line_starts(s: Seq<char>) -> Seq<usize>
    decreases s.len(),
{
    if s.len() == 0 {
        seq![0usize]
    } else if s.last() == '\n' {
        line_starts(s.drop_last()).push(s.len() as usize)
    } else {
        line_starts(s.drop_last())
    }
}

/// The line starts begin at 0 and strictly increase, and none lies beyond
/// the text.
pub proof fn lemma_line_starts(s: Seq<char>)
    requires
        s.len() <= usize::MAX,
    ensures
        line_starts(s).len() >= 1,
        line_starts(s)[0] == 0,
        forall|i: int, j: int| 0 <= i < j < line_starts(s).len() ==> line_starts(s)[i] < line_starts(s)[j],
        forall|i: int| 0 <= i < line_starts(s).len() ==> line_starts(s)[i] <= s.len(),
    decreases s.len(),
{
    if s.len() > 0 {
        let d = line_starts(s.drop_last());
        lemma_line_starts(s.drop_last());
        if s.last() == '\n' {
            let e = d.push(s.len() as usize);
            assert forall|i: int, j: int| 0 <= i < j < e.len() implies e[i] < e[j] by {
                if j == e.len() - 1 {
                    assert(e[i] == d[i]);
                    assert(d[i] <= s.len() - 1);
                } else {
                    assert(e[i] == d[i] && e[j] == d[j]);
                }
            }
        }
    }
}

/// `p` splits `lb` into the line starts at or before `offset` and those
/// after it.
pub open spec fn starts_split(lb: Seq<usize>, offset: usize, p: int) -> bool {
    &&& 0 <= p <= lb.len()
    &&& forall|i: int| 0 <= i < p ==> #[trigger] lb[i] <= offset
    &&& forall|i: int| p <= i < lb.len() ==> #[trigger] lb[i] > offset
}

/// The index of the line that contains char `offset`: the last line start
/// at or before it.
pub open spec fn line_index(lb: Seq<usize>, offset: usize) -> int {
    (choose|p: int| starts_split(lb, offset, p)) - 1
}

/// Source text with the offsets at which its lines start.
#[derive(Debug)]
pub struct Source {
    pub text: String,
    pub line_beginnings: Vec<usize>,
}

impl Source {
    /// The line starts are those of the text.
    pub open spec fn wf(&self) -> bool {
        &&& self.line_beginnings@ == line_starts(self.text@)
        &&& self.text@.len() <= usize::MAX
    }

    /// Indexes the lines of `text`.
    pub fn new(text: String) -> (r: Self)
        ensures
            r.text == text,
            r.wf(),
    {
        let chars = chars_of(text.as_str());
        let mut line_beginnings: Vec<usize> = Vec::new();
        line_beginnings.push(0);
        let mut i: usize = 0;
        assert(line_beginnings@ =~= line_starts(chars@.take(0)));
        while i < chars.len()
            invariant
                chars@ == text@,
                i <= chars@.len(),
                line_beginnings@ == line_starts(chars@.take(i as int)),
            decreases chars@.len() - i,
        {
            assert(chars@.take(i + 1).drop_last() =~= chars@.take(i as int));
            if chars[i] == '\n' {
                line_beginnings.push(i + 1);
            }
            i = i + 1;
        }
        assert(chars@.take(chars@.len() as int) =~= chars@);
        Self { text, line_beginnings }
    }

    /// The text.
    pub fn text(&self) -> (r: &str)
        ensures
            r@ == self.text@,
    {
        self.text.as_str()
    }

    /// The index of the line that contains char `offset`.
    pub fn line_at(&self, offset: usize) -> (r: usize)
        requires
            self.wf(),
        ensures
            r == line_index(self.line_beginnings@, offset),
            r < self.line_beginnings@.len(),
    {
        let ghost lb = self.line_beginnings@;
        proof {
            lemma_line_starts(self.text@);
        }
        let mut lo: usize = 0;
        let mut hi: usize = self.line_beginnings.len();
        while lo < hi
            invariant
                lb == self.line_beginnings@,
                lb == line_starts(self.text@),
                forall|i: int, j: int| 0 <= i < j < lb.len() ==> lb[i] < lb[j],
                lo <= hi <= lb.len(),
                forall|i: int| 0 <= i < lo ==> #[trigger] lb[i] <= offset,
                forall|i: int| hi <= i < lb.len() ==> #[trigger] lb[i] > offset,
            decreases hi - lo,
        {
            let mid = lo + (hi - lo) / 2;
            if self.line_beginnings[mid] <= offset {
                assert forall|i: int| 0 <= i < mid + 1 implies #[trigger] lb[i] <= offset by {
                    if i < mid {
                        assert(lb[i] < lb[mid as int]);
                    }
                }
                lo = mid + 1;
            } else {
                assert forall|i: int| mid <= i < lb.len() implies #[trigger] lb[i] > offset by {
                    if i > mid {
                        assert(lb[mid as int] < lb[i]);
                    }
                }
                hi = mid;
            }
        }
        proof {
            assert(lb[0] <= offset);
            assert(starts_split(lb, offset, lo as int));
            let p = choose|p: int| starts_split(lb, offset, p);
            if p < lo {
                assert(lb[p] > offset);
            } else if p > lo {
                assert(lb[lo as int] <= offset);
            }
        }
        lo - 1
    }
}

/// Line `k` of the text starts in line `k`.
pub proof fn lemma_line_at_line_start(source: &Source, k: int)
    requires
        source.wf(),
        0 <= k < source.line_beginnings@.len(),
    ensures
        line_index(source.line_beginnings@, source.line_beginnings@[k]) == k,
{
    let lb = source.line_beginnings@;
    lemma_line_starts(source.text@);
    let offset = lb[k];
    assert(starts_split(lb, offset, k + 1)) by {
        assert forall|i: int| 0 <= i < k + 1 implies #[trigger] lb[i] <= offset by {
            if i < k {
                assert(lb[i] < lb[k]);
            }
        }
        assert forall|i: int| k + 1 <= i < lb.len() implies #[trigger] lb[i] > offset by {
            assert(lb[k] < lb[i]);
        }
    }
    let p = choose|p: int| starts_split(lb, offset, p);
    if p < k + 1 {
        assert(lb[p] > offset);
        assert(lb[p] <= offset);
    } else if p > k + 1 {
        assert(lb[k + 1] <= offset);
        assert(lb[k + 1] > offset);
    }
}

/// The `#line` directive that points the generated code at the line of
/// char `offset` in `filename`.
pub open spec fn line_marker(lb: Seq<usize>, offset: usize, filename: Seq<char>) -> Seq<char> {
    "\n#line "@ + decimal(line_index(lb, offset) as nat) + " \""@ + filename + "\"\n"@
}

/// `\n#line N "FILE"\n` for the line that contains char `offset`.
fn source_line(source: &Source, offset: usize, filename: &str) -> (r: String)
    requires
        source.wf(),
    ensures
        r@ == line_marker(source.line_beginnings@, offset, filename@),
{
    let mut r = String::from_str("\n#line ");
    let n = usize_to_decimal(source.line_at(offset));
    r.append(n.as_str());
    r.append(" \"");
    r.append(filename);
    r.append("\"\n");
    r
}

/// A class as the generator collects it: its span and name, the base
/// classes that extensions add, and its methods.
pub struct ClassView {
    pub span: SourceSpan,
    pub name: Seq<char>,
    pub inheritance: Option<Seq<char>>,
    pub methods: Seq<Method>,
}

/// A class declaration as the generator starts from it.
pub open spec fn class_view_of(c: ClassOrStruct) -> ClassView {
    ClassView {
        span: c.span,
        name: c.name.0@,
        inheritance: opt_text(c.inheritance),
        methods: c.additional_methods@,
    }
}

/// Class `k` is the first named `name`.
pub open spec fn is_first_named(cs: Seq<ClassView>, name: Seq<char>, k: int) -> bool {
    &&& 0 <= k < cs.len()
    &&& cs[k].name == name
    &&& forall|j: int| 0 <= j < k ==> (#[trigger] cs[j]).name != name
}

/// The first class named `name`, if any.
pub open spec fn first_named(cs: Seq<ClassView>, name: Seq<char>) -> Option<int> {
    if exists|k: int| is_first_named(cs, name, k) {
        Some(choose|k: int| is_first_named(cs, name, k))
    } else {
        None
    }
}

/// The classes after one declaration of an interface section (`interface`)
/// or of an implementation section: a class is added; an extension with a
/// base class gives the first class of its name that has no base classes
/// yet that base, after a `#line` marker; a method joins the first class of
/// its parent's name.
pub open spec fn absorb(
    cs: Seq<ClassView>,
    d: Declaration,
    interface: bool,
    tb: Seq<u8>,
    lb: Seq<usize>,
    f: Seq<char>,
) -> Seq<ClassView> {
    if interface {
        match d {
            Declaration::ClassOrStruct(c) => if c.extension {
                match (first_named(cs, c.name.0@), c.inheritance) {
                    (Some(k), Some(ext)) => if cs[k].inheritance is None {
                        cs.update(
                            k,
                            ClassView {
                                inheritance: Some(
                                    line_marker(lb, c.span.start, f) + "\t"@ + ext@ + "\n"@,
                                ),
                                ..cs[k]
                            },
                        )
                    } else {
                        cs
                    },
                    _ => cs,
                }
            } else {
                cs.push(class_view_of(c))
            },
            _ => cs,
        }
    } else {
        match d {
            Declaration::Method(m) => match first_named(cs, m.parent.text_in(tb)) {
                Some(k) => cs.update(k, ClassView { methods: cs[k].methods.push(m), ..cs[k] }),
                None => cs,
            },
            _ => cs,
        }
    }
}

/// The classes after the declarations `ds` of one section.
pub open spec fn absorb_all(
    cs: Seq<ClassView>,
    ds: Seq<Declaration>,
    interface: bool,
    tb: Seq<u8>,
    lb: Seq<usize>,
    f: Seq<char>,
) -> Seq<ClassView>
    decreases ds.len(),
{
    if ds.len() == 0 {
        cs
    } else {
        absorb(absorb_all(cs, ds.drop_last(), interface, tb, lb, f), ds.last(), interface, tb, lb, f)
    }
}

/// Whether a section is an interface section, and its declarations.
pub open spec fn section_parts(s: FppSection) -> (bool, Seq<Declaration>) {
    match s {
        FppSection::Interface(d) => (true, d.declarations@),
        FppSection::Implementation(d) => (false, d.declarations@),
    }
}

/// The classes that the sections declare, extend and add methods to.
pub open spec fn classes_of(secs: Seq<FppSection>, tb: Seq<u8>, lb: Seq<usize>, f: Seq<char>) -> Seq<
    ClassView,
>
    decreases secs.len(),
{
    if secs.len() == 0 {
        seq![]
    } else {
        absorb_all(
            classes_of(secs.drop_last(), tb, lb, f),
            section_parts(secs.last()).1,
            section_parts(secs.last()).0,
            tb,
            lb,
            f,
        )
    }
}

/// The parameter list as written, or `()`.
pub open spec fn params_text(p: Option<String>) -> Seq<char> {
    match p {
        Some(s) => s@,
        None => "()"@,
    }
}

/// The span of a method before its parent class name.
pub open spec fn method_prefix_span(m: Method) -> SourceSpan {
    SourceSpan { start: m.span.start, end: (m.parent.start - 1) as usize }
}

/// The declaration of a public method inside its class in the header.
pub open spec fn method_header(m: Method, tb: Seq<u8>, lb: Seq<usize>, f: Seq<char>) -> Seq<char> {
    line_marker(lb, m.span.start, f) + "\t"@ + sanitized(method_prefix_span(m).text_in(tb)) + "\n\t"@
        + m.name.text_in(tb) + params_text(m.parameters) + m.suffix@ + ";\n"@
}

/// The definition of a public method in the implementation file.
pub open spec fn method_impl(m: Method, tb: Seq<u8>) -> Seq<char> {
    sanitized(method_prefix_span(m).text_in(tb)) + "\n"@ + m.parent.text_in(tb) + "::"@
        + m.name.text_in(tb) + params_text(m.parameters) + m.suffix@ + "\n"@ + body_text(m.body)
        + "\n"@
}

/// The header and implementation text of the public methods of `ms`.
pub open spec fn public_methods(ms: Seq<Method>, tb: Seq<u8>, lb: Seq<usize>, f: Seq<char>) -> (Seq<
    char,
>, Seq<char>)
    decreases ms.len(),
{
    if ms.len() == 0 {
        (seq![], seq![])
    } else {
        let (h, i) = public_methods(ms.drop_last(), tb, lb, f);
        let m = ms.last();
        if m.access == Some(AccessSpecifier::Public) {
            (h + method_header(m, tb, lb, f), i + method_impl(m, tb))
        } else {
            (h, i)
        }
    }
}

/// The header and implementation text of one class.
pub open spec fn class_text(c: ClassView, tb: Seq<u8>, lb: Seq<usize>, f: Seq<char>) -> (Seq<char>, Seq<
    char,
>) {
    let (h, i) = public_methods(c.methods, tb, lb, f);
    (
        line_marker(lb, c.span.start, f) + "class "@ + c.name + " "@ + match c.inheritance {
            Some(x) => ":\n"@ + x,
            None => Seq::<char>::empty(),
        } + "\n{\n"@ + "public:\n"@ + h + "};\n"@,
        i,
    )
}

/// The header and implementation text of all classes.
pub open spec fn classes_text(cs: Seq<ClassView>, tb: Seq<u8>, lb: Seq<usize>, f: Seq<char>) -> (Seq<
    char,
>, Seq<char>)
    decreases cs.len(),
{
    if cs.len() == 0 {
        (seq![], seq![])
    } else {
        let (h, i) = classes_text(cs.drop_last(), tb, lb, f);
        let (h2, i2) = class_text(cs.last(), tb, lb, f);
        (h + h2, i + i2)
    }
}

/// Whether the text of `span` starts with `#include`.
pub open spec fn is_include(span: SourceSpan, tb: Seq<u8>) -> bool {
    let t = tb.subrange(span.start as int, span.end as int);
    let p = encode_utf8("#include"@);
    p.len() <= t.len() && t.take(p.len() as int) == p
}

/// The `#include` lines among the top-level declarations.
pub open spec fn includes_of(ds: Seq<Declaration>, tb: Seq<u8>) -> Seq<SourceSpan>
    decreases ds.len(),
{
    if ds.len() == 0 {
        seq![]
    } else {
        let rest = includes_of(ds.drop_last(), tb);
        match ds.last() {
            Declaration::PreprocessLine(span) => if is_include(span, tb) {
                rest.push(span)
            } else {
                rest
            },
            _ => rest,
        }
    }
}

/// The header text that repeats the `#include` lines for inline functions.
pub open spec fn includes_text(spans: Seq<SourceSpan>, tb: Seq<u8>, lb: Seq<usize>, f: Seq<char>) -> Seq<
    char,
>
    decreases spans.len(),
{
    if spans.len() == 0 {
        seq![]
    } else {
        includes_text(spans.drop_last(), tb, lb, f)
            + "\n//\n// IMPLEMENTATION includes follow (for use by inline functions/templates)\n//\n\n"@
            + line_marker(lb, spans.last().start, f) + spans.last().text_in(tb) + "\n"@
    }
}

/// The generated texts so far, and whether the `#include` lines are still
/// to be repeated in the header.
pub struct GenOut {
    pub header: Seq<char>,
    pub implementation: Seq<char>,
    pub pending: bool,
}

/// The texts after one declaration of an implementation section: a
/// preprocessor line goes to the implementation file; a function is declared
/// in the header if it has a body, and defined in the header if it is a
/// template, else in the implementation file; the first function also
/// repeats the `#include` lines in the header.
pub open spec fn emit_decl(
    o: GenOut,
    d: Declaration,
    includes: Seq<SourceSpan>,
    tb: Seq<u8>,
    lb: Seq<usize>,
    f: Seq<char>,
) -> GenOut {
    match d {
        Declaration::PreprocessLine(span) => GenOut {
            implementation: o.implementation + line_marker(lb, span.start, f) + span.text_in(tb)
                + "\n"@,
            ..o
        },
        Declaration::Function(fun) => {
            let ln = line_marker(lb, fun.span.start, f);
            let prefix = (SourceSpan { start: fun.span.start, end: (fun.name.start - 1) as usize }).text_in(tb);
            let decl = prefix + "\n"@ + fun.name.text_in(tb) + params_text(fun.parameters) + fun.suffix@
                + ";\n"@;
            let h1 = if fun.body@.len() > 0 {
                o.header + ln + decl
            } else {
                o.header
            };
            let h2 = if o.pending {
                h1 + includes_text(includes, tb, lb, f)
            } else {
                h1
            };
            let full = fun.span.text_in(tb) + "\n"@;
            if fun.templates@.len() > 0 {
                GenOut {
                    header: h2 + "\n//\n// IMPLEMENTATION of function templates\n//\n\n"@ + ln + full,
                    implementation: o.implementation,
                    pending: false,
                }
            } else {
                GenOut { header: h2, implementation: o.implementation + ln + full, pending: false }
            }
        },
        _ => o,
    }
}

/// The texts after the declarations `ds` of an implementation section.
pub open spec fn emit_decls(
    o: GenOut,
    ds: Seq<Declaration>,
    includes: Seq<SourceSpan>,
    tb: Seq<u8>,
    lb: Seq<usize>,
    f: Seq<char>,
) -> GenOut
    decreases ds.len(),
{
    if ds.len() == 0 {
        o
    } else {
        emit_decl(emit_decls(o, ds.drop_last(), includes, tb, lb, f), ds.last(), includes, tb, lb, f)
    }
}

/// A function with templates is defined in the public header, after the
/// banner `IMPLEMENTATION of function templates` and its line marker, and
/// leaves the implementation file as it is; a function without templates
/// is defined, after its line marker, in the implementation file.
pub proof fn lemma_function_definition_placement(
    o: GenOut,
    fun: Function,
    includes: Seq<SourceSpan>,
    tb: Seq<u8>,
    lb: Seq<usize>,
    f: Seq<char>,
)
    ensures
        fun.templates@.len() > 0 ==> {
            let r = emit_decl(o, Declaration::Function(fun), includes, tb, lb, f);
            let tail = "\n//\n// IMPLEMENTATION of function templates\n//\n\n"@ + line_marker(lb, fun.span.start, f)
                + fun.span.text_in(tb) + "\n"@;
            &&& r.implementation == o.implementation
            &&& o.header.is_prefix_of(r.header)
            &&& tail.is_suffix_of(r.header)
        },
        fun.templates@.len() == 0 ==> emit_decl(o, Declaration::Function(fun), includes, tb, lb, f).implementation
            == o.implementation + line_marker(lb, fun.span.start, f) + fun.span.text_in(tb) + "\n"@,
{
    let r = emit_decl(o, Declaration::Function(fun), includes, tb, lb, f);
    if fun.templates@.len() > 0 {
        let tail = "\n//\n// IMPLEMENTATION of function templates\n//\n\n"@ + line_marker(lb, fun.span.start, f)
            + fun.span.text_in(tb) + "\n"@;
        let ln = line_marker(lb, fun.span.start, f);
        let prefix = (SourceSpan { start: fun.span.start, end: (fun.name.start - 1) as usize }).text_in(tb);
        let decl = prefix + "\n"@ + fun.name.text_in(tb) + params_text(fun.parameters) + fun.suffix@ + ";\n"@;
        let h1 = if fun.body@.len() > 0 {
            o.header + ln + decl
        } else {
            o.header
        };
        let h2 = if o.pending {
            h1 + includes_text(includes, tb, lb, f)
        } else {
            h1
        };
        assert(r.header =~= h2 + tail);
        assert(o.header.is_prefix_of(h2)) by {
            assert(h1.subrange(0, o.header.len() as int) =~= o.header);
            assert(h2.subrange(0, o.header.len() as int) =~= o.header);
        }
        assert(r.header.subrange(0, o.header.len() as int) =~= o.header);
        assert(r.header.subrange(r.header.len() - tail.len(), r.header.len() as int) =~= tail);
    }
}

/// Running through `a` and then `b` is running through `a + b`.
proof fn lemma_emit_decls_concat(
    o: GenOut,
    a: Seq<Declaration>,
    b: Seq<Declaration>,
    includes: Seq<SourceSpan>,
    tb: Seq<u8>,
    lb: Seq<usize>,
    f: Seq<char>,
)
    ensures
        emit_decls(o, a + b, includes, tb, lb, f) == emit_decls(emit_decls(o, a, includes, tb, lb, f), b, includes, tb, lb, f),
    decreases b.len(),
{
    if b.len() == 0 {
        assert(a + b =~= a);
    } else {
        lemma_emit_decls_concat(o, a, b.drop_last(), includes, tb, lb, f);
        assert((a + b).drop_last() =~= a + b.drop_last());
        assert((a + b).last() == b.last());
    }
}

/// The implementation file after some declarations depends only on the
/// implementation file before them, not on the header.
proof fn lemma_emit_decls_implementation_only(
    o1: GenOut,
    o2: GenOut,
    ds: Seq<Declaration>,
    includes: Seq<SourceSpan>,
    tb: Seq<u8>,
    lb: Seq<usize>,
    f: Seq<char>,
)
    requires
        o1.implementation == o2.implementation,
    ensures
        emit_decls(o1, ds, includes, tb, lb, f).implementation == emit_decls(o2, ds, includes, tb, lb, f).implementation,
    decreases ds.len(),
{
    if ds.len() > 0 {
        lemma_emit_decls_implementation_only(o1, o2, ds.drop_last(), includes, tb, lb, f);
    }
}

/// Adding a function with templates anywhere among the declarations of an
/// implementation section leaves the implementation file as it is.
pub proof fn lemma_template_function_leaves_implementation(
    o: GenOut,
    a: Seq<Declaration>,
    fun: Function,
    b: Seq<Declaration>,
    includes: Seq<SourceSpan>,
    tb: Seq<u8>,
    lb: Seq<usize>,
    f: Seq<char>,
)
    requires
        fun.templates@.len() > 0,
    ensures
        emit_decls(o, a + seq![Declaration::Function(fun)] + b, includes, tb, lb, f).implementation == emit_decls(
            o,
            a + b,
            includes,
            tb,
            lb,
            f,
        ).implementation,
{
    let d = Declaration::Function(fun);
    let ad = a + seq![d];
    lemma_emit_decls_concat(o, ad, b, includes, tb, lb, f);
    lemma_emit_decls_concat(o, a, b, includes, tb, lb, f);
    lemma_emit_decls_concat(o, a, seq![d], includes, tb, lb, f);
    let x = emit_decls(o, a, includes, tb, lb, f);
    assert(emit_decls(x, seq![d], includes, tb, lb, f) == emit_decl(x, d, includes, tb, lb, f)) by {
        assert(seq![d].drop_last() =~= Seq::<Declaration>::empty());
        assert(seq![d].last() == d);
        assert(emit_decls(x, Seq::<Declaration>::empty(), includes, tb, lb, f) == x);
    }
    lemma_function_definition_placement(x, fun, includes, tb, lb, f);
    lemma_emit_decls_implementation_only(emit_decl(x, d, includes, tb, lb, f), x, b, includes, tb, lb, f);
}

/// The texts after the sections: every interface section prints all
/// classes; implementation sections print their declarations.
pub open spec fn emit_sections(
    o: GenOut,
    secs: Seq<FppSection>,
    cs: Seq<ClassView>,
    includes: Seq<SourceSpan>,
    tb: Seq<u8>,
    lb: Seq<usize>,
    f: Seq<char>,
) -> GenOut
    decreases secs.len(),
{
    if secs.len() == 0 {
        o
    } else {
        let before = emit_sections(o, secs.drop_last(), cs, includes, tb, lb, f);
        match secs.last() {
            FppSection::Interface(_) => {
                let (h, i) = classes_text(cs, tb, lb, f);
                GenOut {
                    header: before.header + h,
                    implementation: before.implementation + i,
                    pending: before.pending,
                }
            },
            FppSection::Implementation(data) => emit_decls(
                before,
                data.declarations@,
                includes,
                tb,
                lb,
                f,
            ),
        }
    }
}

/// The banner that every generated file starts with.
pub open spec fn do_not_edit() -> Seq<char> {
    "// AUTOMATICALLY GENERATED -- DO NOT EDIT!         -*- c++ -*-\n\n"@
}

/// The texts that the generator starts from.
pub open spec fn gen_start(f: Seq<char>) -> GenOut {
    GenOut {
        header: do_not_edit() + "#pragma once\n"@ + "\n//\n// INTERFACE definition follows\n//\n\n"@,
        implementation: do_not_edit() + "#include \""@ + f + ".h\"\n"@ + "#include \""@ + f
            + "_i.h\"\n"@ + "\n//\n// IMPLEMENTATION definition follows\n//\n\n"@,
        pending: true,
    }
}

/// The private header generated for `f`.
pub open spec fn private_header_text(f: Seq<char>) -> Seq<char> {
    do_not_edit() + "#pragma once\n"@ + "#include \""@ + f + ".h\"\n"@
}

/// The public header and implementation generated from `tu`.
pub open spec fn generated(tu: TranslationUnit, tb: Seq<u8>, lb: Seq<usize>, f: Seq<char>) -> GenOut {
    emit_sections(
        gen_start(f),
        tu.sections@,
        classes_of(tu.sections@, tb, lb, f),
        includes_of(tu.declarations@, tb),
        tb,
        lb,
        f,
    )
}

/// The spans that printing a method reads lie within the text.
pub open spec fn method_spans_ok(m: Method, tb: Seq<u8>) -> bool {
    &&& m.parent.start >= 1
    &&& method_prefix_span(m).valid_in(tb)
    &&& m.parent.valid_in(tb)
    &&& m.name.valid_in(tb)
}

/// The spans that a declaration of an implementation section reads lie
/// within the text.
pub open spec fn impl_decl_ok(d: Declaration, tb: Seq<u8>) -> bool {
    match d {
        Declaration::PreprocessLine(span) => span.valid_in(tb),
        Declaration::Method(m) => m.parent.valid_in(tb),
        Declaration::Function(fun) => {
            &&& fun.name.start >= 1
            &&& (SourceSpan { start: fun.span.start, end: (fun.name.start - 1) as usize }).valid_in(tb)
            &&& fun.name.valid_in(tb)
            &&& fun.span.valid_in(tb)
        },
        _ => true,
    }
}

/// Every span that printing the declarations of a section reads lies
/// within the text.
pub open spec fn section_ok(s: FppSection, tb: Seq<u8>) -> bool {
    match s {
        FppSection::Interface(_) => true,
        FppSection::Implementation(data) => forall|k: int|
            0 <= k < data.declarations@.len() ==> impl_decl_ok(#[trigger] data.declarations@[k], tb),
    }
}

/// The spans that printing a method reads lie within the text, where the
/// method is printed: where it is public.
pub open spec fn public_method_ok(m: Method, tb: Seq<u8>) -> bool {
    m.access == Some(AccessSpecifier::Public) ==> method_spans_ok(m, tb)
}

/// Every span that the generator reads lies within the text: those of the
/// top-level preprocessor lines, of the declarations of each implementation
/// section, and of the public methods of the classes it prints.
pub open spec fn spans_ok(tu: TranslationUnit, tb: Seq<u8>, lb: Seq<usize>, f: Seq<char>) -> bool {
    &&& forall|i: int|
        0 <= i < tu.declarations@.len() ==> (#[trigger] tu.declarations@[i] matches Declaration::PreprocessLine(
            span,
        ) ==> span.valid_in(tb))
    &&& forall|s: int| 0 <= s < tu.sections@.len() ==> section_ok(#[trigger] tu.sections@[s], tb)
    &&& classes_ok(classes_of(tu.sections@, tb, lb, f), tb)
}

/// A class while the generator collects it: the declaration it starts
/// from, the base classes that extensions add and its methods.
struct ClassRec<'a> {
    origin: &'a ClassOrStruct,
    inheritance: Option<String>,
    methods: Vec<&'a Method>,
}

/// The methods that the references point to.
spec fn derefs(v: Seq<&Method>) -> Seq<Method> {
    v.map_values(|m: &Method| *m)
}

/// The value of a class record.
spec fn rec_view(r: ClassRec) -> ClassView {
    ClassView {
        span: r.origin.span,
        name: r.origin.name.0@,
        inheritance: opt_text(r.inheritance),
        methods: derefs(r.methods@),
    }
}

/// The values of class records.
spec fn rec_views(v: Seq<ClassRec>) -> Seq<ClassView> {
    v.map_values(|r: ClassRec| rec_view(r))
}

/// Every method of every class can be printed.
pub open spec fn classes_ok(cs: Seq<ClassView>, tb: Seq<u8>) -> bool {
    forall|i: int, k: int|
        0 <= i < cs.len() && 0 <= k < cs[i].methods.len() ==> public_method_ok(
            #[trigger] cs[i].methods[k],
            tb,
        )
}

/// The declaration and definition of a public method.
fn emit_method(
    m: &Method,
    source: &Source,
    filename: &str,
    header: &mut String,
    implementation: &mut String,
)
    requires
        source.wf(),
        method_spans_ok(*m, encode_utf8(source.text@)),
    ensures
        final(header)@ == old(header)@ + method_header(
            *m,
            encode_utf8(source.text@),
            source.line_beginnings@,
            filename@,
        ),
        final(implementation)@ == old(implementation)@ + method_impl(*m, encode_utf8(source.text@)),
{
    let text = source.text();
    let marker = source_line(source, m.span.start, filename);
    let prefix = m.get_sanitized_prefix(text);
    let parent = m.parent.get(text);
    let name = m.name.get(text);
    let parameters = match &m.parameters {
        Some(p) => p.as_str(),
        None => "()",
    };
    let suffix = m.suffix.as_str();
    let body = m.body.to_string();
    header.append(marker.as_str());
    header.append("\t");
    header.append(prefix.as_str());
    header.append("\n\t");
    header.append(name);
    header.append(parameters);
    header.append(suffix);
    header.append(";\n");
    implementation.append(prefix.as_str());
    implementation.append("\n");
    implementation.append(parent);
    implementation.append("::");
    implementation.append(name);
    implementation.append(parameters);
    implementation.append(suffix);
    implementation.append("\n");
    implementation.append(body.as_str());
    implementation.append("\n");
    proof {
        let tb = encode_utf8(source.text@);
        assert(final(header)@ =~= old(header)@ + method_header(*m, tb, source.line_beginnings@, filename@));
        assert(final(implementation)@ =~= old(implementation)@ + method_impl(*m, tb));
    }
}

/// The `#include` lines among the top-level declarations.
fn collect_includes(ds: &Vec<Declaration>, source: &Source) -> (r: Vec<SourceSpan>)
    requires
        forall|i: int|
            0 <= i < ds@.len() ==> (#[trigger] ds@[i] matches Declaration::PreprocessLine(span)
                ==> span.valid_in(encode_utf8(source.text@))),
    ensures
        r@ == includes_of(ds@, encode_utf8(source.text@)),
        forall|i: int| 0 <= i < r@.len() ==> (#[trigger] r@[i]).valid_in(encode_utf8(source.text@)),
{
    let ghost tb = encode_utf8(source.text@);
    let text = source.text();
    let mut r: Vec<SourceSpan> = Vec::new();
    let mut i: usize = 0;
    while i < ds.len()
        invariant
            tb == encode_utf8(source.text@),
            text@ == source.text@,
            i <= ds@.len(),
            forall|j: int|
                0 <= j < ds@.len() ==> (#[trigger] ds@[j] matches Declaration::PreprocessLine(span)
                    ==> span.valid_in(tb)),
            r@ == includes_of(ds@.take(i as int), tb),
            forall|j: int| 0 <= j < r@.len() ==> (#[trigger] r@[j]).valid_in(tb),
        decreases ds@.len() - i,
    {
        assert(ds@.take(i + 1).drop_last() =~= ds@.take(i as int));
        assert(ds@.take(i + 1).last() == ds@[i as int]);
        match &ds[i] {
            Declaration::PreprocessLine(span) => {
                let line = span.get(text);
                if starts_with(line, "#include") {
                    r.push(*span);
                }
            },
            _ => {},
        }
        i = i + 1;
    }
    assert(ds@.take(ds@.len() as int) =~= ds@);
    r
}

/// A class that is first of its name is the one `first_named` finds.
proof fn lemma_first_named(cs: Seq<ClassView>, name: Seq<char>, k: int)
    requires
        is_first_named(cs, name, k),
    ensures
        first_named(cs, name) == Some(k),
{
    let c = choose|c: int| is_first_named(cs, name, c);
    if c < k {
        assert(cs[c].name != name);
    } else if c > k {
        assert(cs[k].name != name);
    }
}

/// The position of the first class named `name`.
fn find_class(classes: &Vec<ClassRec>, name: &str) -> (r: Option<usize>)
    ensures
        match r {
            Some(k) => first_named(rec_views(classes@), name@) == Some(k as int) && k < classes@.len(),
            None => first_named(rec_views(classes@), name@) is None,
        },
{
    let ghost cs = rec_views(classes@);
    let mut i: usize = 0;
    while i < classes.len()
        invariant
            cs == rec_views(classes@),
            i <= classes@.len(),
            forall|j: int| 0 <= j < i ==> (#[trigger] cs[j]).name != name@,
        decreases classes@.len() - i,
    {
        if str_eq(classes[i].origin.name.0.as_str(), name) {
            proof {
                lemma_first_named(cs, name@, i as int);
            }
            return Some(i);
        }
        i = i + 1;
    }
    proof {
        if exists|k: int| is_first_named(cs, name@, k) {
            let k = choose|k: int| is_first_named(cs, name@, k);
            assert(cs[k].name != name@);
        }
    }
    None
}

/// Records of the methods of `ms`.
fn method_refs<'a>(ms: &'a Vec<Method>) -> (r: Vec<&'a Method>)
    ensures
        derefs(r@) == ms@,
{
    let mut r: Vec<&'a Method> = Vec::new();
    let mut i: usize = 0;
    while i < ms.len()
        invariant
            i <= ms@.len(),
            r@.len() == i,
            derefs(r@) == ms@.take(i as int),
        decreases ms@.len() - i,
    {
        let ghost prev = r@;
        let m = &ms[i];
        r.push(m);
        assert(r@ == prev.push(m));
        assert(*m == ms@[i as int]);
        assert forall|j: int| 0 <= j < i + 1 implies #[trigger] derefs(r@)[j] == ms@.take(i + 1)[j] by {
            if j < i {
                assert(r@[j] == prev[j]);
                assert(derefs(prev)[j] == ms@.take(i as int)[j]);
            }
        }
        assert(derefs(r@) =~= ms@.take(i + 1));
        i = i + 1;
    }
    assert(ms@.take(ms@.len() as int) =~= ms@);
    r
}

/// Takes in the declarations of one section: classes of interface
/// sections, methods of implementation sections.
fn absorb_section<'a>(
    classes: &mut Vec<ClassRec<'a>>,
    section: &'a FppSection,
    source: &Source,
    filename: &str,
)
    requires
        source.wf(),
        section_ok(*section, encode_utf8(source.text@)),
    ensures
        rec_views(final(classes)@) == absorb_all(
            rec_views(old(classes)@),
            section_parts(*section).1,
            section_parts(*section).0,
            encode_utf8(source.text@),
            source.line_beginnings@,
            filename@,
        ),
{
    let ghost tb = encode_utf8(source.text@);
    let ghost lb = source.line_beginnings@;
    let ghost c0 = rec_views(classes@);
    let text = source.text();
    let (interface, decls) = match section {
        FppSection::Interface(data) => (true, &data.declarations),
        FppSection::Implementation(data) => (false, &data.declarations),
    };
    assert(interface == section_parts(*section).0 && decls@ == section_parts(*section).1);
    let mut i: usize = 0;
    while i < decls.len()
        invariant
            tb == encode_utf8(source.text@),
            lb == source.line_beginnings@,
            text@ == source.text@,
            source.wf(),
            i <= decls@.len(),
            !interface ==> forall|k: int|
                0 <= k < decls@.len() ==> impl_decl_ok(#[trigger] decls@[k], tb),
            rec_views(classes@) == absorb_all(c0, decls@.take(i as int), interface, tb, lb, filename@),
        decreases decls@.len() - i,
    {
        assert(decls@.take(i + 1).drop_last() =~= decls@.take(i as int));
        assert(decls@.take(i + 1).last() == decls@[i as int]);
        let ghost before = rec_views(classes@);
        if interface {
            match &decls[i] {
                Declaration::ClassOrStruct(c) => {
                    if c.extension {
                        let found = find_class(classes, c.name.0.as_str());
                        match (found, &c.inheritance) {
                            (Some(k), Some(ext)) => {
                                if classes[k].inheritance.is_none() {
                                    let mut base = source_line(source, c.span.start, filename);
                                    base.append("\t");
                                    base.append(ext.as_str());
                                    base.append("\n");
                                    let mut rec = classes.remove(k);
                                    rec.inheritance = Some(base);
                                    classes.insert(k, rec);
                                    assert(rec_views(classes@) =~= before.update(
                                        k as int,
                                        ClassView {
                                            inheritance: Some(
                                                line_marker(lb, c.span.start, filename@) + "\t"@
                                                    + ext@ + "\n"@,
                                            ),
                                            ..before[k as int]
                                        },
                                    ));
                                }
                            },
                            _ => {},
                        }
                    } else {
                        let inheritance = match &c.inheritance {
                            Some(x) => Some(x.clone()),
                            None => None,
                        };
                        let methods = method_refs(&c.additional_methods);
                        classes.push(ClassRec { origin: c, inheritance, methods });
                        assert(rec_views(classes@) =~= before.push(class_view_of(*c)));
                    }
                },
                _ => {},
            }
        } else {
            match &decls[i] {
                Declaration::Method(m) => {
                    let parent = m.parent.get(text);
                    let found = find_class(classes, parent);
                    match found {
                        Some(k) => {
                            let mut rec = classes.remove(k);
                            rec.methods.push(m);
                            classes.insert(k, rec);
                            assert(rec_views(classes@)[k as int].methods =~= before[k as int].methods.push(*m));
                            assert(rec_views(classes@) =~= before.update(
                                k as int,
                                ClassView { methods: before[k as int].methods.push(*m), ..before[k as int] },
                            ));
                        },
                        None => {},
                    }
                },
                _ => {},
            }
        }
        i = i + 1;
    }
    assert(decls@.take(decls@.len() as int) =~= decls@);
}

/// Prints one class: its declaration with the public methods into the
/// header, their definitions into the implementation.
fn emit_class(
    c: &ClassRec,
    source: &Source,
    filename: &str,
    header: &mut String,
    implementation: &mut String,
)
    requires
        source.wf(),
        forall|k: int|
            0 <= k < rec_view(*c).methods.len() ==> public_method_ok(
                #[trigger] rec_view(*c).methods[k],
                encode_utf8(source.text@),
            ),
    ensures
        final(header)@ == old(header)@ + class_text(
            rec_view(*c),
            encode_utf8(source.text@),
            source.line_beginnings@,
            filename@,
        ).0,
        final(implementation)@ == old(implementation)@ + class_text(
            rec_view(*c),
            encode_utf8(source.text@),
            source.line_beginnings@,
            filename@,
        ).1,
{
    let ghost tb = encode_utf8(source.text@);
    let ghost lb = source.line_beginnings@;
    let ghost f = filename@;
    let ghost cv = rec_view(*c);
    let ghost h0 = header@;
    let ghost i0 = implementation@;
    let marker = source_line(source, c.origin.span.start, filename);
    header.append(marker.as_str());
    header.append("class ");
    header.append(c.origin.name.0.as_str());
    header.append(" ");
    match &c.inheritance {
        Some(x) => {
            header.append(":\n");
            header.append(x.as_str());
        },
        None => {},
    }
    header.append("\n{\n");
    header.append("public:\n");
    let ghost opening = header@;
    assert(opening =~= h0 + line_marker(lb, c.origin.span.start, f) + "class "@ + cv.name + " "@
        + match cv.inheritance {
        Some(x) => ":\n"@ + x,
        None => Seq::<char>::empty(),
    } + "\n{\n"@ + "public:\n"@);
    let mut k: usize = 0;
    while k < c.methods.len()
        invariant
            tb == encode_utf8(source.text@),
            lb == source.line_beginnings@,
            f == filename@,
            cv == rec_view(*c),
            source.wf(),
            k <= c.methods@.len(),
            cv.methods.len() == c.methods@.len(),
            forall|j: int| 0 <= j < cv.methods.len() ==> public_method_ok(#[trigger] cv.methods[j], tb),
            header@ == opening + public_methods(cv.methods.take(k as int), tb, lb, f).0,
            implementation@ == i0 + public_methods(cv.methods.take(k as int), tb, lb, f).1,
        decreases c.methods@.len() - k,
    {
        let m: &Method = c.methods[k];
        assert(cv.methods.take(k + 1).drop_last() =~= cv.methods.take(k as int));
        assert(cv.methods.take(k + 1).last() == cv.methods[k as int]);
        assert(*m == cv.methods[k as int]);
        let public = match m.access {
            Some(AccessSpecifier::Public) => true,
            _ => false,
        };
        let ghost hb = header@;
        let ghost ib = implementation@;
        if public {
            emit_method(m, source, filename, header, implementation);
            assert(header@ =~= opening + public_methods(cv.methods.take(k + 1), tb, lb, f).0);
            assert(implementation@ =~= i0 + public_methods(cv.methods.take(k + 1), tb, lb, f).1);
        }
        k = k + 1;
    }
    assert(cv.methods.take(c.methods@.len() as int) =~= cv.methods);
    header.append("};\n");
    assert(header@ =~= h0 + class_text(cv, tb, lb, f).0);
}

/// Prints every class.
fn emit_classes(
    classes: &Vec<ClassRec>,
    source: &Source,
    filename: &str,
    header: &mut String,
    implementation: &mut String,
)
    requires
        source.wf(),
        classes_ok(rec_views(classes@), encode_utf8(source.text@)),
    ensures
        final(header)@ == old(header)@ + classes_text(
            rec_views(classes@),
            encode_utf8(source.text@),
            source.line_beginnings@,
            filename@,
        ).0,
        final(implementation)@ == old(implementation)@ + classes_text(
            rec_views(classes@),
            encode_utf8(source.text@),
            source.line_beginnings@,
            filename@,
        ).1,
{
    let ghost tb = encode_utf8(source.text@);
    let ghost lb = source.line_beginnings@;
    let ghost f = filename@;
    let ghost cs = rec_views(classes@);
    let ghost h0 = header@;
    let ghost i0 = implementation@;
    let mut j: usize = 0;
    while j < classes.len()
        invariant
            tb == encode_utf8(source.text@),
            lb == source.line_beginnings@,
            f == filename@,
            cs == rec_views(classes@),
            source.wf(),
            j <= classes@.len(),
            classes_ok(cs, tb),
            header@ == h0 + classes_text(cs.take(j as int), tb, lb, f).0,
            implementation@ == i0 + classes_text(cs.take(j as int), tb, lb, f).1,
        decreases classes@.len() - j,
    {
        assert(cs.take(j + 1).drop_last() =~= cs.take(j as int));
        assert(cs.take(j + 1).last() == cs[j as int]);
        assert(cs[j as int] == rec_view(classes@[j as int]));
        assert forall|k: int| 0 <= k < rec_view(classes@[j as int]).methods.len() implies public_method_ok(
            #[trigger] rec_view(classes@[j as int]).methods[k],
            tb,
        ) by {
            assert(cs[j as int].methods[k] == rec_view(classes@[j as int]).methods[k]);
        }
        emit_class(&classes[j], source, filename, header, implementation);
        assert(header@ =~= h0 + classes_text(cs.take(j + 1), tb, lb, f).0);
        assert(implementation@ =~= i0 + classes_text(cs.take(j + 1), tb, lb, f).1);
        j = j + 1;
    }
    assert(cs.take(classes@.len() as int) =~= cs);
}

/// Repeats the `#include` lines in the header.
fn emit_includes(includes: &Vec<SourceSpan>, source: &Source, filename: &str, header: &mut String)
    requires
        source.wf(),
        forall|i: int| 0 <= i < includes@.len() ==> (#[trigger] includes@[i]).valid_in(encode_utf8(source.text@)),
    ensures
        final(header)@ == old(header)@ + includes_text(
            includes@,
            encode_utf8(source.text@),
            source.line_beginnings@,
            filename@,
        ),
{
    let ghost tb = encode_utf8(source.text@);
    let ghost lb = source.line_beginnings@;
    let ghost f = filename@;
    let ghost h0 = header@;
    let text = source.text();
    let mut j: usize = 0;
    while j < includes.len()
        invariant
            tb == encode_utf8(source.text@),
            lb == source.line_beginnings@,
            f == filename@,
            text@ == source.text@,
            source.wf(),
            j <= includes@.len(),
            forall|i: int| 0 <= i < includes@.len() ==> (#[trigger] includes@[i]).valid_in(tb),
            header@ == h0 + includes_text(includes@.take(j as int), tb, lb, f),
        decreases includes@.len() - j,
    {
        assert(includes@.take(j + 1).drop_last() =~= includes@.take(j as int));
        assert(includes@.take(j + 1).last() == includes@[j as int]);
        let span = includes[j];
        header.append("\n//\n// IMPLEMENTATION includes follow (for use by inline functions/templates)\n//\n\n");
        let marker = source_line(source, span.start, filename);
        header.append(marker.as_str());
        header.append(span.get(text));
        header.append("\n");
        assert(header@ =~= h0 + includes_text(includes@.take(j + 1), tb, lb, f));
        j = j + 1;
    }
    assert(includes@.take(includes@.len() as int) =~= includes@);
}

/// Prints one declaration of an implementation section.
fn emit_declaration(
    d: &Declaration,
    includes: &Vec<SourceSpan>,
    pending: &mut bool,
    source: &Source,
    filename: &str,
    header: &mut String,
    implementation: &mut String,
)
    requires
        source.wf(),
        impl_decl_ok(*d, encode_utf8(source.text@)),
        forall|i: int| 0 <= i < includes@.len() ==> (#[trigger] includes@[i]).valid_in(encode_utf8(source.text@)),
    ensures
        (GenOut { header: final(header)@, implementation: final(implementation)@, pending: *final(pending) })
            == emit_decl(
            GenOut { header: old(header)@, implementation: old(implementation)@, pending: *old(pending) },
            *d,
            includes@,
            encode_utf8(source.text@),
            source.line_beginnings@,
            filename@,
        ),
{
    let ghost tb = encode_utf8(source.text@);
    let ghost lb = source.line_beginnings@;
    let ghost f = filename@;
    let ghost o = GenOut { header: header@, implementation: implementation@, pending: *pending };
    let text = source.text();
    match d {
        Declaration::PreprocessLine(span) => {
            let marker = source_line(source, span.start, filename);
            implementation.append(marker.as_str());
            implementation.append(span.get(text));
            implementation.append("\n");
            assert(implementation@ =~= o.implementation + line_marker(lb, span.start, f) + span.text_in(tb)
                + "\n"@);
        },
        Declaration::Function(fun) => {
            let marker = source_line(source, fun.span.start, filename);
            let prefix = fun.get_prefix_span().get(text);
            let name = fun.name.get(text);
            let parameters = match &fun.parameters {
                Some(p) => p.as_str(),
                None => "()",
            };
            if !fun.body.as_str().is_empty() {
                header.append(marker.as_str());
                header.append(prefix);
                header.append("\n");
                header.append(name);
                header.append(parameters);
                header.append(fun.suffix.as_str());
                header.append(";\n");
            }
            let ghost h1 = header@;
            assert(h1 =~= if fun.body@.len() > 0 {
                o.header + line_marker(lb, fun.span.start, f) + ((SourceSpan {
                    start: fun.span.start,
                    end: (fun.name.start - 1) as usize,
                }).text_in(tb) + "\n"@ + fun.name.text_in(tb) + params_text(fun.parameters) + fun.suffix@
                    + ";\n"@)
            } else {
                o.header
            });
            if *pending {
                emit_includes(includes, source, filename, header);
            }
            *pending = false;
            let ghost h2 = header@;
            let full = fun.span.get(text);
            if fun.templates.len() > 0 {
                header.append("\n//\n// IMPLEMENTATION of function templates\n//\n\n");
                header.append(marker.as_str());
                header.append(full);
                header.append("\n");
                assert(header@ =~= h2 + "\n//\n// IMPLEMENTATION of function templates\n//\n\n"@
                    + line_marker(lb, fun.span.start, f) + (fun.span.text_in(tb) + "\n"@));
            } else {
                implementation.append(marker.as_str());
                implementation.append(full);
                implementation.append("\n");
                assert(implementation@ =~= o.implementation + line_marker(lb, fun.span.start, f) + (
                fun.span.text_in(tb) + "\n"@));
            }
        },
        _ => {},
    }
}

/// Generates the public header, private header and implementation file
/// for the source file `filename` from its parsed sections.
pub fn generate_cpp_triple(
    filename: &str,
    fiasco_source: Source,
    active_tags: Vec<String>,
    translation_unit: TranslationUnit,
) -> (r: CPPTriple)
    requires
        fiasco_source.wf(),
        spans_ok(
            translation_unit,
            encode_utf8(fiasco_source.text@),
            fiasco_source.line_beginnings@,
            filename@,
        ),
    ensures
        r.filename@ == filename@,
        r.private_header@ == private_header_text(filename@),
        r.public_header@ == generated(
            translation_unit,
            encode_utf8(fiasco_source.text@),
            fiasco_source.line_beginnings@,
            filename@,
        ).header,
        r.implementation@ == generated(
            translation_unit,
            encode_utf8(fiasco_source.text@),
            fiasco_source.line_beginnings@,
            filename@,
        ).implementation,
{
    let ghost tb = encode_utf8(fiasco_source.text@);
    let ghost lb = fiasco_source.line_beginnings@;
    let ghost f = filename@;
    let source = &fiasco_source;
    let tu = &translation_unit;
    let includes = collect_includes(&tu.declarations, source);

    // first pass: collect the classes and their methods
    let mut classes: Vec<ClassRec> = Vec::new();
    let mut si: usize = 0;
    while si < tu.sections.len()
        invariant
            tb == encode_utf8(source.text@),
            lb == source.line_beginnings@,
            f == filename@,
            source.wf(),
            spans_ok(*tu, tb, lb, f),
            si <= tu.sections@.len(),
            rec_views(classes@) == classes_of(tu.sections@.take(si as int), tb, lb, f),
        decreases tu.sections@.len() - si,
    {
        let section = &tu.sections[si];
        assert(tu.sections@.take(si + 1).drop_last() =~= tu.sections@.take(si as int));
        assert(tu.sections@.take(si + 1).last() == tu.sections@[si as int]);
        let guard = match section {
            FppSection::Interface(data) => &data.guard,
            FppSection::Implementation(data) => &data.guard,
        };
        let enabled = match guard {
            Some(g) => guard_matches(g.as_str(), &active_tags),
            None => true,
        };
        if enabled {
            absorb_section(&mut classes, section, source, filename);
        }
        si = si + 1;
    }
    assert(tu.sections@.take(tu.sections@.len() as int) =~= tu.sections@);
    let ghost cs = rec_views(classes@);

    // second pass: print
    let mut public_header = String::new();
    let mut private_header = String::new();
    let mut implementation = String::new();
    public_header.append("// AUTOMATICALLY GENERATED -- DO NOT EDIT!         -*- c++ -*-\n\n");
    public_header.append("#pragma once\n");
    public_header.append("\n//\n// INTERFACE definition follows\n//\n\n");
    private_header.append("// AUTOMATICALLY GENERATED -- DO NOT EDIT!         -*- c++ -*-\n\n");
    private_header.append("#pragma once\n");
    private_header.append("#include \"");
    private_header.append(filename);
    private_header.append(".h\"\n");
    implementation.append("// AUTOMATICALLY GENERATED -- DO NOT EDIT!         -*- c++ -*-\n\n");
    implementation.append("#include \"");
    implementation.append(filename);
    implementation.append(".h\"\n");
    implementation.append("#include \"");
    implementation.append(filename);
    implementation.append("_i.h\"\n");
    implementation.append("\n//\n// IMPLEMENTATION definition follows\n//\n\n");
    let mut pending = true;
    assert(public_header@ =~= gen_start(f).header);
    assert(implementation@ =~= gen_start(f).implementation);
    assert(private_header@ =~= private_header_text(f));
    let mut si: usize = 0;
    while si < tu.sections.len()
        invariant
            tb == encode_utf8(source.text@),
            lb == source.line_beginnings@,
            f == filename@,
            source.wf(),
            spans_ok(*tu, tb, lb, f),
            cs == rec_views(classes@),
            classes_ok(cs, tb),
            forall|i: int| 0 <= i < includes@.len() ==> (#[trigger] includes@[i]).valid_in(tb),
            si <= tu.sections@.len(),
            (GenOut { header: public_header@, implementation: implementation@, pending })
                == emit_sections(gen_start(f), tu.sections@.take(si as int), cs, includes@, tb, lb, f),
        decreases tu.sections@.len() - si,
    {
        let section = &tu.sections[si];
        assert(tu.sections@.take(si + 1).drop_last() =~= tu.sections@.take(si as int));
        assert(tu.sections@.take(si + 1).last() == tu.sections@[si as int]);
        assert(section_ok(tu.sections@[si as int], tb));
        match section {
            FppSection::Interface(_) => {
                emit_classes(&classes, source, filename, &mut public_header, &mut implementation);
            },
            FppSection::Implementation(data) => {
                let ghost o0 = GenOut { header: public_header@, implementation: implementation@, pending };
                let decls = &data.declarations;
                let mut k: usize = 0;
                while k < decls.len()
                    invariant
                        tb == encode_utf8(source.text@),
                        lb == source.line_beginnings@,
                        f == filename@,
                        source.wf(),
                        forall|i: int| 0 <= i < includes@.len() ==> (#[trigger] includes@[i]).valid_in(tb),
                        forall|j: int| 0 <= j < decls@.len() ==> impl_decl_ok(#[trigger] decls@[j], tb),
                        k <= decls@.len(),
                        (GenOut { header: public_header@, implementation: implementation@, pending })
                            == emit_decls(o0, decls@.take(k as int), includes@, tb, lb, f),
                    decreases decls@.len() - k,
                {
                    assert(decls@.take(k + 1).drop_last() =~= decls@.take(k as int));
                    assert(decls@.take(k + 1).last() == decls@[k as int]);
                    emit_declaration(
                        &decls[k],
                        &includes,
                        &mut pending,
                        source,
                        filename,
                        &mut public_header,
                        &mut implementation,
                    );
                    k = k + 1;
                }
                assert(decls@.take(decls@.len() as int) =~= decls@);
            },
        }
        si = si + 1;
    }
    assert(tu.sections@.take(tu.sections@.len() as int) =~= tu.sections@);
    let mut name = String::new();
    name.append(filename);
    CPPTriple { filename: name, public_header, private_header, implementation }
}

} // verus!
