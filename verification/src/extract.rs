//! Reading the line mappings out of a preprocessed file: its `#line`
//! directives, its section markers and its closing `#endif`; and reading
//! the module list of a build directory.

use vstd::prelude::*;
use vstd::string::*;
use crate::text::{is_white_space, split_ws, split_whitespace, string_views, parse_u32, parse_u32_decimal, str_eq};
use crate::source_mapping::{
    LineMapping, MappingView, PreprocessSection, views, all_fit, reverse_all, inserted, collected,
    FiascoSourceMapping, mirrored, lookup, path_eq,
};

verus! {

/// Whether `c` is a decimal digit of any script (Unicode general category
/// `Nd`, Unicode 16.0): the class `\d` of the regex crate.
pub open spec fn is_decimal_digit(c: char) -> bool {
    let u = c as u32;
    ||| 0x30 <= u <= 0x39
    ||| 0x660 <= u <= 0x669
    ||| 0x6f0 <= u <= 0x6f9
    ||| 0x7c0 <= u <= 0x7c9
    ||| 0x966 <= u <= 0x96f
    ||| 0x9e6 <= u <= 0x9ef
    ||| 0xa66 <= u <= 0xa6f
    ||| 0xae6 <= u <= 0xaef
    ||| 0xb66 <= u <= 0xb6f
    ||| 0xbe6 <= u <= 0xbef
    ||| 0xc66 <= u <= 0xc6f
    ||| 0xce6 <= u <= 0xcef
    ||| 0xd66 <= u <= 0xd6f
    ||| 0xde6 <= u <= 0xdef
    ||| 0xe50 <= u <= 0xe59
    ||| 0xed0 <= u <= 0xed9
    ||| 0xf20 <= u <= 0xf29
    ||| 0x1040 <= u <= 0x1049
    ||| 0x1090 <= u <= 0x1099
    ||| 0x17e0 <= u <= 0x17e9
    ||| 0x1810 <= u <= 0x1819
    ||| 0x1946 <= u <= 0x194f
    ||| 0x19d0 <= u <= 0x19d9
    ||| 0x1a80 <= u <= 0x1a89
    ||| 0x1a90 <= u <= 0x1a99
    ||| 0x1b50 <= u <= 0x1b59
    ||| 0x1bb0 <= u <= 0x1bb9
    ||| 0x1c40 <= u <= 0x1c49
    ||| 0x1c50 <= u <= 0x1c59
    ||| 0xa620 <= u <= 0xa629
    ||| 0xa8d0 <= u <= 0xa8d9
    ||| 0xa900 <= u <= 0xa909
    ||| 0xa9d0 <= u <= 0xa9d9
    ||| 0xa9f0 <= u <= 0xa9f9
    ||| 0xaa50 <= u <= 0xaa59
    ||| 0xabf0 <= u <= 0xabf9
    ||| 0xff10 <= u <= 0xff19
    ||| 0x104a0 <= u <= 0x104a9
    ||| 0x10d30 <= u <= 0x10d39
    ||| 0x10d40 <= u <= 0x10d49
    ||| 0x11066 <= u <= 0x1106f
    ||| 0x110f0 <= u <= 0x110f9
    ||| 0x11136 <= u <= 0x1113f
    ||| 0x111d0 <= u <= 0x111d9
    ||| 0x112f0 <= u <= 0x112f9
    ||| 0x11450 <= u <= 0x11459
    ||| 0x114d0 <= u <= 0x114d9
    ||| 0x11650 <= u <= 0x11659
    ||| 0x116c0 <= u <= 0x116c9
    ||| 0x116d0 <= u <= 0x116e3
    ||| 0x11730 <= u <= 0x11739
    ||| 0x118e0 <= u <= 0x118e9
    ||| 0x11950 <= u <= 0x11959
    ||| 0x11bf0 <= u <= 0x11bf9
    ||| 0x11c50 <= u <= 0x11c59
    ||| 0x11d50 <= u <= 0x11d59
    ||| 0x11da0 <= u <= 0x11da9
    ||| 0x11f50 <= u <= 0x11f59
    ||| 0x16130 <= u <= 0x16139
    ||| 0x16a60 <= u <= 0x16a69
    ||| 0x16ac0 <= u <= 0x16ac9
    ||| 0x16b50 <= u <= 0x16b59
    ||| 0x16d70 <= u <= 0x16d79
    ||| 0x1ccf0 <= u <= 0x1ccf9
    ||| 0x1d7ce <= u <= 0x1d7ff
    ||| 0x1e140 <= u <= 0x1e149
    ||| 0x1e2f0 <= u <= 0x1e2f9
    ||| 0x1e4f0 <= u <= 0x1e4f9
    ||| 0x1e5f1 <= u <= 0x1e5fa
    ||| 0x1e950 <= u <= 0x1e959
    ||| 0x1fbf0 <= u <= 0x1fbf9
}

/// `line` is `#line N "F"`, with `N` a non-empty run of decimal digits and
/// `F` a non-empty text without a line feed: a match of `^#line (\d+)
/// "(.+)"$` with captures `n` and `f`.
pub open spec fn directive_parts(line: Seq<char>, n: Seq<char>, f: Seq<char>) -> bool {
    &&& line == "#line "@ + n + " \""@ + f + "\""@
    &&& n.len() > 0
    &&& forall|i: int| 0 <= i < n.len() ==> is_decimal_digit(#[trigger] n[i])
    &&& f.len() > 0
    &&& forall|i: int| 0 <= i < f.len() ==> #[trigger] f[i] != '\n'
}

/// The captures of the regular expression `^#line (\d+) "(.+)"$` (regex
/// crate) on `line`: the line number and the file name, where the line has
/// that form (they are then unique, see [`lemma_directive_parts_unique`]).
pub open spec fn line_directive(line: Seq<char>) -> Option<(Seq<char>, Seq<char>)> {
    if exists|n: Seq<char>, f: Seq<char>| directive_parts(line, n, f) {
        Some(choose|n: Seq<char>, f: Seq<char>| directive_parts(line, n, f))
    } else {
        None
    }
}

/// A line has at most one reading as `#line N "F"`: the digits end at the
/// first space.
pub proof fn lemma_directive_parts_unique(
    line: Seq<char>,
    n1: Seq<char>,
    f1: Seq<char>,
    n2: Seq<char>,
    f2: Seq<char>,
)
    requires
        directive_parts(line, n1, f1),
        directive_parts(line, n2, f2),
    ensures
        n1 == n2,
        f1 == f2,
{
    reveal_strlit("#line ");
    reveal_strlit(" \"");
    reveal_strlit("\"");
    if n1.len() < n2.len() {
        let k = n1.len() as int;
        assert(line[6 + k] == ' ');
        assert(line[6 + k] == n2[k]);
        assert(is_decimal_digit(n2[k]));
    } else if n2.len() < n1.len() {
        let k = n2.len() as int;
        assert(line[6 + k] == ' ');
        assert(line[6 + k] == n1[k]);
        assert(is_decimal_digit(n1[k]));
    }
    assert forall|i: int| 0 <= i < n1.len() implies n1[i] == n2[i] by {
        assert(line[6 + i] == n1[i]);
        assert(line[6 + i] == n2[i]);
    }
    assert(n1 =~= n2);
    assert(line.len() == 6 + n1.len() + 2 + f1.len() + 1);
    assert(line.len() == 6 + n2.len() + 2 + f2.len() + 1);
    assert forall|i: int| 0 <= i < f1.len() implies f1[i] == f2[i] by {
        assert(line[6 + n1.len() + 2 + i] == f1[i]);
        assert(line[6 + n1.len() + 2 + i] == f2[i]);
    }
    assert(f1 =~= f2);
}

/// Matches `line` against `^#line (\d+) "(.+)"$` with the regex crate and
/// returns the two captures.  The pattern is anchored at both ends, so a
/// match spells out the whole line.
#[verifier::external_body]
fn capture_line_directive(line: &str) -> (r: Option<(String, String)>)
    ensures
        captures_view(r) == line_directive(line@),
{
    let re = regex::Regex::new(r#"^#line (\d+) "(.+)"$"#).unwrap();
    match re.captures(line) {
        Some(cap) => Some((cap[1].to_owned(), cap[2].to_owned())),
        None => None,
    }
}

/// `line` is `auto/stamp-` and `m`, one character other than a line feed,
/// `ready:`, the whitespace `w` and `d`, where `m` and `d` are non-empty
/// and hold no line feed: a match of `^auto/stamp-(.+).ready:\s*(.+)$`.
pub open spec fn stamp_parts(line: Seq<char>, m: Seq<char>, w: Seq<char>, d: Seq<char>) -> bool {
    &&& m.len() > 0
    &&& forall|i: int| 0 <= i < m.len() ==> #[trigger] m[i] != '\n'
    &&& line.len() == 11 + m.len() + 7 + w.len() + d.len()
    &&& line == "auto/stamp-"@ + m + seq![line[11 + m.len() as int]] + "ready:"@ + w + d
    &&& line[11 + m.len() as int] != '\n'
    &&& forall|i: int| 0 <= i < w.len() ==> is_white_space(#[trigger] w[i])
    &&& d.len() > 0
    &&& forall|i: int| 0 <= i < d.len() ==> #[trigger] d[i] != '\n'
}

/// The reading of a stamp line that the greedy repetitions pick: the
/// longest module name, and with it the longest run of whitespace.
pub open spec fn greediest_stamp(line: Seq<char>, m: Seq<char>, w: Seq<char>, d: Seq<char>) -> bool {
    &&& stamp_parts(line, m, w, d)
    &&& forall|m2: Seq<char>, w2: Seq<char>, d2: Seq<char>| #[trigger]
        stamp_parts(line, m2, w2, d2) ==> m2.len() < m.len() || (m2.len() == m.len() && w2.len()
            <= w.len())
}

/// A line that fits the stamp pattern has a greediest reading.
pub proof fn lemma_greediest_stamp_exists(line: Seq<char>, m: Seq<char>, w: Seq<char>, d: Seq<char>)
    requires
        stamp_parts(line, m, w, d),
    ensures
        exists|m2: Seq<char>, w2: Seq<char>, d2: Seq<char>| greediest_stamp(line, m2, w2, d2),
    decreases line.len() - m.len(), line.len() - w.len(),
{
    if greediest_stamp(line, m, w, d) {
        assert(greediest_stamp(line, m, w, d));
    } else {
        let (m2, w2, d2) = choose|m2: Seq<char>, w2: Seq<char>, d2: Seq<char>|
            stamp_parts(line, m2, w2, d2) && !(m2.len() < m.len() || (m2.len() == m.len() && w2.len()
                <= w.len()));
        lemma_greediest_stamp_exists(line, m2, w2, d2);
    }
}

/// The greediest reading of a stamp line is unique.
pub proof fn lemma_greediest_stamp_unique(
    line: Seq<char>,
    m1: Seq<char>,
    w1: Seq<char>,
    d1: Seq<char>,
    m2: Seq<char>,
    w2: Seq<char>,
    d2: Seq<char>,
)
    requires
        greediest_stamp(line, m1, w1, d1),
        greediest_stamp(line, m2, w2, d2),
    ensures
        m1 == m2,
        w1 == w2,
        d1 == d2,
{
    reveal_strlit("auto/stamp-");
    reveal_strlit("ready:");
    assert(stamp_parts(line, m2, w2, d2));
    assert(stamp_parts(line, m1, w1, d1));
    assert(m1.len() == m2.len() && w1.len() == w2.len());
    assert forall|i: int| 0 <= i < m1.len() implies m1[i] == m2[i] by {
        assert(line[11 + i] == m1[i]);
        assert(line[11 + i] == m2[i]);
    }
    assert forall|i: int| 0 <= i < w1.len() implies w1[i] == w2[i] by {
        assert(line[18 + m1.len() + i] == w1[i]);
        assert(line[18 + m2.len() + i] == w2[i]);
    }
    assert forall|i: int| 0 <= i < d1.len() implies d1[i] == d2[i] by {
        assert(line[18 + m1.len() + w1.len() + i] == d1[i]);
        assert(line[18 + m2.len() + w2.len() + i] == d2[i]);
    }
    assert(m1 =~= m2);
    assert(w1 =~= w2);
    assert(d1 =~= d2);
}

/// The captures of the regular expression `^auto/stamp-(.+).ready:\s*(.+)$`
/// (regex crate) on `line`: the module name and its dependency list, of
/// the greediest reading (which exists, see [`lemma_greediest_stamp_exists`]).
pub open spec fn stamp_line(line: Seq<char>) -> Option<(Seq<char>, Seq<char>)> {
    if exists|m: Seq<char>, w: Seq<char>, d: Seq<char>| stamp_parts(line, m, w, d) {
        let (m, w, d) = choose|m: Seq<char>, w: Seq<char>, d: Seq<char>| greediest_stamp(line, m, w, d);
        Some((m, d))
    } else {
        None
    }
}

/// Matches `line` against `^auto/stamp-(.+).ready:\s*(.+)$` with the regex
/// crate and returns the two captures: among the ways the line fits the
/// pattern, the greedy repetitions take the longest module name and then
/// the longest whitespace.
#[verifier::external_body]
fn capture_stamp_line(line: &str) -> (r: Option<(String, String)>)
    ensures
        captures_view(r) == stamp_line(line@),
{
    let re = regex::Regex::new(r"^auto/stamp-(.+).ready:\s*(.+)$").unwrap();
    match re.captures(line) {
        Some(cap) => Some((cap[1].to_owned(), cap[2].to_owned())),
        None => None,
    }
}

/// Whether `c` is in the character class `[+-.]`: one of `+ , - .`.
pub open spec fn is_name_punct(c: char) -> bool {
    0x2b <= (c as u32) <= 0x2e
}

/// Number of characters of `s` before its first `[+-.]` character.
pub open spec fn leading_plain(s: Seq<char>) -> nat
    decreases s.len(),
{
    if s.len() > 0 && !is_name_punct(s[0]) {
        1 + leading_plain(s.drop_first())
    } else {
        0
    }
}

/// `s` with its first `[+-.]` character replaced by `_` (the first match of
/// `Regex::replace`).
pub open spec fn punct_replaced(s: Seq<char>) -> Seq<char> {
    let k = leading_plain(s) as int;
    if k < s.len() {
        s.take(k) + seq!['_'] + s.skip(k + 1)
    } else {
        s
    }
}

/// The line that closes the include guard of the file named `name`.
pub open spec fn endif_pattern(name: Seq<char>) -> Seq<char> {
    "#endif // "@ + punct_replaced(name)
}

proof fn lemma_leading_plain_unique(s: Seq<char>, k: int)
    requires
        0 <= k <= s.len(),
        forall|i: int| 0 <= i < k ==> !is_name_punct(#[trigger] s[i]),
        k < s.len() ==> is_name_punct(s[k]),
    ensures
        leading_plain(s) == k,
    decreases s.len(),
{
    if k > 0 {
        assert forall|i: int| 0 <= i < k - 1 implies !is_name_punct(#[trigger] s.drop_first()[i]) by {
            assert(s.drop_first()[i] == s[i + 1]);
        }
        if k - 1 < s.drop_first().len() {
            assert(s.drop_first()[k - 1] == s[k]);
        }
        lemma_leading_plain_unique(s.drop_first(), k - 1);
    }
}

/// `"#endif // " + NAME_REPLACE.replace(name, "_")`.
fn make_endif_pattern(name: &str) -> (r: String)
    ensures
        r@ == endif_pattern(name@),
{
    let n = name.unicode_len();
    let mut k: usize = 0;
    while k < n && !is_name_punct_char(name.get_char(k))
        invariant
            n == name@.len(),
            k <= n,
            forall|i: int| 0 <= i < k ==> !is_name_punct(#[trigger] name@[i]),
        decreases n - k,
    {
        k = k + 1;
    }
    proof {
        lemma_leading_plain_unique(name@, k as int);
    }
    let mut r = String::from_str("#endif // ");
    if k < n {
        r.append(name.substring_char(0, k));
        r.append("_");
        r.append(name.substring_char(k + 1, n));
        proof {
            reveal_strlit("_");
        }
        assert(r@ =~= "#endif // "@ + (name@.take(k as int) + seq!['_'] + name@.skip(k + 1)));
    } else {
        r.append(name);
    }
    r
}

/// Whether `c` is in the character class `[+-.]`.
fn is_name_punct_char(c: char) -> (r: bool)
    ensures
        r == is_name_punct(c),
{
    let u = c as u32;
    0x2b <= u && u <= 0x2e
}

/// Whether `p` is a prefix of `s`, character by character.
pub fn starts_with_chars(s: &str, p: &str) -> (r: bool)
    ensures
        r == p@.is_prefix_of(s@),
{
    let n = s.unicode_len();
    let m = p.unicode_len();
    if m > n {
        return false;
    }
    let mut i: usize = 0;
    while i < m
        invariant
            n == s@.len(),
            m == p@.len(),
            m <= n,
            i <= m,
            forall|j: int| 0 <= j < i ==> s@[j] == p@[j],
        decreases m - i,
    {
        if s.get_char(i) != p.get_char(i) {
            assert(s@.subrange(0, m as int)[i as int] != p@[i as int]);
            return false;
        }
        i = i + 1;
    }
    assert(p@ =~= s@.subrange(0, m as int));
    true
}

/// The lines of a file as read: `None` where a line could not be read.
pub open spec fn line_views(lines: Seq<Option<String>>) -> Seq<Option<Seq<char>>> {
    lines.map_values(
        |o: Option<String>|
            match o {
                Some(s) => Some(s@),
                None => None,
            },
    )
}

/// Where the scan of a preprocessed file stands after some of its lines.
pub struct ScanState {
    /// The section that new blocks belong to.
    pub section: PreprocessSection,
    /// The blocks found so far; the last one is still open.
    pub mappings: Seq<MappingView>,
    /// The index of the last line read.
    pub ln: int,
    /// The number of generated lines before the current line that belong
    /// to no block.
    pub offset: u32,
    /// The closing `#endif` was reached.
    pub stopped: bool,
}

/// The captures of a `#line` directive: only lines that start with
/// `#line ` can match its pattern, and only those are matched.
pub open spec fn directive_of(text: Seq<char>) -> Option<(Seq<char>, Seq<char>)> {
    if "#line "@.is_prefix_of(text) {
        line_directive(text)
    } else {
        None
    }
}

/// The larger of two lines.
pub open spec fn max_line(a: u32, b: u32) -> u32 {
    if a >= b {
        a
    } else {
        b
    }
}

/// `ms` with the end of its last block set to `end`.
pub open spec fn set_last_end(ms: Seq<MappingView>, end: u32) -> Seq<MappingView> {
    if ms.len() > 0 {
        let last = ms.last();
        ms.update(
            ms.len() - 1,
            MappingView {
                section: last.section,
                src_line: last.src_line,
                src_end_line: end,
                dst_file: last.dst_file,
                dst_line: last.dst_line,
            },
        )
    } else {
        ms
    }
}

/// The scan before any line.
pub open spec fn scan_start() -> ScanState {
    ScanState {
        section: PreprocessSection::NoSection,
        mappings: seq![],
        ln: 0,
        offset: 0,
        stopped: false,
    }
}

/// One line of the scan: line `l`, read as `line`.  `None` where the
/// arithmetic on line numbers would leave `u32` (or `usize`).
pub open spec fn scan_step(st: ScanState, l: int, line: Option<Seq<char>>, pattern: Seq<char>) -> Option<ScanState> {
    match line {
        None => Some(ScanState { ln: l, ..st }),
        Some(text) => text_step(st, l, text, directive_of(text), pattern),
    }
}

/// One line of the scan that could be read: line `l` with text `text`,
/// whose `#line` directive captures are `directive`.
pub open spec fn text_step(
    st: ScanState,
    l: int,
    text: Seq<char>,
    directive: Option<(Seq<char>, Seq<char>)>,
    pattern: Seq<char>,
) -> Option<ScanState> {
    let lu = l as u32;
    match directive {
        Some((num, file)) => {
            let dst = match parse_u32(num) {
                Some(v) => v,
                None => 1u32,
            };
            if (st.mappings.len() > 0 && lu < st.offset + 1) || dst == 0 || lu == u32::MAX {
                None
            } else {
                let ms = if st.mappings.len() > 0 {
                    set_last_end(
                        st.mappings,
                        max_line(st.mappings.last().src_line, (lu - st.offset - 1) as u32),
                    )
                } else {
                    st.mappings
                };
                Some(
                    ScanState {
                        section: st.section,
                        mappings: ms.push(
                            MappingView {
                                section: st.section,
                                src_line: (lu + 1) as u32,
                                src_end_line: 0,
                                dst_file: file,
                                dst_line: (dst - 1) as u32,
                            },
                        ),
                        ln: l,
                        offset: 0,
                        stopped: false,
                    },
                )
            }
        },
        None => {
            if "// INTERFACE"@.is_prefix_of(text) {
                Some(
                    ScanState {
                        section: PreprocessSection::Interface,
                        mappings: set_last_end(st.mappings, lu),
                        ln: l,
                        offset: 5,
                        stopped: false,
                    },
                )
            } else if "// IMPLEMENTATION"@.is_prefix_of(text) {
                Some(
                    ScanState {
                        section: PreprocessSection::Implementation,
                        mappings: set_last_end(st.mappings, lu),
                        ln: l,
                        offset: 5,
                        stopped: false,
                    },
                )
            } else if "private: // EXTENSION"@.is_prefix_of(text) {
                Some(ScanState { ln: l, offset: 3, ..st })
            } else if pattern.is_prefix_of(text) {
                if l == 0 {
                    None
                } else {
                    Some(ScanState { ln: l - 1, stopped: true, ..st })
                }
            } else {
                Some(ScanState { ln: l, ..st })
            }
        },
    }
}

/// The scan after the first `k` lines; it ignores the lines after the
/// closing `#endif`.
pub open spec fn scan(pattern: Seq<char>, lines: Seq<Option<Seq<char>>>, k: nat) -> Option<ScanState>
    decreases k,
{
    if k == 0 {
        Some(scan_start())
    } else {
        match scan(pattern, lines, (k - 1) as nat) {
            None => None,
            Some(st) => if st.stopped {
                Some(st)
            } else {
                scan_step(st, k - 1, lines[k - 1], pattern)
            },
        }
    }
}

/// Closes the last block at the last line read.
pub open spec fn scan_finish(st: ScanState) -> Option<Seq<MappingView>> {
    if st.mappings.len() == 0 {
        Some(st.mappings)
    } else if (st.ln as u32) < st.offset {
        None
    } else {
        Some(
            set_last_end(
                st.mappings,
                max_line(st.mappings.last().src_line, ((st.ln as u32) - st.offset) as u32),
            ),
        )
    }
}

/// The blocks of the preprocessed file named `name` with the given lines;
/// `None` where the line arithmetic overflows.
pub open spec fn extracted(name: Seq<char>, lines: Seq<Option<Seq<char>>>) -> Option<Seq<MappingView>> {
    match scan(endif_pattern(name), lines, lines.len()) {
        None => None,
        Some(st) => scan_finish(st),
    }
}

/// The section that the markers among the first `k` lines open: that of
/// the last line starting with `// INTERFACE` or `// IMPLEMENTATION`, and
/// `NoSection` before any.
pub open spec fn marker_section(lines: Seq<Option<Seq<char>>>, k: int) -> PreprocessSection
    decreases k,
{
    if k <= 0 {
        PreprocessSection::NoSection
    } else {
        match lines[k - 1] {
            Some(t) => if "// INTERFACE"@.is_prefix_of(t) {
                PreprocessSection::Interface
            } else if "// IMPLEMENTATION"@.is_prefix_of(t) {
                PreprocessSection::Implementation
            } else {
                marker_section(lines, k - 1)
            },
            None => marker_section(lines, k - 1),
        }
    }
}

/// Block `m` is opened by the `#line N "F"` directive on line `l`: it
/// starts on the next line, maps to line `N - 1` of `F` (`N` read as 1
/// where it is no `u32`), and belongs to the section that the markers
/// before that directive open.
pub open spec fn opened_by_directive(lines: Seq<Option<Seq<char>>>, m: MappingView, l: int) -> bool {
    &&& 0 <= l < lines.len()
    &&& lines[l] matches Some(text) && directive_of(text) matches Some((num, file)) && m.dst_file == file
        && m.dst_line + 1 == match parse_u32(num) {
        Some(v) => v,
        None => 1u32,
    }
    &&& m.src_line == (l as u32) + 1
    &&& m.section == marker_section(lines, l)
}

/// The blocks agree on all but where they end.
pub open spec fn same_start(a: MappingView, b: MappingView) -> bool {
    &&& a.src_line == b.src_line
    &&& a.section == b.section
    &&& a.dst_file == b.dst_file
    &&& a.dst_line == b.dst_line
}

/// A `#line` directive is not a section marker.
proof fn lemma_directive_not_marker(text: Seq<char>)
    requires
        directive_of(text) is Some,
    ensures
        !"// INTERFACE"@.is_prefix_of(text),
        !"// IMPLEMENTATION"@.is_prefix_of(text),
{
    reveal_strlit("#line ");
    reveal_strlit("// INTERFACE");
    reveal_strlit("// IMPLEMENTATION");
    assert(text[0] == '#');
}

/// Setting the end of the last block keeps every block's start, section
/// and target.
proof fn lemma_set_last_end_keeps(ms: Seq<MappingView>, end: u32)
    ensures
        set_last_end(ms, end).len() == ms.len(),
        forall|j: int|
            0 <= j < ms.len() ==> same_start(#[trigger] set_last_end(ms, end)[j], ms[j]),
{
}

/// Block `m` is opened by a `#line` directive before line `k`.
pub open spec fn opened_before(lines: Seq<Option<Seq<char>>>, m: MappingView, k: int) -> bool {
    exists|l: int| 0 <= l < k && opened_by_directive(lines, m, l)
}

/// The blocks of `new` start where, and belong to the sections that, those
/// of `old` do, and each block of `old` is opened by a directive before
/// line `k`: so is each of the first blocks of `new`, before line `k + 1`.
proof fn lemma_blocks_still_opened(
    lines: Seq<Option<Seq<char>>>,
    old: Seq<MappingView>,
    new: Seq<MappingView>,
    k: int,
)
    requires
        old.len() <= new.len(),
        forall|j: int| 0 <= j < old.len() ==> opened_before(lines, #[trigger] old[j], k),
        forall|j: int| 0 <= j < old.len() ==> same_start(#[trigger] new[j], old[j]),
    ensures
        forall|j: int| 0 <= j < old.len() ==> opened_before(lines, #[trigger] new[j], k + 1),
{
    assert forall|j: int| 0 <= j < old.len() implies opened_before(lines, #[trigger] new[j], k + 1) by {
        assert(opened_before(lines, old[j], k));
        let l = choose|l: int| 0 <= l < k && opened_by_directive(lines, old[j], l);
        assert(same_start(new[j], old[j]));
        assert(opened_by_directive(lines, new[j], l));
    }
}

/// While the scan runs, its section is the one the markers read so far
/// open, and each block it has found is opened by a directive read so far.
proof fn lemma_scan_sections(pattern: Seq<char>, lines: Seq<Option<Seq<char>>>, k: nat)
    requires
        k <= lines.len(),
    ensures
        scan(pattern, lines, k) matches Some(st) ==> {
            &&& !st.stopped ==> st.section == marker_section(lines, k as int)
            &&& forall|j: int| 0 <= j < st.mappings.len() ==> opened_before(lines, #[trigger] st.mappings[j], k as int)
        },
    decreases k,
{
    if k > 0 {
        let l: int = k - 1;
        lemma_scan_sections(pattern, lines, l as nat);
        if let Some(st) = scan(pattern, lines, l as nat) {
            assert(forall|j: int| 0 <= j < st.mappings.len() ==> opened_before(lines, #[trigger] st.mappings[j], l));
            if st.stopped {
                lemma_blocks_still_opened(lines, st.mappings, st.mappings, l);
            } else {
                match lines[l] {
                    None => {
                        lemma_blocks_still_opened(lines, st.mappings, st.mappings, l);
                    },
                    Some(text) => {
                        let lu = l as u32;
                        match directive_of(text) {
                            Some((num, file)) => {
                                lemma_directive_not_marker(text);
                                assert(marker_section(lines, k as int) == marker_section(lines, l));
                                if let Some(st2) = text_step(st, l, text, directive_of(text), pattern) {
                                    if st.mappings.len() > 0 {
                                        lemma_set_last_end_keeps(
                                            st.mappings,
                                            max_line(st.mappings.last().src_line, (lu - st.offset - 1) as u32),
                                        );
                                    }
                                    assert(st2.mappings.len() == st.mappings.len() + 1);
                                    assert forall|j: int| 0 <= j < st.mappings.len() implies same_start(
                                        #[trigger] st2.mappings[j],
                                        st.mappings[j],
                                    ) by {
                                    }
                                    lemma_blocks_still_opened(lines, st.mappings, st2.mappings, l);
                                    let last = st2.mappings.len() - 1;
                                    assert(opened_by_directive(lines, st2.mappings[last], l));
                                    assert(opened_before(lines, st2.mappings[last], k as int));
                                }
                            },
                            None => {
                                lemma_set_last_end_keeps(st.mappings, lu);
                                if let Some(st2) = text_step(st, l, text, directive_of(text), pattern) {
                                    assert(st2.mappings.len() == st.mappings.len());
                                    assert forall|j: int| 0 <= j < st.mappings.len() implies same_start(
                                        #[trigger] st2.mappings[j],
                                        st.mappings[j],
                                    ) by {
                                    }
                                    lemma_blocks_still_opened(lines, st.mappings, st2.mappings, l);
                                }
                            },
                        }
                    },
                }
            }
        }
    }
}

/// Every block read out of a preprocessed file is opened by a `#line`
/// directive, starts on the line after it, and belongs to the section of
/// the last `// INTERFACE` or `// IMPLEMENTATION` marker before it
/// (`NoSection` before any): a directive does not change the section.
pub proof fn lemma_extracted_sections(name: Seq<char>, lines: Seq<Option<Seq<char>>>)
    ensures
        extracted(name, lines) matches Some(ms) ==> forall|j: int|
            0 <= j < ms.len() ==> opened_before(lines, #[trigger] ms[j], lines.len() as int),
{
    lemma_scan_sections(endif_pattern(name), lines, lines.len());
    if let Some(st) = scan(endif_pattern(name), lines, lines.len()) {
        if let Some(ms) = extracted(name, lines) {
            if st.mappings.len() > 0 {
                lemma_set_last_end_keeps(
                    st.mappings,
                    max_line(st.mappings.last().src_line, ((st.ln as u32) - st.offset) as u32),
                );
            }
            assert forall|j: int| 0 <= j < ms.len() implies opened_before(lines, #[trigger] ms[j], lines.len() as int) by {
                assert(opened_before(lines, st.mappings[j], lines.len() as int));
                let l = choose|l: int| 0 <= l < lines.len() && opened_by_directive(lines, st.mappings[j], l);
                assert(opened_by_directive(lines, ms[j], l));
            }
        }
    }
}

/// Once the scan has stopped it stays as it is.
proof fn lemma_scan_stopped(pattern: Seq<char>, lines: Seq<Option<Seq<char>>>, i: nat, k: nat)
    requires
        i <= k,
        scan(pattern, lines, i) matches Some(st) && st.stopped,
    ensures
        scan(pattern, lines, k) == scan(pattern, lines, i),
    decreases k - i,
{
    if i < k {
        lemma_scan_stopped(pattern, lines, i, (k - 1) as nat);
    }
}

/// Once the scan has failed it stays failed.
proof fn lemma_scan_failed(pattern: Seq<char>, lines: Seq<Option<Seq<char>>>, i: nat, k: nat)
    requires
        i <= k,
        scan(pattern, lines, i) is None,
    ensures
        scan(pattern, lines, k) is None,
    decreases k - i,
{
    if i < k {
        lemma_scan_failed(pattern, lines, i, (k - 1) as nat);
    }
}

/// The mapping vector with the end of its last block set to `end`.
fn close_last(mappings: &mut Vec<LineMapping>, end: u32)
    ensures
        views(final(mappings)@) == set_last_end(views(old(mappings)@), end),
{
    let ghost before = views(mappings@);
    match mappings.pop() {
        None => {
            assert(before.len() == 0);
        },
        Some(mut last) => {
            last.src_end_line = end;
            mappings.push(last);
            assert(views(mappings@) =~= set_last_end(before, end));
        },
    }
}

/// Where the scan of a preprocessed file stands (see [`ScanState`]).
pub struct LineScan {
    pub section: PreprocessSection,
    pub mappings: Vec<LineMapping>,
    pub ln: usize,
    pub offset: u32,
    pub stopped: bool,
}

impl View for LineScan {
    type V = ScanState;

    open spec fn view(&self) -> ScanState {
        ScanState {
            section: self.section,
            mappings: views(self.mappings@),
            ln: self.ln as int,
            offset: self.offset,
            stopped: self.stopped,
        }
    }
}

/// The captures of a `#line` directive as values.
pub open spec fn captures_view(c: Option<(String, String)>) -> Option<(Seq<char>, Seq<char>)> {
    match c {
        Some((a, b)) => Some((a@, b@)),
        None => None,
    }
}

/// One line of the scan that could be read: line `i` with text `text`,
/// whose `#line` directive captures are `directive`, in the file whose
/// closing `#endif` starts with `pattern`.  `false`, with the scan
/// unchanged, where the line arithmetic would overflow.
pub fn scan_text_line(
    scan: &mut LineScan,
    i: usize,
    text: &str,
    directive: Option<(String, String)>,
    pattern: &str,
) -> (ok: bool)
    requires
        old(scan).offset <= 5,
    ensures
        final(scan).offset <= 5,
        match text_step(old(scan)@, i as int, text@, captures_view(directive), pattern@) {
            Some(st) => ok && final(scan)@ == st,
            None => !ok && final(scan)@ == old(scan)@,
        },
{
    let lu = i as u32;
    match directive {
        Some((num, file)) => {
            let dst = match parse_u32_decimal(num.as_str()) {
                Some(v) => v,
                None => 1u32,
            };
            if (scan.mappings.len() > 0 && lu < scan.offset + 1) || dst == 0 || lu == 0xffff_ffff {
                return false;
            }
            if scan.mappings.len() > 0 {
                let k = scan.mappings.len() - 1;
                let prev = scan.mappings[k].src_line;
                assert(views(scan.mappings@).last() == scan.mappings@[k as int]@);
                let e = lu - scan.offset - 1;
                let end = if prev >= e { prev } else { e };
                close_last(&mut scan.mappings, end);
            }
            let ghost ms = views(scan.mappings@);
            let ghost fv = file@;
            let section = scan.section;
            scan.mappings.push(
                LineMapping { section, src_line: lu + 1, src_end_line: 0, dst_file: file, dst_line: dst - 1 },
            );
            assert(views(scan.mappings@) =~= ms.push(
                MappingView {
                    section,
                    src_line: (lu + 1) as u32,
                    src_end_line: 0,
                    dst_file: fv,
                    dst_line: (dst - 1) as u32,
                },
            ));
            scan.ln = i;
            scan.offset = 0;
            scan.stopped = false;
        },
        None => {
            if starts_with_chars(text, "// INTERFACE") {
                scan.section = PreprocessSection::Interface;
                close_last(&mut scan.mappings, lu);
                scan.ln = i;
                scan.offset = 5;
                scan.stopped = false;
            } else if starts_with_chars(text, "// IMPLEMENTATION") {
                scan.section = PreprocessSection::Implementation;
                close_last(&mut scan.mappings, lu);
                scan.ln = i;
                scan.offset = 5;
                scan.stopped = false;
            } else if starts_with_chars(text, "private: // EXTENSION") {
                scan.ln = i;
                scan.offset = 3;
            } else if starts_with_chars(text, pattern) {
                if i == 0 {
                    return false;
                }
                scan.ln = i - 1;
                scan.stopped = true;
            } else {
                scan.ln = i;
            }
        },
    }
    true
}

/// Scans the lines of the preprocessed file named `name`; `None` where the
/// line arithmetic overflows.
fn scan_lines(name: &str, lines: &Vec<Option<String>>) -> (r: Option<Vec<LineMapping>>)
    ensures
        match r {
            Some(v) => extracted(name@, line_views(lines@)) == Some(views(v@)),
            None => extracted(name@, line_views(lines@)) is None,
        },
{
    let pattern = make_endif_pattern(name);
    let ghost lv = line_views(lines@);
    let mut state = LineScan {
        section: PreprocessSection::NoSection,
        mappings: Vec::new(),
        ln: 0,
        offset: 0,
        stopped: false,
    };
    let n = lines.len();
    let mut i: usize = 0;
    assert(views(state.mappings@) =~= seq![]);
    while i < n && !state.stopped
        invariant
            n == lines@.len(),
            lv == line_views(lines@),
            i <= n,
            state.offset <= 5,
            pattern@ == endif_pattern(name@),
            scan(pattern@, lv, i as nat) == Some(state@),
        decreases n - i,
    {
        let ghost st = state@;
        let ghost text = lv[i as int];
        match &lines[i] {
            None => {
                assert(text is None);
                state.ln = i;
            },
            Some(line) => {
                assert(text == Some(line@));
                let directive = if starts_with_chars(line.as_str(), "#line ") {
                    capture_line_directive(line.as_str())
                } else {
                    None
                };
                assert(captures_view(directive) == directive_of(line@));
                if !scan_text_line(&mut state, i, line.as_str(), directive, pattern.as_str()) {
                    proof {
                        assert(scan(pattern@, lv, (i + 1) as nat) is None);
                        lemma_scan_failed(pattern@, lv, (i + 1) as nat, n as nat);
                        assert(lv.len() == n);
                    }
                    return None;
                }
            },
        }
        assert(scan(pattern@, lv, (i + 1) as nat) == scan_step(st, i as int, text, pattern@));
        i = i + 1;
    }
    proof {
        if state.stopped {
            lemma_scan_stopped(pattern@, lv, i as nat, n as nat);
        }
        assert(lv.len() == n);
    }
    let ln = state.ln;
    let offset = state.offset;
    let mut mappings = state.mappings;
    let last_len = mappings.len();
    if last_len > 0 {
        let lnu = ln as u32;
        if lnu < offset {
            return None;
        }
        let prev = mappings[last_len - 1].src_line;
        assert(views(mappings@).last() == mappings@[last_len - 1]@);
        let e = lnu - offset;
        let end = if prev >= e { prev } else { e };
        close_last(&mut mappings, end);
    }
    Some(mappings)
}

/// The blocks of the preprocessed file named `name` (the file name without
/// directories) with the given lines (`None` where a line could not be
/// read): each `#line N "F"` directive starts a block at the next line that
/// maps to line `N - 1` of `F`, in the section of the last `// INTERFACE` or
/// `// IMPLEMENTATION` marker; a block ends before the next directive or
/// marker, leaving out the generated lines, and the last one at the last
/// line before `#endif // NAME`.
pub fn extract_line_mappings(name: &str, lines: &Vec<Option<String>>) -> (r: Vec<LineMapping>)
    requires
        extracted(name@, line_views(lines@)) is Some,
    ensures
        Some(views(r@)) == extracted(name@, line_views(lines@)),
{
    match scan_lines(name, lines) {
        Some(v) => v,
        None => Vec::new(),
    }
}

/// [`extract_line_mappings`], or `None` on the inputs on which its line
/// arithmetic would overflow.
pub fn try_extract_line_mappings(name: &str, lines: &Vec<Option<String>>) -> (r: Option<Vec<LineMapping>>)
    ensures
        match r {
            Some(v) => extracted(name@, line_views(lines@)) == Some(views(v@)),
            None => extracted(name@, line_views(lines@)) is None,
        },
{
    if scan_lines(name, lines).is_some() {
        Some(extract_line_mappings(name, lines))
    } else {
        None
    }
}

/// Whether the block is well formed and all its lines map to `u32` lines.
fn mapping_fits(m: &LineMapping) -> (r: bool)
    ensures
        r == m@.fits(),
{
    m.src_line <= m.src_end_line && (m.dst_line as u64) + ((m.src_end_line - m.src_line) as u64)
        <= 0xffff_ffff
}

/// Whether every block of `v` fits.
fn all_mappings_fit(v: &Vec<LineMapping>) -> (r: bool)
    ensures
        r == all_fit(views(v@)),
{
    let mut i: usize = 0;
    while i < v.len()
        invariant
            i <= v@.len(),
            forall|j: int| 0 <= j < i ==> (#[trigger] views(v@)[j]).fits(),
        decreases v@.len() - i,
    {
        assert(views(v@)[i as int] == v@[i as int]@);
        if !mapping_fits(&v[i]) {
            return false;
        }
        i = i + 1;
    }
    true
}

/// Reads the blocks of the preprocessed file at `path`, named `file_name`,
/// from its lines and records them in `source_mapping`, in both directions
/// (see [`FiascoSourceMapping::add_file`]).
pub fn extract_line_mappings_for_file(
    path: &str,
    file_name: &str,
    lines: &Vec<Option<String>>,
    source_mapping: &mut FiascoSourceMapping,
)
    requires
        extracted(file_name@, line_views(lines@)) matches Some(ms) && all_fit(ms),
    ensures
        final(source_mapping)@.to_preprocess == reverse_all(
            old(source_mapping)@.to_preprocess,
            extracted(file_name@, line_views(lines@)).unwrap(),
            path@,
        ),
        final(source_mapping)@.from_preprocess == inserted(
            old(source_mapping)@.from_preprocess,
            path@,
            collected(extracted(file_name@, line_views(lines@)).unwrap()),
        ),
        old(source_mapping)@.fits() ==> final(source_mapping)@.fits(),
        old(source_mapping)@.files_listed() ==> final(source_mapping)@.files_listed(),
        mirrored(old(source_mapping)@) && lookup(old(source_mapping)@.from_preprocess, path@) is None
            && (forall|i: int|
            0 <= i < extracted(file_name@, line_views(lines@)).unwrap().len() ==> path_eq(
                #[trigger] extracted(file_name@, line_views(lines@)).unwrap()[i].dst_file,
                extracted(file_name@, line_views(lines@)).unwrap()[i].dst_file,
            )) ==> mirrored(final(source_mapping)@),
{
    let mappings = extract_line_mappings(file_name, lines);
    let ghost ms = mappings@;
    source_mapping.add_file(path, mappings);
    proof {
        let ev = extracted(file_name@, line_views(lines@)).unwrap();
        assert(ev == views(ms));
        assert forall|i: int| 0 <= i < ms.len() && path_eq(ev[i].dst_file, ev[i].dst_file) implies path_eq(
            #[trigger] ms[i].dst_file@,
            ms[i].dst_file@,
        ) by {
            assert(ev[i] == ms[i]@);
        }
    }
}

/// [`extract_line_mappings_for_file`], or `false` with `source_mapping`
/// unchanged on the inputs on which the line arithmetic would overflow.
pub fn try_extract_line_mappings_for_file(
    path: &str,
    file_name: &str,
    lines: &Vec<Option<String>>,
    source_mapping: &mut FiascoSourceMapping,
) -> (r: bool)
    ensures
        r == (extracted(file_name@, line_views(lines@)) matches Some(ms) && all_fit(ms)),
        r ==> final(source_mapping)@.to_preprocess == reverse_all(
            old(source_mapping)@.to_preprocess,
            extracted(file_name@, line_views(lines@)).unwrap(),
            path@,
        ),
        r ==> final(source_mapping)@.from_preprocess == inserted(
            old(source_mapping)@.from_preprocess,
            path@,
            collected(extracted(file_name@, line_views(lines@)).unwrap()),
        ),
        !r ==> final(source_mapping)@ == old(source_mapping)@,
        old(source_mapping)@.fits() ==> final(source_mapping)@.fits(),
        old(source_mapping)@.files_listed() ==> final(source_mapping)@.files_listed(),
        r && mirrored(old(source_mapping)@) && lookup(old(source_mapping)@.from_preprocess, path@) is None
            && (forall|i: int|
            0 <= i < extracted(file_name@, line_views(lines@)).unwrap().len() ==> path_eq(
                #[trigger] extracted(file_name@, line_views(lines@)).unwrap()[i].dst_file,
                extracted(file_name@, line_views(lines@)).unwrap()[i].dst_file,
            )) ==> mirrored(final(source_mapping)@),
{
    match scan_lines(file_name, lines) {
        Some(v) => {
            if all_mappings_fit(&v) {
                extract_line_mappings_for_file(path, file_name, lines, source_mapping);
                true
            } else {
                false
            }
        },
        None => false,
    }
}

/// The module table: module names with their dependencies.
pub type ModuleTable = Seq<(Seq<char>, Seq<Seq<char>>)>;

/// Entry `i` is the first named `k`.
pub open spec fn is_module_of(t: ModuleTable, k: Seq<char>, i: int) -> bool {
    &&& 0 <= i < t.len()
    &&& t[i].0 == k
    &&& forall|j: int| 0 <= j < i ==> (#[trigger] t[j]).0 != k
}

/// The table after `HashMap::insert(k, v)`.
pub open spec fn module_inserted(t: ModuleTable, k: Seq<char>, v: Seq<Seq<char>>) -> ModuleTable {
    if exists|i: int| is_module_of(t, k, i) {
        let i = choose|i: int| is_module_of(t, k, i);
        t.update(i, (t[i].0, v))
    } else {
        t.push((k, v))
    }
}

/// The module and its dependencies that the captures of a stamp line name:
/// the dependency list is split at whitespace.
pub open spec fn captured_module(c: Option<(Seq<char>, Seq<char>)>) -> Option<(Seq<char>, Seq<Seq<char>>)> {
    match c {
        Some((m, d)) => Some((m, split_ws(d))),
        None => None,
    }
}

/// The module and its dependencies that a line of `.Modules.deps` names.
pub open spec fn module_entry(line: Option<Seq<char>>) -> Option<(Seq<char>, Seq<Seq<char>>)> {
    match line {
        Some(t) => if "auto/stamp-"@.is_prefix_of(t) {
            captured_module(stamp_line(t))
        } else {
            None
        },
        None => None,
    }
}

/// The module table after one line whose stamp-line captures are
/// `captures`: the module they name is stored with its dependencies,
/// replacing an entry of the same name; without captures the table stays.
pub fn insert_module(table: &mut Vec<(String, Vec<String>)>, captures: Option<(String, String)>)
    ensures
        module_views(final(table)@) == match captured_module(
            match captures {
                Some((m, d)) => Some((m@, d@)),
                None => None,
            },
        ) {
            Some((m, d)) => module_inserted(module_views(old(table)@), m, d),
            None => module_views(old(table)@),
        },
{
    match captures {
        None => {},
        Some((module, deps)) => {
            let words = split_whitespace(deps.as_str());
            let ghost t = module_views(table@);
            let ghost kv = module@;
            let ghost wv = string_views(words@);
            let mut k: usize = 0;
            let mut found: Option<usize> = None;
            while k < table.len()
                invariant
                    k <= table@.len(),
                    t == module_views(table@),
                    kv == module@,
                    match found {
                        Some(x) => x < k && is_module_of(t, kv, x as int),
                        None => forall|j: int| 0 <= j < k ==> (#[trigger] t[j]).0 != kv,
                    },
                decreases table@.len() - k,
            {
                assert(t[k as int].0 == table@[k as int].0@);
                let same = str_eq(table[k].0.as_str(), module.as_str());
                assert(same == (t[k as int].0 == kv));
                if found.is_none() && same {
                    found = Some(k);
                    assert(is_module_of(t, kv, k as int));
                }
                k = k + 1;
            }
            if let Some(idx) = found {
                let (key, _old) = table.remove(idx);
                table.insert(idx, (key, words));
                proof {
                    let c = choose|c: int| is_module_of(t, kv, c);
                    if c < idx {
                        assert(t[c].0 != kv);
                    } else if c > idx {
                        assert(t[idx as int].0 == kv);
                    }
                    assert(module_views(table@) =~= t.update(idx as int, (t[idx as int].0, wv)));
                }
            } else {
                proof {
                    assert forall|c: int| !is_module_of(t, kv, c) by {
                        if 0 <= c < t.len() {
                            assert(t[c].0 != kv);
                        }
                    }
                }
                table.push((module, words));
                assert(module_views(table@) =~= t.push((kv, wv)));
            }
        },
    }
}

/// The modules that the lines name; a module named twice keeps the later
/// dependency list.
pub open spec fn modules_of(lines: Seq<Option<Seq<char>>>) -> ModuleTable
    decreases lines.len(),
{
    if lines.len() == 0 {
        seq![]
    } else {
        let t = modules_of(lines.drop_last());
        match module_entry(lines.last()) {
            Some((m, d)) => module_inserted(t, m, d),
            None => t,
        }
    }
}

/// The value of a module list.
pub open spec fn module_views(v: Seq<(String, Vec<String>)>) -> ModuleTable {
    v.map_values(|e: (String, Vec<String>)| (e.0@, string_views(e.1@)))
}

/// The modules and their dependencies that the `auto/stamp-NAME.ready:`
/// lines of a `.Modules.deps` file name.
pub fn modules_from_lines(lines: &Vec<Option<String>>) -> (r: Vec<(String, Vec<String>)>)
    ensures
        module_views(r@) == modules_of(line_views(lines@)),
{
    let ghost lv = line_views(lines@);
    let mut table: Vec<(String, Vec<String>)> = Vec::new();
    let mut i: usize = 0;
    assert(module_views(table@) =~= modules_of(lv.take(0)));
    while i < lines.len()
        invariant
            lv == line_views(lines@),
            i <= lines@.len(),
            module_views(table@) == modules_of(lv.take(i as int)),
        decreases lines@.len() - i,
    {
        assert(lv.take(i + 1).drop_last() =~= lv.take(i as int));
        assert(lv.take(i + 1).last() == lv[i as int]);
        match &lines[i] {
            None => {},
            Some(line) => {
                assert(lv[i as int] == Some(line@));
                let entry = if starts_with_chars(line.as_str(), "auto/stamp-") {
                    capture_stamp_line(line.as_str())
                } else {
                    None
                };
                insert_module(&mut table, entry);
            },
        }
        i = i + 1;
    }
    assert(lv.take(lines@.len() as int) =~= lv);
    table
}

} // verus!
