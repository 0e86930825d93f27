//! Scanning C++ source text by bytes: quoted literals, balanced
//! parentheses, top-level characters and keywords.

use vstd::prelude::*;
use vstd::string::*;
use vstd::utf8::*;
use crate::text::{
    utf8_width, utf8_width_of, lemma_next_boundary, lemma_char_index_boundary,
    lemma_encode_utf8_concat, leading_ws, trim_start_str, trim_start_chars, trim_chars, trim_str,
    str_slice, str_suffix, lemma_ascii_boundary, lemma_leading_ws,
};
use crate::extract::starts_with_chars;
use crate::preprocess::ast::Attribute;

verus! {

broadcast use {
    encode_utf8_valid_utf8,
    encode_utf8_decode_utf8,
    is_char_boundary_start_end_of_seq,
    is_char_boundary_iff_not_is_continuation_byte,
    valid_utf8_split,
};

/// Where a quoted literal whose body starts at `i` ends: the index after
/// its closing `quote`, a backslash escaping the byte after it.
pub open spec fn quoted_end(b: Seq<u8>, i: int, quote: u8) -> Option<int>
    decreases b.len() + 1 - i,
{
    if i < 0 || i >= b.len() {
        None
    } else if b[i] == 92 {
        quoted_end(b, i + 2, quote)
    } else if b[i] == quote {
        Some(i + 1)
    } else {
        quoted_end(b, i + 1, quote)
    }
}

/// A quoted literal ends after it starts.
pub proof fn lemma_quoted_end_after(b: Seq<u8>, i: int, quote: u8)
    ensures
        quoted_end(b, i, quote) matches Some(j) ==> i < j <= b.len(),
    decreases b.len() + 1 - i,
{
    if 0 <= i < b.len() {
        if b[i] == 92 {
            lemma_quoted_end_after(b, i + 2, quote);
        } else if b[i] != quote {
            lemma_quoted_end_after(b, i + 1, quote);
        }
    }
}

/// The index after the quoted literal that opens at `start` in `source`
/// (`None` if it is not closed, or if `start` is not inside `source`).
pub fn skip_quoted(source: &str, start: usize, quote: u8) -> (r: Option<usize>)
    requires
        start < usize::MAX,
    ensures
        r matches Some(j) ==> quoted_end(source.spec_bytes(), start + 1, quote) == Some(j as int),
        r is None ==> quoted_end(source.spec_bytes(), start + 1, quote) is None,
{
    let bytes = source.as_bytes();
    let len = bytes.len();
    let mut i = start + 1;
    while i < len
        invariant
            bytes@ == source.spec_bytes(),
            len == bytes@.len(),
            start < i,
            quoted_end(bytes@, i as int, quote) == quoted_end(bytes@, start + 1, quote),
        decreases len - i,
    {
        if bytes[i] == 92 {
            if len - i <= 2 {
                assert(quoted_end(bytes@, i + 2, quote) is None);
                return None;
            }
            i = i + 2;
            continue;
        }
        if bytes[i] == quote {
            return Some(i + 1);
        }
        i = i + 1;
    }
    None
}

/// Where the parenthesis group scanned from `i` at nesting `depth` closes,
/// skipping quoted literals; `None` if a literal or the group stays open.
pub open spec fn paren_close(b: Seq<u8>, i: int, depth: nat) -> Option<int>
    decreases b.len() - i,
{
    if i < 0 || i >= b.len() {
        None
    } else if b[i] == 34 || b[i] == 39 {
        match quoted_end(b, i + 1, b[i]) {
            None => None,
            Some(j) => {
                proof {
                    lemma_quoted_end_after(b, i + 1, b[i]);
                }
                paren_close(b, j, depth)
            },
        }
    } else if b[i] == 40 {
        paren_close(b, i + 1, depth + 1)
    } else if b[i] == 41 {
        if depth == 0 {
            None
        } else if depth == 1 {
            Some(i)
        } else {
            paren_close(b, i + 1, (depth - 1) as nat)
        }
    } else {
        paren_close(b, i + 1, depth)
    }
}

/// The index of the parenthesis that closes the one at `open`.
pub fn find_matching_paren(source: &str, open: usize) -> (r: Option<usize>)
    ensures
        r matches Some(c) ==> open < source.spec_bytes().len() && source.spec_bytes()[open as int]
            == 40 && paren_close(source.spec_bytes(), open as int, 0) == Some(c as int) && c
            < source.spec_bytes().len(),
        r is None ==> !(open < source.spec_bytes().len() && source.spec_bytes()[open as int] == 40
            && paren_close(source.spec_bytes(), open as int, 0) is Some),
{
    let bytes = source.as_bytes();
    let len = bytes.len();
    if open >= len || bytes[open] != 40 {
        return None;
    }
    let mut depth: usize = 0;
    let mut i = open;
    while i < len
        invariant
            bytes@ == source.spec_bytes(),
            len == bytes@.len(),
            open <= i,
            open < len,
            bytes@[open as int] == 40,
            depth <= i - open,
            paren_close(bytes@, i as int, depth as nat) == paren_close(bytes@, open as int, 0),
        decreases len - i,
    {
        let c = bytes[i];
        if c == 34 || c == 39 {
            proof {
                lemma_quoted_end_after(bytes@, i + 1, c);
            }
            match skip_quoted(source, i, c) {
                None => {
                    return None;
                },
                Some(j) => {
                    i = j;
                    continue;
                },
            }
        } else if c == 40 {
            depth = depth + 1;
        } else if c == 41 {
            if depth == 0 {
                return None;
            }
            depth = depth - 1;
            if depth == 0 {
                return Some(i);
            }
        }
        i = i + 1;
    }
    None
}

/// Where the first `]]` at or after `i` ends.
pub open spec fn double_close(b: Seq<u8>, i: int) -> Option<int>
    decreases b.len() - i,
{
    if i < 0 || i + 1 >= b.len() {
        None
    } else if b[i] == 93 && b[i + 1] == 93 {
        Some(i + 2)
    } else {
        double_close(b, i + 1)
    }
}

/// The index after the first `]]` that starts at or after `start`.
pub fn find_double_close(source: &str, start: usize) -> (r: Option<usize>)
    ensures
        r matches Some(e) ==> double_close(source.spec_bytes(), start as int) == Some(e as int) && e
            >= 2,
        r is None ==> double_close(source.spec_bytes(), start as int) is None,
{
    let bytes = source.as_bytes();
    let len = bytes.len();
    let mut i = start;
    while i < len && i + 1 < len
        invariant
            bytes@ == source.spec_bytes(),
            len == bytes@.len(),
            start <= i,
            double_close(bytes@, i as int) == double_close(bytes@, start as int),
        decreases len - i,
    {
        if bytes[i] == 93 && bytes[i + 1] == 93 {
            return Some(i + 2);
        }
        i = i + 1;
    }
    None
}

/// The state of the scan for the last closing parenthesis at nesting depth
/// zero: `None` on an unmatched `)` or an unclosed literal.
pub open spec fn last_close(b: Seq<u8>, i: int, depth: nat, last: Option<int>) -> Option<Option<int>>
    decreases b.len() - i,
{
    if i < 0 || i >= b.len() {
        Some(last)
    } else if b[i] == 34 || b[i] == 39 {
        match quoted_end(b, i + 1, b[i]) {
            None => None,
            Some(j) => {
                proof {
                    lemma_quoted_end_after(b, i + 1, b[i]);
                }
                last_close(b, j, depth, last)
            },
        }
    } else if b[i] == 40 {
        last_close(b, i + 1, depth + 1, last)
    } else if b[i] == 41 {
        if depth == 0 {
            None
        } else if depth == 1 {
            last_close(b, i + 1, 0, Some(i))
        } else {
            last_close(b, i + 1, (depth - 1) as nat, last)
        }
    } else {
        last_close(b, i + 1, depth, last)
    }
}

/// The index of the last `)` that closes a top-level parenthesis group
/// (`None` if there is none, or on an unmatched `)` or unclosed literal).
pub fn find_last_parameter_close(source: &str) -> (r: Option<usize>)
    ensures
        r matches Some(c) ==> last_close(source.spec_bytes(), 0, 0, None) == Some(Some(c as int))
            && c < source.spec_bytes().len() && source.spec_bytes()[c as int] == 41,
        r is None ==> (last_close(source.spec_bytes(), 0, 0, None) is None || last_close(
            source.spec_bytes(),
            0,
            0,
            None,
        ) == Some(None::<int>)),
{
    let bytes = source.as_bytes();
    let len = bytes.len();
    let mut depth: usize = 0;
    let mut last: Option<usize> = None;
    let mut i: usize = 0;
    while i < len
        invariant
            bytes@ == source.spec_bytes(),
            len == bytes@.len(),
            depth <= i,
            i <= len,
            last matches Some(l) ==> l < len,
            last_close(bytes@, i as int, depth as nat, match last {
                Some(l) => Some(l as int),
                None => None,
            }) == last_close(bytes@, 0, 0, None),
            last matches Some(l) ==> bytes@[l as int] == 41,
        decreases len - i,
    {
        let c = bytes[i];
        if c == 34 || c == 39 {
            proof {
                lemma_quoted_end_after(bytes@, i + 1, c);
            }
            match skip_quoted(source, i, c) {
                None => {
                    return None;
                },
                Some(j) => {
                    i = j;
                    continue;
                },
            }
        } else if c == 40 {
            depth = depth + 1;
        } else if c == 41 {
            if depth == 0 {
                return None;
            }
            depth = depth - 1;
            if depth == 0 {
                last = Some(i);
            }
        }
        i = i + 1;
    }
    proof {
        lemma_last_close_at_paren(bytes@, i as int, depth as nat, match last {
            Some(l) => Some(l as int),
            None => None,
        });
    }
    last
}

/// `a - 1`, or 0 for 0.
pub open spec fn sat_dec(a: nat) -> nat {
    if a == 0 {
        0
    } else {
        (a - 1) as nat
    }
}

/// The scan for the first byte equal to `wanted` outside parentheses,
/// brackets and angle brackets, skipping quoted literals; closing
/// delimiters never take a count below zero.
pub open spec fn top_level(b: Seq<u8>, i: int, wanted: u32, parens: nat, brackets: nat, angles: nat) -> Option<int>
    decreases b.len() - i,
{
    if i < 0 || i >= b.len() {
        None
    } else if b[i] == 34 || b[i] == 39 {
        match quoted_end(b, i + 1, b[i]) {
            None => None,
            Some(j) => {
                proof {
                    lemma_quoted_end_after(b, i + 1, b[i]);
                }
                top_level(b, j, wanted, parens, brackets, angles)
            },
        }
    } else if b[i] == 40 {
        top_level(b, i + 1, wanted, parens + 1, brackets, angles)
    } else if b[i] == 41 {
        top_level(b, i + 1, wanted, sat_dec(parens), brackets, angles)
    } else if b[i] == 91 {
        top_level(b, i + 1, wanted, parens, brackets + 1, angles)
    } else if b[i] == 93 {
        top_level(b, i + 1, wanted, parens, sat_dec(brackets), angles)
    } else if b[i] == 60 {
        top_level(b, i + 1, wanted, parens, brackets, angles + 1)
    } else if b[i] == 62 {
        top_level(b, i + 1, wanted, parens, brackets, sat_dec(angles))
    } else if b[i] as u32 == wanted && parens == 0 && brackets == 0 && angles == 0 {
        Some(i)
    } else {
        top_level(b, i + 1, wanted, parens, brackets, angles)
    }
}

/// The index of the first byte that equals `wanted` (read as a Latin-1
/// character) outside any parentheses, brackets, angle brackets and quoted
/// literals.
pub fn find_top_level_char(source: &str, wanted: char) -> (r: Option<usize>)
    ensures
        r matches Some(i) ==> top_level(source.spec_bytes(), 0, wanted as u32, 0, 0, 0) == Some(
            i as int,
        ) && i < source.spec_bytes().len() && source.spec_bytes()[i as int] as u32 == wanted as u32,
        r is None ==> top_level(source.spec_bytes(), 0, wanted as u32, 0, 0, 0) is None,
{
    let bytes = source.as_bytes();
    let len = bytes.len();
    let w = wanted as u32;
    let mut parens: usize = 0;
    let mut brackets: usize = 0;
    let mut angles: usize = 0;
    let mut i: usize = 0;
    while i < len
        invariant
            bytes@ == source.spec_bytes(),
            len == bytes@.len(),
            w == wanted as u32,
            i <= len,
            parens <= i,
            brackets <= i,
            angles <= i,
            top_level(bytes@, i as int, w, parens as nat, brackets as nat, angles as nat)
                == top_level(bytes@, 0, w, 0, 0, 0),
        decreases len - i,
    {
        let c = bytes[i];
        if c == 34 || c == 39 {
            proof {
                lemma_quoted_end_after(bytes@, i + 1, c);
            }
            match skip_quoted(source, i, c) {
                None => {
                    return None;
                },
                Some(j) => {
                    i = j;
                    continue;
                },
            }
        } else if c == 40 {
            parens = parens + 1;
        } else if c == 41 {
            if parens > 0 {
                parens = parens - 1;
            }
        } else if c == 91 {
            brackets = brackets + 1;
        } else if c == 93 {
            if brackets > 0 {
                brackets = brackets - 1;
            }
        } else if c == 60 {
            angles = angles + 1;
        } else if c == 62 {
            if angles > 0 {
                angles = angles - 1;
            }
        } else if c as u32 == w && parens == 0 && brackets == 0 && angles == 0 {
            proof {
                lemma_top_level_at_wanted(bytes@, 0, w, 0, 0, 0);
            }
            return Some(i);
        }
        i = i + 1;
    }
    None
}

/// Whether `c` is an ASCII letter, digit or underscore.
pub open spec fn is_ident_byte(c: u8) -> bool {
    (48 <= c <= 57) || (65 <= c <= 90) || (97 <= c <= 122) || c == 95
}

/// Whether `byte` is an ASCII letter, digit or underscore.
pub fn is_identifier_char(byte: u8) -> (r: bool)
    ensures
        r == is_ident_byte(byte),
{
    (48 <= byte && byte <= 57) || (65 <= byte && byte <= 90) || (97 <= byte && byte <= 122) || byte
        == 95
}

/// `kw` occurs at `o` as a whole word: not preceded or followed by an
/// identifier byte.
pub open spec fn keyword_at(b: Seq<u8>, o: int, kw: Seq<u8>) -> bool {
    &&& 0 <= o
    &&& o + kw.len() <= b.len()
    &&& b.subrange(o, o + kw.len()) == kw
    &&& (o == 0 || !is_ident_byte(b[o - 1]))
    &&& (o + kw.len() == b.len() || !is_ident_byte(b[o + kw.len()]))
}

/// The first char start at or after `o` where `kw` occurs as a whole word.
pub open spec fn keyword_from(b: Seq<u8>, o: int, kw: Seq<u8>) -> Option<int>
    decreases b.len() + 4 - o,
{
    if o < 0 || o >= b.len() {
        None
    } else if keyword_at(b, o, kw) {
        Some(o)
    } else {
        keyword_from(b, o + utf8_width(b[o]), kw)
    }
}

/// Whether `kw` occurs in `b` at `o`.
fn bytes_at(b: &[u8], o: usize, kw: &[u8]) -> (r: bool)
    requires
        o <= b@.len(),
    ensures
        r == (o + kw@.len() <= b@.len() && b@.subrange(o as int, o + kw@.len()) == kw@),
{
    let blen = b.len();
    if kw.len() > blen - o {
        return false;
    }
    let mut i: usize = 0;
    while i < kw.len()
        invariant
            blen == b@.len(),
            o <= b@.len(),
            o + kw@.len() <= b@.len(),
            i <= kw@.len(),
            forall|j: int| 0 <= j < i ==> b@[o + j] == kw@[j],
        decreases kw@.len() - i,
    {
        if b[o + i] != kw[i] {
            assert(b@.subrange(o as int, o + kw@.len())[i as int] != kw@[i as int]);
            return false;
        }
        i = i + 1;
    }
    assert(b@.subrange(o as int, o + kw@.len()) =~= kw@);
    true
}

/// The first char start of `source` where `keyword` occurs as a whole word.
pub fn find_keyword(source: &str, keyword: &str) -> (r: Option<usize>)
    ensures
        r matches Some(o) ==> keyword_from(source.spec_bytes(), 0, keyword.spec_bytes()) == Some(
            o as int,
        ) && is_char_boundary(source.spec_bytes(), o as int) && o < source.spec_bytes().len(),
        r is None ==> keyword_from(source.spec_bytes(), 0, keyword.spec_bytes()) is None,
{
    let b = source.as_bytes();
    let kw = keyword.as_bytes();
    let len = b.len();
    let mut offset: usize = 0;
    while offset < len
        invariant
            b@ == source.spec_bytes(),
            kw@ == keyword.spec_bytes(),
            len == b@.len(),
            offset <= len,
            valid_utf8(b@),
            is_char_boundary(b@, offset as int),
            keyword_from(b@, offset as int, kw@) == keyword_from(b@, 0, kw@),
        decreases len - offset,
    {
        if bytes_at(b, offset, kw) {
            let before_ok = offset == 0 || !is_identifier_char(b[offset - 1]);
            let end = offset + kw.len();
            let after_ok = end == len || !is_identifier_char(b[end]);
            if before_ok && after_ok {
                return Some(offset);
            }
        }
        proof {
            lemma_next_boundary(b@, offset as int);
        }
        offset = offset + utf8_width_of(b[offset]);
    }
    None
}

/// Whether `token` occurs in `source` as a whole word.
pub fn contains_token(source: &str, token: &str) -> (r: bool)
    ensures
        r == (keyword_from(source.spec_bytes(), 0, token.spec_bytes()) is Some),
{
    find_keyword(source, token).is_some()
}

/// The parenthesis group that opens at `open` in `b`, if there is one.
pub open spec fn matching_paren(b: Seq<u8>, open: int) -> Option<int> {
    if 0 <= open < b.len() && b[open] == 40 {
        paren_close(b, open, 0)
    } else {
        None
    }
}

/// `kw(...)` at the start of `s`, with whitespace allowed before the
/// parenthesis: the byte length up to and including the closing parenthesis.
pub open spec fn attribute_macro(s: Seq<char>, kw: Seq<char>) -> Option<int> {
    if kw.is_prefix_of(s) {
        let t = s.skip(kw.len() as int);
        let k = leading_ws(t);
        if k < t.len() && t[k as int] == '(' {
            match matching_paren(encode_utf8(s), encode_utf8(s.take(kw.len() + k as int)).len() as int) {
                Some(c) => Some(c + 1),
                None => None,
            }
        } else {
            None
        }
    } else {
        None
    }
}

/// The byte length of `keyword(...)` (whitespace allowed before the
/// parenthesis) at the start of `source`, if it is there.
pub fn find_attribute_macro(source: &str, keyword: &str) -> (r: Option<usize>)
    ensures
        r matches Some(e) ==> attribute_macro(source@, keyword@) == Some(e as int) && e >= 1,
        r is None ==> attribute_macro(source@, keyword@) is None,
{
    if !starts_with_chars(source, keyword) {
        return None;
    }
    let ghost s = source@;
    let ghost k0 = keyword@.len() as int;
    let kl = keyword.as_bytes().len();
    proof {
        lemma_char_index_boundary(s, k0);
        assert(s.take(k0) =~= keyword@);
        assert(source.spec_bytes() == encode_utf8(s));
        assert(keyword.spec_bytes() == encode_utf8(keyword@));
        assert(kl == encode_utf8(s.take(k0)).len());
    }
    let tail = str_suffix(source, kl);
    proof {
        assert(source.spec_bytes().subrange(kl as int, source.spec_bytes().len() as int)
            =~= encode_utf8(s.skip(k0)));
        assert(tail@ == s.skip(k0));
    }
    let after = trim_start_str(tail);
    let ghost t = tail@;
    let ghost lead = leading_ws(t) as int;
    proof {
        lemma_leading_ws(t);
    }
    if after.unicode_len() == 0 || after.get_char(0) != '(' {
        proof {
            assert(after@ == t.skip(lead));
            if lead < t.len() {
                assert(after@[0] == t[lead]);
            }
        }
        return None;
    }
    proof {
        assert(after@ == t.skip(lead));
        assert(t == t.take(lead) + after@);
        lemma_encode_utf8_concat(t.take(lead), after@);
        assert(s.take(k0 + lead) == keyword@ + t.take(lead));
        lemma_encode_utf8_concat(keyword@, t.take(lead));
    }
    let slen = source.as_bytes().len();
    let ws_len = tail.as_bytes().len() - after.as_bytes().len();
    assert(kl + ws_len <= slen);
    let open = kl + ws_len;
    assert(open == encode_utf8(s.take(k0 + lead)).len());
    match find_matching_paren(source, open) {
        Some(close) => Some(close + 1),
        None => None,
    }
}

/// A closing parenthesis that the scan finds is a `)` of the text.
pub proof fn lemma_paren_close_at_paren(b: Seq<u8>, i: int, depth: nat)
    ensures
        paren_close(b, i, depth) matches Some(c) ==> 0 <= c < b.len() && b[c] == 41,
    decreases b.len() - i,
{
    if 0 <= i < b.len() {
        if b[i] == 34 || b[i] == 39 {
            lemma_quoted_end_after(b, i + 1, b[i]);
            if let Some(j) = quoted_end(b, i + 1, b[i]) {
                lemma_paren_close_at_paren(b, j, depth);
            }
        } else if b[i] == 40 {
            lemma_paren_close_at_paren(b, i + 1, depth + 1);
        } else if b[i] == 41 {
            if depth > 1 {
                lemma_paren_close_at_paren(b, i + 1, (depth - 1) as nat);
            }
        } else {
            lemma_paren_close_at_paren(b, i + 1, depth);
        }
    }
}

/// The last top-level closing parenthesis that the scan finds is a `)` of the text.
pub proof fn lemma_last_close_at_paren(b: Seq<u8>, i: int, depth: nat, last: Option<int>)
    requires
        last matches Some(l) ==> 0 <= l < b.len() && b[l] == 41,
    ensures
        last_close(b, i, depth, last) matches Some(Some(c)) ==> 0 <= c < b.len() && b[c] == 41,
    decreases b.len() - i,
{
    if 0 <= i < b.len() {
        if b[i] == 34 || b[i] == 39 {
            lemma_quoted_end_after(b, i + 1, b[i]);
            if let Some(j) = quoted_end(b, i + 1, b[i]) {
                lemma_last_close_at_paren(b, j, depth, last);
            }
        } else if b[i] == 40 {
            lemma_last_close_at_paren(b, i + 1, depth + 1, last);
        } else if b[i] == 41 {
            if depth == 1 {
                lemma_last_close_at_paren(b, i + 1, 0, Some(i));
            } else if depth > 1 {
                lemma_last_close_at_paren(b, i + 1, (depth - 1) as nat, last);
            }
        } else {
            lemma_last_close_at_paren(b, i + 1, depth, last);
        }
    }
}

/// The byte that the top-level scan finds is the wanted one.
pub proof fn lemma_top_level_at_wanted(
    b: Seq<u8>,
    i: int,
    wanted: u32,
    parens: nat,
    brackets: nat,
    angles: nat,
)
    ensures
        top_level(b, i, wanted, parens, brackets, angles) matches Some(k) ==> 0 <= k < b.len() && b[k]
            as u32 == wanted,
    decreases b.len() - i,
{
    if 0 <= i < b.len() {
        if b[i] == 34 || b[i] == 39 {
            lemma_quoted_end_after(b, i + 1, b[i]);
            if let Some(j) = quoted_end(b, i + 1, b[i]) {
                lemma_top_level_at_wanted(b, j, wanted, parens, brackets, angles);
            }
        } else if b[i] == 40 {
            lemma_top_level_at_wanted(b, i + 1, wanted, parens + 1, brackets, angles);
        } else if b[i] == 41 {
            lemma_top_level_at_wanted(b, i + 1, wanted, sat_dec(parens), brackets, angles);
        } else if b[i] == 91 {
            lemma_top_level_at_wanted(b, i + 1, wanted, parens, brackets + 1, angles);
        } else if b[i] == 93 {
            lemma_top_level_at_wanted(b, i + 1, wanted, parens, sat_dec(brackets), angles);
        } else if b[i] == 60 {
            lemma_top_level_at_wanted(b, i + 1, wanted, parens, brackets, angles + 1);
        } else if b[i] == 62 {
            lemma_top_level_at_wanted(b, i + 1, wanted, parens, brackets, sat_dec(angles));
        } else if !(b[i] as u32 == wanted && parens == 0 && brackets == 0 && angles == 0) {
            lemma_top_level_at_wanted(b, i + 1, wanted, parens, brackets, angles);
        }
    }
}

/// The byte length of the attribute that starts at byte `o` of `b`: a
/// `[[...]]` attribute, or an `attribute(...)` or `__attribute__(...)`
/// macro.
pub open spec fn attribute_len(b: Seq<u8>, o: int) -> Option<int> {
    let rest = b.subrange(o, b.len() as int);
    if o + 2 <= b.len() && b[o] == 91 && b[o + 1] == 91 && double_close(rest, 2) is Some {
        double_close(rest, 2)
    } else {
        match attribute_macro(decode_utf8(rest), "attribute"@) {
            Some(e) => Some(e),
            None => attribute_macro(decode_utf8(rest), "__attribute__"@),
        }
    }
}

/// The attributes of `b` from byte `o` on, scanning char by char.
pub open spec fn attributes_from(b: Seq<u8>, o: int) -> Seq<Seq<char>>
    decreases b.len() + 4 - o,
{
    if o < 0 || o >= b.len() {
        seq![]
    } else {
        match attribute_len(b, o) {
            Some(e) => if 0 < e && o + e <= b.len() {
                seq![decode_utf8(b.subrange(o, o + e))] + attributes_from(b, o + e)
            } else {
                attributes_from(b, o + utf8_width(b[o]))
            },
            None => attributes_from(b, o + utf8_width(b[o])),
        }
    }
}

/// The texts of a list of attributes.
pub open spec fn attribute_texts(v: Seq<Attribute>) -> Seq<Seq<char>> {
    v.map_values(|a: Attribute| a.source@)
}

/// The attributes written in `source`, in order: `[[...]]`,
/// `attribute(...)` and `__attribute__(...)`.
pub fn extract_attributes(source: &str) -> (r: Vec<Attribute>)
    ensures
        attribute_texts(r@) == attributes_from(source.spec_bytes(), 0),
{
    let b = source.as_bytes();
    let len = b.len();
    let mut result: Vec<Attribute> = Vec::new();
    let mut offset: usize = 0;
    assert(attribute_texts(result@) =~= seq![]);
    while offset < len
        invariant
            b@ == source.spec_bytes(),
            len == b@.len(),
            offset <= len,
            valid_utf8(b@),
            is_char_boundary(b@, offset as int),
            attribute_texts(result@) + attributes_from(b@, offset as int) == attributes_from(b@, 0),
        decreases len - offset,
    {
        let rest = str_suffix(source, offset);
        let ghost rb = b@.subrange(offset as int, len as int);
        let mut found: Option<usize> = None;
        if len - offset >= 2 && b[offset] == 91 && b[offset + 1] == 91 {
            found = find_double_close(rest, 2);
        }
        if found.is_none() {
            found = find_attribute_macro(rest, "attribute");
            if found.is_none() {
                found = find_attribute_macro(rest, "__attribute__");
            }
        }
        assert(found matches Some(e) ==> attribute_len(b@, offset as int) == Some(e as int));
        assert(found is None ==> attribute_len(b@, offset as int) is None);
        match found {
            Some(end) => {
                proof {
                    let e = end as int;
                    assert(e >= 1);
                    if offset + 2 <= len && b@[offset as int] == 91 && b@[offset + 1] == 91
                        && double_close(rb, 2) is Some {
                        assert(double_close(rb, 2) == Some(e));
                        lemma_double_close_at_brackets(rb, 2);
                        assert(rb[e - 1] == 93);
                    } else {
                        let s = decode_utf8(rb);
                        assert(encode_utf8(s) == rb);
                        lemma_attribute_macro_ends_at_paren(s, "attribute"@);
                        lemma_attribute_macro_ends_at_paren(s, "__attribute__"@);
                    }
                    assert(b@[offset + e - 1] == rb[e - 1]);
                    lemma_ascii_boundary_in(b@, offset + e - 1);
                    lemma_next_boundary(b@, offset + e - 1);
                }
                let text = str_slice(source, offset, offset + end);
                let ghost before = attribute_texts(result@);
                result.push(Attribute { source: text.to_owned() });
                assert(attribute_texts(result@) =~= before.push(text@));
                assert(before.push(text@) + attributes_from(b@, offset + end) =~= before + (seq![text@]
                    + attributes_from(b@, offset + end)));
                offset = offset + end;
            },
            None => {
                proof {
                    lemma_next_boundary(b@, offset as int);
                }
                offset = offset + utf8_width_of(b[offset]);
            },
        }
    }
    assert(attribute_texts(result@) + attributes_from(b@, offset as int) =~= attribute_texts(result@));
    result
}

/// The scan for `]]` stops right after a `]`.
pub proof fn lemma_double_close_at_brackets(b: Seq<u8>, i: int)
    ensures
        double_close(b, i) matches Some(e) ==> 2 <= e <= b.len() && b[e - 1] == 93,
    decreases b.len() - i,
{
    if 0 <= i && i + 1 < b.len() && !(b[i] == 93 && b[i + 1] == 93) {
        lemma_double_close_at_brackets(b, i + 1);
    }
}

/// An attribute macro that is found ends at its closing parenthesis.
pub proof fn lemma_attribute_macro_ends_at_paren(s: Seq<char>, kw: Seq<char>)
    ensures
        attribute_macro(s, kw) matches Some(e) ==> 1 <= e <= encode_utf8(s).len() && encode_utf8(
            s,
        )[e - 1] == 41,
{
    if kw.is_prefix_of(s) {
        let t = s.skip(kw.len() as int);
        let k = leading_ws(t);
        lemma_paren_close_at_paren(
            encode_utf8(s),
            encode_utf8(s.take(kw.len() + k as int)).len() as int,
            0,
        );
    }
}

/// An ASCII byte of a valid text starts a char.
pub proof fn lemma_ascii_boundary_in(b: Seq<u8>, i: int)
    requires
        valid_utf8(b),
        0 <= i < b.len(),
        b[i] < 0x80,
    ensures
        is_char_boundary(b, i),
        utf8_width(b[i]) == 1,
{
    assert(!is_continuation_byte(b[i]));
}

/// The index of the first byte `x` at or after `i`.
pub open spec fn byte_from(b: Seq<u8>, x: u8, i: int) -> Option<int>
    decreases b.len() - i,
{
    if i < 0 || i >= b.len() {
        None
    } else if b[i] == x {
        Some(i)
    } else {
        byte_from(b, x, i + 1)
    }
}

/// `str::find` for an ASCII character: the index of its first byte.
pub fn find_byte(s: &str, x: u8) -> (r: Option<usize>)
    ensures
        r matches Some(i) ==> byte_from(s.spec_bytes(), x, 0) == Some(i as int) && i
            < s.spec_bytes().len() && s.spec_bytes()[i as int] == x,
        r is None ==> byte_from(s.spec_bytes(), x, 0) is None,
{
    let b = s.as_bytes();
    let mut i: usize = 0;
    while i < b.len()
        invariant
            b@ == s.spec_bytes(),
            i <= b@.len(),
            byte_from(b@, x, i as int) == byte_from(b@, x, 0),
        decreases b@.len() - i,
    {
        if b[i] == x {
            return Some(i);
        }
        i = i + 1;
    }
    None
}

/// The smaller of two optional offsets, where present.
pub open spec fn min_present(a: Option<int>, b: Option<int>) -> Option<int> {
    match (a, b) {
        (Some(x), Some(y)) => Some(if x <= y {
            x
        } else {
            y
        }),
        (Some(x), None) => Some(x),
        (None, y) => y,
    }
}

fn min_present_exec(a: Option<usize>, b: Option<usize>) -> (r: Option<usize>)
    ensures
        r matches Some(x) ==> min_present(
            match a {
                Some(v) => Some(v as int),
                None => None,
            },
            match b {
                Some(v) => Some(v as int),
                None => None,
            },
        ) == Some(x as int) && (a == Some(x) || b == Some(x)),
        r is None ==> a is None && b is None,
{
    match (a, b) {
        (Some(x), Some(y)) => Some(
            if x <= y {
                x
            } else {
                y
            },
        ),
        (Some(x), None) => Some(x),
        (None, y) => y,
    }
}

/// The text after the last top-level closing parenthesis of `b`: the part
/// before its top-level `{` or its first `;`, trimmed; empty without such a
/// parenthesis.
pub open spec fn function_suffix(b: Seq<u8>) -> Seq<char> {
    match last_close(b, 0, 0, None) {
        Some(Some(c)) => {
            let a = b.subrange(c + 1, b.len() as int);
            let end = match min_present(top_level(a, 0, 123, 0, 0, 0), byte_from(a, 59, 0)) {
                Some(x) => x,
                None => a.len() as int,
            };
            trim_chars(decode_utf8(a.take(end)))
        },
        _ => seq![],
    }
}

/// The text after the last top-level closing parenthesis of `b`: the part
/// before its top-level `{`, `default` or `delete`, trimmed; empty without
/// such a parenthesis.
pub open spec fn method_suffix(b: Seq<u8>) -> Seq<char> {
    match last_close(b, 0, 0, None) {
        Some(Some(c)) => {
            let a = b.subrange(c + 1, b.len() as int);
            let end = match min_present(
                min_present(
                    top_level(a, 0, 123, 0, 0, 0),
                    keyword_from(a, 0, encode_utf8("default"@)),
                ),
                keyword_from(a, 0, encode_utf8("delete"@)),
            ) {
                Some(x) => x,
                None => a.len() as int,
            };
            trim_chars(decode_utf8(a.take(end)))
        },
        _ => seq![],
    }
}

/// The part of `source` after the parameter list, up to the body or the
/// closing `;`, trimmed (`const`, `noexcept`, `override`, ...).
pub fn extract_function_suffix(source: &str) -> (r: String)
    ensures
        r@ == function_suffix(source.spec_bytes()),
{
    let close = match find_last_parameter_close(source) {
        Some(c) => c,
        None => {
            return String::new();
        },
    };
    let ghost b = source.spec_bytes();
    let slen = source.as_bytes().len();
    assert(close < slen);
    proof {
        lemma_ascii_boundary_in(b, close as int);
        lemma_next_boundary(b, close as int);
    }
    let after = str_suffix(source, close + 1);
    let ghost a = after.spec_bytes();
    let body_start = find_top_level_char(after, '{');
    let declaration_end = find_byte(after, 59);
    let end = match min_present_exec(body_start, declaration_end) {
        Some(x) => x,
        None => after.as_bytes().len(),
    };
    proof {
        assert(valid_utf8(a));
        if end < a.len() {
            assert(a[end as int] == 123 || a[end as int] == 59);
            lemma_ascii_boundary_in(a, end as int);
        }
    }
    let piece = str_slice(after, 0, end);
    assert(a.subrange(0, end as int) == a.take(end as int));
    trim_str(piece).to_owned()
}

/// The part of `source` after the parameter list, up to the body or the
/// `default`/`delete` keyword, trimmed.
pub fn extract_method_suffix(source: &str) -> (r: String)
    ensures
        r@ == method_suffix(source.spec_bytes()),
{
    let close = match find_last_parameter_close(source) {
        Some(c) => c,
        None => {
            return String::new();
        },
    };
    let ghost b = source.spec_bytes();
    let slen = source.as_bytes().len();
    assert(close < slen);
    proof {
        lemma_ascii_boundary_in(b, close as int);
        lemma_next_boundary(b, close as int);
    }
    let after = str_suffix(source, close + 1);
    let ghost a = after.spec_bytes();
    let body_start = find_top_level_char(after, '{');
    let default_pos = find_keyword(after, "default");
    let delete_pos = find_keyword(after, "delete");
    let first = min_present_exec(body_start, default_pos);
    let end = match min_present_exec(first, delete_pos) {
        Some(x) => x,
        None => after.as_bytes().len(),
    };
    proof {
        assert(valid_utf8(a));
        if end < a.len() {
            if body_start == Some(end) {
                assert(a[end as int] == 123);
                lemma_ascii_boundary_in(a, end as int);
            }
        }
    }
    let piece = str_slice(after, 0, end);
    assert(a.subrange(0, end as int) == a.take(end as int));
    trim_str(piece).to_owned()
}

} // verus!
