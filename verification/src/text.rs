//! Text primitives on `str`: byte-offset slicing, Unicode whitespace
//! trimming and splitting, ASCII decimal numbers.
//!
//! A `str` is viewed both as its characters (`s@`) and as its UTF-8 bytes
//! (`s.spec_bytes()`); byte offsets index the latter.

use vstd::prelude::*;
use vstd::utf8::*;
use vstd::string::*;
use vstd::std_specs::iter::IteratorSpec;

verus! {

broadcast use {
    encode_utf8_valid_utf8,
    encode_utf8_decode_utf8,
    decode_utf8_encode_utf8,
    is_char_boundary_start_end_of_seq,
    is_char_boundary_iff_not_is_continuation_byte,
    valid_utf8_split,
};

/// Unicode `White_Space`, the property behind `char::is_whitespace`.
pub open spec fn is_white_space(c: char) -> bool {
    let u = c as u32;
    ||| 0x9 <= u <= 0xd
    ||| u == 0x20
    ||| u == 0x85
    ||| u == 0xa0
    ||| u == 0x1680
    ||| 0x2000 <= u <= 0x200a
    ||| u == 0x2028
    ||| u == 0x2029
    ||| u == 0x202f
    ||| u == 0x205f
    ||| u == 0x3000
}

/// Whether `c` is Unicode whitespace.
pub fn is_whitespace_char(c: char) -> (r: bool)
    ensures
        r == is_white_space(c),
{
    let u = c as u32;
    (0x9 <= u && u <= 0xd) || u == 0x20 || u == 0x85 || u == 0xa0 || u == 0x1680 || (0x2000 <= u
        && u <= 0x200a) || u == 0x2028 || u == 0x2029 || u == 0x202f || u == 0x205f || u == 0x3000
}

/// Number of whitespace characters at the front of `s`.
pub open spec fn leading_ws(s: Seq<char>) -> nat
    decreases s.len(),
{
    if s.len() > 0 && is_white_space(s[0]) {
        1 + leading_ws(s.drop_first())
    } else {
        0
    }
}

/// Number of whitespace characters at the back of `s`.
pub open spec fn trailing_ws(s: Seq<char>) -> nat
    decreases s.len(),
{
    if s.len() > 0 && is_white_space(s.last()) {
        1 + trailing_ws(s.drop_last())
    } else {
        0
    }
}

/// `s` without its leading whitespace (`str::trim_start`).
pub open spec fn trim_start_chars(s: Seq<char>) -> Seq<char> {
    s.skip(leading_ws(s) as int)
}

/// `s` without its trailing whitespace (`str::trim_end`).
pub open spec fn trim_end_chars(s: Seq<char>) -> Seq<char> {
    s.take(s.len() - trailing_ws(s))
}

/// `s` without leading and trailing whitespace (`str::trim`).
pub open spec fn trim_chars(s: Seq<char>) -> Seq<char> {
    trim_end_chars(trim_start_chars(s))
}

/// The leading whitespace count is the first index that holds no whitespace.
pub proof fn lemma_leading_ws(s: Seq<char>)
    ensures
        leading_ws(s) <= s.len(),
        forall|i: int| 0 <= i < leading_ws(s) ==> is_white_space(#[trigger] s[i]),
        leading_ws(s) < s.len() ==> !is_white_space(s[leading_ws(s) as int]),
    decreases s.len(),
{
    if s.len() > 0 && is_white_space(s[0]) {
        lemma_leading_ws(s.drop_first());
        assert forall|i: int| 0 <= i < leading_ws(s) implies is_white_space(#[trigger] s[i]) by {
            if i > 0 {
                assert(s[i] == s.drop_first()[i - 1]);
            }
        }
    }
}

/// The trailing whitespace count ends at the last index that holds no whitespace.
pub proof fn lemma_trailing_ws(s: Seq<char>)
    ensures
        trailing_ws(s) <= s.len(),
        forall|i: int| s.len() - trailing_ws(s) <= i < s.len() ==> is_white_space(#[trigger] s[i]),
        trailing_ws(s) < s.len() ==> !is_white_space(s[s.len() - trailing_ws(s) - 1]),
    decreases s.len(),
{
    if s.len() > 0 && is_white_space(s.last()) {
        lemma_trailing_ws(s.drop_last());
        assert forall|i: int| s.len() - trailing_ws(s) <= i < s.len() implies is_white_space(
            #[trigger] s[i],
        ) by {
            if i < s.len() - 1 {
                assert(s[i] == s.drop_last()[i]);
            }
        }
    }
}

/// A count that meets the characterisation of `lemma_leading_ws` is the leading count.
pub proof fn lemma_leading_ws_unique(s: Seq<char>, k: int)
    requires
        0 <= k <= s.len(),
        forall|i: int| 0 <= i < k ==> is_white_space(#[trigger] s[i]),
        k < s.len() ==> !is_white_space(s[k]),
    ensures
        leading_ws(s) == k,
{
    lemma_leading_ws(s);
    if leading_ws(s) < k {
        assert(is_white_space(s[leading_ws(s) as int]));
    } else if leading_ws(s) > k {
        assert(is_white_space(s[k]));
    }
}

/// A count that meets the characterisation of `lemma_trailing_ws` is the trailing count.
pub proof fn lemma_trailing_ws_unique(s: Seq<char>, k: int)
    requires
        0 <= k <= s.len(),
        forall|i: int| s.len() - k <= i < s.len() ==> is_white_space(#[trigger] s[i]),
        k < s.len() ==> !is_white_space(s[s.len() - k - 1]),
    ensures
        trailing_ws(s) == k,
{
    lemma_trailing_ws(s);
    if trailing_ws(s) < k {
        assert(is_white_space(s[s.len() - trailing_ws(s) - 1]));
    } else if trailing_ws(s) > k {
        assert(is_white_space(s[s.len() - k - 1]));
    }
}

/// UTF-8 encoding distributes over concatenation.
pub proof fn lemma_encode_utf8_concat(a: Seq<char>, b: Seq<char>)
    ensures
        encode_utf8(a + b) == encode_utf8(a) + encode_utf8(b),
    decreases a.len(),
{
    if a.len() == 0 {
        assert(a + b == b);
    } else {
        lemma_encode_utf8_concat(a.drop_first(), b);
        assert((a + b).drop_first() == a.drop_first() + b);
        assert(encode_utf8(a + b) == encode_scalar((a + b)[0] as u32) + encode_utf8(
            (a + b).drop_first(),
        ));
    }
}

/// The characters of a `str` are the decoding of its bytes.
pub proof fn lemma_view_is_decoded_bytes(s: &str)
    ensures
        s@ == decode_utf8(s.spec_bytes()),
        valid_utf8(s.spec_bytes()),
{
}

/// A boundary of a byte sequence below a cut is a boundary of the prefix up to the cut.
proof fn lemma_boundary_in_prefix(b: Seq<u8>, cut: int, j: int)
    requires
        valid_utf8(b),
        is_char_boundary(b, cut),
        0 <= j <= cut <= b.len(),
        is_char_boundary(b, j),
    ensures
        is_char_boundary(b.subrange(0, cut), j),
{
    let p = b.subrange(0, cut);
    assert(valid_utf8(p));
    if j < cut {
        assert(p[j] == b[j]);
        if j < b.len() {
            assert(!is_continuation_byte(b[j]));
        }
    } else {
        assert(p.len() == cut);
    }
}

/// A byte offset whose byte is ASCII (or that is the end of the text) is a char boundary.
pub proof fn lemma_ascii_boundary(s: &str, i: int)
    requires
        0 <= i <= s.spec_bytes().len(),
        i < s.spec_bytes().len() ==> s.spec_bytes()[i] < 0x80,
    ensures
        is_char_boundary(s.spec_bytes(), i),
{
    let b = s.spec_bytes();
    assert(valid_utf8(b));
    if i < b.len() {
        assert(!is_continuation_byte(b[i]));
    }
}

/// `&s[start..end]` on byte offsets.
pub fn str_slice<'a>(s: &'a str, start: usize, end: usize) -> (r: &'a str)
    requires
        start <= end <= s.spec_bytes().len(),
        is_char_boundary(s.spec_bytes(), start as int),
        is_char_boundary(s.spec_bytes(), end as int),
    ensures
        r.spec_bytes() == s.spec_bytes().subrange(start as int, end as int),
        r@ == decode_utf8(s.spec_bytes().subrange(start as int, end as int)),
{
    let ghost b = s.spec_bytes();
    assert(valid_utf8(b));
    let (head, _rest) = s.split_at(end);
    proof {
        lemma_boundary_in_prefix(b, end as int, start as int);
    }
    let (_skip, tail) = head.split_at(start);
    assert(tail.spec_bytes() == b.subrange(start as int, end as int));
    tail
}

/// `&s[start..]` on byte offsets.
pub fn str_suffix<'a>(s: &'a str, start: usize) -> (r: &'a str)
    requires
        start <= s.spec_bytes().len(),
        is_char_boundary(s.spec_bytes(), start as int),
    ensures
        r.spec_bytes() == s.spec_bytes().subrange(start as int, s.spec_bytes().len() as int),
        r@ == decode_utf8(s.spec_bytes().subrange(start as int, s.spec_bytes().len() as int)),
{
    let (_skip, tail) = s.split_at(start);
    tail
}

/// `str::trim_start`: `s` without its leading Unicode whitespace.
pub fn trim_start_str(s: &str) -> (r: &str)
    ensures
        r@ == trim_start_chars(s@),
{
    let n = s.unicode_len();
    let mut k: usize = 0;
    while k < n && is_whitespace_char(s.get_char(k))
        invariant
            n == s@.len(),
            k <= n,
            forall|i: int| 0 <= i < k ==> is_white_space(#[trigger] s@[i]),
        decreases n - k,
    {
        k = k + 1;
    }
    proof {
        lemma_leading_ws_unique(s@, k as int);
    }
    s.substring_char(k, n)
}

/// `str::trim_end`: `s` without its trailing Unicode whitespace.
pub fn trim_end_str(s: &str) -> (r: &str)
    ensures
        r@ == trim_end_chars(s@),
{
    let n = s.unicode_len();
    let mut k: usize = 0;
    while k < n && is_whitespace_char(s.get_char(n - k - 1))
        invariant
            n == s@.len(),
            k <= n,
            forall|i: int| n - k <= i < n ==> is_white_space(#[trigger] s@[i]),
        decreases n - k,
    {
        k = k + 1;
    }
    proof {
        lemma_trailing_ws_unique(s@, k as int);
    }
    s.substring_char(0, n - k)
}

/// `str::trim`: `s` without leading and trailing Unicode whitespace.
pub fn trim_str(s: &str) -> (r: &str)
    ensures
        r@ == trim_chars(s@),
{
    let t = trim_start_str(s);
    trim_end_str(t)
}


/// `String::push`: appends one character.
#[verifier::external_body]
pub(crate) fn push_char(s: &mut String, c: char)
    ensures
        final(s)@ == old(s)@.push(c),
{
    s.push(c);
}

/// Character equality of two `str`s.
pub fn str_eq(a: &str, b: &str) -> (r: bool)
    ensures
        r == (a@ == b@),
{
    let x = a.to_owned();
    let y = b.to_owned();
    x == y
}

/// `str::starts_with` for a string pattern, which compares UTF-8 bytes.
pub fn starts_with(s: &str, p: &str) -> (r: bool)
    ensures
        r == (p.spec_bytes().len() <= s.spec_bytes().len() && s.spec_bytes().take(
            p.spec_bytes().len() as int,
        ) == p.spec_bytes()),
{
    let sb = s.as_bytes();
    let pb = p.as_bytes();
    if pb.len() > sb.len() {
        return false;
    }
    let mut i: usize = 0;
    while i < pb.len()
        invariant
            pb@ == p.spec_bytes(),
            sb@ == s.spec_bytes(),
            pb.len() <= sb.len(),
            i <= pb.len(),
            forall|j: int| 0 <= j < i ==> sb@[j] == pb@[j],
        decreases pb.len() - i,
    {
        if sb[i] != pb[i] {
            assert(s.spec_bytes().take(p.spec_bytes().len() as int)[i as int] != pb@[i as int]);
            return false;
        }
        i = i + 1;
    }
    assert(s.spec_bytes().take(p.spec_bytes().len() as int) =~= p.spec_bytes());
    true
}

/// The character of an ASCII decimal digit value.
pub open spec fn digit_char(d: nat) -> char {
    (d + 48) as char
}

/// Whether `c` is one of `0`..`9`.
pub open spec fn is_ascii_digit(c: char) -> bool {
    48 <= (c as u32) <= 57
}

/// The value of a string of ASCII decimal digits.
pub open spec fn digits_value(s: Seq<char>) -> nat
    decreases s.len(),
{
    if s.len() == 0 {
        0
    } else {
        digits_value(s.drop_last()) * 10 + ((s.last() as u32) - 48) as nat
    }
}

/// Whether every character of `s` is an ASCII digit.
pub open spec fn all_digits(s: Seq<char>) -> bool {
    forall|i: int| 0 <= i < s.len() ==> is_ascii_digit(#[trigger] s[i])
}

/// `str::parse::<u32>`: an optional `+` followed by at least one ASCII
/// digit, whose value fits in `u32`.
pub open spec fn parse_u32(s: Seq<char>) -> Option<u32> {
    let d = if s.len() > 0 && s[0] == '+' {
        s.drop_first()
    } else {
        s
    };
    if d.len() > 0 && all_digits(d) && digits_value(d) <= u32::MAX {
        Some(digits_value(d) as u32)
    } else {
        None
    }
}

/// Appending digits never lowers the value of a digit string.
proof fn lemma_digits_value_mono(s: Seq<char>, k: int)
    requires
        0 <= k <= s.len(),
        all_digits(s),
    ensures
        digits_value(s.take(k)) <= digits_value(s),
    decreases s.len() - k,
{
    if k < s.len() {
        lemma_digits_value_mono(s, k + 1);
        assert(s.take(k + 1).drop_last() == s.take(k));
        assert(is_ascii_digit(s[k]));
    } else {
        assert(s.take(k) == s);
    }
}

/// `str::parse::<u32>` on a decimal string.
pub fn parse_u32_decimal(s: &str) -> (r: Option<u32>)
    ensures
        r == parse_u32(s@),
{
    let n = s.unicode_len();
    let mut start: usize = 0;
    if n > 0 && s.get_char(0) == '+' {
        start = 1;
    }
    let ghost d = if s@.len() > 0 && s@[0] == '+' {
        s@.drop_first()
    } else {
        s@
    };
    assert(d == s@.skip(start as int));
    if start == n {
        return None;
    }
    let mut value: u64 = 0;
    let mut i: usize = start;
    while i < n
        invariant
            n == s@.len(),
            start <= i <= n,
            start < n,
            d == s@.skip(start as int),
            d == (if s@.len() > 0 && s@[0] == '+' {
                s@.drop_first()
            } else {
                s@
            }),
            all_digits(d.take(i - start)),
            value == digits_value(d.take(i - start)),
            value <= u32::MAX,
        decreases n - i,
    {
        let c = s.get_char(i);
        assert(d[i - start] == c);
        let u = c as u32;
        if u < 48 || u > 57 {
            assert(!is_ascii_digit(d[i - start]));
            assert(!all_digits(d));
            assert(parse_u32(s@) is None);
            return None;
        }
        let next = value * 10 + (u - 48) as u64;
        assert(d.take(i + 1 - start).drop_last() == d.take(i - start));
        assert(d.take(i + 1 - start).last() == c);
        assert(next == digits_value(d.take(i + 1 - start)));
        assert(all_digits(d.take(i + 1 - start))) by {
            assert forall|j: int| 0 <= j < i + 1 - start implies is_ascii_digit(
                #[trigger] d.take(i + 1 - start)[j],
            ) by {
                if j < i - start {
                    assert(d.take(i + 1 - start)[j] == d.take(i - start)[j]);
                }
            }
        }
        if next > 0xffff_ffff {
            proof {
                if all_digits(d) {
                    lemma_digits_value_mono(d, i + 1 - start);
                }
                assert(parse_u32(s@) is None);
            }
            return None;
        }
        value = next;
        i = i + 1;
    }
    assert(d.take(n - start) == d);
    Some(value as u32)
}

/// The decimal representation of `n`, without leading zeros.
pub open spec fn decimal(n: nat) -> Seq<char>
    decreases n,
{
    if n < 10 {
        seq![digit_char(n)]
    } else {
        decimal(n / 10).push(digit_char(n % 10))
    }
}

/// `n.to_string()`: the decimal representation of `n`.
pub fn usize_to_decimal(n: usize) -> (r: String)
    ensures
        r@ == decimal(n as nat),
{
    let mut digits: Vec<char> = Vec::new();
    let mut m: usize = n;
    while m >= 10
        invariant
            decimal(n as nat) == decimal(m as nat) + digits@,
        decreases m,
    {
        let c = (((m % 10) as u8) + 48) as char;
        assert(decimal(m as nat) == decimal((m / 10) as nat).push(digit_char((m % 10) as nat)));
        assert(c == digit_char((m % 10) as nat));
        let ghost before = digits@;
        digits.insert(0, c);
        assert(decimal(m as nat) + before =~= decimal((m / 10) as nat) + digits@) by {
            assert(digits@ =~= seq![c] + before);
        }
        m = m / 10;
    }
    let c0 = ((m as u8) + 48) as char;
    digits.insert(0, c0);
    assert(digits@ =~= decimal(n as nat));
    let mut r = String::new();
    let mut i: usize = 0;
    while i < digits.len()
        invariant
            i <= digits.len(),
            r@ == digits@.take(i as int),
        decreases digits.len() - i,
    {
        push_char(&mut r, digits[i]);
        assert(digits@.take(i + 1) =~= digits@.take(i as int).push(digits@[i as int]));
        i = i + 1;
    }
    assert(digits@.take(digits.len() as int) =~= digits@);
    r
}

/// The words of `s`: its maximal runs of non-whitespace characters, in
/// order (`str::split_whitespace`).
pub open spec fn split_ws(s: Seq<char>) -> Seq<Seq<char>>
    decreases s.len(),
{
    if s.len() == 0 {
        seq![]
    } else if is_white_space(s.last()) {
        split_ws(s.drop_last())
    } else {
        let prev = split_ws(s.drop_last());
        if s.len() >= 2 && !is_white_space(s[s.len() - 2]) {
            prev.update(prev.len() - 1, prev.last().push(s.last()))
        } else {
            prev.push(seq![s.last()])
        }
    }
}

/// Text that ends in a non-whitespace character has at least one word.
pub proof fn lemma_split_ws_nonempty(s: Seq<char>)
    requires
        s.len() > 0,
        !is_white_space(s.last()),
    ensures
        split_ws(s).len() > 0,
    decreases s.len(),
{
    if s.len() >= 2 && !is_white_space(s[s.len() - 2]) {
        assert(s.drop_last().last() == s[s.len() - 2]);
        lemma_split_ws_nonempty(s.drop_last());
    }
}

/// The views of a vector of strings.
pub open spec fn string_views(v: Seq<String>) -> Seq<Seq<char>> {
    v.map_values(|w: String| w@)
}

/// `s.split_whitespace()`, collected into owned words.
pub fn split_whitespace(s: &str) -> (r: Vec<String>)
    ensures
        string_views(r@) == split_ws(s@),
{
    let n = s.unicode_len();
    let mut words: Vec<String> = Vec::new();
    let mut cur = String::new();
    let mut in_word = false;
    let mut i: usize = 0;
    while i < n
        invariant
            n == s@.len(),
            i <= n,
            in_word == (cur@.len() > 0),
            cur@.len() > 0 <==> (i > 0 && !is_white_space(s@[i - 1])),
            (if cur@.len() > 0 {
                string_views(words@).push(cur@)
            } else {
                string_views(words@)
            }) == split_ws(s@.take(i as int)),
        decreases n - i,
    {
        let c = s.get_char(i);
        let ghost t = s@.take(i + 1);
        assert(t.drop_last() == s@.take(i as int));
        assert(t.last() == c);
        if is_whitespace_char(c) {
            assert(split_ws(t) == split_ws(s@.take(i as int)));
            if in_word {
                let ghost before = words@;
                let ghost cv = cur@;
                words.push(cur);
                cur = String::new();
                in_word = false;
                assert(string_views(words@) =~= string_views(before).push(cv));
            }
        } else {
            let ghost prev = split_ws(s@.take(i as int));
            let ghost in_word_before = in_word;
            let ghost views = string_views(words@);
            if i > 0 {
                assert(t[t.len() - 2] == s@[i - 1]);
            }
            if in_word {
                assert(prev == views.push(cur@));
                assert(split_ws(t) =~= views.push(cur@.push(c)));
            } else {
                assert(split_ws(t) =~= views.push(seq![c]));
            }
            let ghost old_cur = cur@;
            push_char(&mut cur, c);
            in_word = true;
            assert(!in_word_before ==> cur@ =~= seq![c]);
            assert(string_views(words@).push(cur@) == split_ws(t));
        }
        i = i + 1;
    }
    if in_word {
        let ghost before = words@;
        let ghost cv = cur@;
        words.push(cur);
        assert(string_views(words@) =~= string_views(before).push(cv));
    }
    assert(s@.take(n as int) == s@);
    words
}

/// The characters of `s`, in order (`s.chars().collect()`).
pub fn chars_of(s: &str) -> (r: Vec<char>)
    ensures
        r@ == s@,
{
    broadcast use {axiom_spec_iter, next_postcondition};
    let mut it = s.chars();
    let mut out: Vec<char> = Vec::new();
    loop
        invariant
            it.obeys_prophetic_iter_laws(),
            out@ + it.remaining() == s@,
        decreases s@.len() - out@.len(),
    {
        let ghost before = it.remaining();
        match it.next() {
            Some(c) => {
                out.push(c);
                assert(out@ + it.remaining() =~= s@) by {
                    assert(before =~= seq![c] + it.remaining());
                }
            },
            None => {
                assert(out@ =~= s@);
                return out;
            },
        }
    }
}

/// The length of the UTF-8 encoding that starts with `b`, read off the
/// leading byte.
pub open spec fn utf8_width(b: u8) -> int {
    if b < 0x80 {
        1
    } else if 0xc0 <= b <= 0xdf {
        2
    } else if 0xe0 <= b <= 0xef {
        3
    } else {
        4
    }
}

/// The length of the UTF-8 encoding that starts with `b`.
pub fn utf8_width_of(b: u8) -> (r: usize)
    ensures
        r == utf8_width(b),
{
    if b < 0x80 {
        1
    } else if 0xc0 <= b && b <= 0xdf {
        2
    } else if 0xe0 <= b && b <= 0xef {
        3
    } else {
        4
    }
}

/// At a char boundary, the next char boundary is one encoding width further.
pub proof fn lemma_next_boundary(b: Seq<u8>, i: int)
    requires
        valid_utf8(b),
        is_char_boundary(b, i),
        0 <= i < b.len(),
    ensures
        i + utf8_width(b[i]) <= b.len(),
        is_char_boundary(b, i + utf8_width(b[i])),
        forall|j: int| i < j < i + utf8_width(b[i]) ==> !is_char_boundary(b, j),
{
    let tail = b.subrange(i, b.len() as int);
    assert(valid_utf8(tail));
    assert(tail[0] == b[i]);
    assert(valid_first_scalar(tail));
    let w = length_of_first_scalar(tail);
    assert(w == utf8_width(b[i]));
    let rest = pop_first_scalar(tail);
    assert(valid_utf8(rest));
    assert forall|j: int| i < j < i + w implies !is_char_boundary(b, j) by {
        assert(tail[j - i] == b[j]);
        assert(is_continuation_byte(tail[j - i]));
    }
    if i + w < b.len() {
        assert(rest[0] == b[i + w]);
        assert(is_char_boundary(rest, 0));
        assert(!is_continuation_byte(rest[0]));
    }
}

/// The end of the encoding of a prefix is a char boundary of the encoding of
/// the whole text.
pub proof fn lemma_encode_prefix_boundary(a: Seq<char>, b: Seq<char>)
    ensures
        is_char_boundary(encode_utf8(a + b), encode_utf8(a).len() as int),
    decreases a.len(),
{
    lemma_encode_utf8_concat(a, b);
    if a.len() > 0 {
        let ab = a + b;
        lemma_encode_prefix_boundary(a.drop_first(), b);
        assert(ab.drop_first() == a.drop_first() + b);
        encode_utf8_first_scalar(ab);
        assert(ab[0] == a[0]);
        let e = encode_utf8(ab);
        assert(pop_first_scalar(e) =~= encode_utf8(ab.drop_first()));
        lemma_encode_utf8_concat(a.drop_first(), b);
        assert(encode_utf8(a).len() == encode_scalar(a[0] as u32).len() + encode_utf8(a.drop_first()).len());
        char_is_scalar(a[0]);
        assert(encode_scalar(a[0] as u32).len() > 0);
    }
}

/// The byte offset of char index `k` of `s` is a char boundary.
pub proof fn lemma_char_index_boundary(s: Seq<char>, k: int)
    requires
        0 <= k <= s.len(),
    ensures
        is_char_boundary(encode_utf8(s), encode_utf8(s.take(k)).len() as int),
        encode_utf8(s) == encode_utf8(s.take(k)) + encode_utf8(s.skip(k)),
{
    assert(s == s.take(k) + s.skip(k));
    lemma_encode_prefix_boundary(s.take(k), s.skip(k));
    lemma_encode_utf8_concat(s.take(k), s.skip(k));
}

/// Whether `s` ends with `p`.
pub open spec fn has_suffix(s: Seq<char>, p: Seq<char>) -> bool {
    p.len() <= s.len() && s.subrange(s.len() - p.len(), s.len() as int) == p
}

/// Whether `p` occurs in `s` at `i`.
pub open spec fn occurs_at(s: Seq<char>, p: Seq<char>, i: int) -> bool {
    0 <= i && i + p.len() <= s.len() && s.subrange(i, i + p.len()) == p
}

/// Whether `p` occurs somewhere in `s`.
pub open spec fn occurs_in(s: Seq<char>, p: Seq<char>) -> bool {
    exists|i: int| #[trigger] occurs_at(s, p, i)
}

/// Whether `a` from position `i` starts with `p`.
fn chars_match_at(a: &Vec<char>, p: &Vec<char>, i: usize) -> (r: bool)
    requires
        i + p@.len() <= a@.len(),
    ensures
        r == (a@.subrange(i as int, i + p@.len()) == p@),
{
    let n = a.len();
    let mut j: usize = 0;
    while j < p.len()
        invariant
            n == a@.len(),
            i + p@.len() <= a@.len(),
            j <= p@.len(),
            forall|k: int| 0 <= k < j ==> a@[i + k] == p@[k],
        decreases p@.len() - j,
    {
        if a[i + j] != p[j] {
            assert(a@.subrange(i as int, i + p@.len())[j as int] != p@[j as int]);
            return false;
        }
        j = j + 1;
    }
    assert(a@.subrange(i as int, i + p@.len()) =~= p@);
    true
}

/// `str::ends_with` for a string pattern.
pub fn ends_with_str(s: &str, p: &str) -> (r: bool)
    ensures
        r == has_suffix(s@, p@),
{
    let a = chars_of(s);
    let b = chars_of(p);
    if b.len() > a.len() {
        return false;
    }
    chars_match_at(&a, &b, a.len() - b.len())
}

/// `str::contains` for a string pattern.
pub fn contains_str(s: &str, p: &str) -> (r: bool)
    ensures
        r == occurs_in(s@, p@),
{
    let a = chars_of(s);
    let b = chars_of(p);
    if b.len() > a.len() {
        assert forall|i: int| !occurs_at(s@, p@, i) by {}
        return false;
    }
    let last = a.len() - b.len();
    let mut i: usize = 0;
    loop
        invariant
            a@ == s@,
            b@ == p@,
            last == a@.len() - b@.len(),
            b@.len() <= a@.len(),
            i <= last,
            forall|k: int| 0 <= k < i ==> !#[trigger] occurs_at(s@, p@, k),
        decreases last - i,
    {
        if chars_match_at(&a, &b, i) {
            assert(occurs_at(s@, p@, i as int));
            return true;
        }
        if i == last {
            assert forall|k: int| !#[trigger] occurs_at(s@, p@, k) by {
                if 0 <= k <= last {
                    assert(k < i || k == i);
                }
            }
            return false;
        }
        i = i + 1;
    }
}

} // verus!
