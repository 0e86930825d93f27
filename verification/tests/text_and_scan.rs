use fiasco_lsp_proxy::global_state::Direction;
use fiasco_lsp_proxy::preprocess::scan::{
    contains_token, extract_attributes, extract_function_suffix, extract_method_suffix,
    find_attribute_macro, find_byte, find_double_close, find_keyword, find_last_parameter_close,
    find_matching_paren, find_top_level_char, is_identifier_char, skip_quoted,
};
use fiasco_lsp_proxy::text::{
    chars_of, contains_str, ends_with_str, is_whitespace_char, parse_u32_decimal, split_whitespace,
    starts_with, str_eq, str_slice, str_suffix, trim_end_str, trim_start_str, trim_str,
    usize_to_decimal, utf8_width_of,
};

#[test]
fn direction_reverse_is_opposite() {
    assert_eq!(Direction::ToServer.reverse(), Direction::FromServer);
    assert_eq!(Direction::FromServer.reverse(), Direction::ToServer);
}

#[test]
fn direction_reverse_twice_is_identity() {
    for d in [Direction::ToServer, Direction::FromServer] {
        assert_eq!(d.reverse().reverse(), d);
    }
}

#[test]
fn direction_log_tags() {
    assert_eq!(Direction::ToServer.to_lsp_log(), 1);
    assert_eq!(Direction::FromServer.to_lsp_log(), 2);
}

#[test]
fn trimming() {
    assert_eq!(trim_str("  a b \t\n"), "a b");
    assert_eq!(trim_start_str("\u{3000} x "), "x ");
    assert_eq!(trim_end_str(" x \u{2003}"), " x");
    assert_eq!(trim_str(""), "");
    assert_eq!(trim_str(" \n "), "");
    assert!(is_whitespace_char('\u{85}'));
    assert!(!is_whitespace_char('x'));
}

#[test]
fn decimal_numbers() {
    assert_eq!(parse_u32_decimal("42"), Some(42));
    assert_eq!(parse_u32_decimal("+7"), Some(7));
    assert_eq!(parse_u32_decimal("4294967295"), Some(u32::MAX));
    assert_eq!(parse_u32_decimal("4294967296"), None);
    assert_eq!(parse_u32_decimal(""), None);
    assert_eq!(parse_u32_decimal("+"), None);
    assert_eq!(parse_u32_decimal("-1"), None);
    assert_eq!(parse_u32_decimal("1a"), None);
    assert_eq!(usize_to_decimal(0), "0");
    assert_eq!(usize_to_decimal(1907), "1907");
}

#[test]
fn words_and_chars() {
    assert_eq!(split_whitespace("  a bb\tc \n"), vec!["a", "bb", "c"]);
    assert!(split_whitespace("   ").is_empty());
    assert_eq!(chars_of("aé"), vec!['a', 'é']);
    assert_eq!(utf8_width_of(b'a'), 1);
    assert_eq!(utf8_width_of(0xc3), 2);
    assert_eq!(utf8_width_of(0xe2), 3);
    assert_eq!(utf8_width_of(0xf0), 4);
}

#[test]
fn string_comparisons() {
    assert!(str_eq("abc", "abc"));
    assert!(!str_eq("abc", "abd"));
    assert!(starts_with("#include <x>", "#include"));
    assert!(!starts_with("#inc", "#include"));
    assert!(ends_with_str("= default;", "default;"));
    assert!(!ends_with_str("default", "default;"));
    assert!(contains_str("struct Foo", "struct"));
    assert!(contains_str("abc", ""));
    assert!(!contains_str("clas", "class"));
    assert_eq!(str_slice("héllo", 1, 3), "é");
    assert_eq!(str_suffix("héllo", 3), "llo");
}

#[test]
fn quoted_strings_are_skipped() {
    assert_eq!(skip_quoted("\"ab\" c", 0, b'"'), Some(4));
    assert_eq!(skip_quoted("\"a\\\"b\" c", 0, b'"'), Some(6));
    assert_eq!(skip_quoted("'x", 0, b'\''), None);
    assert_eq!(skip_quoted("\"ab\"", 4, b'"'), None);
    assert_eq!(skip_quoted("\"ab\"", 9, b'"'), None);
}

#[test]
fn matching_parentheses() {
    assert_eq!(find_matching_paren("f(a, (b), \")\") x", 1), Some(13));
    assert_eq!(find_matching_paren("f(a", 1), None);
    assert_eq!(find_matching_paren("f(a)", 0), None);
    assert_eq!(find_double_close("[[nodiscard]] int", 2), Some(13));
    assert_eq!(find_double_close("[[x]", 2), None);
}

#[test]
fn parameter_lists() {
    assert_eq!(find_last_parameter_close("int f(int a) const"), Some(11));
    assert_eq!(find_last_parameter_close("void g(void (*h)(int)) {}"), Some(21));
    assert_eq!(find_last_parameter_close("x)"), None);
    assert_eq!(find_last_parameter_close("no parens"), None);
}

#[test]
fn top_level_characters() {
    assert_eq!(find_top_level_char(" const { }", '{'), Some(7));
    assert_eq!(find_top_level_char(" noexcept(a<{b}>) {", '{'), Some(18));
    assert_eq!(find_top_level_char(" const", '{'), None);
    assert_eq!(find_byte("ab{c", b'{'), Some(2));
    assert_eq!(find_byte("abc", b'{'), None);
}

#[test]
fn whole_word_keywords() {
    assert_eq!(find_keyword("static inline int", "inline"), Some(7));
    assert_eq!(find_keyword("noinline int", "inline"), None);
    assert_eq!(find_keyword("inline_x inline", "inline"), Some(9));
    assert!(contains_token("extern \"C\" int f()", "extern \"C\""));
    assert!(!contains_token("constexpr_like", "constexpr"));
    assert!(is_identifier_char(b'_'));
    assert!(!is_identifier_char(b'-'));
}

#[test]
fn attributes_are_found_in_order() {
    assert_eq!(find_attribute_macro("__attribute__ ((used)) int", "__attribute__"), Some(22));
    assert_eq!(find_attribute_macro("attribute x", "attribute"), None);
    let attrs = extract_attributes("[[nodiscard]] static __attribute__((noinline)) int f()");
    let texts: Vec<String> = attrs.into_iter().map(|a| a.source).collect();
    assert_eq!(texts, vec!["[[nodiscard]]", "__attribute__((noinline))"]);
    assert!(extract_attributes("int f()").is_empty());
}

#[test]
fn suffixes_after_parameters() {
    assert_eq!(extract_function_suffix("int f(int a) const noexcept { return a; }"), "const noexcept");
    assert_eq!(extract_function_suffix("int f(int a) override;"), "override");
    assert_eq!(extract_function_suffix("int x"), "");
    assert_eq!(extract_method_suffix("Foo::Foo() = default;"), "=");
    assert_eq!(extract_method_suffix("void Foo::f() const\n{ }"), "const");
    assert_eq!(extract_method_suffix("void Foo::g() = delete;"), "=");
}
