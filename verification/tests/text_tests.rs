use parser::text;

fn s(x: &str) -> String {
    x.to_string()
}

#[test]
fn trims_whitespace() {
    assert_eq!(text::trim_start_str("  \t local x"), "local x");
    assert_eq!(text::trim_str("  -- note \r\n"), "-- note");
    assert_eq!(text::trim_str("\u{3000}x\u{00A0}"), "x");
    assert_eq!(text::trim_str(""), "");
}

#[test]
fn replaces_left_to_right() {
    assert_eq!(text::replace_str("@/lua/ge/main.lua", "@/", ""), "lua/ge/main.lua");
    assert_eq!(text::replace_str("aaa", "aa", "b"), "ba");
    assert_eq!(text::replace_str("core.vehicles.spawn", ".", "/"), "core/vehicles/spawn");
    assert_eq!(text::replace_str("none here", "@", ""), "none here");
}

#[test]
fn finds_prefixes_and_substrings() {
    assert!(text::starts_with_str("function foo()", "function"));
    assert!(!text::starts_with_str("func", "function"));
    assert!(text::contains_str("[C]:-1", "[C]"));
    assert!(!text::contains_str("lua/x.lua", "[C]"));
    assert!(text::contains_str("abc", ""));
}

#[test]
fn splits_lines_as_std_does() {
    let cases = ["", "a", "a\n", "a\r\nb", "a\n\nb\n", "x\r", "\n", "a\rb\n"];
    for c in cases {
        let expect: Vec<String> = c.lines().map(|l| l.to_string()).collect();
        assert_eq!(text::lines_of(c), expect, "{:?}", c);
    }
}

#[test]
fn splits_on_a_character() {
    assert_eq!(text::split_char_str("GE/core/x", '/'), vec![s("GE"), s("core"), s("x")]);
    assert_eq!(text::split_char_str("", '/'), vec![s("")]);
    assert_eq!(text::split_char_str("a/", '/'), vec![s("a"), s("")]);
}

#[test]
fn trims_one_character() {
    assert_eq!(text::trim_char_str("//GE/core//", '/'), "GE/core");
    assert_eq!(text::trim_end_char_str("/GE/core//", '/'), "/GE/core");
    assert_eq!(text::trim_char_str("///", '/'), "");
}

#[test]
fn formats_numbers() {
    assert_eq!(text::usize_decimal(0), "0");
    assert_eq!(text::usize_decimal(120), "120");
    assert_eq!(text::usize_decimal(usize::MAX), usize::MAX.to_string());
    assert_eq!(text::isize_decimal(-7), "-7");
    assert_eq!(text::isize_decimal(isize::MIN), isize::MIN.to_string());
}

#[test]
fn joins_strings() {
    assert_eq!(text::join_strings(&[s("a"), s("b"), s("c")], " / "), "a / b / c");
    assert_eq!(text::join_strings(&[], "\n"), "");
    assert_eq!(text::join_strings(&[s("x")], "\n"), "x");
}

#[test]
fn lowers_ascii_only() {
    assert_eq!(text::ascii_lowercase_str("AbC_Ünï"), "abc_Ünï");
}

#[test]
fn orders_by_code_point() {
    let a: Vec<char> = "abc".chars().collect();
    let b: Vec<char> = "abd".chars().collect();
    let c: Vec<char> = "ab".chars().collect();
    assert!(text::lex_le_chars(&a, &b));
    assert!(!text::lex_le_chars(&b, &a));
    assert!(text::lex_le_chars(&c, &a));
    assert!(text::lex_le_chars(&a, &a));
}
