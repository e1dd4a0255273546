use datatest_mini::entry::{
    entry_readable, env_list_readable, harness_input_readable, parse_env_list,
    parse_harness_entries, parse_single_entry,
};
use datatest_mini::tokens::{Delimiter, TokenTree};

fn ident(s: &str) -> TokenTree {
    TokenTree::Ident(s.to_string())
}

fn punct(c: char) -> TokenTree {
    TokenTree::Punct(c)
}

fn lit(s: &str) -> TokenTree {
    TokenTree::Literal(format!("{:?}", s))
}

fn raw(s: &str) -> TokenTree {
    TokenTree::Literal(format!("r#\"{}\"#", s))
}

fn key_value(out: &mut Vec<TokenTree>, key: &str, value: TokenTree) {
    out.push(ident(key));
    out.push(punct('='));
    out.push(value);
    out.push(punct(','));
}

fn basic_entry(test_fn: &str) -> Vec<TokenTree> {
    let mut v = Vec::new();
    key_value(&mut v, "test", ident(test_fn));
    key_value(&mut v, "root", lit("tests/fixtures"));
    key_value(&mut v, "pattern", TokenTree::Literal("r\"^[^/]+\\.txt$\"".to_string()));
    v
}

#[test]
fn single_literal_env_list() {
    let t = lit("CI");
    assert_eq!(parse_env_list(Some(&t)), vec!["CI".to_string()]);
}

#[test]
fn bracketed_env_list_keeps_the_literals() {
    let t = TokenTree::Group(Delimiter::Bracket, vec![lit("CI"), punct(','), lit("WADO_FULL_TEST")]);
    assert_eq!(parse_env_list(Some(&t)), vec!["CI".to_string(), "WADO_FULL_TEST".to_string()]);
}

#[test]
fn other_env_list_values_give_no_names() {
    let t = ident("CI");
    assert!(parse_env_list(Some(&t)).is_empty());
    let g = TokenTree::Group(Delimiter::Parenthesis, vec![lit("CI")]);
    assert!(parse_env_list(Some(&g)).is_empty());
    assert!(parse_env_list(None).is_empty());
    assert!(env_list_readable(None));
    let bad = TokenTree::Group(Delimiter::Bracket, vec![TokenTree::Literal("r#".to_string())]);
    assert!(!env_list_readable(Some(&bad)));
}

#[test]
fn entry_with_required_keys() {
    let e = parse_single_entry(&basic_entry("run_test")).unwrap();
    assert_eq!(e.test_fn, "run_test");
    assert_eq!(e.root, "tests/fixtures");
    assert_eq!(e.pattern, "^[^/]+\\.txt$");
    assert!(!e.is_async);
    assert_eq!(e.attr, None);
    assert!(e.ignore_if_env.is_empty());
    assert!(e.ignore_unless_env.is_empty());
}

#[test]
fn entry_without_pattern_is_dropped() {
    let mut v = Vec::new();
    key_value(&mut v, "test", ident("run_test"));
    key_value(&mut v, "root", lit("tests/fixtures"));
    assert!(parse_single_entry(&v).is_none());
}

#[test]
fn bare_async_flag() {
    let mut v = basic_entry("run_async_fixture");
    v.push(ident("async"));
    let e = parse_single_entry(&v).unwrap();
    assert!(e.is_async);
    assert_eq!(e.attr, None);
}

#[test]
fn async_with_custom_attribute() {
    let mut v = basic_entry("run_async_fixture_mt");
    v.push(ident("async"));
    v.push(punct(','));
    key_value(&mut v, "attr", raw("tokio::test(flavor = \"multi_thread\")"));
    let e = parse_single_entry(&v).unwrap();
    assert!(e.is_async);
    assert_eq!(e.attr, Some("tokio::test(flavor = \"multi_thread\")".to_string()));
}

#[test]
fn async_assigned_an_attribute() {
    let mut v = basic_entry("t");
    v.push(ident("async"));
    v.push(punct('='));
    v.push(lit("googletest::test"));
    let e = parse_single_entry(&v).unwrap();
    assert!(e.is_async);
    assert_eq!(e.attr, Some("googletest::test".to_string()));
}

#[test]
fn ignore_lists_are_read() {
    let mut v = basic_entry("slow_test");
    key_value(
        &mut v,
        "ignore_unless_env",
        TokenTree::Group(Delimiter::Bracket, vec![lit("CI"), punct(','), lit("WADO_FULL_TEST")]),
    );
    key_value(&mut v, "ignore_if_env", lit("DATATEST_MINI_SKIP"));
    let e = parse_single_entry(&v).unwrap();
    assert_eq!(e.ignore_unless_env, vec!["CI".to_string(), "WADO_FULL_TEST".to_string()]);
    assert_eq!(e.ignore_if_env, vec!["DATATEST_MINI_SKIP".to_string()]);
}

#[test]
fn unknown_keys_and_stray_tokens_are_skipped_and_later_keys_win() {
    let mut v = vec![lit("stray"), punct(';')];
    key_value(&mut v, "colour", lit("blue"));
    v.extend(basic_entry("first"));
    key_value(&mut v, "test", ident("second"));
    let e = parse_single_entry(&v).unwrap();
    assert_eq!(e.test_fn, "second");
}

#[test]
fn key_followed_by_other_punctuation_is_dropped() {
    let mut v = basic_entry("run_test");
    v.push(ident("root"));
    v.push(punct(':'));
    v.push(lit("elsewhere"));
    let e = parse_single_entry(&v).unwrap();
    assert_eq!(e.root, "tests/fixtures");
}

#[test]
fn value_of_wrong_kind_is_not_kept() {
    let mut v = basic_entry("run_test");
    key_value(&mut v, "test", lit("not_an_ident"));
    let e = parse_single_entry(&v).unwrap();
    assert_eq!(e.test_fn, "run_test");
}

#[test]
fn entries_of_the_input() {
    let input = vec![
        TokenTree::Group(Delimiter::Brace, basic_entry("test_parsing")),
        punct(','),
        TokenTree::Group(Delimiter::Brace, basic_entry("test_codegen")),
        punct(','),
        TokenTree::Group(Delimiter::Brace, vec![ident("async")]),
        TokenTree::Group(Delimiter::Parenthesis, basic_entry("not_braced")),
    ];
    assert!(harness_input_readable(&input));
    let es = parse_harness_entries(&input);
    assert_eq!(es.len(), 2);
    assert_eq!(es[0].test_fn, "test_parsing");
    assert_eq!(es[1].test_fn, "test_codegen");
}

#[test]
fn unreadable_literal_in_an_entry_is_detected() {
    let mut v = basic_entry("t");
    key_value(&mut v, "root", TokenTree::Literal("r#x#".to_string()));
    assert!(!entry_readable(&v));
    let input = vec![TokenTree::Group(Delimiter::Brace, v)];
    assert!(!harness_input_readable(&input));
    // A literal that is never read does not matter.
    let mut w = basic_entry("t");
    key_value(&mut w, "colour", TokenTree::Literal("r#x#".to_string()));
    assert!(entry_readable(&w));
}

#[test]
fn plain_attr_literal_gives_its_value() {
    let mut v = basic_entry("run_async_fixture_mt");
    v.push(ident("async"));
    v.push(punct(','));
    key_value(&mut v, "attr", lit("tokio::test(flavor = \"multi_thread\")"));
    let e = parse_single_entry(&v).unwrap();
    assert_eq!(e.attr, Some("tokio::test(flavor = \"multi_thread\")".to_string()));
}
