use datatest_mini::entry::HarnessEntry;
use datatest_mini::files::{FixtureFile, TestEntry};
use datatest_mini::generate::generate_test_functions;
use datatest_mini::harness::add_entry_tests;
use datatest_mini::pattern::Pattern;
use datatest_mini::tokens::{Delimiter, OutTree, Spacing};

fn render(ts: &[OutTree]) -> String {
    let mut out = String::new();
    for t in ts {
        match t {
            OutTree::Group(d, inner) => {
                let (open, close) = match d {
                    Delimiter::Parenthesis => ("(", ")"),
                    Delimiter::Brace => ("{", "}"),
                    Delimiter::Bracket => ("[", "]"),
                    Delimiter::Invisible => ("", ""),
                };
                out.push_str(open);
                out.push_str(&render(inner));
                out.push_str(close);
                out.push(' ');
            }
            OutTree::Ident(s) => {
                out.push_str(s);
                out.push(' ');
            }
            OutTree::Punct(c, Spacing::Joint) => out.push(*c),
            OutTree::Punct(c, Spacing::Alone) => {
                out.push(*c);
                out.push(' ');
            }
            OutTree::Str(s) => {
                out.push_str(&format!("{:?} ", s));
            }
            OutTree::Source(s) => {
                out.push_str(&format!("<{}> ", s));
            }
        }
    }
    out
}

fn test_entry(module: &str, name: &str, is_async: bool, attr: Option<&str>, reason: Option<&str>) -> TestEntry {
    TestEntry {
        module_name: module.to_string(),
        test_name: name.to_string(),
        path: format!("/p/{}", name),
        test_fn: module.to_string(),
        is_async,
        attr: attr.map(|s| s.to_string()),
        ignore_reason: reason.map(|s| s.to_string()),
    }
}

#[test]
fn sync_test_function() {
    let out = generate_test_functions(&vec![test_entry("run_test", "a_txt", false, None, None)]);
    assert_eq!(
        render(&out),
        "mod run_test {# [<test> ] fn a_txt () {let __content = std :: fs :: read_to_string (\"/p/a_txt\" ) . expect (\"failed to read fixture file: /p/a_txt\" ) ; super :: run_test (std :: path :: Path :: new (\"/p/a_txt\" ) , & __content ) . unwrap () ; } } "
    );
}

#[test]
fn async_ignored_test_function() {
    let out = generate_test_functions(&vec![test_entry("run_async", "a_txt", true, None, Some("unset CI to run"))]);
    let s = render(&out);
    assert!(s.starts_with("mod run_async {# [<tokio::test> ] # [ignore = \"unset CI to run\" ] async fn a_txt () {"));
    assert!(s.contains(". await . unwrap () ;"));
}

#[test]
fn custom_attribute_replaces_the_default() {
    let out = generate_test_functions(&vec![test_entry("t", "x", false, Some("googletest::test"), None)]);
    assert!(render(&out).starts_with("mod t {# [<googletest::test> ] fn x () {"));
}

#[test]
fn modules_in_string_order_with_tests_in_order() {
    let tests = vec![
        test_entry("zeta", "one", false, None, None),
        test_entry("alpha", "two", false, None, None),
        test_entry("zeta", "three", false, None, None),
        test_entry("alpha", "four", false, None, None),
    ];
    let out = generate_test_functions(&tests);
    assert_eq!(out.len(), 6);
    let s = render(&out);
    let alpha = s.find("mod alpha").unwrap();
    let zeta = s.find("mod zeta").unwrap();
    assert!(alpha < zeta);
    assert!(s.find("fn two").unwrap() < s.find("fn four").unwrap());
    assert!(s.find("fn one").unwrap() < s.find("fn three").unwrap());
    assert!(zeta < s.find("fn one").unwrap());
    assert_eq!(s.matches(" fn ").count() + usize::from(s.starts_with("fn ")), 4);
}

#[test]
fn empty_module_name_gives_bare_functions() {
    let out = generate_test_functions(&vec![test_entry("", "x", false, None, None)]);
    assert!(render(&out).starts_with("# [<test> ] fn x () {"));
}

#[test]
fn no_tests_no_tokens() {
    assert!(generate_test_functions(&vec![]).is_empty());
}

#[test]
fn entry_tests_from_end_to_end() {
    let entry = HarnessEntry {
        test_fn: "ignore_if_set".to_string(),
        root: "tests/fixtures".to_string(),
        pattern: r"^test_[^/]+\.txt$".to_string(),
        is_async: false,
        attr: None,
        ignore_if_env: vec!["CARGO_MANIFEST_DIR".to_string()],
        ignore_unless_env: vec![],
    };
    let pattern = match Pattern::compile(&entry.pattern) {
        Ok(p) => p,
        Err(e) => panic!("{}", e.describe()),
    };
    let files = vec![
        FixtureFile { components: vec!["test_b.txt".to_string()], keys: vec![b"test_b.txt".to_vec()], path: "/f/test_b.txt".to_string() },
        FixtureFile { components: vec!["test_a.txt".to_string()], keys: vec![b"test_a.txt".to_vec()], path: "/f/test_a.txt".to_string() },
        FixtureFile { components: vec!["notes.md".to_string()], keys: vec![b"notes.md".to_vec()], path: "/f/notes.md".to_string() },
    ];
    let mut tests = Vec::new();
    add_entry_tests(&entry, &pattern, &vec![true], &vec![], &files, '/', &mut tests);
    assert_eq!(tests.len(), 2);
    assert_eq!(tests[0].test_name, "test_a_txt");
    assert_eq!(tests[1].test_name, "test_b_txt");
    assert_eq!(tests[0].ignore_reason, Some("unset CARGO_MANIFEST_DIR to run".to_string()));
    let out = generate_test_functions(&tests);
    let s = render(&out);
    assert_eq!(s.matches("# [ignore = \"unset CARGO_MANIFEST_DIR to run\" ]").count(), 2);
}
