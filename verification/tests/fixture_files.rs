use datatest_mini::files::{collect_matching_files, make_test_name, FixtureFile, TestEntry};
use datatest_mini::pattern::Pattern;

fn file(components: &[&str]) -> FixtureFile {
    FixtureFile {
        components: components.iter().map(|s| s.to_string()).collect(),
        keys: components.iter().map(|s| s.as_bytes().to_vec()).collect(),
        path: format!("/work/tests/fixtures/{}", components.join("/")),
    }
}

fn compile(p: &str) -> Pattern {
    match Pattern::compile(p) {
        Ok(p) => p,
        Err(e) => panic!("{}", e.describe()),
    }
}

#[test]
fn test_names_replace_separators_dashes_and_dots() {
    assert_eq!(make_test_name("sub/test-1.txt", '/'), "sub_test_1_txt");
    assert_eq!(make_test_name("a\\b.c", '\\'), "a_b_c");
    assert_eq!(make_test_name("plain", '/'), "plain");
}

#[test]
fn invalid_pattern_is_reported() {
    match Pattern::compile("foo(bar") {
        Ok(_) => panic!("pattern should not compile"),
        Err(e) => {
            assert_eq!(e.pattern, "foo(bar");
            assert_eq!(e.message, regex::Regex::new("foo(bar").unwrap_err().to_string());
            assert!(e.describe().starts_with("invalid pattern 'foo(bar': "));
        }
    }
}

#[test]
fn pattern_matches_relative_paths() {
    let p = compile(r"^test_[^/]+\.txt$");
    assert_eq!(p.source(), r"^test_[^/]+\.txt$");
    assert!(p.is_match("test_a.txt"));
    assert!(!p.is_match("sub/test_a.txt"));
    assert!(!p.is_match("other.txt"));
    let q = compile(r"\.wado$");
    assert!(q.is_match("deep/dir/x.wado"));
}

#[test]
fn files_are_collected_in_path_order() {
    let files = vec![
        file(&["b.txt"]),
        file(&["a.txt"]),
        file(&["a", "z.txt"]),
        file(&["a-b.txt"]),
        file(&["c.md"]),
    ];
    let p = compile(r"\.txt$");
    let mut tests: Vec<TestEntry> = Vec::new();
    collect_matching_files(&files, '/', &p, "run_test", false, &None, &None, &mut tests);
    let names: Vec<&str> = tests.iter().map(|t| t.test_name.as_str()).collect();
    // "a" < "a-b.txt" < "a.txt" < "b.txt" component by component.
    assert_eq!(names, vec!["a_z_txt", "a_b_txt", "a_txt", "b_txt"]);
    assert_eq!(tests[0].path, "/work/tests/fixtures/a/z.txt");
    assert!(tests.iter().all(|t| t.module_name == "run_test" && t.test_fn == "run_test"));
}

#[test]
fn collected_tests_carry_the_entry_settings() {
    let files = vec![file(&["test_one.txt"])];
    let p = compile(r"^test_[^/]+\.txt$");
    let mut tests: Vec<TestEntry> = Vec::new();
    collect_matching_files(
        &files,
        '/',
        &p,
        "run_async",
        true,
        &Some("tokio::test".to_string()),
        &Some("set CI to run".to_string()),
        &mut tests,
    );
    assert_eq!(tests.len(), 1);
    assert!(tests[0].is_async);
    assert_eq!(tests[0].attr, Some("tokio::test".to_string()));
    assert_eq!(tests[0].ignore_reason, Some("set CI to run".to_string()));
    assert_eq!(tests[0].test_name, "test_one_txt");
}

#[test]
fn nothing_matches_nothing_is_added() {
    let files = vec![file(&["x.md"])];
    let p = compile(r"\.txt$");
    let mut tests: Vec<TestEntry> = Vec::new();
    collect_matching_files(&files, '/', &p, "t", false, &None, &None, &mut tests);
    assert!(tests.is_empty());
}

#[test]
fn files_are_ordered_by_the_bytes_of_their_names() {
    // Two names whose strings agree (both read as the replacement character)
    // but whose bytes differ are ordered by their bytes.
    let mk = |key: Vec<u8>, path: &str| FixtureFile {
        components: vec!["\u{fffd}.txt".to_string()],
        keys: vec![key],
        path: path.to_string(),
    };
    let files = vec![mk(vec![0xff, b'.', b't', b'x', b't'], "/second"), mk(vec![0xfe, b'.', b't', b'x', b't'], "/first")];
    let p = compile(r"\.txt$");
    let mut tests: Vec<TestEntry> = Vec::new();
    collect_matching_files(&files, '/', &p, "t", false, &None, &None, &mut tests);
    assert_eq!(tests.len(), 2);
    assert_eq!(tests[0].path, "/first");
    assert_eq!(tests[1].path, "/second");
    assert_eq!(tests[0].test_name, "\u{fffd}_txt");
}
