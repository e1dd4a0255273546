use datatest_mini::ignore::compute_ignore_reason;

fn names(v: &[&str]) -> Vec<String> {
    v.iter().map(|s| s.to_string()).collect()
}

#[test]
fn no_lists_run_the_tests() {
    assert_eq!(compute_ignore_reason(&vec![], &vec![], &vec![], &vec![]), None);
}

#[test]
fn ignore_if_env_with_a_set_var_ignores() {
    let r = compute_ignore_reason(&names(&["CARGO_MANIFEST_DIR"]), &vec![true], &vec![], &vec![]);
    assert_eq!(r, Some("unset CARGO_MANIFEST_DIR to run".to_string()));
}

#[test]
fn ignore_if_env_with_an_unset_var_runs() {
    let r = compute_ignore_reason(&names(&["DATATEST_MINI_NEVER_SET"]), &vec![false], &vec![], &vec![]);
    assert_eq!(r, None);
}

#[test]
fn ignore_unless_env_with_an_unset_var_ignores() {
    let r = compute_ignore_reason(&vec![], &vec![], &names(&["DATATEST_MINI_NEVER_SET"]), &vec![false]);
    assert_eq!(r, Some("set DATATEST_MINI_NEVER_SET to run".to_string()));
}

#[test]
fn ignore_unless_env_with_a_set_var_runs() {
    let r = compute_ignore_reason(&vec![], &vec![], &names(&["CARGO_MANIFEST_DIR"]), &vec![true]);
    assert_eq!(r, None);
}

#[test]
fn ignore_if_env_array_names_only_the_set_vars() {
    let r = compute_ignore_reason(
        &names(&["DATATEST_MINI_NEVER_SET", "CARGO_MANIFEST_DIR", "CI"]),
        &vec![false, true, true],
        &vec![],
        &vec![],
    );
    assert_eq!(r, Some("unset CARGO_MANIFEST_DIR/CI to run".to_string()));
}

#[test]
fn ignore_unless_env_array_with_one_set_runs() {
    let r = compute_ignore_reason(
        &vec![],
        &vec![],
        &names(&["DATATEST_MINI_NEVER_SET", "CARGO_MANIFEST_DIR"]),
        &vec![false, true],
    );
    assert_eq!(r, None);
}

#[test]
fn both_reasons_are_joined() {
    let r = compute_ignore_reason(&names(&["A"]), &vec![true], &names(&["B", "C"]), &vec![false, false]);
    assert_eq!(r, Some("unset A to run; set B/C to run".to_string()));
}
