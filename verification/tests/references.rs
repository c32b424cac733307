use typescript_tools::link::{
    create_project_references, reconcile, reference_paths, references_match, Reconciliation,
};
use typescript_tools::opts::Action;
use typescript_tools::path_order::path_precedes;
use typescript_tools::sorting::sort_paths;
use typescript_tools::typescript_config::TypescriptProjectReference;

fn strings(items: &[&str]) -> Vec<String> {
    items.iter().map(|item| item.to_string()).collect()
}

fn references(paths: &[&str]) -> Vec<TypescriptProjectReference> {
    paths.iter().map(|path| TypescriptProjectReference { path: path.to_string() }).collect()
}

#[test]
fn references_are_sorted_by_path() {
    let created = create_project_references(strings(&["b", "a", "c"]));
    assert_eq!(created, references(&["a", "b", "c"]));
}

#[test]
fn references_are_sorted_by_bytes() {
    let created = create_project_references(strings(&["b", "a", "B", "aa", "", "a-b", "a/b", "é", "z"]));
    assert_eq!(reference_paths(&created), strings(&["", "B", "a", "a-b", "a/b", "aa", "b", "z", "é"]));
}

#[test]
fn sorting_agrees_with_the_order_of_strings() {
    let mut expected = strings(&["../b", "../a", "./x", "../../c", "10", "9", "ab", "a", "Z"]);
    let sorted = sort_paths(&expected);
    expected.sort_unstable();
    assert_eq!(sorted, expected);
}

#[test]
fn no_children_give_no_references() {
    assert_eq!(create_project_references(Vec::new()), Vec::new());
}

#[test]
fn a_path_that_comes_twice_is_kept_twice() {
    let created = create_project_references(strings(&["b", "a", "b"]));
    assert_eq!(created, references(&["a", "b", "b"]));
}

#[test]
fn references_do_not_depend_on_the_order_of_the_children() {
    let forward = create_project_references(strings(&["x", "m", "a", "q"]));
    let backward = create_project_references(strings(&["q", "a", "m", "x"]));
    assert_eq!(forward, backward);
}

#[test]
fn a_prefix_precedes_the_longer_path() {
    assert!(path_precedes(&"a".to_string(), &"ab".to_string()));
    assert!(!path_precedes(&"ab".to_string(), &"a".to_string()));
    assert!(path_precedes(&"a".to_string(), &"a".to_string()));
    assert!(path_precedes(&"".to_string(), &"a".to_string()));
    assert!(path_precedes(&"B".to_string(), &"a".to_string()));
    assert!(!path_precedes(&"b".to_string(), &"a".to_string()));
}

#[test]
fn lists_in_another_order_match() {
    assert!(references_match(&references(&["b", "a"]), &references(&["a", "b"])));
    assert!(references_match(&references(&[]), &references(&[])));
    assert!(!references_match(&references(&["a"]), &references(&["a", "a"])));
    assert!(!references_match(&references(&["a"]), &references(&["b"])));
    assert!(!references_match(&references(&[]), &references(&["a"])));
}

#[test]
fn up_to_date_file_is_unchanged_under_both_actions() {
    let current = references(&["b", "a"]);
    assert_eq!(reconcile(Action::Write, &current, references(&["a", "b"])), Reconciliation::Unchanged);
    assert_eq!(reconcile(Action::Lint, &current, references(&["a", "b"])), Reconciliation::Unchanged);
}

#[test]
fn out_of_date_file_is_updated_by_a_write_run() {
    let outcome = reconcile(Action::Write, &references(&["a"]), references(&["a", "b"]));
    assert_eq!(outcome, Reconciliation::Updated(references(&["a", "b"])));
}

#[test]
fn out_of_date_file_is_reported_by_a_lint_run() {
    let outcome = reconcile(Action::Lint, &references(&["a"]), references(&["a", "b"]));
    assert_eq!(outcome, Reconciliation::Divergent(references(&["a", "b"])));
}

#[test]
fn a_file_with_one_reference_too_many_is_out_of_date() {
    let outcome = reconcile(Action::Write, &references(&["a", "b"]), references(&["a"]));
    assert_eq!(outcome, Reconciliation::Updated(references(&["a"])));
}
