use typescript_tools::hierarchy::{directory_hierarchy, key_children_by_parent, DirectoryHierarchy};
use typescript_tools::package_manifest::PackageManifest;
use typescript_tools::paths::join_path;

fn path(components: &[&str]) -> Vec<String> {
    components.iter().map(|component| component.to_string()).collect()
}

fn package(name: &str, directory: &[&str], dependencies: &[&str]) -> PackageManifest {
    PackageManifest {
        name: name.to_string(),
        directory: path(directory),
        dependencies: path(dependencies),
    }
}

fn children(hierarchy: &DirectoryHierarchy, directory: &[&str]) -> Option<Vec<String>> {
    hierarchy.children_of(&path(directory)).map(|list| {
        let mut sorted = list.clone();
        sorted.sort();
        sorted
    })
}

#[test]
fn nested_package_has_an_entry_at_every_level() {
    let hierarchy = directory_hierarchy(&vec![package("deep", &["a", "b", "c"], &[])]);
    assert_eq!(hierarchy.len(), 3);
    assert_eq!(children(&hierarchy, &[]), Some(path(&["a"])));
    assert_eq!(children(&hierarchy, &["a"]), Some(path(&["b"])));
    assert_eq!(children(&hierarchy, &["a", "b"]), Some(path(&["c"])));
    assert_eq!(children(&hierarchy, &["a", "b", "c"]), None);
}

#[test]
fn hierarchy_keys_read_as_paths() {
    let hierarchy = directory_hierarchy(&vec![package("deep", &["a", "b", "c"], &[])]);
    let mut keys: Vec<String> =
        (0..hierarchy.len()).map(|index| join_path(&hierarchy.entry(index).directory)).collect();
    keys.sort();
    assert_eq!(keys, vec!["".to_string(), "a".to_string(), "a/b".to_string()]);
}

#[test]
fn shared_prefix_lists_the_child_once() {
    let hierarchy = directory_hierarchy(&vec![
        package("a", &["packages", "a"], &[]),
        package("b", &["packages", "b"], &[]),
        package("c", &["packages", "scoped", "c"], &[]),
        package("d", &["packages", "scoped", "d"], &[]),
    ]);
    assert_eq!(hierarchy.len(), 3);
    assert_eq!(children(&hierarchy, &[]), Some(path(&["packages"])));
    assert_eq!(children(&hierarchy, &["packages"]), Some(path(&["a", "b", "scoped"])));
    assert_eq!(children(&hierarchy, &["packages", "scoped"]), Some(path(&["c", "d"])));
}

#[test]
fn package_at_the_root_adds_no_entry() {
    let hierarchy = directory_hierarchy(&vec![package("root", &[], &[])]);
    assert_eq!(hierarchy.len(), 0);
    assert_eq!(children(&hierarchy, &[]), None);
}

#[test]
fn no_packages_give_the_empty_hierarchy() {
    let hierarchy = directory_hierarchy(&Vec::new());
    assert_eq!(hierarchy.len(), 0);
    assert_eq!(DirectoryHierarchy::new().len(), 0);
}

#[test]
fn same_package_twice_changes_nothing() {
    let once = key_children_by_parent(DirectoryHierarchy::new(), &package("a", &["x", "a"], &[]));
    let twice = key_children_by_parent(once.clone(), &package("a", &["x", "a"], &[]));
    assert_eq!(twice.len(), once.len());
    assert_eq!(children(&twice, &[]), Some(path(&["x"])));
    assert_eq!(children(&twice, &["x"]), Some(path(&["a"])));
}

#[test]
fn key_children_by_parent_keeps_what_was_recorded() {
    let first = key_children_by_parent(DirectoryHierarchy::new(), &package("a", &["x", "a"], &[]));
    let second = key_children_by_parent(first, &package("b", &["y", "b"], &[]));
    assert_eq!(children(&second, &[]), Some(path(&["x", "y"])));
    assert_eq!(children(&second, &["x"]), Some(path(&["a"])));
    assert_eq!(children(&second, &["y"]), Some(path(&["b"])));
    assert_eq!(second.position_of(&path(&["x"])), Some(1));
    assert_eq!(second.position_of(&path(&["z"])), None);
}

#[test]
fn hierarchy_does_not_depend_on_package_order() {
    let forward = directory_hierarchy(&vec![
        package("a", &["packages", "a"], &[]),
        package("b", &["libs", "b"], &[]),
        package("c", &["packages", "c"], &[]),
    ]);
    let backward = directory_hierarchy(&vec![
        package("c", &["packages", "c"], &[]),
        package("b", &["libs", "b"], &[]),
        package("a", &["packages", "a"], &[]),
    ]);
    assert_eq!(forward.len(), backward.len());
    for directory in [&[][..], &["packages"][..], &["libs"][..]] {
        assert_eq!(children(&forward, directory), children(&backward, directory));
    }
    assert_eq!(children(&forward, &["packages"]), Some(path(&["a", "c"])));
}

#[test]
fn components_that_differ_only_in_case_are_different_children() {
    let hierarchy = directory_hierarchy(&vec![
        package("a", &["pkg", "a"], &[]),
        package("A", &["pkg", "A"], &[]),
    ]);
    assert_eq!(children(&hierarchy, &["pkg"]), Some(path(&["A", "a"])));
}
