use serde_json::Value;
use typescript_tools::errors::{EnumeratePackageManifestsError, FromFileError, WriteError};
use typescript_tools::hierarchy::directory_hierarchy;
use typescript_tools::link::{
    link_children_packages, link_package_dependencies, link_typescript_project_references,
    LinkError, LinkErrorKind, PassReport, Reconciliation,
};
use typescript_tools::opts::Action;
use typescript_tools::package_manifest::PackageManifest;
use typescript_tools::paths::join_path;
use typescript_tools::typescript_config::{
    ConfigField, TypescriptConfig, TypescriptParentProjectReference, TypescriptProjectReference,
};

fn path(components: &[&str]) -> Vec<String> {
    components.iter().map(|component| component.to_string()).collect()
}

fn package(name: &str, directory: &[&str], dependencies: &[&str]) -> PackageManifest {
    PackageManifest {
        name: name.to_string(),
        directory: path(directory),
        dependencies: path(dependencies),
    }
}

fn references(paths: &[&str]) -> Vec<TypescriptProjectReference> {
    paths.iter().map(|path| TypescriptProjectReference { path: path.to_string() }).collect()
}

fn parent(paths: &[&str]) -> TypescriptParentProjectReference {
    TypescriptParentProjectReference { references: references(paths) }
}

fn config(paths: Option<&[&str]>) -> TypescriptConfig {
    let mut fields = vec![ConfigField::Other {
        key: "compilerOptions".to_string(),
        value: Value::Object(serde_json::Map::new()),
    }];
    if let Some(paths) = paths {
        fields.push(ConfigField::References(references(paths)));
    }
    TypescriptConfig { fields }
}

fn monorepo() -> Vec<PackageManifest> {
    vec![package("a", &["packages", "a"], &[]), package("b", &["packages", "b"], &["a"])]
}

fn apply_to_parents(
    documents: &[TypescriptParentProjectReference],
    report: &PassReport,
) -> Vec<TypescriptParentProjectReference> {
    report
        .outcomes
        .iter()
        .enumerate()
        .map(|(index, outcome)| {
            let mut document = documents.get(index).cloned().unwrap_or(parent(&[]));
            if let Reconciliation::Updated(desired) = outcome {
                document.set_references(desired.clone());
            }
            document
        })
        .collect()
}

fn apply_to_configs(documents: Vec<TypescriptConfig>, report: &PassReport) -> Vec<TypescriptConfig> {
    let mut documents = documents;
    while documents.len() < report.outcomes.len() {
        documents.push(TypescriptConfig { fields: Vec::new() });
    }
    for (document, outcome) in documents.iter_mut().zip(report.outcomes.iter()) {
        if let Reconciliation::Updated(desired) = outcome {
            document.set_references(desired.clone());
        }
    }
    documents
}

#[test]
fn write_run_links_children_and_dependencies() {
    let manifests = monorepo();
    let hierarchy = directory_hierarchy(&manifests);
    let directories: Vec<String> =
        (0..hierarchy.len()).map(|index| join_path(&hierarchy.entry(index).directory)).collect();
    assert_eq!(directories, vec!["".to_string(), "packages".to_string()]);

    let children = link_children_packages(Action::Write, &hierarchy, &Vec::new());
    assert_eq!(
        children.outcomes,
        vec![
            Reconciliation::Updated(references(&["packages"])),
            Reconciliation::Updated(references(&["a", "b"])),
        ]
    );
    assert!(children.is_exit_success);

    let documents = vec![config(None), config(None)];
    let dependencies = link_package_dependencies(Action::Write, &manifests, &documents).unwrap();
    assert_eq!(
        dependencies.outcomes,
        vec![Reconciliation::Unchanged, Reconciliation::Updated(references(&["../a"]))]
    );
    assert!(dependencies.is_exit_success);

    let result = link_typescript_project_references(
        Action::Write,
        children.is_exit_success,
        dependencies.is_exit_success,
    );
    assert!(result.is_ok());
}

#[test]
fn lint_run_reports_only_the_file_that_is_out_of_date() {
    let manifests = monorepo();
    let hierarchy = directory_hierarchy(&manifests);
    let parents = vec![parent(&["packages"]), parent(&["a"])];
    let children = link_children_packages(Action::Lint, &hierarchy, &parents);
    assert_eq!(
        children.outcomes,
        vec![Reconciliation::Unchanged, Reconciliation::Divergent(references(&["a", "b"]))]
    );
    assert!(!children.is_exit_success);

    let documents = vec![config(None), config(Some(&["../a"]))];
    let dependencies = link_package_dependencies(Action::Lint, &manifests, &documents).unwrap();
    assert_eq!(dependencies.outcomes, vec![Reconciliation::Unchanged, Reconciliation::Unchanged]);
    assert!(dependencies.is_exit_success);

    let error = link_typescript_project_references(
        Action::Lint,
        children.is_exit_success,
        dependencies.is_exit_success,
    )
    .unwrap_err();
    assert!(matches!(error.kind, LinkErrorKind::ProjectReferencesOutOfDate { .. }));
}

#[test]
fn lint_run_reports_every_file_that_is_out_of_date() {
    let manifests = vec![
        package("a", &["packages", "a"], &["c"]),
        package("b", &["packages", "b"], &["a", "c"]),
        package("c", &["libs", "c"], &[]),
    ];
    let documents = vec![config(Some(&[])), config(Some(&["../a"])), config(Some(&[]))];
    let report = link_package_dependencies(Action::Lint, &manifests, &documents).unwrap();
    assert_eq!(
        report.outcomes,
        vec![
            Reconciliation::Divergent(references(&["../../libs/c"])),
            Reconciliation::Divergent(references(&["../../libs/c", "../a"])),
            Reconciliation::Unchanged,
        ]
    );
    assert!(!report.is_exit_success);
}

#[test]
fn second_write_run_changes_nothing() {
    let manifests = monorepo();
    let hierarchy = directory_hierarchy(&manifests);
    let parents = vec![parent(&["stale"])];
    let first = link_children_packages(Action::Write, &hierarchy, &parents);
    let parents = apply_to_parents(&parents, &first);
    assert_eq!(parents, vec![parent(&["packages"]), parent(&["a", "b"])]);
    let second = link_children_packages(Action::Write, &hierarchy, &parents);
    assert_eq!(second.outcomes, vec![Reconciliation::Unchanged, Reconciliation::Unchanged]);

    let documents = vec![config(Some(&["../gone"])), config(None)];
    let first = link_package_dependencies(Action::Write, &manifests, &documents).unwrap();
    assert_eq!(
        first.outcomes,
        vec![
            Reconciliation::Updated(references(&[])),
            Reconciliation::Updated(references(&["../a"])),
        ]
    );
    let documents = apply_to_configs(documents, &first);
    let second = link_package_dependencies(Action::Write, &manifests, &documents).unwrap();
    assert_eq!(second.outcomes, vec![Reconciliation::Unchanged, Reconciliation::Unchanged]);
    let lint = link_package_dependencies(Action::Lint, &manifests, &documents).unwrap();
    assert!(lint.is_exit_success);
}

#[test]
fn lint_run_leaves_every_document_as_it_was() {
    let manifests = monorepo();
    let hierarchy = directory_hierarchy(&manifests);
    let parents = vec![parent(&["stale"]), parent(&["b"])];
    let report = link_children_packages(Action::Lint, &hierarchy, &parents);
    assert!(report.outcomes.iter().all(|outcome| !matches!(outcome, Reconciliation::Updated(_))));
    assert_eq!(apply_to_parents(&parents, &report), parents);

    let report = link_package_dependencies(
        Action::Lint,
        &manifests,
        &vec![config(Some(&["../gone"])), config(None)],
    )
    .unwrap();
    assert!(report.outcomes.iter().all(|outcome| !matches!(outcome, Reconciliation::Updated(_))));
    let documents = apply_to_configs(vec![config(Some(&["../gone"])), config(None)], &report);
    assert_eq!(documents, vec![config(Some(&["../gone"])), config(None)]);
}

#[test]
fn writing_references_keeps_the_other_entries() {
    let manifests = monorepo();
    let documents = vec![config(None), config(Some(&["../stale"]))];
    let report = link_package_dependencies(Action::Write, &manifests, &documents).unwrap();
    let documents = apply_to_configs(documents, &report);
    assert_eq!(documents, vec![config(None), config(Some(&["../a"]))]);
}

#[test]
fn references_in_another_order_are_up_to_date() {
    let manifests = monorepo();
    let hierarchy = directory_hierarchy(&manifests);
    let parents = vec![parent(&["packages"]), parent(&["b", "a"])];
    let report = link_children_packages(Action::Lint, &hierarchy, &parents);
    assert_eq!(report.outcomes, vec![Reconciliation::Unchanged, Reconciliation::Unchanged]);
    assert!(report.is_exit_success);
}

#[test]
fn desired_references_do_not_depend_on_package_order() {
    let forward = vec![
        package("a", &["packages", "a"], &[]),
        package("b", &["packages", "b"], &["a", "c"]),
        package("c", &["libs", "c"], &["a"]),
    ];
    let backward = vec![forward[2].clone(), forward[1].clone(), forward[0].clone()];
    let one = link_package_dependencies(Action::Write, &forward, &Vec::new()).unwrap();
    let other = link_package_dependencies(Action::Write, &backward, &Vec::new()).unwrap();
    assert_eq!(one.outcomes[1], Reconciliation::Updated(references(&["../../libs/c", "../a"])));
    assert_eq!(one.outcomes[0], other.outcomes[2]);
    assert_eq!(one.outcomes[1], other.outcomes[1]);
    assert_eq!(one.outcomes[2], other.outcomes[0]);
}

#[test]
fn unreachable_dependency_stops_the_dependencies_pass() {
    let manifests = vec![package("a", &["packages", "a"], &[]), package("b", &[".."], &["a"])];
    assert_eq!(link_package_dependencies(Action::Write, &manifests, &Vec::new()), None);
    assert_eq!(link_package_dependencies(Action::Lint, &manifests, &Vec::new()), None);
}

#[test]
fn mutual_dependencies_refer_to_each_other() {
    let manifests = vec![package("a", &["packages", "a"], &["b"]), package("b", &["packages", "b"], &["a"])];
    let report = link_package_dependencies(Action::Write, &manifests, &Vec::new()).unwrap();
    assert_eq!(
        report.outcomes,
        vec![
            Reconciliation::Updated(references(&["../b"])),
            Reconciliation::Updated(references(&["../a"])),
        ]
    );
}

#[test]
fn no_packages_need_no_files() {
    let hierarchy = directory_hierarchy(&Vec::new());
    let children = link_children_packages(Action::Lint, &hierarchy, &vec![parent(&["x"])]);
    assert_eq!(children.outcomes, Vec::new());
    assert!(children.is_exit_success);
    let dependencies = link_package_dependencies(Action::Lint, &Vec::new(), &Vec::new()).unwrap();
    assert_eq!(dependencies.outcomes, Vec::new());
    assert!(dependencies.is_exit_success);
}

#[test]
fn only_a_lint_run_with_a_failed_pass_is_out_of_date() {
    for children in [true, false] {
        for dependencies in [true, false] {
            assert!(link_typescript_project_references(Action::Write, children, dependencies).is_ok());
            let lint = link_typescript_project_references(Action::Lint, children, dependencies);
            assert_eq!(lint.is_ok(), children && dependencies);
        }
    }
}

#[test]
fn out_of_date_references_have_their_own_message() {
    let error = link_typescript_project_references(Action::Lint, true, false).unwrap_err();
    assert_eq!(error.to_string(), "TypeScript project references are not up-to-date");
    assert_eq!(error.source(), None);
}

#[test]
fn failures_share_a_message_and_keep_their_cause() {
    let enumerate = LinkError::from(EnumeratePackageManifestsError { message: "no lerna.json".to_string() });
    assert!(matches!(enumerate.kind, LinkErrorKind::EnumeratePackageManifests { .. }));
    assert_eq!(enumerate.to_string(), "error linking TypeScript project references");
    assert_eq!(enumerate.source(), Some("no lerna.json".to_string()));

    let read = LinkError::from(FromFileError {
        path: "packages/a/tsconfig.json".to_string(),
        message: "expected value at line 1".to_string(),
    });
    assert!(matches!(read.kind, LinkErrorKind::FromFile { .. }));
    assert_eq!(read.to_string(), "error linking TypeScript project references");
    assert_eq!(read.source(), Some("expected value at line 1".to_string()));

    let write = LinkError::from(WriteError {
        path: "packages/tsconfig.json".to_string(),
        message: "permission denied".to_string(),
    });
    assert!(matches!(write.kind, LinkErrorKind::Write { .. }));
    assert_eq!(write.to_string(), "error linking TypeScript project references");
    assert_eq!(write.source(), Some("permission denied".to_string()));
}
