//! Bringing the project references of a monorepo's configuration files in
//! line with its packages: what each file should refer to, whether it does,
//! and what a run does about it.

use crate::dependencies::{
    dependencies_reachable, dependency_paths, internal_dependency_paths,
    lemma_dependency_paths_order_independent, names_distinct, packages_among,
};
use crate::errors::{EnumeratePackageManifestsError, FromFileError, WriteError};
use crate::hierarchy::{hierarchy_of, lemma_hierarchy_order_independent, DirectoryHierarchy};
use crate::names::{clone_path, same_path};
use crate::opts::Action;
use crate::package_manifest::PackageManifest;
use crate::sorting::{
    lemma_same_sorted_paths_same_multiset, lemma_sorted_paths_of_same_set,
    lemma_sorted_paths_order_independent, sort_paths, sorted_paths,
};
use crate::typescript_config::{
    current_references, TypescriptConfig, TypescriptParentProjectReference,
    TypescriptProjectReference,
};
use vstd::prelude::*;
use vstd::std_specs::convert::FromSpecImpl;

verus! {

/// Why a run did not end well.
#[derive(Debug)]
#[non_exhaustive]
pub struct LinkError {
    pub kind: LinkErrorKind,
}

/// The ways in which a run can end other than well.
#[derive(Debug)]
pub enum LinkErrorKind {
    /// The packages of the monorepo could not be enumerated.
    #[non_exhaustive]
    EnumeratePackageManifests(EnumeratePackageManifestsError),
    /// A configuration file could not be read.
    #[non_exhaustive]
    FromFile(FromFileError),
    /// A configuration file could not be written.
    #[non_exhaustive]
    Write(WriteError),
    /// A lint run found a file whose references are out of date. Nothing
    /// failed: this is how such a run reports what it found.
    #[non_exhaustive]
    ProjectReferencesOutOfDate,
}

/// What `kind` is reported as.
pub open spec fn error_message(kind: LinkErrorKind) -> Seq<char> {
    match kind {
        LinkErrorKind::ProjectReferencesOutOfDate => "TypeScript project references are not up-to-date"@,
        _ => "error linking TypeScript project references"@,
    }
}

/// What the failure behind `kind` reported, where there is one behind it.
pub open spec fn error_source(kind: LinkErrorKind) -> Option<Seq<char>> {
    match kind {
        LinkErrorKind::EnumeratePackageManifests(err) => Some(err.message@),
        LinkErrorKind::FromFile(err) => Some(err.message@),
        LinkErrorKind::Write(err) => Some(err.message@),
        LinkErrorKind::ProjectReferencesOutOfDate => None,
    }
}

impl LinkError {
    /// The message of the error. Out-of-date references have a message of
    /// their own, so that a caller can tell them from a failure.
    pub fn to_string(&self) -> (message: String)
        ensures
            message@ == error_message(self.kind),
    {
        match &self.kind {
            LinkErrorKind::ProjectReferencesOutOfDate => {
                "TypeScript project references are not up-to-date".to_owned()
            },
            _ => "error linking TypeScript project references".to_owned(),
        }
    }

    /// What the failure behind this error reported. Out-of-date references
    /// have no failure behind them.
    pub fn source(&self) -> (cause: Option<String>)
        ensures
            cause is Some <==> error_source(self.kind) is Some,
            cause matches Some(message) ==> error_source(self.kind) == Some(message@),
    {
        match &self.kind {
            LinkErrorKind::EnumeratePackageManifests(err) => Some(err.message.clone()),
            LinkErrorKind::FromFile(err) => Some(err.message.clone()),
            LinkErrorKind::Write(err) => Some(err.message.clone()),
            LinkErrorKind::ProjectReferencesOutOfDate => None,
        }
    }
}

impl From<EnumeratePackageManifestsError> for LinkError {
    fn from(err: EnumeratePackageManifestsError) -> (error: Self) {
        Self { kind: LinkErrorKind::EnumeratePackageManifests(err) }
    }
}

impl FromSpecImpl<EnumeratePackageManifestsError> for LinkError {
    open spec fn obeys_from_spec() -> bool {
        true
    }

    open spec fn from_spec(err: EnumeratePackageManifestsError) -> Self {
        Self { kind: LinkErrorKind::EnumeratePackageManifests(err) }
    }
}

impl From<FromFileError> for LinkError {
    fn from(err: FromFileError) -> (error: Self) {
        Self { kind: LinkErrorKind::FromFile(err) }
    }
}

impl FromSpecImpl<FromFileError> for LinkError {
    open spec fn obeys_from_spec() -> bool {
        true
    }

    open spec fn from_spec(err: FromFileError) -> Self {
        Self { kind: LinkErrorKind::FromFile(err) }
    }
}

impl From<WriteError> for LinkError {
    fn from(err: WriteError) -> (error: Self) {
        Self { kind: LinkErrorKind::Write(err) }
    }
}

impl FromSpecImpl<WriteError> for LinkError {
    open spec fn obeys_from_spec() -> bool {
        true
    }

    open spec fn from_spec(err: WriteError) -> Self {
        Self { kind: LinkErrorKind::Write(err) }
    }
}

/// What is decided for one configuration file, with the paths it should refer to.
pub enum Outcome {
    /// The file refers to what it should.
    Unchanged,
    /// The file is to be overwritten with these references.
    Updated(Seq<Seq<char>>),
    /// The file is reported with these references, and left as it is.
    Divergent(Seq<Seq<char>>),
}

/// What is decided for one configuration file.
#[derive(Clone, Debug, PartialEq, Eq)]
pub enum Reconciliation {
    /// The file refers to what it should: nothing is written, nothing reported.
    Unchanged,
    /// The file is to be overwritten with these references.
    Updated(Vec<TypescriptProjectReference>),
    /// The file is reported with these references, and left as it is.
    Divergent(Vec<TypescriptProjectReference>),
}

impl DeepView for Reconciliation {
    type V = Outcome;

    open spec fn deep_view(&self) -> Outcome {
        match self {
            Reconciliation::Unchanged => Outcome::Unchanged,
            Reconciliation::Updated(references) => Outcome::Updated(references.deep_view()),
            Reconciliation::Divergent(references) => Outcome::Divergent(references.deep_view()),
        }
    }
}

/// Two lists of references are the same if they are equal once each is sorted.
pub open spec fn same_references(current: Seq<Seq<char>>, desired: Seq<Seq<char>>) -> bool {
    sorted_paths(current) == sorted_paths(desired)
}

/// What is decided for a file that refers to `current` and should refer to
/// `desired`: nothing where the two are the same; otherwise a write run
/// overwrites and a lint run reports.
pub open spec fn reconciled(
    action: Action,
    current: Seq<Seq<char>>,
    desired: Seq<Seq<char>>,
) -> Outcome {
    if same_references(current, desired) {
        Outcome::Unchanged
    } else {
        match action {
            Action::Write => Outcome::Updated(desired),
            Action::Lint => Outcome::Divergent(desired),
        }
    }
}

/// What a file that referred to `current` refers to once `outcome` is acted on.
pub open spec fn applied(current: Seq<Seq<char>>, outcome: Outcome) -> Seq<Seq<char>> {
    match outcome {
        Outcome::Updated(desired) => desired,
        _ => current,
    }
}

/// The references of the file at `index`. A file that was not supplied is
/// taken as it is created: without references.
pub open spec fn references_at(current: Seq<Seq<Seq<char>>>, index: int) -> Seq<Seq<char>> {
    if 0 <= index < current.len() {
        current[index]
    } else {
        Seq::empty()
    }
}

/// What a pass decides: for each file that should refer to something, what is
/// decided for it, given what it refers to.
pub open spec fn pass_outcomes(
    action: Action,
    current: Seq<Seq<Seq<char>>>,
    desired: Seq<Seq<Seq<char>>>,
) -> Seq<Outcome> {
    Seq::new(desired.len(), |i: int| reconciled(action, references_at(current, i), desired[i]))
}

/// What the files of a pass refer to once its outcomes are acted on.
pub open spec fn applied_all(current: Seq<Seq<Seq<char>>>, outcomes: Seq<Outcome>) -> Seq<
    Seq<Seq<char>>,
> {
    Seq::new(outcomes.len(), |i: int| applied(references_at(current, i), outcomes[i]))
}

/// No file was found out of date and left so.
pub open spec fn no_divergence(outcomes: Seq<Outcome>) -> bool {
    forall|i: int| 0 <= i < outcomes.len() ==> !(#[trigger] outcomes[i] is Divergent)
}

/// What the parent configurations `documents` refer to, file by file.
pub open spec fn parent_references(documents: Seq<TypescriptParentProjectReference>) -> Seq<
    Seq<Seq<char>>,
> {
    Seq::new(documents.len(), |i: int| documents[i].references.deep_view())
}

/// What the package configurations `documents` refer to, file by file.
pub open spec fn package_references(documents: Seq<TypescriptConfig>) -> Seq<Seq<Seq<char>>> {
    Seq::new(documents.len(), |i: int| current_references(documents[i].fields@))
}

/// What the parent configurations should refer to: the children of each
/// directory, sorted.
pub open spec fn desired_children(child_lists: Seq<Seq<Seq<char>>>) -> Seq<Seq<Seq<char>>> {
    Seq::new(child_lists.len(), |i: int| sorted_paths(child_lists[i]))
}

/// What the package configurations should refer to: the relative paths to
/// the internal dependencies of each package, sorted.
pub open spec fn desired_dependencies(manifests: Seq<PackageManifest>) -> Seq<Seq<Seq<char>>> {
    Seq::new(
        manifests.len(),
        |i: int|
            sorted_paths(
                dependency_paths(
                    manifests,
                    manifests[i].directory.deep_view(),
                    manifests[i].dependencies.deep_view(),
                ),
            ),
    )
}

/// Every package can reach each of its internal dependencies by a relative path.
pub open spec fn all_dependencies_reachable(manifests: Seq<PackageManifest>) -> bool {
    forall|i: int|
        0 <= i < manifests.len() ==> dependencies_reachable(
            manifests,
            (#[trigger] manifests[i]).directory.deep_view(),
            manifests[i].dependencies.deep_view(),
        )
}

/// The paths of `references`, in their order.
pub fn reference_paths(references: &Vec<TypescriptProjectReference>) -> (paths: Vec<String>)
    ensures
        paths.deep_view() == references.deep_view(),
{
    let mut paths: Vec<String> = Vec::new();
    let mut index: usize = 0;
    while index < references.len()
        invariant
            index <= references.len(),
            paths.deep_view() == references.deep_view().take(index as int),
        decreases references.len() - index,
    {
        let ghost before = paths.deep_view();
        let path = references[index].path.clone();
        paths.push(path);
        proof {
            assert(paths.deep_view() =~= before.push(path@));
            assert(references.deep_view().take(index + 1) =~= before.push(
                references.deep_view()[index as int],
            ));
        }
        index += 1;
    }
    assert(references.deep_view().take(index as int) =~= references.deep_view());
    paths
}

/// The references to `children`, sorted by path, so that what is written
/// does not depend on the order in which the children were found.
pub fn create_project_references(children: Vec<String>) -> (references: Vec<
    TypescriptProjectReference,
>)
    ensures
        references.deep_view() == sorted_paths(children.deep_view()),
{
    let sorted = sort_paths(&children);
    let mut references: Vec<TypescriptProjectReference> = Vec::new();
    let mut index: usize = 0;
    while index < sorted.len()
        invariant
            index <= sorted.len(),
            references.deep_view() == sorted.deep_view().take(index as int),
        decreases sorted.len() - index,
    {
        let ghost before = references.deep_view();
        let path = sorted[index].clone();
        references.push(TypescriptProjectReference { path });
        proof {
            assert(references.deep_view() =~= before.push(path@));
            assert(sorted.deep_view().take(index + 1) =~= before.push(
                sorted.deep_view()[index as int],
            ));
        }
        index += 1;
    }
    assert(sorted.deep_view().take(index as int) =~= sorted.deep_view());
    references
}

/// Whether a file that refers to `current` refers to what `desired` lists,
/// in whatever order.
pub fn references_match(
    current: &Vec<TypescriptProjectReference>,
    desired: &Vec<TypescriptProjectReference>,
) -> (same: bool)
    ensures
        same == same_references(current.deep_view(), desired.deep_view()),
{
    let current_sorted = sort_paths(&reference_paths(current));
    let desired_sorted = sort_paths(&reference_paths(desired));
    same_path(&current_sorted, &desired_sorted)
}

/// Decides what is done with a file that refers to `current` and should
/// refer to `desired`.
pub fn reconcile(
    action: Action,
    current: &Vec<TypescriptProjectReference>,
    desired: Vec<TypescriptProjectReference>,
) -> (outcome: Reconciliation)
    ensures
        outcome.deep_view() == reconciled(action, current.deep_view(), desired.deep_view()),
{
    if references_match(current, &desired) {
        Reconciliation::Unchanged
    } else {
        match action {
            Action::Write => Reconciliation::Updated(desired),
            Action::Lint => Reconciliation::Divergent(desired),
        }
    }
}

/// What a pass over a set of configuration files decided.
#[derive(Clone, Debug, PartialEq, Eq)]
pub struct PassReport {
    /// The decision for each file, in the order of the files.
    pub outcomes: Vec<Reconciliation>,
    /// Whether no file was found out of date and left so. A write run
    /// leaves none so.
    pub is_exit_success: bool,
}

/// Decides, for each directory of `hierarchy`, what is done with its parent
/// configuration, which should refer to the directory's children.
/// `documents` holds the configurations as they were loaded, in the order of
/// the entries of `hierarchy`; an entry without a document is taken to have
/// the configuration that is created for it, which refers to nothing.
pub fn link_children_packages(
    action: Action,
    hierarchy: &DirectoryHierarchy,
    documents: &Vec<TypescriptParentProjectReference>,
) -> (report: PassReport)
    ensures
        report.outcomes.deep_view() == pass_outcomes(
            action,
            parent_references(documents@),
            desired_children(hierarchy.child_lists()),
        ),
        report.is_exit_success == no_divergence(report.outcomes.deep_view()),
{
    let ghost current = parent_references(documents@);
    let ghost desired = desired_children(hierarchy.child_lists());
    let ghost expected = pass_outcomes(action, current, desired);
    let no_references: Vec<TypescriptProjectReference> = Vec::new();
    let mut outcomes: Vec<Reconciliation> = Vec::new();
    let mut is_exit_success = true;
    let count = hierarchy.len();
    let mut index: usize = 0;
    assert(outcomes.deep_view() =~= expected.take(0));
    assert(no_references.deep_view() =~= Seq::<Seq<char>>::empty());
    while index < count
        invariant
            index <= count,
            count == hierarchy.directories().len(),
            count == hierarchy.child_lists().len(),
            current == parent_references(documents@),
            desired == desired_children(hierarchy.child_lists()),
            expected == pass_outcomes(action, current, desired),
            no_references.deep_view() == Seq::<Seq<char>>::empty(),
            outcomes.deep_view() == expected.take(index as int),
            is_exit_success == no_divergence(expected.take(index as int)),
        decreases count - index,
    {
        let entry = hierarchy.entry(index);
        let desired_project_references = create_project_references(
            clone_path(&entry.children),
        );
        let current_project_references = if index < documents.len() {
            &documents[index].references
        } else {
            &no_references
        };
        let outcome = reconcile(action, current_project_references, desired_project_references);
        if let Reconciliation::Divergent(_) = &outcome {
            is_exit_success = false;
        }
        let ghost before = outcomes.deep_view();
        outcomes.push(outcome);
        proof {
            assert(outcome.deep_view() == expected[index as int]);
            assert(outcomes.deep_view() =~= before.push(outcome.deep_view()));
            assert(expected.take(index + 1) =~= before.push(expected[index as int]));
            lemma_no_divergence_push(before, expected[index as int]);
        }
        index += 1;
    }
    assert(expected.take(index as int) =~= expected);
    PassReport { outcomes, is_exit_success }
}

/// Decides, for each package of `manifests`, what is done with its
/// configuration, which should refer to the package's internal dependencies
/// by their paths relative to the package. `documents` holds the
/// configurations as they were loaded, in the order of `manifests`; a
/// package without a document is taken to have one without references.
/// Nothing is decided if some package cannot reach one of its internal
/// dependencies by a relative path.
pub fn link_package_dependencies(
    action: Action,
    manifests: &Vec<PackageManifest>,
    documents: &Vec<TypescriptConfig>,
) -> (report: Option<PassReport>)
    ensures
        report is Some <==> all_dependencies_reachable(manifests@),
        report matches Some(found) ==> found.outcomes.deep_view() == pass_outcomes(
            action,
            package_references(documents@),
            desired_dependencies(manifests@),
        ) && found.is_exit_success == no_divergence(found.outcomes.deep_view()),
{
    let ghost current = package_references(documents@);
    let ghost desired = desired_dependencies(manifests@);
    let ghost expected = pass_outcomes(action, current, desired);
    let no_references: Vec<TypescriptProjectReference> = Vec::new();
    let mut outcomes: Vec<Reconciliation> = Vec::new();
    let mut is_exit_success = true;
    let mut index: usize = 0;
    assert(outcomes.deep_view() =~= expected.take(0));
    assert(no_references.deep_view() =~= Seq::<Seq<char>>::empty());
    while index < manifests.len()
        invariant
            index <= manifests.len(),
            current == package_references(documents@),
            desired == desired_dependencies(manifests@),
            expected == pass_outcomes(action, current, desired),
            no_references.deep_view() == Seq::<Seq<char>>::empty(),
            outcomes.deep_view() == expected.take(index as int),
            is_exit_success == no_divergence(expected.take(index as int)),
            forall|k: int|
                0 <= k < index ==> dependencies_reachable(
                    manifests@,
                    (#[trigger] manifests[k]).directory.deep_view(),
                    manifests[k].dependencies.deep_view(),
                ),
        decreases manifests.len() - index,
    {
        let desired_project_references = match internal_dependency_paths(
            &manifests[index],
            manifests,
        ) {
            Some(paths) => create_project_references(paths),
            None => {
                assert(!dependencies_reachable(
                    manifests@,
                    manifests[index as int].directory.deep_view(),
                    manifests[index as int].dependencies.deep_view(),
                ));
                return None;
            },
        };
        let stored = if index < documents.len() {
            documents[index].references()
        } else {
            None
        };
        let current_project_references = match stored {
            Some(references) => references,
            None => &no_references,
        };
        let outcome = reconcile(action, current_project_references, desired_project_references);
        if let Reconciliation::Divergent(_) = &outcome {
            is_exit_success = false;
        }
        let ghost before = outcomes.deep_view();
        outcomes.push(outcome);
        proof {
            assert(outcome.deep_view() == expected[index as int]);
            assert(outcomes.deep_view() =~= before.push(outcome.deep_view()));
            assert(expected.take(index + 1) =~= before.push(expected[index as int]));
            lemma_no_divergence_push(before, expected[index as int]);
        }
        index += 1;
    }
    assert(expected.take(index as int) =~= expected);
    Some(PassReport { outcomes, is_exit_success })
}

proof fn lemma_no_divergence_push(outcomes: Seq<Outcome>, outcome: Outcome)
    ensures
        no_divergence(outcomes.push(outcome)) == (no_divergence(outcomes) && !(outcome
            is Divergent)),
{
    let more = outcomes.push(outcome);
    if no_divergence(more) {
        assert forall|i: int| 0 <= i < outcomes.len() implies !(#[trigger] outcomes[i]
            is Divergent) by {
            assert(more[i] == outcomes[i]);
        }
        assert(more[outcomes.len() as int] == outcome);
    }
}

/// Two lists of references are the same exactly if they hold the same
/// paths, each as often in the one as in the other: the order does not count.
pub proof fn lemma_same_references_ignores_order(current: Seq<Seq<char>>, desired: Seq<Seq<char>>)
    ensures
        same_references(current, desired) <==> current.to_multiset() == desired.to_multiset(),
{
    if same_references(current, desired) {
        lemma_same_sorted_paths_same_multiset(current, desired);
    }
    if current.to_multiset() == desired.to_multiset() {
        lemma_sorted_paths_order_independent(current, desired);
    }
}

/// A lint run overwrites no file: whatever it finds, every file refers
/// afterwards to what it referred to before.
pub proof fn lemma_lint_changes_no_file(
    current: Seq<Seq<Seq<char>>>,
    desired: Seq<Seq<Seq<char>>>,
    file: int,
)
    requires
        0 <= file < desired.len(),
    ensures
        !(pass_outcomes(Action::Lint, current, desired)[file] is Updated),
        applied_all(current, pass_outcomes(Action::Lint, current, desired))[file] == references_at(
            current,
            file,
        ),
{
}

/// A write run leaves no file out of date, and so always ends well.
pub proof fn lemma_write_always_succeeds(
    current: Seq<Seq<Seq<char>>>,
    desired: Seq<Seq<Seq<char>>>,
)
    ensures
        no_divergence(pass_outcomes(Action::Write, current, desired)),
{
}

/// A lint run ends well exactly if every file refers to what it should.
pub proof fn lemma_lint_succeeds_iff_up_to_date(
    current: Seq<Seq<Seq<char>>>,
    desired: Seq<Seq<Seq<char>>>,
)
    ensures
        no_divergence(pass_outcomes(Action::Lint, current, desired)) <==> forall|file: int|
            0 <= file < desired.len() ==> same_references(
                references_at(current, file),
                #[trigger] desired[file],
            ),
{
    let outcomes = pass_outcomes(Action::Lint, current, desired);
    if no_divergence(outcomes) {
        assert forall|file: int| 0 <= file < desired.len() implies same_references(
            references_at(current, file),
            #[trigger] desired[file],
        ) by {
            assert(!(outcomes[file] is Divergent));
        }
    }
}

/// Once a write run has been acted on, a second run of either kind over the
/// same files finds every one of them unchanged.
pub proof fn lemma_second_run_changes_nothing(
    action: Action,
    current: Seq<Seq<Seq<char>>>,
    desired: Seq<Seq<Seq<char>>>,
    file: int,
)
    requires
        0 <= file < desired.len(),
    ensures
        pass_outcomes(
            action,
            applied_all(current, pass_outcomes(Action::Write, current, desired)),
            desired,
        )[file] is Unchanged,
{
    let first = pass_outcomes(Action::Write, current, desired);
    let after = applied_all(current, first);
    assert(references_at(after, file) == applied(references_at(current, file), first[file]));
}

/// What a parent configuration should refer to is settled by the directory
/// and the set of its children: two hierarchies that hold the same entries,
/// in whatever order they were recorded, ask for the same references.
pub proof fn lemma_desired_children_deterministic(
    first: DirectoryHierarchy,
    second: DirectoryHierarchy,
    i: int,
    j: int,
)
    requires
        first.wf(),
        second.wf(),
        first@ == second@,
        0 <= i < first.directories().len(),
        0 <= j < second.directories().len(),
        first.directories()[i] == second.directories()[j],
    ensures
        desired_children(first.child_lists())[i] == desired_children(second.child_lists())[j],
{
    first.lemma_entry_in_view(i);
    second.lemma_entry_in_view(j);
    lemma_sorted_paths_of_same_set(first.child_lists()[i], second.child_lists()[j]);
}

/// What a parent configuration should refer to does not depend on the order
/// in which the packages come: hierarchies built from the same package
/// directories, in whatever order, ask for the same references for each
/// directory.
pub proof fn lemma_desired_children_order_independent(
    first: DirectoryHierarchy,
    first_directories: Seq<Seq<Seq<char>>>,
    second: DirectoryHierarchy,
    second_directories: Seq<Seq<Seq<char>>>,
    i: int,
    j: int,
)
    requires
        first.wf(),
        second.wf(),
        first@ == hierarchy_of(first_directories),
        second@ == hierarchy_of(second_directories),
        first_directories.to_set() == second_directories.to_set(),
        0 <= i < first.directories().len(),
        0 <= j < second.directories().len(),
        first.directories()[i] == second.directories()[j],
    ensures
        desired_children(first.child_lists())[i] == desired_children(second.child_lists())[j],
{
    lemma_hierarchy_order_independent(first_directories, second_directories);
    lemma_desired_children_deterministic(first, second, i, j);
}

/// What a package configuration should refer to is settled by the package
/// and the set of packages: where no two packages share a name, the order in
/// which the packages come does not change it.
pub proof fn lemma_desired_dependencies_deterministic(
    first: Seq<PackageManifest>,
    second: Seq<PackageManifest>,
    i: int,
    j: int,
)
    requires
        names_distinct(first),
        names_distinct(second),
        packages_among(first, second),
        packages_among(second, first),
        0 <= i < first.len(),
        0 <= j < second.len(),
        first[i].directory.deep_view() == second[j].directory.deep_view(),
        first[i].dependencies.deep_view() == second[j].dependencies.deep_view(),
    ensures
        desired_dependencies(first)[i] == desired_dependencies(second)[j],
{
    lemma_dependency_paths_order_independent(
        first,
        second,
        first[i].directory.deep_view(),
        first[i].dependencies.deep_view(),
    );
}

/// Ends a run: a lint run in which either pass found a file out of date ends
/// with `ProjectReferencesOutOfDate`, every other run ends well.
pub fn link_typescript_project_references(
    action: Action,
    is_children_link_success: bool,
    is_dependencies_link_success: bool,
) -> (result: Result<(), LinkError>)
    ensures
        result is Err <==> action == Action::Lint && !(is_children_link_success
            && is_dependencies_link_success),
        result matches Err(error) ==> error.kind is ProjectReferencesOutOfDate,
{
    if action == Action::Lint && !(is_children_link_success && is_dependencies_link_success) {
        return Err(LinkError { kind: LinkErrorKind::ProjectReferencesOutOfDate });
    }
    Ok(())
}

} // verus!
