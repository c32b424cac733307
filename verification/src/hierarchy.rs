//! Folding package directories into the map from every directory above a
//! package to the path components that lie directly below it.

use crate::names::{clone_path, contains_name, same_path};
use crate::package_manifest::{manifest_directories, PackageManifest};
use vstd::prelude::*;

verus! {

/// `parent` lies strictly above `directory`: it is a proper prefix of it.
pub open spec fn is_ancestor_of(parent: Seq<Seq<char>>, directory: Seq<Seq<char>>) -> bool {
    parent.len() < directory.len() && directory.take(parent.len() as int) == parent
}

/// The component of `directory` that lies directly below its ancestor `parent`.
pub open spec fn child_below(parent: Seq<Seq<char>>, directory: Seq<Seq<char>>) -> Seq<char> {
    directory[parent.len() as int]
}

/// Some directory of `directories` lies below `parent`.
pub open spec fn has_descendant(directories: Seq<Seq<Seq<char>>>, parent: Seq<Seq<char>>) -> bool {
    exists|j: int|
        0 <= j < directories.len() && is_ancestor_of(parent, #[trigger] directories[j])
}

/// Some directory of `directories` lies below `parent` and passes through `child`.
pub open spec fn has_child(
    directories: Seq<Seq<Seq<char>>>,
    parent: Seq<Seq<char>>,
    child: Seq<char>,
) -> bool {
    exists|j: int|
        0 <= j < directories.len() && is_ancestor_of(parent, #[trigger] directories[j])
            && child_below(parent, directories[j]) == child
}

/// The hierarchy of a set of package directories: every directory that lies
/// above one of them, the root included, with the components directly below it.
pub open spec fn hierarchy_of(directories: Seq<Seq<Seq<char>>>) -> Map<
    Seq<Seq<char>>,
    Set<Seq<char>>,
> {
    Map::new(
        |parent: Seq<Seq<char>>| has_descendant(directories, parent),
        |parent: Seq<Seq<char>>| Set::new(|child: Seq<char>| has_child(directories, parent, child)),
    )
}

/// The children that `hierarchy` lists for `parent`: none where it has no entry.
pub open spec fn children_at(
    hierarchy: Map<Seq<Seq<char>>, Set<Seq<char>>>,
    parent: Seq<Seq<char>>,
) -> Set<Seq<char>> {
    if hierarchy.dom().contains(parent) {
        hierarchy[parent]
    } else {
        Set::empty()
    }
}

/// `hierarchy` with `child` listed below `parent`.
pub open spec fn with_child(
    hierarchy: Map<Seq<Seq<char>>, Set<Seq<char>>>,
    parent: Seq<Seq<char>>,
    child: Seq<char>,
) -> Map<Seq<Seq<char>>, Set<Seq<char>>> {
    hierarchy.insert(parent, children_at(hierarchy, parent).insert(child))
}

/// `hierarchy` with the ancestors of `directory` that have fewer than `depth`
/// components, each listing the component of `directory` below it.
pub open spec fn with_ancestors(
    hierarchy: Map<Seq<Seq<char>>, Set<Seq<char>>>,
    directory: Seq<Seq<char>>,
    depth: int,
) -> Map<Seq<Seq<char>>, Set<Seq<char>>> {
    Map::new(
        |parent: Seq<Seq<char>>|
            hierarchy.dom().contains(parent) || (is_ancestor_of(parent, directory) && parent.len()
                < depth),
        |parent: Seq<Seq<char>>|
            if is_ancestor_of(parent, directory) && parent.len() < depth {
                children_at(hierarchy, parent).insert(child_below(parent, directory))
            } else {
                hierarchy[parent]
            },
    )
}

/// `hierarchy` with every ancestor of `directory`, each listing the component
/// of `directory` below it.
pub open spec fn with_directory(
    hierarchy: Map<Seq<Seq<char>>, Set<Seq<char>>>,
    directory: Seq<Seq<char>>,
) -> Map<Seq<Seq<char>>, Set<Seq<char>>> {
    with_ancestors(hierarchy, directory, directory.len() as int)
}

/// A directory above a package, with the components directly below it.
#[derive(Clone, Debug, PartialEq, Eq)]
pub struct DirectoryChildren {
    pub directory: Vec<String>,
    pub children: Vec<String>,
}

/// The map from each directory above a package to its children. No directory
/// has two entries, and no entry lists a child twice.
#[derive(Clone, Debug)]
pub struct DirectoryHierarchy {
    entries: Vec<DirectoryChildren>,
}

impl View for DirectoryHierarchy {
    type V = Map<Seq<Seq<char>>, Set<Seq<char>>>;

    open spec fn view(&self) -> Map<Seq<Seq<char>>, Set<Seq<char>>> {
        Map::new(
            |parent: Seq<Seq<char>>| self.directories().contains(parent),
            |parent: Seq<Seq<char>>|
                self.child_lists()[self.directories().index_of(parent)].to_set(),
        )
    }
}

impl DirectoryHierarchy {
    /// The directories that have an entry, in entry order.
    pub closed spec fn directories(&self) -> Seq<Seq<Seq<char>>> {
        Seq::new(self.entries.len() as nat, |i: int| self.entries[i].directory.deep_view())
    }

    /// The children of each entry, as listed, in entry order.
    pub closed spec fn child_lists(&self) -> Seq<Seq<Seq<char>>> {
        Seq::new(self.entries.len() as nat, |i: int| self.entries[i].children.deep_view())
    }

    /// No directory has two entries, and no entry lists a child twice.
    pub open spec fn wf(&self) -> bool {
        &&& self.child_lists().len() == self.directories().len()
        &&& self.directories().no_duplicates()
        &&& forall|i: int|
            0 <= i < self.child_lists().len() ==> (#[trigger] self.child_lists()[i]).no_duplicates()
    }

    /// The hierarchy without entries.
    pub fn new() -> (hierarchy: DirectoryHierarchy)
        ensures
            hierarchy.wf(),
            hierarchy@ == Map::<Seq<Seq<char>>, Set<Seq<char>>>::empty(),
            hierarchy.directories().len() == 0,
    {
        let hierarchy = DirectoryHierarchy { entries: Vec::new() };
        assert(hierarchy@ =~= Map::<Seq<Seq<char>>, Set<Seq<char>>>::empty());
        hierarchy
    }

    /// The number of entries.
    pub fn len(&self) -> (len: usize)
        ensures
            len == self.directories().len(),
            len == self.child_lists().len(),
    {
        self.entries.len()
    }

    /// The entry at `index`.
    pub fn entry(&self, index: usize) -> (entry: &DirectoryChildren)
        requires
            index < self.directories().len(),
        ensures
            entry.directory.deep_view() == self.directories()[index as int],
            entry.children.deep_view() == self.child_lists()[index as int],
    {
        &self.entries[index]
    }

    /// Where the entry of `directory` stands, if it has one.
    pub fn position_of(&self, directory: &Vec<String>) -> (position: Option<usize>)
        ensures
            match position {
                Some(index) => index < self.directories().len() && self.directories()[index as int]
                    == directory.deep_view(),
                None => !self.directories().contains(directory.deep_view()),
            },
    {
        let mut index: usize = 0;
        while index < self.entries.len()
            invariant
                index <= self.entries.len(),
                forall|k: int| 0 <= k < index ==> self.directories()[k] != directory.deep_view(),
            decreases self.entries.len() - index,
        {
            if same_path(&self.entries[index].directory, directory) {
                return Some(index);
            }
            index += 1;
        }
        None
    }

    /// The children listed for `directory`, if it has an entry.
    pub fn children_of(&self, directory: &Vec<String>) -> (children: Option<&Vec<String>>)
        requires
            self.wf(),
        ensures
            match children {
                Some(list) => self@.dom().contains(directory.deep_view())
                    && list.deep_view().to_set() == self@[directory.deep_view()]
                    && list.deep_view().no_duplicates(),
                None => !self@.dom().contains(directory.deep_view()),
            },
    {
        match self.position_of(directory) {
            Some(index) => {
                proof {
                    self.lemma_entry_in_view(index as int);
                }
                Some(&self.entries[index].children)
            },
            None => None,
        }
    }

    /// The entry at `index` is what the view holds for its directory.
    pub proof fn lemma_entry_in_view(&self, index: int)
        requires
            self.wf(),
            0 <= index < self.directories().len(),
        ensures
            self@.dom().contains(self.directories()[index]),
            self@[self.directories()[index]] == self.child_lists()[index].to_set(),
    {
        let directory = self.directories()[index];
        assert(self.directories().contains(directory));
        assert(self.directories().index_of(directory) == index);
    }

    /// Lists `child` below `parent`, unless it is listed there already.
    fn record_child(&mut self, parent: &Vec<String>, child: String)
        requires
            old(self).wf(),
        ensures
            final(self).wf(),
            final(self)@ == with_child(old(self)@, parent.deep_view(), child@),
    {
        let ghost before = *self;
        let ghost key = parent.deep_view();
        match self.position_of(parent) {
            Some(index) => {
                proof {
                    before.lemma_entry_in_view(index as int);
                }
                if !contains_name(&self.entries[index].children, &child) {
                    self.entries[index].children.push(child);
                    proof {
                        assert(self.entries[index as int].children.deep_view()
                            =~= before.entries[index as int].children.deep_view().push(child@));
                        assert(self.directories() =~= before.directories());
                        assert(self.child_lists() =~= before.child_lists().update(
                            index as int,
                            before.child_lists()[index as int].push(child@),
                        ));
                        before.child_lists()[index as int].lemma_push_to_set_commute(child@);
                        assert(self.wf());
                        assert forall|other: Seq<Seq<char>>|
                            self.directories().contains(other) implies #[trigger] self@[other]
                            == with_child(before@, key, child@)[other] by {
                            let at = self.directories().index_of(other);
                            before.lemma_entry_in_view(at);
                            self.lemma_entry_in_view(at);
                        }
                        assert(self@ =~= with_child(before@, key, child@));
                    }
                } else {
                    proof {
                        assert(before@[key].insert(child@) =~= before@[key]);
                        assert(self@ =~= with_child(before@, key, child@));
                    }
                }
            },
            None => {
                let mut children: Vec<String> = Vec::new();
                children.push(child);
                let entry = DirectoryChildren { directory: clone_path(parent), children };
                self.entries.push(entry);
                proof {
                    assert(children.deep_view() =~= seq![child@]);
                    assert(self.directories() =~= before.directories().push(key));
                    assert(self.child_lists() =~= before.child_lists().push(seq![child@]));
                    assert(self.wf());
                    assert(seq![child@] =~= Seq::<Seq<char>>::empty().push(child@));
                    Seq::<Seq<char>>::empty().lemma_push_to_set_commute(child@);
                    assert(Seq::<Seq<char>>::empty().to_set() =~= Set::<Seq<char>>::empty());
                    let last = before.directories().len() as int;
                    assert(self.directories()[last] == key);
                    assert forall|other: Seq<Seq<char>>|
                        self.directories().contains(other) implies #[trigger] self@[other]
                        == with_child(before@, key, child@)[other] && (other == key
                        || before.directories().contains(other)) by {
                        let at = self.directories().index_of(other);
                        self.lemma_entry_in_view(at);
                        if at < last {
                            before.lemma_entry_in_view(at);
                            assert(before.directories()[at] == other);
                        } else {
                            assert(!before@.dom().contains(key));
                        }
                    }
                    assert forall|other: Seq<Seq<char>>|
                        before.directories().contains(other) implies self.directories().contains(
                        other,
                    ) by {
                        let at = before.directories().index_of(other);
                        assert(self.directories()[at] == other);
                    }
                    assert(self@ =~= with_child(before@, key, child@));
                }
            },
        }
    }
}

/// Recording the next level of `directory` extends the recorded ancestors by one.
proof fn lemma_with_ancestors_step(
    hierarchy: Map<Seq<Seq<char>>, Set<Seq<char>>>,
    directory: Seq<Seq<char>>,
    depth: int,
)
    requires
        0 <= depth < directory.len(),
    ensures
        with_child(with_ancestors(hierarchy, directory, depth), directory.take(depth), directory[depth])
            == with_ancestors(hierarchy, directory, depth + 1),
{
    let parent = directory.take(depth);
    let so_far = with_ancestors(hierarchy, directory, depth);
    let left = with_child(so_far, parent, directory[depth]);
    let right = with_ancestors(hierarchy, directory, depth + 1);
    assert(directory.take(parent.len() as int) =~= parent);
    assert(is_ancestor_of(parent, directory));
    assert forall|other: Seq<Seq<char>>|
        is_ancestor_of(other, directory) && other.len() == depth implies other == parent by {
        assert(other =~= directory.take(depth));
    }
    assert forall|other: Seq<Seq<char>>| left.dom().contains(other) <==> right.dom().contains(
        other,
    ) by {}
    assert forall|other: Seq<Seq<char>>| left.dom().contains(other) implies #[trigger] left[other]
        == right[other] by {
        if other == parent {
            assert(children_at(so_far, parent) == children_at(hierarchy, parent));
        }
    }
    assert(left =~= right);
}

/// Records every ancestor of the package's directory in `accumulator`, each
/// with the component of the directory that lies directly below it.
pub fn key_children_by_parent(
    accumulator: DirectoryHierarchy,
    package_manifest: &PackageManifest,
) -> (hierarchy: DirectoryHierarchy)
    requires
        accumulator.wf(),
    ensures
        hierarchy.wf(),
        hierarchy@ == with_directory(accumulator@, package_manifest.directory.deep_view()),
{
    let ghost start = accumulator@;
    let ghost directory = package_manifest.directory.deep_view();
    let mut hierarchy = accumulator;
    let mut path_so_far: Vec<String> = Vec::new();
    let mut depth: usize = 0;
    assert(path_so_far.deep_view() =~= directory.take(0));
    assert(hierarchy@ =~= with_ancestors(start, directory, 0));
    while depth < package_manifest.directory.len()
        invariant
            depth <= package_manifest.directory.len(),
            directory == package_manifest.directory.deep_view(),
            hierarchy.wf(),
            path_so_far.deep_view() == directory.take(depth as int),
            hierarchy@ == with_ancestors(start, directory, depth as int),
        decreases package_manifest.directory.len() - depth,
    {
        let new_child = package_manifest.directory[depth].clone();
        hierarchy.record_child(&path_so_far, new_child.clone());
        let ghost before = path_so_far.deep_view();
        path_so_far.push(new_child);
        proof {
            assert(path_so_far.deep_view() =~= before.push(new_child@));
            assert(directory.take(depth + 1) =~= before.push(directory[depth as int]));
            lemma_with_ancestors_step(start, directory, depth as int);
        }
        depth += 1;
    }
    hierarchy
}

/// Adding a directory to a set of directories adds its ancestors to the hierarchy.
pub proof fn lemma_hierarchy_of_push(directories: Seq<Seq<Seq<char>>>, directory: Seq<Seq<char>>)
    ensures
        hierarchy_of(directories.push(directory)) == with_directory(
            hierarchy_of(directories),
            directory,
        ),
{
    let more = directories.push(directory);
    let left = hierarchy_of(more);
    let right = with_directory(hierarchy_of(directories), directory);
    assert forall|parent: Seq<Seq<char>>| left.dom().contains(parent) <==> right.dom().contains(
        parent,
    ) by {
        if has_descendant(more, parent) {
            let j = choose|j: int| 0 <= j < more.len() && is_ancestor_of(parent, #[trigger] more[j]);
            if j < directories.len() {
                assert(more[j] == directories[j]);
            }
        }
        if has_descendant(directories, parent) {
            let j = choose|j: int|
                0 <= j < directories.len() && is_ancestor_of(parent, #[trigger] directories[j]);
            assert(more[j] == directories[j]);
        }
        if is_ancestor_of(parent, directory) {
            assert(more[directories.len() as int] == directory);
        }
    }
    assert forall|parent: Seq<Seq<char>>| left.dom().contains(parent) implies #[trigger] left[parent]
        =~= right[parent] by {
        assert forall|child: Seq<char>| left[parent].contains(child) <==> right[parent].contains(
            child,
        ) by {
            if has_child(more, parent, child) {
                let j = choose|j: int|
                    0 <= j < more.len() && is_ancestor_of(parent, #[trigger] more[j])
                        && child_below(parent, more[j]) == child;
                if j < directories.len() {
                    assert(more[j] == directories[j]);
                    assert(has_child(directories, parent, child));
                    assert(has_descendant(directories, parent));
                }
            }
            if has_child(directories, parent, child) {
                let j = choose|j: int|
                    0 <= j < directories.len() && is_ancestor_of(parent, #[trigger] directories[j])
                        && child_below(parent, directories[j]) == child;
                assert(more[j] == directories[j]);
            }
            if is_ancestor_of(parent, directory) {
                assert(more[directories.len() as int] == directory);
            }
        }
    }
    assert(left =~= right);
}

/// The hierarchy of the directories of `manifests`.
pub fn directory_hierarchy(manifests: &Vec<PackageManifest>) -> (hierarchy: DirectoryHierarchy)
    ensures
        hierarchy.wf(),
        hierarchy@ == hierarchy_of(manifest_directories(manifests@)),
{
    let ghost directories = manifest_directories(manifests@);
    let mut hierarchy = DirectoryHierarchy::new();
    let mut index: usize = 0;
    assert(hierarchy@ =~= hierarchy_of(directories.take(0)));
    while index < manifests.len()
        invariant
            index <= manifests.len(),
            directories == manifest_directories(manifests@),
            hierarchy.wf(),
            hierarchy@ == hierarchy_of(directories.take(index as int)),
        decreases manifests.len() - index,
    {
        hierarchy = key_children_by_parent(hierarchy, &manifests[index]);
        proof {
            lemma_hierarchy_of_push(directories.take(index as int), directories[index as int]);
            assert(directories.take(index + 1) =~= directories.take(index as int).push(
                directories[index as int],
            ));
        }
        index += 1;
    }
    assert(directories.take(index as int) =~= directories);
    hierarchy
}

/// Every directory above a package has an entry, the root included, and the
/// entry lists the component through which the package is reached.
pub proof fn lemma_hierarchy_complete(directories: Seq<Seq<Seq<char>>>, package: int, depth: int)
    requires
        0 <= package < directories.len(),
        0 <= depth < directories[package].len(),
    ensures
        hierarchy_of(directories).dom().contains(directories[package].take(depth)),
        hierarchy_of(directories)[directories[package].take(depth)].contains(
            directories[package][depth],
        ),
{
    let directory = directories[package];
    let parent = directory.take(depth);
    assert(directory.take(parent.len() as int) =~= parent);
    assert(is_ancestor_of(parent, directories[package]));
}

/// A hierarchy of `directories` has exactly one entry for each directory
/// above a package, and that entry lists the component through which the
/// package is reached exactly once, however many packages pass through it.
pub proof fn lemma_hierarchy_lists_child_once(
    hierarchy: DirectoryHierarchy,
    directories: Seq<Seq<Seq<char>>>,
    package: int,
    depth: int,
)
    requires
        hierarchy.wf(),
        hierarchy@ == hierarchy_of(directories),
        0 <= package < directories.len(),
        0 <= depth < directories[package].len(),
    ensures
        hierarchy.directories().to_multiset().count(directories[package].take(depth)) == 1,
        hierarchy.child_lists()[hierarchy.directories().index_of(
            directories[package].take(depth),
        )].to_multiset().count(directories[package][depth]) == 1,
{
    let parent = directories[package].take(depth);
    let child = directories[package][depth];
    lemma_hierarchy_complete(directories, package, depth);
    assert(hierarchy@.dom().contains(parent));
    assert(hierarchy.directories().contains(parent));
    let index = hierarchy.directories().index_of(parent);
    hierarchy.lemma_entry_in_view(index);
    let children = hierarchy.child_lists()[index];
    assert(children.to_set().contains(child));
    assert(children.contains(child));
    hierarchy.directories().lemma_multiset_has_no_duplicates();
    children.lemma_multiset_has_no_duplicates();
    vstd::seq_lib::to_multiset_contains(hierarchy.directories(), parent);
    vstd::seq_lib::to_multiset_contains(children, child);
}

/// Every entry of the hierarchy lies above some package, and every child that
/// it lists leads to one.
pub proof fn lemma_hierarchy_sound(
    directories: Seq<Seq<Seq<char>>>,
    parent: Seq<Seq<char>>,
    child: Seq<char>,
)
    requires
        hierarchy_of(directories).dom().contains(parent),
        hierarchy_of(directories)[parent].contains(child),
    ensures
        exists|package: int|
            0 <= package < directories.len() && parent.len() < (#[trigger] directories[package]).len()
                && directories[package].take(parent.len() as int) == parent
                && directories[package][parent.len() as int] == child,
{
    let package = choose|j: int|
        0 <= j < directories.len() && is_ancestor_of(parent, #[trigger] directories[j])
            && child_below(parent, directories[j]) == child;
    assert(parent.len() < directories[package].len());
}

/// The hierarchy does not depend on the order in which the packages come, nor
/// on how often one is named.
pub proof fn lemma_hierarchy_order_independent(
    first: Seq<Seq<Seq<char>>>,
    second: Seq<Seq<Seq<char>>>,
)
    requires
        first.to_set() == second.to_set(),
    ensures
        hierarchy_of(first) == hierarchy_of(second),
{
    lemma_hierarchy_included(first, second);
    lemma_hierarchy_included(second, first);
    let left = hierarchy_of(first);
    let right = hierarchy_of(second);
    assert forall|parent: Seq<Seq<char>>| left.dom().contains(parent) implies #[trigger] left[parent]
        =~= right[parent] by {}
    assert(left =~= right);
}

proof fn lemma_hierarchy_included(first: Seq<Seq<Seq<char>>>, second: Seq<Seq<Seq<char>>>)
    requires
        first.to_set() == second.to_set(),
    ensures
        forall|parent: Seq<Seq<char>>|
            has_descendant(first, parent) ==> has_descendant(second, parent),
        forall|parent: Seq<Seq<char>>, child: Seq<char>|
            has_child(first, parent, child) ==> has_child(second, parent, child),
{
    assert forall|parent: Seq<Seq<char>>| has_descendant(first, parent) implies has_descendant(
        second,
        parent,
    ) by {
        let j = choose|j: int| 0 <= j < first.len() && is_ancestor_of(parent, #[trigger] first[j]);
        assert(first.contains(first[j]));
        assert(first.to_set().contains(first[j]));
        assert(second.contains(first[j]));
        let k = second.index_of(first[j]);
        assert(is_ancestor_of(parent, second[k]));
    }
    assert forall|parent: Seq<Seq<char>>, child: Seq<char>|
        has_child(first, parent, child) implies has_child(second, parent, child) by {
        let j = choose|j: int|
            0 <= j < first.len() && is_ancestor_of(parent, #[trigger] first[j]) && child_below(
                parent,
                first[j],
            ) == child;
        assert(first.contains(first[j]));
        assert(first.to_set().contains(first[j]));
        assert(second.contains(first[j]));
        let k = second.index_of(first[j]);
        assert(is_ancestor_of(parent, second[k]) && child_below(parent, second[k]) == child);
    }
}

} // verus!
