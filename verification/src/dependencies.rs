//! The internal dependencies of a package, as paths relative to its directory.

use crate::package_manifest::PackageManifest;
use crate::paths::{relative_path, relative_path_of};
use vstd::prelude::*;

verus! {

/// `index` is where the first package named `name` stands in `manifests`.
pub open spec fn first_named(manifests: Seq<PackageManifest>, name: Seq<char>, index: int) -> bool {
    &&& 0 <= index < manifests.len()
    &&& manifests[index].name@ == name
    &&& forall|k: int| 0 <= k < index ==> (#[trigger] manifests[k]).name@ != name
}

/// The directory of the package named `name`: of the first one, should
/// several have the name. Nothing where no package of the monorepo has it.
pub open spec fn resolve(manifests: Seq<PackageManifest>, name: Seq<char>) -> Option<
    Seq<Seq<char>>,
> {
    if exists|index: int| first_named(manifests, name, index) {
        Some(manifests[choose|index: int| first_named(manifests, name, index)].directory.deep_view())
    } else {
        None
    }
}

/// Where the package named `name` stands in `manifests`, if there is one.
pub fn find_package(manifests: &Vec<PackageManifest>, name: &String) -> (position: Option<usize>)
    ensures
        match position {
            Some(index) => first_named(manifests@, name@, index as int) && resolve(
                manifests@,
                name@,
            ) == Some(manifests[index as int].directory.deep_view()),
            None => resolve(manifests@, name@) is None,
        },
{
    let mut index: usize = 0;
    while index < manifests.len()
        invariant
            index <= manifests.len(),
            forall|k: int| 0 <= k < index ==> (#[trigger] manifests[k]).name@ != name@,
        decreases manifests.len() - index,
    {
        if manifests[index].name == *name {
            proof {
                lemma_first_named_unique(manifests@, name@, index as int);
            }
            return Some(index);
        }
        index += 1;
    }
    None
}

/// The first package of a name is the one that `resolve` gives.
pub proof fn lemma_first_named_unique(manifests: Seq<PackageManifest>, name: Seq<char>, index: int)
    requires
        first_named(manifests, name, index),
    ensures
        resolve(manifests, name) == Some(manifests[index].directory.deep_view()),
{
    let chosen = choose|other: int| first_named(manifests, name, other);
    assert(first_named(manifests, name, chosen));
    if chosen < index {
        assert(manifests[chosen].name@ != name);
    } else if index < chosen {
        assert(manifests[index].name@ != name);
    }
}

/// `first` and `second` name the same package: they agree on name and directory.
pub open spec fn same_package(first: PackageManifest, second: PackageManifest) -> bool {
    first.name@ == second.name@ && first.directory.deep_view() == second.directory.deep_view()
}

/// Every package of `first` is among `second`.
pub open spec fn packages_among(first: Seq<PackageManifest>, second: Seq<PackageManifest>) -> bool {
    forall|i: int|
        0 <= i < first.len() ==> exists|j: int|
            0 <= j < second.len() && same_package(#[trigger] first[i], #[trigger] second[j])
}

/// No two packages of `manifests` have the same name.
pub open spec fn names_distinct(manifests: Seq<PackageManifest>) -> bool {
    forall|i: int, j: int|
        0 <= i < j < manifests.len() ==> (#[trigger] manifests[i]).name@ != (
        #[trigger] manifests[j]).name@
}

proof fn lemma_resolve_among(
    first: Seq<PackageManifest>,
    second: Seq<PackageManifest>,
    name: Seq<char>,
)
    requires
        names_distinct(second),
        packages_among(first, second),
        resolve(first, name) is Some,
    ensures
        resolve(second, name) == resolve(first, name),
{
    let i = choose|index: int| first_named(first, name, index);
    assert(first_named(first, name, i));
    let j = choose|j: int| 0 <= j < second.len() && same_package(first[i], #[trigger] second[j]);
    assert forall|k: int| 0 <= k < j implies (#[trigger] second[k]).name@ != name by {
        assert(second[k].name@ != second[j].name@);
    }
    assert(first_named(second, name, j));
    lemma_first_named_unique(second, name, j);
}

/// Where no two packages share a name, the directory that a name stands for
/// does not depend on the order in which the packages come.
pub proof fn lemma_resolve_order_independent(
    first: Seq<PackageManifest>,
    second: Seq<PackageManifest>,
    name: Seq<char>,
)
    requires
        names_distinct(first),
        names_distinct(second),
        packages_among(first, second),
        packages_among(second, first),
    ensures
        resolve(first, name) == resolve(second, name),
{
    if resolve(first, name) is Some {
        lemma_resolve_among(first, second, name);
    } else if resolve(second, name) is Some {
        lemma_resolve_among(second, first, name);
    }
}

/// Where no two packages share a name, the relative paths to the internal
/// dependencies of a package, and whether there are such paths, do not
/// depend on the order in which the packages come.
pub proof fn lemma_dependency_paths_order_independent(
    first: Seq<PackageManifest>,
    second: Seq<PackageManifest>,
    base: Seq<Seq<char>>,
    dependencies: Seq<Seq<char>>,
)
    requires
        names_distinct(first),
        names_distinct(second),
        packages_among(first, second),
        packages_among(second, first),
    ensures
        dependency_paths(first, base, dependencies) == dependency_paths(second, base, dependencies),
        dependencies_reachable(first, base, dependencies) == dependencies_reachable(
            second,
            base,
            dependencies,
        ),
    decreases dependencies.len(),
{
    assert forall|k: int| 0 <= k < dependencies.len() implies resolve(
        first,
        #[trigger] dependencies[k],
    ) == resolve(second, dependencies[k]) by {
        lemma_resolve_order_independent(first, second, dependencies[k]);
    }
    if dependencies.len() > 0 {
        lemma_dependency_paths_order_independent(first, second, base, dependencies.drop_last());
        lemma_resolve_order_independent(first, second, dependencies.last());
    }
}

/// Every internal dependency among `dependencies` can be reached from
/// `base` by a relative path.
pub open spec fn dependencies_reachable(
    manifests: Seq<PackageManifest>,
    base: Seq<Seq<char>>,
    dependencies: Seq<Seq<char>>,
) -> bool {
    forall|k: int|
        0 <= k < dependencies.len() ==> (resolve(manifests, #[trigger] dependencies[k]) matches Some(
            directory,
        ) ==> relative_path_of(directory, base) is Some)
}

/// The relative paths from `base` to the internal dependencies among
/// `dependencies`, in the order in which they are declared. A name that no
/// package of the monorepo has stands for an outside package and adds nothing.
pub open spec fn dependency_paths(
    manifests: Seq<PackageManifest>,
    base: Seq<Seq<char>>,
    dependencies: Seq<Seq<char>>,
) -> Seq<Seq<char>>
    decreases dependencies.len(),
{
    if dependencies.len() == 0 {
        Seq::empty()
    } else {
        let earlier = dependency_paths(manifests, base, dependencies.drop_last());
        match resolve(manifests, dependencies.last()) {
            Some(directory) => match relative_path_of(directory, base) {
                Some(path) => earlier.push(path),
                None => earlier,
            },
            None => earlier,
        }
    }
}

/// The relative paths from the directory of `package` to its internal
/// dependencies, in the order in which it declares them; nothing if one of
/// them cannot be reached by a relative path.
pub fn internal_dependency_paths(
    package: &PackageManifest,
    manifests: &Vec<PackageManifest>,
) -> (paths: Option<Vec<String>>)
    ensures
        paths is Some <==> dependencies_reachable(
            manifests@,
            package.directory.deep_view(),
            package.dependencies.deep_view(),
        ),
        paths matches Some(found) ==> found.deep_view() == dependency_paths(
            manifests@,
            package.directory.deep_view(),
            package.dependencies.deep_view(),
        ),
{
    let ghost base = package.directory.deep_view();
    let ghost names = package.dependencies.deep_view();
    let mut found: Vec<String> = Vec::new();
    let mut index: usize = 0;
    assert(names.take(0) =~= Seq::<Seq<char>>::empty());
    assert(found.deep_view() =~= Seq::<Seq<char>>::empty());
    while index < package.dependencies.len()
        invariant
            index <= package.dependencies.len(),
            base == package.directory.deep_view(),
            names == package.dependencies.deep_view(),
            dependencies_reachable(manifests@, base, names.take(index as int)),
            found.deep_view() == dependency_paths(manifests@, base, names.take(index as int)),
        decreases package.dependencies.len() - index,
    {
        let ghost before = found.deep_view();
        let ghost next = names.take(index + 1);
        proof {
            assert(next.drop_last() =~= names.take(index as int));
            assert(next.last() == names[index as int]);
            assert(names[index as int] == package.dependencies[index as int]@);
        }
        match find_package(manifests, &package.dependencies[index]) {
            Some(position) => {
                match relative_path(&manifests[position].directory, &package.directory) {
                    Some(path) => {
                        found.push(path);
                        assert(found.deep_view() =~= before.push(path@));
                    },
                    None => {
                        assert(!dependencies_reachable(manifests@, base, names));
                        return None;
                    },
                }
            },
            None => {},
        }
        proof {
            assert forall|k: int| 0 <= k < next.len() implies (resolve(
                manifests@,
                #[trigger] next[k],
            ) matches Some(directory) ==> relative_path_of(directory, base) is Some) by {
                if k < index {
                    assert(next[k] == names.take(index as int)[k]);
                }
            }
        }
        index += 1;
    }
    assert(names.take(index as int) =~= names);
    Some(found)
}

} // verus!
