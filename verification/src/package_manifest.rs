//! What the library reads of a package's manifest.

use vstd::prelude::*;

verus! {

/// One package of the monorepo.
#[derive(Clone, Debug, PartialEq, Eq)]
pub struct PackageManifest {
    /// The package's name.
    pub name: String,
    /// The package's directory below the monorepo root, one string per path component.
    pub directory: Vec<String>,
    /// The names of the packages that this one declares a dependency on. Those
    /// that name a package of the monorepo are its internal dependencies.
    pub dependencies: Vec<String>,
}

/// The directories of `manifests`, in their order.
pub open spec fn manifest_directories(manifests: Seq<PackageManifest>) -> Seq<Seq<Seq<char>>> {
    Seq::new(manifests.len(), |i: int| manifests[i].directory.deep_view())
}

/// The names of `manifests`, in their order.
pub open spec fn manifest_names(manifests: Seq<PackageManifest>) -> Seq<Seq<char>> {
    Seq::new(manifests.len(), |i: int| manifests[i].name@)
}

} // verus!
