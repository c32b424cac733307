//! Sorting path strings into the order in which references are stored.

use crate::path_order::{lemma_path_order_total, path_le, path_order, path_precedes};
use vstd::prelude::*;
use vstd::relations::*;
use vstd::seq_lib::*;

verus! {

/// The paths of `paths` in ascending stored order.
pub open spec fn sorted_paths(paths: Seq<Seq<char>>) -> Seq<Seq<char>> {
    paths.sort_by(path_order())
}

/// `paths` is in ascending stored order.
pub open spec fn paths_sorted(paths: Seq<Seq<char>>) -> bool {
    sorted_by(paths, path_order())
}

/// `sorted_paths` keeps every path, as often as it occurs, and orders them.
pub proof fn lemma_sorted_paths_is_sorted_permutation(paths: Seq<Seq<char>>)
    ensures
        paths_sorted(sorted_paths(paths)),
        sorted_paths(paths).to_multiset() == paths.to_multiset(),
        sorted_paths(paths).len() == paths.len(),
{
    lemma_path_order_total();
    paths.lemma_sort_by_ensures(path_order());
    to_multiset_len(paths);
    to_multiset_len(sorted_paths(paths));
}

/// There is one ascending arrangement of a given collection of paths.
pub proof fn lemma_sorted_paths_unique(sorted: Seq<Seq<char>>, paths: Seq<Seq<char>>)
    requires
        paths_sorted(sorted),
        sorted.to_multiset() == paths.to_multiset(),
    ensures
        sorted == sorted_paths(paths),
{
    lemma_path_order_total();
    paths.lemma_sort_by_ensures(path_order());
    lemma_sorted_unique(sorted, sorted_paths(paths), path_order());
}

/// A sorted list is its own sorted arrangement.
pub proof fn lemma_sorted_paths_idempotent(paths: Seq<Seq<char>>)
    ensures
        sorted_paths(sorted_paths(paths)) == sorted_paths(paths),
{
    lemma_sorted_paths_is_sorted_permutation(paths);
    lemma_sorted_paths_unique(sorted_paths(paths), sorted_paths(paths));
}

/// The sorted arrangement depends on which paths there are and how often
/// each occurs, not on the order in which they come.
pub proof fn lemma_sorted_paths_order_independent(first: Seq<Seq<char>>, second: Seq<Seq<char>>)
    requires
        first.to_multiset() == second.to_multiset(),
    ensures
        sorted_paths(first) == sorted_paths(second),
{
    lemma_sorted_paths_is_sorted_permutation(first);
    lemma_sorted_paths_unique(sorted_paths(first), second);
}

/// Two lists have the same sorted arrangement only if they hold the same
/// paths, each as often in the one as in the other.
pub proof fn lemma_same_sorted_paths_same_multiset(first: Seq<Seq<char>>, second: Seq<Seq<char>>)
    requires
        sorted_paths(first) == sorted_paths(second),
    ensures
        first.to_multiset() == second.to_multiset(),
{
    lemma_sorted_paths_is_sorted_permutation(first);
    lemma_sorted_paths_is_sorted_permutation(second);
}

/// Two lists without repetitions that hold the same paths have the same
/// sorted arrangement.
pub proof fn lemma_sorted_paths_of_same_set(first: Seq<Seq<char>>, second: Seq<Seq<char>>)
    requires
        first.no_duplicates(),
        second.no_duplicates(),
        first.to_set() == second.to_set(),
    ensures
        sorted_paths(first) == sorted_paths(second),
{
    first.lemma_multiset_has_no_duplicates();
    second.lemma_multiset_has_no_duplicates();
    assert forall|path: Seq<char>|
        first.to_multiset().count(path) == second.to_multiset().count(path) by {
        to_multiset_contains(first, path);
        to_multiset_contains(second, path);
        assert(first.contains(path) == first.to_set().contains(path));
        assert(second.contains(path) == second.to_set().contains(path));
    }
    assert(first.to_multiset() =~= second.to_multiset());
    lemma_sorted_paths_order_independent(first, second);
}

proof fn lemma_insert_keeps_sorted(old_paths: Seq<Seq<char>>, pos: int, path: Seq<char>)
    requires
        paths_sorted(old_paths),
        0 <= pos <= old_paths.len(),
        forall|k: int| 0 <= k < pos ==> path_le(#[trigger] old_paths[k], path),
        pos < old_paths.len() ==> !path_le(old_paths[pos], path),
    ensures
        paths_sorted(old_paths.insert(pos, path)),
{
    lemma_path_order_total();
    let r = path_order();
    let new_paths = old_paths.insert(pos, path);
    assert forall|i: int, j: int| 0 <= i < j < new_paths.len() implies #[trigger] r(
        new_paths[i],
        new_paths[j],
    ) by {
        if j == pos {
            assert(new_paths[i] == old_paths[i]);
            assert(path_le(old_paths[i], path));
        } else if i == pos {
            assert(new_paths[j] == old_paths[j - 1]);
            assert(r(old_paths[pos], path) || r(path, old_paths[pos]));
            if j - 1 > pos {
                assert(r(old_paths[pos], old_paths[j - 1]));
                assert(r(path, old_paths[pos]) && r(old_paths[pos], old_paths[j - 1]));
            }
        } else {
            let oi = if i < pos {
                i
            } else {
                i - 1
            };
            let oj = if j < pos {
                j
            } else {
                j - 1
            };
            assert(new_paths[i] == old_paths[oi]);
            assert(new_paths[j] == old_paths[oj]);
            assert(r(old_paths[oi], old_paths[oj]));
        }
    }
}

/// The strings of `paths` in ascending stored order.
pub fn sort_paths(paths: &Vec<String>) -> (sorted: Vec<String>)
    ensures
        sorted.deep_view() == sorted_paths(paths.deep_view()),
{
    let mut out: Vec<String> = Vec::new();
    let mut i: usize = 0;
    assert(out.deep_view() =~= paths.deep_view().take(0));
    while i < paths.len()
        invariant
            i <= paths.len(),
            paths_sorted(out.deep_view()),
            out.deep_view().to_multiset() == paths.deep_view().take(i as int).to_multiset(),
        decreases paths.len() - i,
    {
        let path = paths[i].clone();
        let mut pos: usize = 0;
        while pos < out.len() && path_precedes(&out[pos], &path)
            invariant
                pos <= out.len(),
                forall|k: int| 0 <= k < pos ==> path_le(#[trigger] out.deep_view()[k], path@),
            decreases out.len() - pos,
        {
            pos += 1;
        }
        let ghost before = out.deep_view();
        out.insert(pos, path);
        proof {
            assert(out.deep_view() =~= before.insert(pos as int, path@));
            lemma_insert_keeps_sorted(before, pos as int, path@);
            to_multiset_insert(before, pos as int, path@);
            let prefix = paths.deep_view().take(i as int);
            assert(paths.deep_view().take(i + 1) =~= prefix.push(path@));
            to_multiset_build(prefix, path@);
        }
        i += 1;
    }
    proof {
        assert(paths.deep_view().take(i as int) =~= paths.deep_view());
        lemma_sorted_paths_unique(out.deep_view(), paths.deep_view());
    }
    out
}

} // verus!
