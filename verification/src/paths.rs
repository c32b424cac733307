//! Directories as text, and the relative path from one directory to another.

use vstd::prelude::*;
use vstd::string::*;

verus! {

/// The components of a directory written as one path, with `/` between them.
/// The root, which has no components, is the empty path.
pub open spec fn joined(components: Seq<Seq<char>>) -> Seq<char>
    decreases components.len(),
{
    if components.len() == 0 {
        Seq::empty()
    } else if components.len() == 1 {
        components[0]
    } else {
        joined(components.drop_last()) + seq!['/'] + components.last()
    }
}

/// The directory `components` written as one path.
pub fn join_path(components: &Vec<String>) -> (path: String)
    ensures
        path@ == joined(components.deep_view()),
{
    let ghost all = components.deep_view();
    let mut path = String::new();
    let mut index: usize = 0;
    assert(all.take(0) =~= Seq::<Seq<char>>::empty());
    while index < components.len()
        invariant
            index <= components.len(),
            all == components.deep_view(),
            path@ == joined(all.take(index as int)),
        decreases components.len() - index,
    {
        let ghost so_far = all.take(index as int);
        let ghost next = all.take(index + 1);
        proof {
            assert(next.drop_last() =~= so_far);
            assert(next.last() == components[index as int]@);
        }
        if index > 0 {
            proof {
                reveal_strlit("/");
            }
            path.append("/");
            assert("/"@ =~= seq!['/']);
        }
        path.append(components[index].as_str());
        index += 1;
    }
    assert(all.take(index as int) =~= all);
    path
}

/// What `pathdiff::diff_paths` returns for the paths `path` and `base`, as
/// text: the relative path that leads from `base` to `path`, or nothing
/// where the crate finds none. The paths are read by the rules of the
/// platform that the library is built for.
pub uninterp spec fn diff_paths_result(path: Seq<char>, base: Seq<char>) -> Option<Seq<char>>;

/// Calls `pathdiff::diff_paths(path, base)`. The contract names the result
/// and claims nothing else of it: that the call returns, that what it
/// returns depends on the two paths alone, and that a path made from text
/// is text again.
#[verifier::external_body]
fn diff_paths(path: &str, base: &str) -> (relative: Option<String>)
    ensures
        relative is Some <==> diff_paths_result(path@, base@) is Some,
        relative matches Some(text) ==> diff_paths_result(path@, base@) == Some(text@),
{
    pathdiff::diff_paths(path, base).map(|found| found.to_string_lossy().into_owned())
}

/// The relative path from the directory `base` to the directory `path`.
pub open spec fn relative_path_of(path: Seq<Seq<char>>, base: Seq<Seq<char>>) -> Option<
    Seq<char>,
> {
    diff_paths_result(joined(path), joined(base))
}

/// The relative path that leads from the directory `base` to the directory
/// `path`, where there is one.
pub fn relative_path(path: &Vec<String>, base: &Vec<String>) -> (relative: Option<String>)
    ensures
        relative is Some <==> relative_path_of(path.deep_view(), base.deep_view()) is Some,
        relative matches Some(text) ==> relative_path_of(path.deep_view(), base.deep_view())
            == Some(text@),
{
    let path_text = join_path(path);
    let base_text = join_path(base);
    diff_paths(path_text.as_str(), base_text.as_str())
}

} // verus!
