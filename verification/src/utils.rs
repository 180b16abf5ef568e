//! Small helpers on paths.

use vstd::prelude::*;
use crate::path_extensions::parent_spec;
use crate::path_extensions::ComponentView;
use crate::path_extensions::FilePath;
use crate::sln::file::project_suffix;
use crate::text::chars_of;

verus! {

/// The directory `steps` levels above a path; `None` where the path has no
/// such directory.
pub open spec fn ancestor_spec(path: Seq<ComponentView>, steps: nat) -> Option<Seq<ComponentView>>
    decreases steps,
{
    if steps == 0 {
        Some(path)
    } else {
        match ancestor_spec(path, (steps - 1) as nat) {
            Some(below) => parent_spec(below),
            None => None,
        }
    }
}

/// Finds the root of the repository that holds `dir`: the nearest of `dir`
/// and the directories above it that holds a `.git` directory. The caller
/// says of each of them whether it does: `contains_git[0]` of `dir` itself,
/// `contains_git[1]` of the directory above it, and so on; a directory that
/// the caller says nothing of counts as holding none.
pub fn find_git_root(dir: &FilePath, contains_git: &Vec<bool>) -> (out: Option<FilePath>)
    ensures
        match out {
            Some(root) => exists|k: nat|
                k < contains_git.len() && #[trigger] contains_git@[k as int] && ancestor_spec(
                    dir@,
                    k,
                ) == Some(root@) && forall|j: int| 0 <= j < k ==> !contains_git@[j],
            None => forall|k: nat|
                k < contains_git.len() && ancestor_spec(dir@, k) is Some
                    ==> !#[trigger] contains_git@[k as int],
        },
{
    let mut current = dir.clone();
    let mut k: usize = 0;
    while k < contains_git.len()
        invariant
            k <= contains_git.len(),
            ancestor_spec(dir@, k as nat) == Some(current@),
            forall|j: int| 0 <= j < k ==> !contains_git@[j],
        decreases contains_git.len() - k,
    {
        if contains_git[k] {
            assert(contains_git@[k as int] && ancestor_spec(dir@, k as nat) == Some(current@));
            return Some(current);
        }
        match current.parent() {
            Some(above) => {
                current = above;
            },
            None => {
                proof {
                    assert(ancestor_spec(dir@, (k + 1) as nat) is None);
                    assert forall|m: nat|
                        m < contains_git.len() && ancestor_spec(dir@, m) is Some
                            implies !#[trigger] contains_git@[m as int] by {
                        if m > k {
                            lemma_no_ancestor_above(dir@, (k + 1) as nat, m);
                        }
                    }
                }
                return None;
            },
        }
        k += 1;
    }
    None
}

/// Above a level where a path has no directory, it has none either.
proof fn lemma_no_ancestor_above(path: Seq<ComponentView>, at: nat, above: nat)
    requires
        at <= above,
        ancestor_spec(path, at) is None,
    ensures
        ancestor_spec(path, above) is None,
    decreases above - at,
{
    if at < above {
        lemma_no_ancestor_above(path, at, (above - 1) as nat);
    }
}

/// Whether a name is that of a project file: it ends in `.csproj`, behind at
/// least one more character.
pub open spec fn is_project_name(name: Seq<char>) -> bool {
    name.len() > 7 && name.skip(name.len() - 7) == project_suffix()
}

/// Whether a path names a project file.
pub open spec fn is_project_path(path: Seq<ComponentView>) -> bool {
    path.len() > 0 && match path.last() {
        ComponentView::Normal(name) => is_project_name(name),
        _ => false,
    }
}

/// Tells whether a path names a project file: whether its last component is
/// a name with the extension `csproj`.
pub fn path_extension_is_csproj(path: &FilePath) -> (yes: bool)
    ensures
        yes == is_project_path(path@),
{
    match path.file_name() {
        Some(name) => {
            let chars = chars_of(name.as_str());
            let n = chars.len();
            let yes = n > 7 && chars[n - 7] == '.' && chars[n - 6] == 'c' && chars[n - 5] == 's'
                && chars[n - 4] == 'p' && chars[n - 3] == 'r' && chars[n - 2] == 'o' && chars[n
                - 1] == 'j';
            proof {
                if yes {
                    assert(name@.skip(n - 7) =~= project_suffix());
                } else if n > 7 && name@.skip(n - 7) == project_suffix() {
                    let tail = name@.skip(n - 7);
                    assert(tail[0] == '.' && tail[1] == 'c' && tail[2] == 's' && tail[3] == 'p'
                        && tail[4] == 'r' && tail[5] == 'o' && tail[6] == 'j');
                }
            }
            yes
        },
        None => false,
    }
}

} // verus!
