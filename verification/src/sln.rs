//! Solution files: the folder tree of a set of projects, and its text.

pub mod file;
pub mod types;

use vstd::prelude::*;
use crate::path_extensions::join_components_spec;
use crate::path_extensions::parent_spec;
use crate::path_extensions::relative_path;
use crate::path_extensions::relative_path_spec;
use crate::path_extensions::Component;
use crate::path_extensions::ComponentView;
use crate::path_extensions::FilePath;
use crate::path_extensions::PathExt;
use crate::sln::file::inner_nodes_spec;
use crate::sln::file::insert_spec;
use crate::sln::file::lemma_put_keeps_order;
use crate::sln::file::lemma_slot;
use crate::sln::file::names_ascend;
use crate::sln::file::put;
use crate::sln::file::slot;
use crate::sln::file::holds_name;
use crate::sln::file::ChildrenView;
use crate::sln::file::Directory;
use crate::sln::file::Guid;
use crate::sln::file::InnerNodeView;
use crate::sln::file::NodeView;
use crate::sln::file::SolutionError;
use crate::sln::file::SolutionFile;
use crate::text::texts;

verus! {

/// A project that goes into a solution: its identity, and its identifier
/// where it has one already.
#[derive(Debug, PartialEq, Eq)]
pub struct SolutionProject {
    pub path: FilePath,
    pub guid: Option<Guid>,
}

/// The mathematical value of a [`SolutionProject`].
pub struct SolutionProjectView {
    pub path: Seq<ComponentView>,
    pub guid: Option<u128>,
}

impl View for SolutionProject {
    type V = SolutionProjectView;

    open spec fn view(&self) -> SolutionProjectView {
        SolutionProjectView {
            path: self.path@,
            guid: match self.guid {
                Some(g) => Some(g.value),
                None => None,
            },
        }
    }
}

/// The projects of a vector, as mathematical values.
pub open spec fn solution_projects_view(projects: Seq<SolutionProject>) -> Seq<SolutionProjectView> {
    projects.map_values(|p: SolutionProject| p@)
}

/// The names along a path that leads down from the directory of the
/// solution. A step up means that the project lies outside that directory;
/// any other component that is no name is refused too. The first component
/// that is no name decides.
pub open spec fn segments_spec(path: Seq<ComponentView>) -> Result<Seq<Seq<char>>, SolutionError>
    decreases path.len(),
{
    if path.len() == 0 {
        Ok(Seq::empty())
    } else {
        match path[0] {
            ComponentView::Normal(name) => match segments_spec(path.skip(1)) {
                Ok(rest) => Ok(seq![name] + rest),
                Err(e) => Err(e),
            },
            ComponentView::ParentDir => Err(SolutionError::OutsideSolution),
            _ => Err(SolutionError::UnexpectedComponent),
        }
    }
}

/// The folder tree after one more project is added: the project's path is
/// taken from the directory of the solution and added name by name.
pub open spec fn add_project_spec(
    root: ChildrenView,
    sln_dir: Seq<ComponentView>,
    project: SolutionProjectView,
) -> Result<ChildrenView, SolutionError> {
    match segments_spec(relative_path_spec(sln_dir, project.path)) {
        Ok(names) => insert_spec(root, names, project.guid),
        Err(e) => Err(e),
    }
}

/// The folder tree of the first `upto` projects; the first project that
/// cannot be added decides the failure.
pub open spec fn add_projects_spec(
    sln_dir: Seq<ComponentView>,
    projects: Seq<SolutionProjectView>,
    upto: int,
) -> Result<ChildrenView, SolutionError>
    decreases upto,
{
    if upto <= 0 {
        Ok(Seq::empty())
    } else {
        match add_projects_spec(sln_dir, projects, upto - 1) {
            Ok(root) => add_project_spec(root, sln_dir, projects[upto - 1]),
            Err(e) => Err(e),
        }
    }
}

/// The solution of a set of projects, or why there is none:
/// - the solution lies in the directory of `sln_path`, which is taken from
///   `current_dir` and brought into normal form;
/// - the projects are added to the folder tree one after the other;
/// - every node of the tree gets its identifier.
pub open spec fn solution_spec(
    sln_path: Seq<ComponentView>,
    current_dir: Seq<ComponentView>,
    projects: Seq<SolutionProjectView>,
) -> Result<Seq<InnerNodeView>, SolutionError> {
    match parent_spec(join_components_spec(current_dir, sln_path)) {
        None => Err(SolutionError::NoSolutionDirectory),
        Some(sln_dir) => match add_projects_spec(sln_dir, projects, projects.len() as int) {
            Ok(tree) => Ok(inner_nodes_spec(Seq::empty(), tree)),
            Err(e) => Err(e),
        },
    }
}

/// The names along a path that leads down from the directory of the
/// solution.
fn segments(path: &FilePath) -> (out: Result<Vec<String>, SolutionError>)
    ensures
        match segments_spec(path@) {
            Ok(names) => out matches Ok(found) && texts(found@) == names,
            Err(e) => out == Err::<Vec<String>, SolutionError>(e),
        },
{
    let ghost all = path@;
    let mut names: Vec<String> = Vec::new();
    let mut i: usize = 0;
    assert(all.skip(0) =~= all);
    while i < path.components.len()
        invariant
            i <= path.components.len(),
            all == path@,
            segments_spec(all) == match segments_spec(all.skip(i as int)) {
                Ok(rest) => Ok::<Seq<Seq<char>>, SolutionError>(texts(names@) + rest),
                Err(e) => Err(e),
            },
        decreases path.components.len() - i,
    {
        assert(all.skip(i as int)[0] == path.components@[i as int]@);
        assert(all.skip(i as int).skip(1) =~= all.skip(i + 1));
        let ghost before = texts(names@);
        match &path.components[i] {
            Component::Normal(name) => {
                names.push(name.clone());
                proof {
                    assert(texts(names@) =~= before + seq![name@]);
                    match segments_spec(all.skip(i + 1)) {
                        Ok(rest) => {
                            assert(before + (seq![name@] + rest) =~= texts(names@) + rest);
                        },
                        Err(_) => {},
                    }
                }
            },
            Component::ParentDir => {
                return Err(SolutionError::OutsideSolution);
            },
            _ => {
                return Err(SolutionError::UnexpectedComponent);
            },
        }
        i += 1;
    }
    assert(texts(names@) + Seq::<Seq<char>>::empty() =~= texts(names@));
    Ok(names)
}

/// Builds the solution of a set of projects: the folder tree that their
/// paths make below the directory of the solution, every node with its
/// identifier.
pub fn create_solution(
    sln_path: &FilePath,
    current_dir: &FilePath,
    projects: Vec<SolutionProject>,
) -> (out: Result<SolutionFile, SolutionError>)
    ensures
        match solution_spec(sln_path@, current_dir@, solution_projects_view(projects@)) {
            Ok(nodes) => out matches Ok(file) && file@ == nodes,
            Err(e) => out == Err::<SolutionFile, SolutionError>(e),
        },
{
    let absolute = sln_path.simplified_absolute(current_dir);
    let sln_dir = match absolute.parent() {
        Some(dir) => dir,
        None => {
            return Err(SolutionError::NoSolutionDirectory);
        },
    };
    let ghost all = solution_projects_view(projects@);
    let mut root = Directory::new();
    let mut i: usize = 0;
    while i < projects.len()
        invariant
            i <= projects.len(),
            all == solution_projects_view(projects@),
            parent_spec(join_components_spec(current_dir@, sln_path@)) == Some(sln_dir@),
            add_projects_spec(sln_dir@, all, i as int) == Ok::<ChildrenView, SolutionError>(root@),
        decreases projects.len() - i,
    {
        assert(all[i as int] == projects@[i as int]@);
        let rel_project_path = relative_path(&sln_dir, &projects[i].path);
        let names = match segments(&rel_project_path) {
            Ok(names) => names,
            Err(e) => {
                proof {
                    lemma_failure_stays(sln_dir@, all, i + 1, projects.len() as int);
                }
                return Err(e);
            },
        };
        root = match root.insert(&names, projects[i].guid) {
            Ok(grown) => grown,
            Err(e) => {
                proof {
                    lemma_failure_stays(sln_dir@, all, i + 1, projects.len() as int);
                }
                return Err(e);
            },
        };
        i += 1;
    }
    Ok(SolutionFile::new(root))
}

/// Once a project cannot be added, the failure stays whatever follows.
proof fn lemma_failure_stays(
    sln_dir: Seq<ComponentView>,
    projects: Seq<SolutionProjectView>,
    at: int,
    upto: int,
)
    requires
        0 < at <= upto,
        add_projects_spec(sln_dir, projects, at) is Err,
    ensures
        add_projects_spec(sln_dir, projects, upto) == add_projects_spec(sln_dir, projects, at),
    decreases upto - at,
{
    if at < upto {
        lemma_failure_stays(sln_dir, projects, at, upto - 1);
    }
}

/// Adding a project keeps the names of every folder in order: where the
/// names of the children ascend in the folder and in every folder below it,
/// they still do afterwards.
pub open spec fn tree_in_order(nodes: ChildrenView) -> bool
    decreases nodes,
{
    &&& names_ascend(nodes)
    &&& forall|i: int|
        0 <= i < nodes.len() ==> match (#[trigger] nodes[i]).1 {
            NodeView::Directory(children) => tree_in_order(children),
            NodeView::Project(_) => true,
        }
}

/// Putting a child whose own folders are in order into a folder that is in
/// order leaves the folder in order.
proof fn lemma_put_keeps_tree(nodes: ChildrenView, name: Seq<char>, node: NodeView)
    requires
        tree_in_order(nodes),
        node matches NodeView::Directory(children) ==> tree_in_order(children),
    ensures
        tree_in_order(put(nodes, name, node)),
{
    lemma_put_keeps_order(nodes, name, node);
    lemma_slot(nodes, name);
    let at = slot(nodes, name);
    let out = put(nodes, name, node);
    assert forall|i: int| 0 <= i < out.len() implies match (#[trigger] out[i]).1 {
        NodeView::Directory(children) => tree_in_order(children),
        NodeView::Project(_) => true,
    } by {
        if i != at {
            let j = if holds_name(nodes, name) || i < at {
                i
            } else {
                i - 1
            };
            assert(out[i] == nodes[j]);
        }
    }
}

/// The folder tree stays in order when a project is added: in every folder
/// the names of the children ascend, and no name occurs twice.
pub proof fn lemma_insert_keeps_tree(nodes: ChildrenView, names: Seq<Seq<char>>, guid: Option<u128>)
    requires
        tree_in_order(nodes),
    ensures
        insert_spec(nodes, names, guid) matches Ok(grown) ==> tree_in_order(grown),
    decreases names.len(),
{
    if names.len() == 1 {
        lemma_put_keeps_tree(nodes, names[0], NodeView::Project(guid));
    } else if names.len() > 1 {
        let name = names[0];
        lemma_slot(nodes, name);
        if holds_name(nodes, name) {
            match nodes[slot(nodes, name)].1 {
                NodeView::Directory(children) => {
                    lemma_insert_keeps_tree(children, names.skip(1), guid);
                    match insert_spec(children, names.skip(1), guid) {
                        Ok(grown) => {
                            lemma_put_keeps_tree(nodes, name, NodeView::Directory(grown));
                        },
                        Err(_) => {},
                    }
                },
                NodeView::Project(_) => {},
            }
        } else {
            lemma_insert_keeps_tree(Seq::empty(), names.skip(1), guid);
            match insert_spec(Seq::empty(), names.skip(1), guid) {
                Ok(grown) => {
                    lemma_put_keeps_tree(nodes, name, NodeView::Directory(grown));
                },
                Err(_) => {},
            }
        }
    }
}

/// The folder tree of a set of projects is in order: in every folder the
/// names of the children ascend, and no name occurs twice.
pub proof fn lemma_solution_tree_in_order(
    sln_dir: Seq<ComponentView>,
    projects: Seq<SolutionProjectView>,
    upto: int,
)
    ensures
        add_projects_spec(sln_dir, projects, upto) matches Ok(tree) ==> tree_in_order(tree),
    decreases upto,
{
    if upto > 0 {
        lemma_solution_tree_in_order(sln_dir, projects, upto - 1);
        match add_projects_spec(sln_dir, projects, upto - 1) {
            Ok(root) => {
                match segments_spec(relative_path_spec(sln_dir, projects[upto - 1].path)) {
                    Ok(names) => {
                        lemma_insert_keeps_tree(root, names, projects[upto - 1].guid);
                    },
                    Err(_) => {},
                }
            },
            Err(_) => {},
        }
    } else {
        assert(tree_in_order(Seq::empty()));
    }
}

/// The identifiers of a solution depend on the paths alone: the same
/// projects, added to the same solution, give the same nodes with the same
/// identifiers, however often and wherever the solution is built.
pub proof fn lemma_same_paths_same_identifiers(
    sln_path: Seq<ComponentView>,
    current_dir: Seq<ComponentView>,
    projects: Seq<SolutionProjectView>,
    first: SolutionFile,
    second: SolutionFile,
)
    requires
        solution_spec(sln_path, current_dir, projects) == Ok::<Seq<InnerNodeView>, SolutionError>(
            first@,
        ),
        solution_spec(sln_path, current_dir, projects) == Ok::<Seq<InnerNodeView>, SolutionError>(
            second@,
        ),
    ensures
        first@ == second@,
        crate::sln::file::solution_text(
            crate::sln::file::entries_of_spec(first@, None, first@.len() as int),
        ) == crate::sln::file::solution_text(
            crate::sln::file::entries_of_spec(second@, None, second@.len() as int),
        ),
{
}

} // verus!
