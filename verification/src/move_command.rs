//! The move of a project: where a request to move leads.

use vstd::prelude::*;
use crate::path_extensions::collect_spec;
use crate::post_migration_cleanup::children_of;
use crate::post_migration_cleanup::is_named;
use crate::post_migration_cleanup::with_children;
use crate::text::chars_of;
use crate::text::str_eq;
use crate::xml_extensions::element_view;
use crate::xml_extensions::node_view;
use crate::xml_extensions::nodes_view;
use crate::xml_extensions::Element;
use crate::xml_extensions::XMLNode;
use crate::xml_extensions::XMLNodeView;
use crate::csproj::paths_view;
use crate::csproj::reference_path;
use crate::csproj::reference_path_spec;
use crate::path_extensions::parent_spec;
use crate::path_extensions::relative_path;
use crate::path_extensions::relative_path_spec;
use crate::path_extensions::starts_with_spec;
use crate::path_extensions::simplify_spec;
use crate::path_extensions::Component;
use crate::path_extensions::ComponentView;
use crate::path_extensions::FilePath;
use crate::path_extensions::PathExt;
use crate::sln::file::project_suffix;
use crate::utils::is_project_path;
use crate::utils::path_extension_is_csproj;

verus! {

/// A request to move a project from one path to another.
#[derive(Debug, PartialEq, Eq)]
pub struct MoveCommand {
    old: FilePath,
    new: FilePath,
}

/// Where a move leads: the directory of the project after the move, and its
/// project file there.
#[derive(Debug, PartialEq, Eq)]
pub struct Destination {
    pub dir: FilePath,
    pub file: FilePath,
}

/// The target of a move, taken from the current directory, in normal form.
pub open spec fn target_spec(current_dir: Seq<ComponentView>, new: Seq<ComponentView>) -> Seq<
    ComponentView,
> {
    simplify_spec(collect_spec(current_dir, simplify_spec(new)))
}

impl MoveCommand {
    /// A request to move the project at `old` to `new`.
    pub fn new(old: FilePath, new: FilePath) -> (out: MoveCommand)
        ensures
            out.old_view() == old@,
            out.new_view() == new@,
    {
        MoveCommand { old, new }
    }

    /// The path that the project is moved from.
    pub closed spec fn old_view(&self) -> Seq<ComponentView> {
        self.old@
    }

    /// The path that the project is moved to.
    pub closed spec fn new_view(&self) -> Seq<ComponentView> {
        self.new@
    }

    /// The path that the project is moved from.
    pub fn source(&self) -> (out: &FilePath)
        ensures
            out@ == self.old_view(),
    {
        &self.old
    }

    /// Where the move leads. A target that names a project file is that
    /// file, in its directory; any other target is the directory, and the
    /// project file in it is named after the directory. A target without a
    /// directory, or without a name to call the file after, leads nowhere.
    pub fn destination(&self, current_dir: &FilePath) -> (out: Option<Destination>)
        ensures
            ({
                let target = target_spec(current_dir@, self.new_view());
                if is_project_path(target) {
                    match parent_spec(target) {
                        Some(dir) => out matches Some(d) && d.dir@ == dir && d.file@ == target,
                        None => out is None,
                    }
                } else if target.len() > 0 && target.last() is Normal {
                    out matches Some(d) && d.dir@ == target && d.file@ == target.push(
                        ComponentView::Normal(target.last()->Normal_0 + project_suffix()),
                    )
                } else {
                    out is None
                }
            }),
    {
        let new = self.new.simplify();
        let path = current_dir.join(&new).simplify();
        if path_extension_is_csproj(&path) {
            match path.parent() {
                Some(dir) => Some(Destination { dir, file: path }),
                None => None,
            }
        } else {
            match path.file_name() {
                Some(name) => {
                    let mut file_name = name.clone();
                    file_name.push('.');
                    file_name.push('c');
                    file_name.push('s');
                    file_name.push('p');
                    file_name.push('r');
                    file_name.push('o');
                    file_name.push('j');
                    assert(file_name@ =~= name@ + project_suffix());
                    let mut file = path.clone();
                    file.components.push(Component::Normal(file_name));
                    assert(file@ =~= path@.push(
                        ComponentView::Normal(path@.last()->Normal_0 + project_suffix()),
                    ));
                    Some(Destination { dir: path, file })
                },
                None => None,
            }
        }
    }
}

/// Whether two dots stand at `at` in the text, with a slash of either kind
/// behind them.
pub open spec fn steps_out_at(text: Seq<char>, at: int) -> bool {
    0 <= at && at + 2 < text.len() && text[at] == '.' && text[at + 1] == '.' && (text[at + 2]
        == '/' || text[at + 2] == '\\')
}

/// Whether a text looks like a path that leads out of a directory: whether
/// two dots with a slash behind them occur in it.
pub open spec fn leads_out(text: Seq<char>) -> bool {
    exists|at: int| steps_out_at(text, at)
}

/// Tells whether a text looks like a path that leads out of a directory.
pub fn looks_like_out_of_tree_relative_path(val: &str) -> (yes: bool)
    ensures
        yes == leads_out(val@),
{
    let chars = chars_of(val);
    if chars.len() < 3 {
        return false;
    }
    let last = chars.len() - 2;
    let mut i: usize = 0;
    while i < last
        invariant
            i <= last,
            last + 2 == chars.len(),
            chars@ == val@,
            forall|at: int| 0 <= at < i ==> !steps_out_at(chars@, at),
        decreases last - i,
    {
        if chars[i] == '.' && chars[i + 1] == '.' && (chars[i + 2] == '/' || chars[i + 2] == '\\') {
            assert(steps_out_at(chars@, i as int));
            return true;
        }
        i += 1;
    }
    false
}

/// Whether an element has a child element of that name.
pub open spec fn has_child_named(node: XMLNodeView, name: Seq<char>) -> bool {
    exists|j: int| 0 <= j < children_of(node).len() && is_named(#[trigger] children_of(node)[j], name)
}

/// Whether some property group among the nodes holds an element of that
/// name.
pub open spec fn group_holds(nodes: Seq<XMLNodeView>, name: Seq<char>) -> bool {
    exists|i: int|
        0 <= i < nodes.len() && is_named(#[trigger] nodes[i], "PropertyGroup"@) && has_child_named(
            nodes[i],
            name,
        )
}

/// The place of the first element of that name among the nodes, from
/// `from` on.
pub open spec fn first_named_from(nodes: Seq<XMLNodeView>, name: Seq<char>, from: int) -> Option<int>
    decreases nodes.len() - from,
{
    if from < 0 || from >= nodes.len() {
        None
    } else if is_named(nodes[from], name) {
        Some(from)
    } else {
        first_named_from(nodes, name, from + 1)
    }
}

/// An element that holds a text and nothing else.
pub open spec fn text_element(name: Seq<char>, text: Seq<char>) -> XMLNodeView {
    XMLNodeView::Element {
        id: None,
        name,
        attributes: Seq::empty(),
        children: seq![XMLNodeView::Text(text)],
    }
}

/// The elements to add to a project so that it names its root namespace and
/// its assembly: one for each of the two that no property group holds yet.
pub open spec fn missing_names(nodes: Seq<XMLNodeView>, name: Seq<char>) -> Seq<XMLNodeView> {
    (if group_holds(nodes, "RootNamespace"@) {
        Seq::<XMLNodeView>::empty()
    } else {
        seq![text_element("RootNamespace"@, name)]
    }) + (if group_holds(nodes, "AssemblyName"@) {
        Seq::<XMLNodeView>::empty()
    } else {
        seq![text_element("AssemblyName"@, name)]
    })
}

/// The children of a project after it was made sure that it names its root
/// namespace and its assembly: what is missing is added to the first
/// property group; a project without a property group stays as it is.
pub open spec fn with_names(nodes: Seq<XMLNodeView>, name: Seq<char>) -> Seq<XMLNodeView> {
    match first_named_from(nodes, "PropertyGroup"@, 0) {
        Some(at) => nodes.update(
            at,
            with_children(nodes[at], children_of(nodes[at]) + missing_names(nodes, name)),
        ),
        None => nodes,
    }
}

/// Tells whether an element has a child element of that name.
fn element_has_child(element: &Element, name: &str) -> (yes: bool)
    ensures
        yes == has_child_named(element_view(*element), name@),
{
    let ghost nodes = nodes_view(element.children@);
    let mut j: usize = 0;
    while j < element.children.len()
        invariant
            j <= element.children.len(),
            nodes == nodes_view(element.children@),
            forall|k: int| 0 <= k < j ==> !is_named(#[trigger] nodes[k], name@),
        decreases element.children.len() - j,
    {
        assert(nodes[j as int] == node_view(element.children@[j as int]));
        let named = match &element.children[j] {
            XMLNode::Element(child) => str_eq(child.name.as_str(), name),
            _ => false,
        };
        if named {
            assert(is_named(children_of(element_view(*element))[j as int], name@));
            return true;
        }
        j += 1;
    }
    false
}

/// Tells whether some property group among the children of an element
/// holds an element of that name.
fn some_group_holds(element: &Element, name: &str) -> (yes: bool)
    ensures
        yes == group_holds(nodes_view(element.children@), name@),
{
    let ghost nodes = nodes_view(element.children@);
    let mut i: usize = 0;
    while i < element.children.len()
        invariant
            i <= element.children.len(),
            nodes == nodes_view(element.children@),
            forall|k: int|
                0 <= k < i ==> !(is_named(#[trigger] nodes[k], "PropertyGroup"@) && has_child_named(
                    nodes[k],
                    name@,
                )),
        decreases element.children.len() - i,
    {
        assert(nodes[i as int] == node_view(element.children@[i as int]));
        let holds = match &element.children[i] {
            XMLNode::Element(group) => str_eq(group.name.as_str(), "PropertyGroup")
                && element_has_child(group, name),
            _ => false,
        };
        if holds {
            return true;
        }
        i += 1;
    }
    false
}

/// The place of the first child element of that name.
fn first_child_named(element: &Element, name: &str) -> (out: Option<usize>)
    ensures
        match out {
            Some(at) => at < element.children.len() && element.children@[at as int] is Element
                && first_named_from(nodes_view(element.children@), name@, 0) == Some(at as int),
            None => first_named_from(nodes_view(element.children@), name@, 0) is None,
        },
{
    let ghost nodes = nodes_view(element.children@);
    let mut at: usize = 0;
    while at < element.children.len()
        invariant
            at <= element.children.len(),
            nodes == nodes_view(element.children@),
            first_named_from(nodes, name@, 0) == first_named_from(nodes, name@, at as int),
        decreases element.children.len() - at,
    {
        assert(nodes[at as int] == node_view(element.children@[at as int]));
        let found = match &element.children[at] {
            XMLNode::Element(child) => str_eq(child.name.as_str(), name),
            _ => false,
        };
        if found {
            return Some(at);
        }
        at += 1;
    }
    None
}

/// An element that holds a text and nothing else.
fn new_text_element(name: &str, text: &str) -> (out: XMLNode)
    ensures
        node_view(out) == text_element(name@, text@),
{
    let mut element = Element::new(name);
    element.children.push(XMLNode::Text(text.to_owned()));
    assert(nodes_view(element.children@) =~= seq![XMLNodeView::Text(text@)]);
    XMLNode::Element(element)
}

/// Makes sure that a project names its root namespace and its assembly:
/// where no property group holds the one or the other, it is added to the
/// first property group, with `name` for its value. Returns whether
/// anything was added.
pub fn ensure_root_namespace_and_assembly_name(element: &mut Element, name: &str) -> (modified: bool)
    ensures
        element_view(*final(element)) == with_children(
            element_view(*old(element)),
            with_names(children_of(element_view(*old(element))), name@),
        ),
        modified == (first_named_from(
            children_of(element_view(*old(element))),
            "PropertyGroup"@,
            0,
        ) is Some && missing_names(children_of(element_view(*old(element))), name@).len() > 0),
{
    let ghost nodes = nodes_view(element.children@);
    let has_root_namespace = some_group_holds(element, "RootNamespace");
    let has_assembly_name = some_group_holds(element, "AssemblyName");
    let at = match first_child_named(element, "PropertyGroup") {
        Some(at) => at,
        None => {
            return false;
        },
    };
    let mut modified = false;
    let node = element.children.remove(at);
    match node {
        XMLNode::Element(mut group) => {
            let ghost group_view = element_view(group);
            let ghost had = nodes_view(group.children@);
            if !has_root_namespace {
                group.children.push(new_text_element("RootNamespace", name));
                modified = true;
            }
            if !has_assembly_name {
                group.children.push(new_text_element("AssemblyName", name));
                modified = true;
            }
            assert(nodes_view(group.children@) =~= had + missing_names(nodes, name@));
            element.children.insert(at, XMLNode::Element(group));
            assert(nodes_view(element.children@) =~= nodes.update(
                at as int,
                with_children(group_view, had + missing_names(nodes, name@)),
            ));
        },
        _ => vstd::pervasive::unreached(),
    }
    modified
}

/// The projects among `paths` that lie below `dir` and are not `file`: the
/// projects that a project in `dir` with the file `file` holds within it.
pub open spec fn nested_spec(
    paths: Seq<Seq<ComponentView>>,
    dir: Seq<ComponentView>,
    file: Seq<ComponentView>,
) -> Seq<Seq<ComponentView>>
    decreases paths.len(),
{
    if paths.len() == 0 {
        Seq::empty()
    } else {
        let before = nested_spec(paths.drop_last(), dir, file);
        if starts_with_spec(paths.last(), dir) && paths.last() != file {
            before.push(paths.last())
        } else {
            before
        }
    }
}

/// The projects that a project holds within it. A project that holds others
/// cannot be moved.
pub fn nested_projects(projects: &Vec<FilePath>, old_dir: &FilePath, old_file: &FilePath) -> (out:
    Vec<FilePath>)
    ensures
        paths_view(out@) == nested_spec(paths_view(projects@), old_dir@, old_file@),
{
    let ghost all = paths_view(projects@);
    let mut out: Vec<FilePath> = Vec::new();
    let mut i: usize = 0;
    assert(paths_view(out@) =~= nested_spec(all.take(0), old_dir@, old_file@));
    while i < projects.len()
        invariant
            i <= projects.len(),
            all == paths_view(projects@),
            paths_view(out@) == nested_spec(all.take(i as int), old_dir@, old_file@),
        decreases projects.len() - i,
    {
        let ghost before = paths_view(out@);
        proof {
            assert(all.take(i + 1).drop_last() =~= all.take(i as int));
            assert(all.take(i + 1).last() == projects@[i as int]@);
        }
        if projects[i].starts_with(old_dir) && !projects[i].same(old_file) {
            out.push(projects[i].clone());
            assert(paths_view(out@) =~= before.push(projects@[i as int]@));
        }
        i += 1;
    }
    assert(all.take(projects.len() as int) =~= all);
    out
}

/// What a reference has to say after the move: a reference that was written
/// in a project in `csproj_dir` and leads to the moved project gives way to
/// the path from there to the project's new file; any other reference
/// stays, which `None` says.
pub fn moved_reference(
    csproj_dir: &FilePath,
    written: &FilePath,
    old_file: &FilePath,
    new_file: &FilePath,
) -> (out: Option<FilePath>)
    ensures
        match out {
            Some(path) => reference_path_spec(csproj_dir@, written@) == old_file@ && path@
                == relative_path_spec(csproj_dir@, new_file@),
            None => reference_path_spec(csproj_dir@, written@) != old_file@,
        },
{
    if reference_path(csproj_dir, written).same(old_file) {
        Some(relative_path(csproj_dir, new_file))
    } else {
        None
    }
}

} // verus!
