//! The cleanup of migrated project files and of the application
//! configurations beside them: what a migrated project no longer needs is
//! dropped, and groups that are left empty go with it.

use vstd::prelude::*;
use crate::text::str_eq;
use crate::xml_extensions::all_blank;
use crate::xml_extensions::all_children_whitespace;
use crate::xml_extensions::attribute_of;
use crate::xml_extensions::attributes_view;
use crate::xml_extensions::element_view;
use crate::xml_extensions::ends_with;
use crate::xml_extensions::ends_with_spec;
use crate::xml_extensions::node_view;
use crate::xml_extensions::nodes_view;
use crate::xml_extensions::text_of;
use crate::xml_extensions::Element;
use crate::xml_extensions::XMLNode;
use crate::xml_extensions::XMLNodeView;

verus! {

/// The rules of a cleanup: those for project files, or those for
/// application configurations.
#[derive(Debug, Clone, Copy, PartialEq, Eq, Structural)]
pub enum Cleanup {
    Csproj,
    AppConfig,
}

/// The lower case of a text.
pub uninterp spec fn lowercase(text: Seq<char>) -> Seq<char>;

/// `str::to_lowercase` gives the lower case of a text. The result is taken
/// to depend on the text alone; nothing else is claimed of it.
pub assume_specification[ str::to_lowercase ](s: &str) -> (out: String)
    ensures
        out@ == lowercase(s@),
;

/// Whether a node is an element of that name.
pub open spec fn is_named(node: XMLNodeView, name: Seq<char>) -> bool {
    node matches XMLNodeView::Element { name: n, .. } && n == name
}

/// The children of an element; none for any other node.
pub open spec fn children_of(node: XMLNodeView) -> Seq<XMLNodeView> {
    match node {
        XMLNodeView::Element { children, .. } => children,
        _ => Seq::empty(),
    }
}

/// The attributes of an element; none for any other node.
pub open spec fn attributes_of(node: XMLNodeView) -> Seq<(Seq<char>, Seq<char>)> {
    match node {
        XMLNodeView::Element { attributes, .. } => attributes,
        _ => Seq::empty(),
    }
}

/// An element with other children; any other node as it is.
pub open spec fn with_children(node: XMLNodeView, children: Seq<XMLNodeView>) -> XMLNodeView {
    match node {
        XMLNodeView::Element { id, name, attributes, .. } => XMLNodeView::Element {
            id,
            name,
            attributes,
            children,
        },
        _ => node,
    }
}

/// Whether a project file has no use for an element of that name: the
/// build sets what these say by itself.
pub open spec fn is_obsolete_name(name: Seq<char>) -> bool {
    ||| name == "GenerateAssemblyInfo"@
    ||| name == "Product"@
    ||| name == "AssemblyTitle"@
    ||| name == "Description"@
    ||| name == "ProductVersion"@
    ||| name == "Copyright"@
    ||| name == "Company"@
    ||| name == "NoWarn"@
    ||| name == "TreatWarningsAsErrors"@
    ||| name == "WarningsAsErrors"@
    ||| name == "WarningLevel"@
    ||| name == "DebugSymbols"@
    ||| name == "DebugType"@
    ||| name == "Optimize"@
    ||| name == "OutputPath"@
    ||| name == "DefineConstants"@
    ||| name == "CodeAnalysisIgnoreBuiltInRuleSets"@
    ||| name == "CodeAnalysisIgnoreBuiltInRules"@
    ||| name == "CodeAnalysisFailOnMissingRules"@
    ||| name == "CodeAnalysisRuleSet"@
    ||| name == "DefineDebug"@
    ||| name == "DefineTrace"@
    ||| name == "DocumentationFile"@
    ||| name == "ErrorReport"@
}

/// Whether a project file keeps a child that is an element, but no property
/// group:
/// - an obsolete element goes;
/// - a startup object or a post-build event stays where it says anything;
/// - a platform target stays where it names a platform other than any;
/// - a compile item stays but for the shared solution information;
/// - an import stays but for the targets that the build brings along;
/// - any other element stays.
pub open spec fn csproj_keeps(node: XMLNodeView) -> bool {
    let name = node->Element_name;
    if is_obsolete_name(name) {
        false
    } else if name == "StartupObject"@ || name == "PostBuildEvent"@ {
        children_of(node).len() > 0
    } else if name == "PlatformTarget"@ {
        match text_of(children_of(node)) {
            Some(v) => lowercase(v) != "anycpu"@,
            None => false,
        }
    } else if name == "Compile"@ {
        match attribute_of(attributes_of(node), "Include"@) {
            Some(v) => !ends_with_spec(v, "SolutionInfo.cs"@),
            None => true,
        }
    } else if name == "Import"@ {
        match attribute_of(attributes_of(node), "Project"@) {
            Some(v) => !ends_with_spec(v, "Microsoft.CSharp.Targets"@),
            None => true,
        }
    } else {
        true
    }
}

/// The place of the first property group among the nodes that has these
/// attributes.
pub open spec fn group_like(nodes: Seq<XMLNodeView>, attributes: Seq<(Seq<char>, Seq<char>)>) -> Option<
    int,
>
    decreases nodes.len(),
{
    if nodes.len() == 0 {
        None
    } else {
        match group_like(nodes.drop_last(), attributes) {
            Some(at) => Some(at),
            None => if is_named(nodes.last(), "PropertyGroup"@) && attributes_of(nodes.last())
                == attributes {
                Some(nodes.len() - 1)
            } else {
                None
            },
        }
    }
}

/// The children kept so far, and one more child dealt with: a property
/// group joins the first group kept that has its attributes, which takes its
/// children, or else is kept; any other element is kept or dropped by
/// [`csproj_keeps`]; a node that is no element is kept.
pub open spec fn csproj_step(kept: Seq<XMLNodeView>, child: XMLNodeView) -> Seq<XMLNodeView> {
    if !(child is Element) {
        kept.push(child)
    } else if is_named(child, "PropertyGroup"@) {
        match group_like(kept, attributes_of(child)) {
            Some(at) => kept.update(
                at,
                with_children(kept[at], children_of(kept[at]) + children_of(child)),
            ),
            None => kept.push(child),
        }
    } else if csproj_keeps(child) {
        kept.push(child)
    } else {
        kept
    }
}

/// The children of an element of a project file, each dealt with in turn.
pub open spec fn csproj_merged(children: Seq<XMLNodeView>) -> Seq<XMLNodeView>
    decreases children.len(),
{
    if children.len() == 0 {
        Seq::empty()
    } else {
        csproj_step(csproj_merged(children.drop_last()), children.last())
    }
}

/// Whether a node is a group that holds nothing but white space, if
/// anything: in a project file a property group or an item group, in an
/// application configuration the `runtime` or the `startup` element.
pub open spec fn is_empty_group(cleanup: Cleanup, node: XMLNodeView) -> bool {
    node is Element && all_blank(children_of(node)) && match cleanup {
        Cleanup::Csproj => is_named(node, "PropertyGroup"@) || is_named(node, "ItemGroup"@),
        Cleanup::AppConfig => is_named(node, "runtime"@) || is_named(node, "startup"@),
    }
}

/// The nodes without the empty groups.
pub open spec fn without_empty_groups(cleanup: Cleanup, nodes: Seq<XMLNodeView>) -> Seq<
    XMLNodeView,
>
    decreases nodes.len(),
{
    if nodes.len() == 0 {
        Seq::empty()
    } else {
        let before = without_empty_groups(cleanup, nodes.drop_last());
        if is_empty_group(cleanup, nodes.last()) {
            before
        } else {
            before.push(nodes.last())
        }
    }
}

/// Whether an application configuration has no use for a node: the binding
/// redirects and the supported runtimes are made by the build.
pub open spec fn app_config_drops(node: XMLNodeView) -> bool {
    is_named(node, "assemblyBinding"@) || is_named(node, "supportedRuntime"@)
}

/// The nodes of an application configuration without those that it has no
/// use for.
pub open spec fn app_config_kept(nodes: Seq<XMLNodeView>) -> Seq<XMLNodeView>
    decreases nodes.len(),
{
    if nodes.len() == 0 {
        Seq::empty()
    } else {
        let before = app_config_kept(nodes.drop_last());
        if app_config_drops(nodes.last()) {
            before
        } else {
            before.push(nodes.last())
        }
    }
}

/// The children of an element after the cleanup of the element: what the
/// rules keep of them, without the groups that are left empty.
pub open spec fn transformed_children(cleanup: Cleanup, children: Seq<XMLNodeView>) -> Seq<
    XMLNodeView,
> {
    match cleanup {
        Cleanup::Csproj => without_empty_groups(cleanup, csproj_merged(children)),
        Cleanup::AppConfig => without_empty_groups(cleanup, app_config_kept(children)),
    }
}

/// A node after the cleanup of the tree below it: the elements among its
/// children are cleaned first, each with all below it, and then the node
/// itself. A node that is no element stays as it is.
pub open spec fn processed(cleanup: Cleanup, node: XMLNodeView) -> XMLNodeView
    decreases node,
{
    match node {
        XMLNodeView::Element { id, name, attributes, children } => XMLNodeView::Element {
            id,
            name,
            attributes,
            children: transformed_children(cleanup, processed_all(cleanup, children)),
        },
        _ => node,
    }
}

/// The nodes, each after the cleanup of the tree below it.
pub open spec fn processed_all(cleanup: Cleanup, nodes: Seq<XMLNodeView>) -> Seq<XMLNodeView>
    decreases nodes,
{
    Seq::new(
        nodes.len(),
        |i: int|
            if 0 <= i < nodes.len() {
                processed(cleanup, nodes[i])
            } else {
                XMLNodeView::Text(Seq::empty())
            },
    )
}

/// Whether a name is that of an element that a project file has no use for.
fn name_is_obsolete(name: &str) -> (yes: bool)
    ensures
        yes == is_obsolete_name(name@),
{
    str_eq(name, "GenerateAssemblyInfo") || str_eq(name, "Product") || str_eq(
        name,
        "AssemblyTitle",
    ) || str_eq(name, "Description") || str_eq(name, "ProductVersion") || str_eq(name, "Copyright")
        || str_eq(name, "Company") || str_eq(name, "NoWarn") || str_eq(
        name,
        "TreatWarningsAsErrors",
    ) || str_eq(name, "WarningsAsErrors") || str_eq(name, "WarningLevel") || str_eq(
        name,
        "DebugSymbols",
    ) || str_eq(name, "DebugType") || str_eq(name, "Optimize") || str_eq(name, "OutputPath")
        || str_eq(name, "DefineConstants") || str_eq(name, "CodeAnalysisIgnoreBuiltInRuleSets")
        || str_eq(name, "CodeAnalysisIgnoreBuiltInRules") || str_eq(
        name,
        "CodeAnalysisFailOnMissingRules",
    ) || str_eq(name, "CodeAnalysisRuleSet") || str_eq(name, "DefineDebug") || str_eq(
        name,
        "DefineTrace",
    ) || str_eq(name, "DocumentationFile") || str_eq(name, "ErrorReport")
}

/// Whether a project file keeps an element that is no property group.
fn keeps_element(element: &Element) -> (yes: bool)
    ensures
        yes == csproj_keeps(element_view(*element)),
{
    let name = element.name.as_str();
    if name_is_obsolete(name) {
        false
    } else if str_eq(name, "StartupObject") || str_eq(name, "PostBuildEvent") {
        element.children.len() > 0
    } else if str_eq(name, "PlatformTarget") {
        match element.get_text() {
            Some(v) => !str_eq(v.as_str().to_lowercase().as_str(), "anycpu"),
            None => false,
        }
    } else if str_eq(name, "Compile") {
        match element.attribute("Include") {
            Some(v) => !ends_with(v.as_str(), "SolutionInfo.cs"),
            None => true,
        }
    } else if str_eq(name, "Import") {
        match element.attribute("Project") {
            Some(v) => !ends_with(v.as_str(), "Microsoft.CSharp.Targets"),
            None => true,
        }
    } else {
        true
    }
}

/// The place of the first property group among the nodes that has the
/// attributes of `like`.
fn find_group_like(nodes: &Vec<XMLNode>, like: &Element) -> (out: Option<usize>)
    ensures
        match out {
            Some(at) => at < nodes.len() && group_like(
                nodes_view(nodes@),
                attributes_view(like.attributes@),
            ) == Some(at as int) && nodes@[at as int] is Element,
            None => group_like(nodes_view(nodes@), attributes_view(like.attributes@)) is None,
        },
{
    let ghost all = nodes_view(nodes@);
    let ghost wanted = attributes_view(like.attributes@);
    let mut i: usize = 0;
    assert(all.take(0) =~= Seq::<XMLNodeView>::empty());
    while i < nodes.len()
        invariant
            i <= nodes.len(),
            all == nodes_view(nodes@),
            wanted == attributes_view(like.attributes@),
            group_like(all.take(i as int), wanted) is None,
        decreases nodes.len() - i,
    {
        proof {
            assert(all.take(i + 1).drop_last() =~= all.take(i as int));
            assert(all.take(i + 1).last() == node_view(nodes@[i as int]));
        }
        let found = match &nodes[i] {
            XMLNode::Element(e) => str_eq(e.name.as_str(), "PropertyGroup") && e.same_attributes(
                like,
            ),
            _ => false,
        };
        if found {
            proof {
                lemma_group_like_stays(all, wanted, i + 1);
            }
            return Some(i);
        }
        i += 1;
    }
    assert(all.take(nodes.len() as int) =~= all);
    None
}

/// A group that is found among the first nodes is found among all.
proof fn lemma_group_like_stays(
    nodes: Seq<XMLNodeView>,
    attributes: Seq<(Seq<char>, Seq<char>)>,
    upto: int,
)
    requires
        0 <= upto <= nodes.len(),
        group_like(nodes.take(upto), attributes) is Some,
    ensures
        group_like(nodes, attributes) == group_like(nodes.take(upto), attributes),
    decreases nodes.len() - upto,
{
    if upto < nodes.len() {
        assert(nodes.take(upto + 1).drop_last() =~= nodes.take(upto));
        lemma_group_like_stays(nodes, attributes, upto + 1);
    } else {
        assert(nodes.take(upto) =~= nodes);
    }
}

/// Deals with the children of an element of a project file, each in turn.
fn merge_children(children: Vec<XMLNode>) -> (kept: Vec<XMLNode>)
    ensures
        nodes_view(kept@) == csproj_merged(nodes_view(children@)),
{
    let ghost all = nodes_view(children@);
    let mut kept: Vec<XMLNode> = Vec::new();
    assert(all.take(0) =~= Seq::<XMLNodeView>::empty());
    assert(nodes_view(kept@) =~= csproj_merged(all.take(0)));
    for child in it: children
        invariant
            it.seq() == children@,
            all == nodes_view(children@),
            nodes_view(kept@) == csproj_merged(all.take(it.index() as int)),
    {
        let ghost before = nodes_view(kept@);
        let ghost child_view = node_view(child);
        proof {
            assert(all.take(it.index() + 1).drop_last() =~= all.take(it.index() as int));
            assert(all.take(it.index() + 1).last() == child_view);
        }
        match child {
            XMLNode::Element(mut element) => {
                if str_eq(element.name.as_str(), "PropertyGroup") {
                    match find_group_like(&kept, &element) {
                        Some(at) => {
                            let node = kept.remove(at);
                            match node {
                                XMLNode::Element(mut group) => {
                                    let ghost group_view = element_view(group);
                                    let ghost more = nodes_view(element.children@);
                                    let ghost had = nodes_view(group.children@);
                                    group.children.append(&mut element.children);
                                    assert(nodes_view(group.children@) =~= had + more);
                                    kept.insert(at, XMLNode::Element(group));
                                    assert(nodes_view(kept@) =~= before.update(
                                        at as int,
                                        with_children(group_view, had + more),
                                    ));
                                },
                                _ => vstd::pervasive::unreached(),
                            }
                        },
                        None => {
                            kept.push(XMLNode::Element(element));
                            assert(nodes_view(kept@) =~= before.push(child_view));
                        },
                    }
                } else if keeps_element(&element) {
                    kept.push(XMLNode::Element(element));
                    assert(nodes_view(kept@) =~= before.push(child_view));
                }
            },
            other => {
                kept.push(other);
                assert(nodes_view(kept@) =~= before.push(child_view));
            },
        }
    }
    assert(all.take(all.len() as int) =~= all);
    kept
}

/// Tells whether a node is an empty group.
fn node_is_empty_group(cleanup: Cleanup, node: &XMLNode) -> (yes: bool)
    ensures
        yes == is_empty_group(cleanup, node_view(*node)),
{
    match node {
        XMLNode::Element(element) => {
            let named = match cleanup {
                Cleanup::Csproj => str_eq(element.name.as_str(), "PropertyGroup") || str_eq(
                    element.name.as_str(),
                    "ItemGroup",
                ),
                Cleanup::AppConfig => str_eq(element.name.as_str(), "runtime") || str_eq(
                    element.name.as_str(),
                    "startup",
                ),
            };
            named && all_children_whitespace(element)
        },
        _ => false,
    }
}

/// Leaves the empty groups out.
fn drop_empty_groups(cleanup: Cleanup, nodes: Vec<XMLNode>) -> (kept: Vec<XMLNode>)
    ensures
        nodes_view(kept@) == without_empty_groups(cleanup, nodes_view(nodes@)),
{
    let ghost all = nodes_view(nodes@);
    let mut kept: Vec<XMLNode> = Vec::new();
    assert(all.take(0) =~= Seq::<XMLNodeView>::empty());
    assert(nodes_view(kept@) =~= without_empty_groups(cleanup, all.take(0)));
    for node in it: nodes
        invariant
            it.seq() == nodes@,
            all == nodes_view(nodes@),
            nodes_view(kept@) == without_empty_groups(cleanup, all.take(it.index() as int)),
    {
        let ghost before = nodes_view(kept@);
        let ghost view = node_view(node);
        proof {
            assert(all.take(it.index() + 1).drop_last() =~= all.take(it.index() as int));
            assert(all.take(it.index() + 1).last() == view);
        }
        if !node_is_empty_group(cleanup, &node) {
            kept.push(node);
            assert(nodes_view(kept@) =~= before.push(view));
        }
    }
    assert(all.take(all.len() as int) =~= all);
    kept
}

/// Leaves out what an application configuration has no use for.
fn drop_app_config_nodes(nodes: Vec<XMLNode>) -> (kept: Vec<XMLNode>)
    ensures
        nodes_view(kept@) == app_config_kept(nodes_view(nodes@)),
{
    let ghost all = nodes_view(nodes@);
    let mut kept: Vec<XMLNode> = Vec::new();
    assert(all.take(0) =~= Seq::<XMLNodeView>::empty());
    assert(nodes_view(kept@) =~= app_config_kept(all.take(0)));
    for node in it: nodes
        invariant
            it.seq() == nodes@,
            all == nodes_view(nodes@),
            nodes_view(kept@) == app_config_kept(all.take(it.index() as int)),
    {
        let ghost before = nodes_view(kept@);
        let ghost view = node_view(node);
        proof {
            assert(all.take(it.index() + 1).drop_last() =~= all.take(it.index() as int));
            assert(all.take(it.index() + 1).last() == view);
        }
        let drops = match &node {
            XMLNode::Element(element) => str_eq(element.name.as_str(), "assemblyBinding")
                || str_eq(element.name.as_str(), "supportedRuntime"),
            _ => false,
        };
        if !drops {
            kept.push(node);
            assert(nodes_view(kept@) =~= before.push(view));
        }
    }
    assert(all.take(all.len() as int) =~= all);
    kept
}

/// Cleans the children of an element.
fn transform_children(cleanup: Cleanup, children: Vec<XMLNode>) -> (kept: Vec<XMLNode>)
    ensures
        nodes_view(kept@) == transformed_children(cleanup, nodes_view(children@)),
{
    match cleanup {
        Cleanup::Csproj => drop_empty_groups(cleanup, merge_children(children)),
        Cleanup::AppConfig => drop_empty_groups(cleanup, drop_app_config_nodes(children)),
    }
}

/// Cleans an element of an application configuration: its children lose
/// the binding redirects and the supported runtimes, and then the `runtime`
/// and `startup` elements that hold nothing any more.
pub fn app_config_element_transform(element: &mut Element)
    ensures
        element_view(*final(element)) == with_children(
            element_view(*old(element)),
            transformed_children(Cleanup::AppConfig, children_of(element_view(*old(element)))),
        ),
{
    let mut children: Vec<XMLNode> = Vec::new();
    core::mem::swap(&mut children, &mut element.children);
    element.children = transform_children(Cleanup::AppConfig, children);
}

/// Cleans an element of a project file: property groups with the same
/// attributes become one, what the project no longer needs goes, and then
/// the property groups and item groups that hold nothing any more.
pub fn csproj_element_transform(element: &mut Element)
    ensures
        element_view(*final(element)) == with_children(
            element_view(*old(element)),
            transformed_children(Cleanup::Csproj, children_of(element_view(*old(element)))),
        ),
{
    let mut children: Vec<XMLNode> = Vec::new();
    core::mem::swap(&mut children, &mut element.children);
    element.children = transform_children(Cleanup::Csproj, children);
}

/// Cleans a tree from the leaves up: every element below `element`, and
/// then `element` itself.
pub fn process_tree(element: Element, cleanup: Cleanup) -> (out: Element)
    ensures
        element_view(out) == processed(cleanup, element_view(element)),
    decreases element,
{
    let ghost given = nodes_view(element.children@);
    let ghost nodes = element.children@;
    let mut children: Vec<XMLNode> = Vec::new();
    for child in it: element.children
        invariant
            it.seq() == nodes,
            nodes == element.children@,
            given == nodes_view(nodes),
            children.len() == it.index(),
            forall|k: int|
                0 <= k < it.index() ==> node_view(#[trigger] children@[k]) == processed(
                    cleanup,
                    given[k],
                ),
    {
        assert(given[it.index() as int] == node_view(child));
        assert(nodes[it.index() as int] == child);
        children.push(
            match child {
                XMLNode::Element(inner) => XMLNode::Element(process_tree(inner, cleanup)),
                other => other,
            },
        );
    }
    assert(nodes_view(children@) =~= processed_all(cleanup, given));
    Element {
        id: element.id,
        name: element.name,
        attributes: element.attributes,
        children: transform_children(cleanup, children),
    }
}

/// Cleans a project file. The file is written back whatever came of it, so
/// the result is never `None`.
pub fn cleanup_csproj(root: Element) -> (out: Option<Element>)
    ensures
        out matches Some(cleaned) && element_view(cleaned) == processed(
            Cleanup::Csproj,
            element_view(root),
        ),
{
    Some(process_tree(root, Cleanup::Csproj))
}

/// Cleans an application configuration. Where nothing but white space is
/// left in it, the result is `None`: the file has no use any more.
pub fn cleanup_app_config(root: Element) -> (out: Option<Element>)
    ensures
        ({
            let cleaned = processed(Cleanup::AppConfig, element_view(root));
            if all_blank(children_of(cleaned)) {
                out is None
            } else {
                out matches Some(e) && element_view(e) == cleaned
            }
        }),
{
    let cleaned = process_tree(root, Cleanup::AppConfig);
    if all_children_whitespace(&cleaned) {
        None
    } else {
        Some(cleaned)
    }
}

} // verus!
