//! The folder tree of a solution, its identifiers, and its text.

use vstd::prelude::*;
use vstd::string::StringExecFns;
use crate::sln::types::architecture_text;
use crate::sln::types::configuration_text;
use crate::sln::types::Configuration;
use crate::sln::types::ProcessorArchitecture;
use crate::sln::types::CONFIGURATIONS;
use crate::sln::types::PROCESSOR_ARCHITECTURES;
use crate::text::chars_of;
use crate::text::lemma_bytes_le_total;
use crate::text::lemma_bytes_le_transitive;
use crate::text::lemma_text_le_antisymmetric;
use crate::text::str_eq;
use crate::text::str_le;
use crate::text::string_of;
use crate::text::text_le;
use crate::text::texts;

verus! {

/// An identifier of 128 bits.
#[derive(Debug, Clone, Copy, PartialEq, Eq, Structural)]
pub struct Guid {
    pub value: u128,
}

/// The identifier of the kind "solution folder".
pub const FOLDER_UUID: u128 = 0x2150E3338FDC42A394741A3956D46DE8;

/// The identifier of the kind "project".
pub const PROJECT_UUID: u128 = 0xFAE04EC0301F11D3BF4B00C04F79EFBC;

/// The text that opens a solution file.
pub const HEADER: &'static str =
    "\nMicrosoft Visual Studio Solution File, Format Version 12.00\n# Visual Studio Version 16\nVisualStudioVersion = 16.0.30114.105\nMinimumVisualStudioVersion = 10.0.40219.1\n";

/// The character of a hexadecimal digit, in upper case.
pub open spec fn hex_char(d: nat) -> char {
    if d == 0 {
        '0'
    } else if d == 1 {
        '1'
    } else if d == 2 {
        '2'
    } else if d == 3 {
        '3'
    } else if d == 4 {
        '4'
    } else if d == 5 {
        '5'
    } else if d == 6 {
        '6'
    } else if d == 7 {
        '7'
    } else if d == 8 {
        '8'
    } else if d == 9 {
        '9'
    } else if d == 10 {
        'A'
    } else if d == 11 {
        'B'
    } else if d == 12 {
        'C'
    } else if d == 13 {
        'D'
    } else if d == 14 {
        'E'
    } else {
        'F'
    }
}

/// The last `digits` hexadecimal digits of a number.
pub open spec fn hex_text(value: nat, digits: nat) -> Seq<char>
    decreases digits,
{
    if digits == 0 {
        Seq::empty()
    } else {
        hex_text(value / 16, (digits - 1) as nat).push(hex_char(value % 16))
    }
}

/// The text of an identifier: its 32 hexadecimal digits in upper case, the
/// highest first, in groups of 8, 4, 4, 4 and 12 with hyphens between them.
pub open spec fn guid_text(value: u128) -> Seq<char> {
    let v = value as nat;
    hex_text(v / 0x1_0000_0000_0000_0000_0000_0000, 8) + seq!['-'] + hex_text(
        v / 0x1_0000_0000_0000_0000_0000,
        4,
    ) + seq!['-'] + hex_text(v / 0x1_0000_0000_0000_0000, 4) + seq!['-'] + hex_text(
        v / 0x1_0000_0000_0000,
        4,
    ) + seq!['-'] + hex_text(v, 12)
}

/// Appends the last `digits` hexadecimal digits of a number.
fn push_hex(out: &mut String, value: u128, digits: u32)
    ensures
        final(out)@ == old(out)@ + hex_text(value as nat, digits as nat),
    decreases digits,
{
    if digits > 0 {
        push_hex(out, value / 16, digits - 1);
        let d = value % 16;
        let c = if d == 0 {
            '0'
        } else if d == 1 {
            '1'
        } else if d == 2 {
            '2'
        } else if d == 3 {
            '3'
        } else if d == 4 {
            '4'
        } else if d == 5 {
            '5'
        } else if d == 6 {
            '6'
        } else if d == 7 {
            '7'
        } else if d == 8 {
            '8'
        } else if d == 9 {
            '9'
        } else if d == 10 {
            'A'
        } else if d == 11 {
            'B'
        } else if d == 12 {
            'C'
        } else if d == 13 {
            'D'
        } else if d == 14 {
            'E'
        } else {
            'F'
        };
        out.push(c);
    }
    assert(out@ =~= old(out)@ + hex_text(value as nat, digits as nat));
}

/// Appends the text of an identifier.
pub fn push_guid(out: &mut String, value: u128)
    ensures
        final(out)@ == old(out)@ + guid_text(value),
{
    push_hex(out, value / 0x1_0000_0000_0000_0000_0000_0000, 8);
    out.push('-');
    push_hex(out, value / 0x1_0000_0000_0000_0000_0000, 4);
    out.push('-');
    push_hex(out, value / 0x1_0000_0000_0000_0000, 4);
    out.push('-');
    push_hex(out, value / 0x1_0000_0000_0000, 4);
    out.push('-');
    push_hex(out, value, 12);
    assert(out@ =~= old(out)@ + guid_text(value));
}

impl Guid {
    /// The text of the identifier, in upper case with hyphens.
    pub fn to_text(&self) -> (out: String)
        ensures
            out@ == guid_text(self.value),
    {
        let mut out = String::new();
        push_guid(&mut out, self.value);
        assert(out@ =~= guid_text(self.value));
        out
    }
}

/// The 128 bits that the hash of a text comes to.
pub uninterp spec fn hashed_guid(text: Seq<char>) -> u128;

/// Hashes a text with `siphasher::sip128::SipHasher` (SipHash 2-4 under the
/// fixed key that `SipHasher::new` sets), fed through the text's `Hash` impl,
/// and reads the 16 bytes of `finish128` as a `uuid::Uuid`, highest byte
/// first. The result is taken to depend on the text alone; nothing else is
/// claimed of it.
#[verifier::external_body]
fn sip_hash(text: &str) -> (value: u128)
    ensures
        value == hashed_guid(text@),
{
    let mut hasher = siphasher::sip128::SipHasher::new();
    std::hash::Hash::hash(text, &mut hasher);
    let hash = siphasher::sip128::Hasher128::finish128(&hasher);
    uuid::Uuid::from_bytes(hash.as_bytes()).as_u128()
}

/// The identifier that stands for a text: derived from the text alone, so
/// that the same text has the same identifier in every run.
pub fn guid_from_hash(value: &str) -> (guid: Guid)
    ensures
        guid.value == hashed_guid(value@),
{
    Guid { value: sip_hash(value) }
}

/// Two names joined by a backslash; the second alone where the first is
/// empty.
pub open spec fn join_str_path_spec(a: Seq<char>, b: Seq<char>) -> Seq<char> {
    if a.len() == 0 {
        b
    } else {
        a + seq!['\\'] + b
    }
}

/// Joins two names by a backslash; gives the second alone where the first
/// is empty.
pub fn join_str_path(a: &str, b: &str) -> (out: String)
    ensures
        out@ == join_str_path_spec(a@, b@),
{
    if a.is_empty() {
        b.to_owned()
    } else {
        let mut out = a.to_owned();
        out.push('\\');
        out.append(b);
        assert(out@ =~= a@ + seq!['\\'] + b@);
        out
    }
}

/// A project of a solution, with its identifier where it has one already.
#[derive(Debug, PartialEq, Eq)]
pub struct Project {
    pub guid: Option<Guid>,
}

/// A folder of a solution: its children by name, in the order of the names.
#[derive(Debug, PartialEq, Eq)]
pub struct Directory {
    pub nodes: Vec<(String, Node)>,
}

/// A node of the folder tree.
#[derive(Debug, PartialEq, Eq)]
pub enum Node {
    Project(Project),
    Directory(Directory),
}

/// The mathematical value of a [`Node`].
pub enum NodeView {
    Project(Option<u128>),
    Directory(Seq<(Seq<char>, NodeView)>),
}

/// The children of a folder, as mathematical values.
pub type ChildrenView = Seq<(Seq<char>, NodeView)>;

/// The mathematical value of a node.
pub open spec fn node_view(node: Node) -> NodeView
    decreases node,
{
    match node {
        Node::Project(p) => NodeView::Project(
            match p.guid {
                Some(g) => Some(g.value),
                None => None,
            },
        ),
        Node::Directory(d) => NodeView::Directory(children_view(d.nodes@)),
    }
}

/// The mathematical value of the children of a folder.
pub open spec fn children_view(nodes: Seq<(String, Node)>) -> ChildrenView
    decreases nodes,
{
    Seq::new(
        nodes.len(),
        |i: int|
            if 0 <= i < nodes.len() {
                (nodes[i].0@, node_view(nodes[i].1))
            } else {
                (Seq::empty(), NodeView::Project(None))
            },
    )
}

impl View for Node {
    type V = NodeView;

    open spec fn view(&self) -> NodeView {
        node_view(*self)
    }
}

impl View for Directory {
    type V = ChildrenView;

    open spec fn view(&self) -> ChildrenView {
        children_view(self.nodes@)
    }
}

/// Why a set of projects makes no solution.
#[derive(Debug, Clone, Copy, PartialEq, Eq, Structural)]
pub enum SolutionError {
    /// A project lies outside the directory of the solution.
    OutsideSolution,
    /// The path of a project, taken from the directory of the solution, holds
    /// a component that is neither a name nor a step up.
    UnexpectedComponent,
    /// The path of a project runs through another project.
    ProjectUsedAsDirectory,
    /// The path of the solution names no directory to hold it.
    NoSolutionDirectory,
}

/// Whether one name comes before another and differs from it.
pub open spec fn strictly_before(a: Seq<char>, b: Seq<char>) -> bool {
    text_le(a, b) && a != b
}

/// Whether the names of the children ascend strictly: the order that a
/// folder keeps its children in, with no name twice.
pub open spec fn names_ascend(nodes: ChildrenView) -> bool {
    forall|i: int, j: int|
        0 <= i < j < nodes.len() ==> strictly_before((#[trigger] nodes[i]).0, (#[trigger] nodes[j]).0)
}

/// The number of children at the start of a folder whose names come
/// strictly before `name`: the place where a child of that name stands or
/// would stand.
pub open spec fn slot(nodes: ChildrenView, name: Seq<char>) -> int
    decreases nodes.len(),
{
    if nodes.len() > 0 && strictly_before(nodes[0].0, name) {
        1 + slot(nodes.skip(1), name)
    } else {
        0
    }
}

/// Whether the folder has a child of that name at the name's place.
pub open spec fn holds_name(nodes: ChildrenView, name: Seq<char>) -> bool {
    let at = slot(nodes, name);
    at < nodes.len() && nodes[at].0 == name
}

/// The folder with `node` as its child of that name: in the place of the
/// child of that name, where there is one, and else put in at the name's
/// place.
pub open spec fn put(nodes: ChildrenView, name: Seq<char>, node: NodeView) -> ChildrenView {
    let at = slot(nodes, name);
    if holds_name(nodes, name) {
        nodes.update(at, (name, node))
    } else {
        nodes.insert(at, (name, node))
    }
}

/// The folder after a project is added under the path `names`: the names
/// but the last are folders, made where they are missing, and the last is
/// the project, which takes the place of whatever had its name. A path that
/// runs through a project is refused.
pub open spec fn insert_spec(nodes: ChildrenView, names: Seq<Seq<char>>, guid: Option<u128>) -> Result<
    ChildrenView,
    SolutionError,
>
    decreases names.len(),
{
    if names.len() == 0 {
        Ok(nodes)
    } else if names.len() == 1 {
        Ok(put(nodes, names[0], NodeView::Project(guid)))
    } else {
        let name = names[0];
        let below: Result<ChildrenView, SolutionError> = if holds_name(nodes, name) {
            match nodes[slot(nodes, name)].1 {
                NodeView::Directory(children) => insert_spec(children, names.skip(1), guid),
                NodeView::Project(_) => Err(SolutionError::ProjectUsedAsDirectory),
            }
        } else {
            insert_spec(Seq::empty(), names.skip(1), guid)
        };
        match below {
            Ok(children) => Ok(put(nodes, name, NodeView::Directory(children))),
            Err(e) => Err(e),
        }
    }
}

/// The place of a name lies within the folder or at its end; the children
/// before it have names before the name, and the child at it has not.
pub proof fn lemma_slot(nodes: ChildrenView, name: Seq<char>)
    ensures
        0 <= slot(nodes, name) <= nodes.len(),
        forall|i: int| 0 <= i < slot(nodes, name) ==> strictly_before((#[trigger] nodes[i]).0, name),
        slot(nodes, name) < nodes.len() ==> !strictly_before(nodes[slot(nodes, name)].0, name),
    decreases nodes.len(),
{
    if nodes.len() > 0 && strictly_before(nodes[0].0, name) {
        let rest = nodes.skip(1);
        lemma_slot(rest, name);
        assert forall|i: int| 0 <= i < slot(nodes, name) implies strictly_before(
            (#[trigger] nodes[i]).0,
            name,
        ) by {
            if i > 0 {
                assert(rest[i - 1] == nodes[i]);
            }
        }
        if slot(nodes, name) < nodes.len() {
            assert(rest[slot(rest, name)] == nodes[slot(nodes, name)]);
        }
    }
}

/// The node that stands in the folder tree under the path `names`.
pub open spec fn find_spec(nodes: ChildrenView, names: Seq<Seq<char>>) -> Option<NodeView>
    decreases names.len(),
{
    if names.len() == 0 || !holds_name(nodes, names[0]) {
        None
    } else {
        let child = nodes[slot(nodes, names[0])].1;
        if names.len() == 1 {
            Some(child)
        } else {
            match child {
                NodeView::Directory(children) => find_spec(children, names.skip(1)),
                NodeView::Project(_) => None,
            }
        }
    }
}

/// The place of a name is the place before which all names come strictly
/// before it, and at which the name does not.
pub proof fn lemma_slot_is(nodes: ChildrenView, name: Seq<char>, at: int)
    requires
        0 <= at <= nodes.len(),
        forall|i: int| 0 <= i < at ==> strictly_before((#[trigger] nodes[i]).0, name),
        at < nodes.len() ==> !strictly_before(nodes[at].0, name),
    ensures
        slot(nodes, name) == at,
    decreases at,
{
    if at > 0 {
        let rest = nodes.skip(1);
        assert(strictly_before(nodes[0].0, name));
        assert forall|i: int| 0 <= i < at - 1 implies strictly_before(
            (#[trigger] rest[i]).0,
            name,
        ) by {
            assert(rest[i] == nodes[i + 1]);
        }
        if at - 1 < rest.len() {
            assert(rest[at - 1] == nodes[at]);
        }
        lemma_slot_is(rest, name, at - 1);
    }
}

/// A child that is put into a folder stands there under its name.
pub proof fn lemma_put_holds(nodes: ChildrenView, name: Seq<char>, node: NodeView)
    ensures
        holds_name(put(nodes, name, node), name),
        put(nodes, name, node)[slot(put(nodes, name, node), name)].1 == node,
{
    let at = slot(nodes, name);
    let out = put(nodes, name, node);
    lemma_slot(nodes, name);
    assert forall|i: int| 0 <= i < at implies strictly_before((#[trigger] out[i]).0, name) by {
        assert(out[i] == nodes[i]);
    }
    assert(out[at] == (name, node));
    lemma_slot_is(out, name, at);
}

/// A project that is added to the folder tree stands there under its path,
/// with the identifier that it brought.
pub proof fn lemma_added_is_found(nodes: ChildrenView, names: Seq<Seq<char>>, guid: Option<u128>)
    requires
        names.len() > 0,
    ensures
        insert_spec(nodes, names, guid) matches Ok(grown) ==> find_spec(grown, names) == Some(
            NodeView::Project(guid),
        ),
    decreases names.len(),
{
    let name = names[0];
    if names.len() == 1 {
        lemma_put_holds(nodes, name, NodeView::Project(guid));
    } else {
        let below: Result<ChildrenView, SolutionError> = if holds_name(nodes, name) {
            match nodes[slot(nodes, name)].1 {
                NodeView::Directory(children) => {
                    lemma_added_is_found(children, names.skip(1), guid);
                    insert_spec(children, names.skip(1), guid)
                },
                NodeView::Project(_) => Err(SolutionError::ProjectUsedAsDirectory),
            }
        } else {
            lemma_added_is_found(Seq::empty(), names.skip(1), guid);
            insert_spec(Seq::empty(), names.skip(1), guid)
        };
        match below {
            Ok(children) => {
                lemma_put_holds(nodes, name, NodeView::Directory(children));
            },
            Err(_) => {},
        }
    }
}

/// A folder whose names ascend keeps them ascending when a child is put in.
pub proof fn lemma_put_keeps_order(nodes: ChildrenView, name: Seq<char>, node: NodeView)
    requires
        names_ascend(nodes),
    ensures
        names_ascend(put(nodes, name, node)),
{
    let at = slot(nodes, name);
    let out = put(nodes, name, node);
    lemma_slot(nodes, name);
    assert forall|i: int, j: int| 0 <= i < j < out.len() implies strictly_before(
        (#[trigger] out[i]).0,
        (#[trigger] out[j]).0,
    ) by {
        if holds_name(nodes, name) {
            assert(out[i].0 == nodes[i].0);
            assert(out[j].0 == nodes[j].0);
        } else {
            let a = if i < at {
                i
            } else {
                i - 1
            };
            let b = if j < at {
                j
            } else {
                j - 1
            };
            if i == at {
                assert(out[j] == nodes[j - 1]);
                lemma_before_or_after(nodes[at].0, name);
                if j - 1 > at {
                    assert(strictly_before(nodes[at].0, nodes[j - 1].0));
                    lemma_strictly_before_transitive(name, nodes[at].0, nodes[j - 1].0);
                }
            } else if j == at {
                assert(out[i] == nodes[i]);
            } else {
                assert(out[i] == nodes[a]);
                assert(out[j] == nodes[b]);
            }
        }
    }
}

/// Of two different names, one comes strictly before the other.
pub proof fn lemma_before_or_after(a: Seq<char>, b: Seq<char>)
    ensures
        a == b || strictly_before(a, b) || strictly_before(b, a),
{
    lemma_bytes_le_total(vstd::utf8::encode_utf8(a), vstd::utf8::encode_utf8(b));
}

/// A name before a name before a third comes before the third.
pub proof fn lemma_strictly_before_transitive(a: Seq<char>, b: Seq<char>, c: Seq<char>)
    requires
        strictly_before(a, b),
        strictly_before(b, c),
    ensures
        strictly_before(a, c),
{
    lemma_bytes_le_transitive(
        vstd::utf8::encode_utf8(a),
        vstd::utf8::encode_utf8(b),
        vstd::utf8::encode_utf8(c),
    );
    if a == c {
        lemma_text_le_antisymmetric(a, b);
    }
}

impl Directory {
    /// A folder without children.
    pub fn new() -> (out: Directory)
        ensures
            out@ == ChildrenView::empty(),
    {
        let out = Directory { nodes: Vec::new() };
        assert(out@ =~= ChildrenView::empty());
        out
    }

    /// The place where a child of that name stands or would stand.
    fn slot(&self, name: &str) -> (at: usize)
        ensures
            at == slot(self@, name@),
            at <= self.nodes.len(),
    {
        let ghost all = self@;
        let mut i: usize = 0;
        assert(all.skip(0) =~= all);
        loop
            invariant
                i <= self.nodes.len(),
                all == self@,
                slot(all, name@) == i + slot(all.skip(i as int), name@),
            decreases self.nodes.len() - i,
        {
            if i >= self.nodes.len() {
                return i;
            }
            assert(all.skip(i as int)[0] == all[i as int]);
            let key = self.nodes[i].0.as_str();
            if !(str_le(key, name) && !str_eq(key, name)) {
                return i;
            }
            assert(all.skip(i as int).skip(1) =~= all.skip(i + 1));
            i += 1;
        }
    }

    /// Adds a project under the path `names[from..]`.
    fn insert_from(self, names: &Vec<String>, from: usize, guid: Option<Guid>) -> (out: Result<
        Directory,
        SolutionError,
    >)
        requires
            from <= names.len(),
        ensures
            match insert_spec(
                self@,
                texts(names@).skip(from as int),
                match guid {
                    Some(g) => Some(g.value),
                    None => None,
                },
            ) {
                Ok(nodes) => out matches Ok(dir) && dir@ == nodes,
                Err(e) => out == Err::<Directory, SolutionError>(e),
            },
        decreases names.len() - from,
    {
        let ghost path = texts(names@).skip(from as int);
        let ghost before = self@;
        let ghost guid_view: Option<u128> = match guid {
            Some(g) => Some(g.value),
            None => None,
        };
        if from >= names.len() {
            return Ok(self);
        }
        assert(path[0] == names@[from as int]@);
        let name = &names[from];
        let at = self.slot(name.as_str());
        let found = at < self.nodes.len() && str_eq(self.nodes[at].0.as_str(), name.as_str());
        let mut dir = self;
        if from + 1 == names.len() {
            let node = Node::Project(Project { guid });
            if found {
                dir.nodes[at] = (name.clone(), node);
                assert(dir@ =~= put(before, path[0], NodeView::Project(guid_view)));
            } else {
                dir.nodes.insert(at, (name.clone(), node));
                assert(dir@ =~= put(before, path[0], NodeView::Project(guid_view)));
            }
            return Ok(dir);
        }
        assert(path.skip(1) =~= texts(names@).skip(from + 1));
        if found {
            let (key, node) = dir.nodes.remove(at);
            assert(node_view(node) == before[at as int].1);
            match node {
                Node::Directory(child) => {
                    match child.insert_from(names, from + 1, guid) {
                        Ok(grown) => {
                            let ghost grown_view = grown@;
                            dir.nodes.insert(at, (key, Node::Directory(grown)));
                            assert(dir@ =~= put(before, path[0], NodeView::Directory(grown_view)));
                            Ok(dir)
                        },
                        Err(e) => Err(e),
                    }
                },
                Node::Project(_) => Err(SolutionError::ProjectUsedAsDirectory),
            }
        } else {
            match Directory::new().insert_from(names, from + 1, guid) {
                Ok(grown) => {
                    let ghost grown_view = grown@;
                    dir.nodes.insert(at, (name.clone(), Node::Directory(grown)));
                    assert(dir@ =~= put(before, path[0], NodeView::Directory(grown_view)));
                    Ok(dir)
                },
                Err(e) => Err(e),
            }
        }
    }

    /// Adds a project under the path `names`: the names but the last are
    /// folders, made where they are missing; the last is the project.
    pub fn insert(self, names: &Vec<String>, guid: Option<Guid>) -> (out: Result<
        Directory,
        SolutionError,
    >)
        ensures
            match insert_spec(
                self@,
                texts(names@),
                match guid {
                    Some(g) => Some(g.value),
                    None => None,
                },
            ) {
                Ok(nodes) => out matches Ok(dir) && dir@ == nodes,
                Err(e) => out == Err::<Directory, SolutionError>(e),
            },
    {
        assert(texts(names@).skip(0) =~= texts(names@));
        self.insert_from(names, 0, guid)
    }
}

/// A project of a solution with its identifier.
#[derive(Debug, PartialEq, Eq)]
pub struct InnerProject {
    /// The path from the directory of the solution, with backslashes.
    pub path: String,
    pub guid: Guid,
    /// The name of the project: that of its file, without `.csproj`.
    pub name: String,
}

/// A folder of a solution with its identifier.
#[derive(Debug, PartialEq, Eq)]
pub struct InnerDirectory {
    /// The path from the directory of the solution, with backslashes.
    pub path: String,
    pub guid: Guid,
    pub name: String,
    pub nodes: Vec<InnerNode>,
}

/// A node of a solution with its identifier.
#[derive(Debug, PartialEq, Eq)]
pub enum InnerNode {
    Directory(InnerDirectory),
    Project(InnerProject),
}

/// The nodes at the top of a solution.
#[derive(Debug, PartialEq, Eq)]
pub struct InnerRootDirectory {
    pub nodes: Vec<InnerNode>,
}

/// A solution: the folder tree of its projects, each node with its
/// identifier.
#[derive(Debug, PartialEq, Eq)]
pub struct SolutionFile {
    pub root: InnerRootDirectory,
}

/// The mathematical value of an [`InnerNode`].
pub enum InnerNodeView {
    Directory { path: Seq<char>, guid: u128, name: Seq<char>, nodes: Seq<InnerNodeView> },
    Project { path: Seq<char>, guid: u128, name: Seq<char> },
}

/// The mathematical value of a node with its identifier.
pub open spec fn inner_view(node: InnerNode) -> InnerNodeView
    decreases node,
{
    match node {
        InnerNode::Directory(d) => InnerNodeView::Directory {
            path: d.path@,
            guid: d.guid.value,
            name: d.name@,
            nodes: inner_nodes_view(d.nodes@),
        },
        InnerNode::Project(p) => InnerNodeView::Project {
            path: p.path@,
            guid: p.guid.value,
            name: p.name@,
        },
    }
}

/// The mathematical values of nodes with their identifiers.
pub open spec fn inner_nodes_view(nodes: Seq<InnerNode>) -> Seq<InnerNodeView>
    decreases nodes,
{
    Seq::new(
        nodes.len(),
        |i: int|
            if 0 <= i < nodes.len() {
                inner_view(nodes[i])
            } else {
                InnerNodeView::Project { path: Seq::empty(), guid: 0, name: Seq::empty() }
            },
    )
}

impl View for InnerNode {
    type V = InnerNodeView;

    open spec fn view(&self) -> InnerNodeView {
        inner_view(*self)
    }
}

impl View for InnerProject {
    type V = InnerNodeView;

    open spec fn view(&self) -> InnerNodeView {
        InnerNodeView::Project { path: self.path@, guid: self.guid.value, name: self.name@ }
    }
}

impl View for InnerDirectory {
    type V = InnerNodeView;

    open spec fn view(&self) -> InnerNodeView {
        InnerNodeView::Directory {
            path: self.path@,
            guid: self.guid.value,
            name: self.name@,
            nodes: inner_nodes_view(self.nodes@),
        }
    }
}

impl View for InnerRootDirectory {
    type V = Seq<InnerNodeView>;

    open spec fn view(&self) -> Seq<InnerNodeView> {
        inner_nodes_view(self.nodes@)
    }
}

impl View for SolutionFile {
    type V = Seq<InnerNodeView>;

    open spec fn view(&self) -> Seq<InnerNodeView> {
        self.root@
    }
}

/// The ending of the name of a project file.
pub open spec fn project_suffix() -> Seq<char> {
    seq!['.', 'c', 's', 'p', 'r', 'o', 'j']
}

/// The name of a project file without its ending; a name without the ending
/// as it is.
pub open spec fn without_suffix(name: Seq<char>) -> Seq<char> {
    if name.len() >= 7 && name.skip(name.len() - 7) == project_suffix() {
        name.take(name.len() - 7)
    } else {
        name
    }
}

/// The node of a solution that a node of the folder tree becomes, where
/// `path` leads to the folder that holds it and `name` is its name there:
/// - its path is `path` and `name`, joined by a backslash;
/// - a folder is identified by the hash of its path;
/// - a project is identified by the identifier that it brings, or else by the
///   hash of its path, and named without the ending of its file.
pub open spec fn inner_node_spec(path: Seq<char>, name: Seq<char>, node: NodeView) -> InnerNodeView
    decreases node,
{
    let here = join_str_path_spec(path, name);
    match node {
        NodeView::Project(guid) => InnerNodeView::Project {
            path: here,
            guid: match guid {
                Some(g) => g,
                None => hashed_guid(here),
            },
            name: without_suffix(name),
        },
        NodeView::Directory(children) => InnerNodeView::Directory {
            path: here,
            guid: hashed_guid(here),
            name,
            nodes: inner_nodes_spec(here, children),
        },
    }
}

/// The nodes of a solution that the children of a folder become.
pub open spec fn inner_nodes_spec(path: Seq<char>, children: ChildrenView) -> Seq<InnerNodeView>
    decreases children,
{
    Seq::new(
        children.len(),
        |i: int|
            if 0 <= i < children.len() {
                inner_node_spec(path, children[i].0, children[i].1)
            } else {
                InnerNodeView::Project { path: Seq::empty(), guid: 0, name: Seq::empty() }
            },
    )
}

/// The name of a project file without its ending.
fn strip_suffix(name: &str) -> (out: String)
    ensures
        out@ == without_suffix(name@),
{
    let mut chars = chars_of(name);
    let n = chars.len();
    if n >= 7 && chars[n - 7] == '.' && chars[n - 6] == 'c' && chars[n - 5] == 's' && chars[n - 4]
        == 'p' && chars[n - 3] == 'r' && chars[n - 2] == 'o' && chars[n - 1] == 'j' {
        assert(name@.skip(n - 7) =~= project_suffix());
        chars.truncate(n - 7);
        assert(chars@ =~= name@.take(n - 7));
        string_of(&chars)
    } else {
        proof {
            if n >= 7 && name@.skip(n - 7) == project_suffix() {
                let tail = name@.skip(n - 7);
                assert(tail[0] == '.' && tail[1] == 'c' && tail[2] == 's' && tail[3] == 'p'
                    && tail[4] == 'r' && tail[5] == 'o' && tail[6] == 'j');
            }
        }
        string_of(&chars)
    }
}

impl InnerProject {
    /// The project of a solution that the project named `name` in the folder
    /// at `path` becomes.
    pub fn new(path: &str, name: String, proj: Project) -> (out: InnerProject)
        ensures
            out@ == inner_node_spec(path@, name@, node_view(Node::Project(proj))),
    {
        let path = join_str_path(path, name.as_str());
        let name = strip_suffix(name.as_str());
        let guid = match proj.guid {
            Some(guid) => guid,
            None => guid_from_hash(path.as_str()),
        };
        InnerProject { path, name, guid }
    }
}

impl InnerDirectory {
    /// The folder of a solution that the folder named `name` in the folder
    /// at `path` becomes.
    pub fn new(path: &str, name: String, dir: Directory) -> (out: InnerDirectory)
        ensures
            out@ == inner_node_spec(path@, name@, node_view(Node::Directory(dir))),
        decreases dir,
    {
        let path = join_str_path(path, name.as_str());
        let guid = guid_from_hash(path.as_str());
        let ghost children = dir@;
        let ghost given = dir.nodes@;
        let mut nodes: Vec<InnerNode> = Vec::new();
        for child in it: dir.nodes
            invariant
                it.seq() == given,
                given == dir.nodes@,
                children == children_view(given),
                nodes.len() == it.index(),
                forall|k: int|
                    0 <= k < it.index() ==> inner_view(#[trigger] nodes@[k]) == inner_node_spec(
                        path@,
                        children[k].0,
                        children[k].1,
                    ),
        {
            let (child_name, node) = child;
            assert(given[it.index() as int] == child);
            nodes.push(InnerNode::new(path.as_str(), child_name, node));
        }
        let out = InnerDirectory { path, guid, name, nodes };
        assert(inner_nodes_view(out.nodes@) =~= inner_nodes_spec(out.path@, children));
        out
    }
}

impl InnerNode {
    /// The node of a solution that the node named `name` in the folder at
    /// `path` becomes.
    pub fn new(path: &str, name: String, node: Node) -> (out: InnerNode)
        ensures
            out@ == inner_node_spec(path@, name@, node@),
        decreases node,
    {
        match node {
            Node::Directory(dir) => InnerNode::Directory(InnerDirectory::new(path, name, dir)),
            Node::Project(proj) => InnerNode::Project(InnerProject::new(path, name, proj)),
        }
    }
}

impl InnerRootDirectory {
    /// The top of a solution, made of the folder tree of its projects.
    pub fn new(root: Directory) -> (out: InnerRootDirectory)
        ensures
            out@ == inner_nodes_spec(Seq::empty(), root@),
    {
        let ghost children = root@;
        let ghost given = root.nodes@;
        let mut nodes: Vec<InnerNode> = Vec::new();
        let top = String::new();
        for child in it: root.nodes
            invariant
                it.seq() == given,
                children == children_view(given),
                top@ == Seq::<char>::empty(),
                nodes.len() == it.index(),
                forall|k: int|
                    0 <= k < it.index() ==> inner_view(#[trigger] nodes@[k]) == inner_node_spec(
                        Seq::empty(),
                        children[k].0,
                        children[k].1,
                    ),
        {
            let (child_name, node) = child;
            assert(given[it.index() as int] == child);
            nodes.push(InnerNode::new(top.as_str(), child_name, node));
        }
        let out = InnerRootDirectory { nodes };
        assert(out@ =~= inner_nodes_spec(Seq::empty(), children));
        out
    }
}

impl SolutionFile {
    /// The solution of a folder tree: every node gets its identifier.
    pub fn new(root: Directory) -> (out: SolutionFile)
        ensures
            out@ == inner_nodes_spec(Seq::empty(), root@),
    {
        SolutionFile { root: InnerRootDirectory::new(root) }
    }
}

/// A line of a solution: a folder or a project, with the folder that it is
/// shown in. A node at the top has no such folder.
#[derive(Debug, PartialEq, Eq)]
pub struct SolutionEntry {
    pub is_folder: bool,
    pub name: String,
    /// For a project, the path of its file from the directory of the
    /// solution; for a folder, its name.
    pub path: String,
    pub guid: Guid,
    pub parent: Option<Guid>,
}

/// The mathematical value of a [`SolutionEntry`].
pub struct SolutionEntryView {
    pub is_folder: bool,
    pub name: Seq<char>,
    pub path: Seq<char>,
    pub guid: u128,
    pub parent: Option<u128>,
}

impl View for SolutionEntry {
    type V = SolutionEntryView;

    open spec fn view(&self) -> SolutionEntryView {
        SolutionEntryView {
            is_folder: self.is_folder,
            name: self.name@,
            path: self.path@,
            guid: self.guid.value,
            parent: match self.parent {
                Some(g) => Some(g.value),
                None => None,
            },
        }
    }
}

/// The entries of a vector, as mathematical values.
pub open spec fn solution_entries_view(entries: Seq<SolutionEntry>) -> Seq<SolutionEntryView> {
    entries.map_values(|e: SolutionEntry| e@)
}

/// Whether a node is left out of the solution: a folder whose only child is
/// a project of the folder's own name. The project is shown in its place.
pub open spec fn is_elided(node: InnerNodeView) -> bool {
    match node {
        InnerNodeView::Directory { name, nodes, .. } => nodes.len() == 1 && match nodes[0] {
            InnerNodeView::Project { name: project_name, .. } => project_name == name,
            _ => false,
        },
        _ => false,
    }
}

/// The entries of a node and of all below it, where `parent` is the folder
/// that the node is shown in: a project is one entry; a folder is one entry,
/// followed by the entries of its children, which are shown in it; a folder
/// that is left out gives only the entry of its project, shown in `parent`.
pub open spec fn entries_spec(node: InnerNodeView, parent: Option<u128>) -> Seq<SolutionEntryView>
    decreases node,
{
    match node {
        InnerNodeView::Project { path, guid, name } => seq![
            SolutionEntryView { is_folder: false, name, path, guid, parent },
        ],
        InnerNodeView::Directory { path, guid, name, nodes } => if is_elided(node) {
            entries_spec(nodes[0], parent)
        } else {
            seq![SolutionEntryView { is_folder: true, name, path: name, guid, parent }]
                + entries_of_spec(nodes, Some(guid), nodes.len() as int)
        },
    }
}

/// The entries of the first `upto` nodes and of all below them.
pub open spec fn entries_of_spec(nodes: Seq<InnerNodeView>, parent: Option<u128>, upto: int) -> Seq<
    SolutionEntryView,
>
    decreases nodes, upto,
{
    if upto <= 0 || upto > nodes.len() {
        Seq::empty()
    } else {
        entries_of_spec(nodes, parent, upto - 1) + entries_spec(nodes[upto - 1], parent)
    }
}

/// An identifier in braces.
pub open spec fn braced(guid: u128) -> Seq<char> {
    seq!['{'] + guid_text(guid) + seq!['}']
}

/// The lines that declare a folder or a project.
pub open spec fn entry_text(e: SolutionEntryView) -> Seq<char> {
    "Project(\""@ + braced(
        if e.is_folder {
            FOLDER_UUID
        } else {
            PROJECT_UUID
        },
    ) + "\") = \""@ + e.name + "\", \""@ + e.path + "\", \""@ + braced(e.guid)
        + "\"\nEndProject\n"@
}

/// The lines that declare the folders and the projects.
pub open spec fn entries_text(entries: Seq<SolutionEntryView>) -> Seq<char>
    decreases entries.len(),
{
    if entries.len() == 0 {
        Seq::empty()
    } else {
        entries_text(entries.drop_last()) + entry_text(entries.last())
    }
}

/// The configurations of a solution.
pub open spec fn configurations() -> Seq<Configuration> {
    seq![Configuration::Debug, Configuration::Release]
}

/// The platforms of a solution.
pub open spec fn architectures() -> Seq<ProcessorArchitecture> {
    seq![ProcessorArchitecture::Any, ProcessorArchitecture::X64, ProcessorArchitecture::X86]
}

/// The line that declares one configuration on one platform.
pub open spec fn platform_text(c: Configuration, a: ProcessorArchitecture) -> Seq<char> {
    "\t\t"@ + configuration_text(c) + "|"@ + architecture_text(a) + " = "@ + configuration_text(c)
        + "|"@ + architecture_text(a) + "\n"@
}

/// The lines that declare one configuration on the given platforms.
pub open spec fn platforms_text(c: Configuration, archs: Seq<ProcessorArchitecture>) -> Seq<char>
    decreases archs.len(),
{
    if archs.len() == 0 {
        Seq::empty()
    } else {
        platforms_text(c, archs.drop_last()) + platform_text(c, archs.last())
    }
}

/// The lines that declare the given configurations on the given platforms.
pub open spec fn matrix_text(confs: Seq<Configuration>, archs: Seq<ProcessorArchitecture>) -> Seq<
    char,
>
    decreases confs.len(),
{
    if confs.len() == 0 {
        Seq::empty()
    } else {
        matrix_text(confs.drop_last(), archs) + platforms_text(confs.last(), archs)
    }
}

/// The line that maps a project, in one configuration on one platform, to
/// the configuration on any platform.
pub open spec fn mapping_text(
    guid: u128,
    c: Configuration,
    a: ProcessorArchitecture,
    suffix: Seq<char>,
) -> Seq<char> {
    "\t\t"@ + braced(guid) + "."@ + configuration_text(c) + "|"@ + architecture_text(a) + "."@
        + suffix + " = "@ + configuration_text(c) + "|Any CPU\n"@
}

/// The lines that map a project in one configuration on the given
/// platforms: for each platform, the configuration to activate and the
/// configuration to build.
pub open spec fn mappings_on_text(guid: u128, c: Configuration, archs: Seq<ProcessorArchitecture>) -> Seq<
    char,
>
    decreases archs.len(),
{
    if archs.len() == 0 {
        Seq::empty()
    } else {
        mappings_on_text(guid, c, archs.drop_last()) + mapping_text(
            guid,
            c,
            archs.last(),
            "ActiveCfg"@,
        ) + mapping_text(guid, c, archs.last(), "Build.0"@)
    }
}

/// The lines that map a project in the given configurations on the given
/// platforms.
pub open spec fn mappings_text(
    guid: u128,
    confs: Seq<Configuration>,
    archs: Seq<ProcessorArchitecture>,
) -> Seq<char>
    decreases confs.len(),
{
    if confs.len() == 0 {
        Seq::empty()
    } else {
        mappings_text(guid, confs.drop_last(), archs) + mappings_on_text(guid, confs.last(), archs)
    }
}

/// The lines that map the projects among the entries; a folder has none.
pub open spec fn configurations_text(entries: Seq<SolutionEntryView>) -> Seq<char>
    decreases entries.len(),
{
    if entries.len() == 0 {
        Seq::empty()
    } else {
        configurations_text(entries.drop_last()) + if entries.last().is_folder {
            Seq::<char>::empty()
        } else {
            mappings_text(entries.last().guid, configurations(), architectures())
        }
    }
}

/// The line that puts an entry into the folder that it is shown in; nothing
/// for an entry at the top.
pub open spec fn nesting_text(e: SolutionEntryView) -> Seq<char> {
    match e.parent {
        Some(parent) => "\t\t"@ + braced(e.guid) + " = "@ + braced(parent) + "\n"@,
        None => Seq::empty(),
    }
}

/// The lines that put the entries into their folders.
pub open spec fn nestings_text(entries: Seq<SolutionEntryView>) -> Seq<char>
    decreases entries.len(),
{
    if entries.len() == 0 {
        Seq::empty()
    } else {
        nestings_text(entries.drop_last()) + nesting_text(entries.last())
    }
}

/// The text of a solution with the given entries: the header; the folders
/// and the projects; then, as global sections, the configurations on their
/// platforms, the properties of the solution, the mapping of each project
/// in each configuration on each platform, and the folder of each entry.
pub open spec fn solution_text(entries: Seq<SolutionEntryView>) -> Seq<char> {
    HEADER@ + entries_text(entries) + "Global\n"@
        + "\tGlobalSection(SolutionConfigurationPlatforms) = preSolution\n"@ + matrix_text(
        configurations(),
        architectures(),
    ) + "\tEndGlobalSection\n"@ + "\tGlobalSection(SolutionProperties) = preSolution\n"@
        + "\t\tHideSolutionNode = FALSE\n"@ + "\tEndGlobalSection\n"@
        + "\tGlobalSection(ProjectConfigurationPlatforms) = postSolution\n"@ + configurations_text(
        entries,
    ) + "\tEndGlobalSection\n"@ + "\tGlobalSection(NestedProjects) = preSolution\n"@
        + nestings_text(entries) + "\tEndGlobalSection\n"@ + "EndGlobal\n"@
}

/// Appends an identifier in braces.
fn push_braced(out: &mut String, guid: u128)
    ensures
        final(out)@ == old(out)@ + braced(guid),
{
    out.push('{');
    push_guid(out, guid);
    out.push('}');
    assert(out@ =~= old(out)@ + braced(guid));
}

impl InnerDirectory {
    /// The project of a folder that holds one project and nothing else.
    pub fn contains_single_project(&self) -> (out: Option<&InnerProject>)
        ensures
            match out {
                Some(project) => self.nodes.len() == 1 && self.nodes@[0] == InnerNode::Project(
                    *project,
                ),
                None => self.nodes.len() != 1 || !(self.nodes@[0] is Project),
            },
    {
        if self.nodes.len() != 1 {
            return None;
        }
        match &self.nodes[0] {
            InnerNode::Project(proj) => Some(proj),
            _ => None,
        }
    }

    /// Whether the folder is left out of the solution, its only project
    /// shown in its place.
    pub fn is_elided(&self) -> (yes: bool)
        ensures
            yes == is_elided(self@),
    {
        match self.contains_single_project() {
            Some(proj) => {
                assert(self@->Directory_nodes[0] == inner_view(self.nodes@[0]));
                str_eq(proj.name.as_str(), self.name.as_str())
            },
            None => {
                if self.nodes.len() == 1 {
                    assert(self@->Directory_nodes[0] == inner_view(self.nodes@[0]));
                }
                false
            },
        }
    }
}

impl InnerNode {
    /// Appends the entries of the node and of all below it, where `parent`
    /// is the folder that the node is shown in.
    pub fn collect_entries(&self, parent: Option<Guid>, out: &mut Vec<SolutionEntry>)
        ensures
            solution_entries_view(final(out)@) == solution_entries_view(old(out)@) + entries_spec(
                self@,
                match parent {
                    Some(g) => Some(g.value),
                    None => None,
                },
            ),
        decreases self,
    {
        let ghost before = solution_entries_view(out@);
        let ghost parent_view: Option<u128> = match parent {
            Some(g) => Some(g.value),
            None => None,
        };
        match self {
            InnerNode::Project(p) => {
                let entry = SolutionEntry {
                    is_folder: false,
                    name: p.name.clone(),
                    path: p.path.clone(),
                    guid: p.guid,
                    parent,
                };
                let ghost ev = entry@;
                out.push(entry);
                assert(solution_entries_view(out@) =~= before + seq![ev]);
            },
            InnerNode::Directory(d) => {
                let ghost nodes = inner_nodes_view(d.nodes@);
                if d.is_elided() {
                    assert(nodes[0] == inner_view(d.nodes@[0]));
                    d.nodes[0].collect_entries(parent, out);
                } else {
                    let entry = SolutionEntry {
                        is_folder: true,
                        name: d.name.clone(),
                        path: d.name.clone(),
                        guid: d.guid,
                        parent,
                    };
                    let ghost ev = entry@;
                    out.push(entry);
                    let ghost started = solution_entries_view(out@);
                    assert(started =~= before + seq![ev]);
                    collect_first(&d.nodes, d.nodes.len(), Some(d.guid), out);
                    assert(solution_entries_view(out@) =~= before + (seq![ev] + entries_of_spec(
                        nodes,
                        Some(d.guid.value),
                        nodes.len() as int,
                    )));
                }
            },
        }
    }
}

/// Appends the entries of the first `upto` nodes and of all below them.
fn collect_first(
    nodes: &Vec<InnerNode>,
    upto: usize,
    parent: Option<Guid>,
    out: &mut Vec<SolutionEntry>,
)
    requires
        upto <= nodes.len(),
    ensures
        solution_entries_view(final(out)@) == solution_entries_view(old(out)@) + entries_of_spec(
            inner_nodes_view(nodes@),
            match parent {
                Some(g) => Some(g.value),
                None => None,
            },
            upto as int,
        ),
    decreases nodes, upto,
{
    let ghost before = solution_entries_view(out@);
    let ghost all = inner_nodes_view(nodes@);
    let ghost parent_view: Option<u128> = match parent {
        Some(g) => Some(g.value),
        None => None,
    };
    if upto > 0 {
        collect_first(nodes, upto - 1, parent, out);
        assert(all[upto - 1] == inner_view(nodes@[upto - 1]));
        nodes[upto - 1].collect_entries(parent, out);
        assert(solution_entries_view(out@) =~= before + (entries_of_spec(
            all,
            parent_view,
            upto - 1,
        ) + entries_spec(all[upto - 1], parent_view)));
    } else {
        assert(solution_entries_view(out@) =~= before + entries_of_spec(all, parent_view, 0));
    }
}

impl InnerProject {
    /// Appends the lines that map the project, in each configuration on each
    /// platform, to the configuration on any platform.
    pub fn write_project_configuration(&self, writer: &mut String)
        ensures
            final(writer)@ == old(writer)@ + mappings_text(
                self.guid.value,
                configurations(),
                architectures(),
            ),
    {
        push_mappings(writer, self.guid.value);
    }
}

/// Appends one line that maps a project.
fn push_mapping(out: &mut String, guid: u128, c: Configuration, a: ProcessorArchitecture, suffix: &str)
    ensures
        final(out)@ == old(out)@ + mapping_text(guid, c, a, suffix@),
{
    out.append("\t\t");
    push_braced(out, guid);
    out.append(".");
    out.append(c.name());
    out.append("|");
    out.append(a.name());
    out.append(".");
    out.append(suffix);
    out.append(" = ");
    out.append(c.name());
    out.append("|Any CPU\n");
    assert(out@ =~= old(out)@ + mapping_text(guid, c, a, suffix@));
}

/// Appends the lines that map a project.
fn push_mappings(out: &mut String, guid: u128)
    ensures
        final(out)@ == old(out)@ + mappings_text(guid, configurations(), architectures()),
{
    let ghost confs = configurations();
    let ghost archs = architectures();
    assert(CONFIGURATIONS@ =~= confs);
    assert(PROCESSOR_ARCHITECTURES@ =~= archs);
    let mut i: usize = 0;
    assert(out@ =~= old(out)@ + mappings_text(guid, confs.take(0), archs));
    while i < 2
        invariant
            i <= 2,
            confs == configurations(),
            archs == architectures(),
            CONFIGURATIONS@ == confs,
            PROCESSOR_ARCHITECTURES@ == archs,
            out@ == old(out)@ + mappings_text(guid, confs.take(i as int), archs),
        decreases 2 - i,
    {
        let conf = CONFIGURATIONS[i];
        let ghost before = mappings_text(guid, confs.take(i as int), archs);
        proof {
            assert(confs.take(i + 1).drop_last() =~= confs.take(i as int));
            assert(confs.take(i + 1).last() == conf);
        }
        let mut j: usize = 0;
        let ghost start = out@;
        assert(out@ =~= start + mappings_on_text(guid, conf, archs.take(0)));
        while j < 3
            invariant
                j <= 3,
                archs == architectures(),
                PROCESSOR_ARCHITECTURES@ == archs,
                out@ == start + mappings_on_text(guid, conf, archs.take(j as int)),
            decreases 3 - j,
        {
            let arch = PROCESSOR_ARCHITECTURES[j];
            let ghost sofar = mappings_on_text(guid, conf, archs.take(j as int));
            proof {
                assert(archs.take(j + 1).drop_last() =~= archs.take(j as int));
                assert(archs.take(j + 1).last() == arch);
            }
            push_mapping(out, guid, conf, arch, "ActiveCfg");
            push_mapping(out, guid, conf, arch, "Build.0");
            assert(out@ =~= start + (sofar + mapping_text(guid, conf, arch, "ActiveCfg"@)
                + mapping_text(guid, conf, arch, "Build.0"@)));
            j += 1;
        }
        assert(archs.take(3) =~= archs);
        assert(out@ =~= old(out)@ + (before + mappings_on_text(guid, conf, archs)));
        i += 1;
    }
    assert(confs.take(2) =~= confs);
}

impl SolutionFile {
    /// The lines of the solution: its folders and projects from the top
    /// down, each with the folder that it is shown in.
    pub fn entries(&self) -> (out: Vec<SolutionEntry>)
        ensures
            solution_entries_view(out@) == entries_of_spec(self@, None, self@.len() as int),
    {
        let ghost nodes = self@;
        let mut out: Vec<SolutionEntry> = Vec::new();
        collect_first(&self.root.nodes, self.root.nodes.len(), None, &mut out);
        assert(solution_entries_view(out@) =~= entries_of_spec(nodes, None, nodes.len() as int));
        out
    }

    /// Appends the text of the solution.
    pub fn write(&self, writer: &mut String)
        ensures
            final(writer)@ == old(writer)@ + solution_text(
                entries_of_spec(self@, None, self@.len() as int),
            ),
    {
        let entries = self.entries();
        let ghost all = solution_entries_view(entries@);
        writer.append(HEADER);
        write_projects(writer, &entries);
        writer.append("Global\n");
        self.write_global_section_solution_configuration_platforms(writer);
        self.write_global_section_solution_properties(writer);
        write_project_configurations(writer, &entries);
        write_nested_projects(writer, &entries);
        writer.append("EndGlobal\n");
        assert(writer@ =~= old(writer)@ + solution_text(all));
    }

    /// Appends the section of the configurations on their platforms.
    fn write_global_section_solution_configuration_platforms(&self, writer: &mut String)
        ensures
            final(writer)@ == old(writer)@
                + "\tGlobalSection(SolutionConfigurationPlatforms) = preSolution\n"@ + matrix_text(
                configurations(),
                architectures(),
            ) + "\tEndGlobalSection\n"@,
    {
        writer.append("\tGlobalSection(SolutionConfigurationPlatforms) = preSolution\n");
        let ghost confs = configurations();
        let ghost archs = architectures();
        let ghost opened = writer@;
        assert(CONFIGURATIONS@ =~= confs);
        assert(PROCESSOR_ARCHITECTURES@ =~= archs);
        let mut i: usize = 0;
        assert(writer@ =~= opened + matrix_text(confs.take(0), archs));
        while i < 2
            invariant
                i <= 2,
                confs == configurations(),
                archs == architectures(),
                CONFIGURATIONS@ == confs,
                PROCESSOR_ARCHITECTURES@ == archs,
                writer@ == opened + matrix_text(confs.take(i as int), archs),
            decreases 2 - i,
        {
            let conf = CONFIGURATIONS[i];
            let ghost before = matrix_text(confs.take(i as int), archs);
            proof {
                assert(confs.take(i + 1).drop_last() =~= confs.take(i as int));
                assert(confs.take(i + 1).last() == conf);
            }
            let mut j: usize = 0;
            let ghost start = writer@;
            assert(writer@ =~= start + platforms_text(conf, archs.take(0)));
            while j < 3
                invariant
                    j <= 3,
                    archs == architectures(),
                    PROCESSOR_ARCHITECTURES@ == archs,
                    writer@ == start + platforms_text(conf, archs.take(j as int)),
                decreases 3 - j,
            {
                let arch = PROCESSOR_ARCHITECTURES[j];
                let ghost sofar = platforms_text(conf, archs.take(j as int));
                proof {
                    assert(archs.take(j + 1).drop_last() =~= archs.take(j as int));
                    assert(archs.take(j + 1).last() == arch);
                }
                writer.append("\t\t");
                writer.append(conf.name());
                writer.append("|");
                writer.append(arch.name());
                writer.append(" = ");
                writer.append(conf.name());
                writer.append("|");
                writer.append(arch.name());
                writer.append("\n");
                assert(writer@ =~= start + (sofar + platform_text(conf, arch)));
                j += 1;
            }
            assert(archs.take(3) =~= archs);
            assert(writer@ =~= opened + (before + platforms_text(conf, archs)));
            i += 1;
        }
        assert(confs.take(2) =~= confs);
        writer.append("\tEndGlobalSection\n");
        assert(writer@ =~= old(writer)@
            + "\tGlobalSection(SolutionConfigurationPlatforms) = preSolution\n"@ + matrix_text(
            configurations(),
            architectures(),
        ) + "\tEndGlobalSection\n"@);
    }

    /// Appends the section of the properties of the solution.
    fn write_global_section_solution_properties(&self, writer: &mut String)
        ensures
            final(writer)@ == old(writer)@ + "\tGlobalSection(SolutionProperties) = preSolution\n"@
                + "\t\tHideSolutionNode = FALSE\n"@ + "\tEndGlobalSection\n"@,
    {
        writer.append("\tGlobalSection(SolutionProperties) = preSolution\n");
        writer.append("\t\tHideSolutionNode = FALSE\n");
        writer.append("\tEndGlobalSection\n");
        assert(writer@ =~= old(writer)@ + "\tGlobalSection(SolutionProperties) = preSolution\n"@
            + "\t\tHideSolutionNode = FALSE\n"@ + "\tEndGlobalSection\n"@);
    }
}

/// Appends the lines that declare the folders and the projects.
fn write_projects(writer: &mut String, entries: &Vec<SolutionEntry>)
    ensures
        final(writer)@ == old(writer)@ + entries_text(solution_entries_view(entries@)),
{
    let ghost all = solution_entries_view(entries@);
    let mut i: usize = 0;
    assert(writer@ =~= old(writer)@ + entries_text(all.take(0)));
    while i < entries.len()
        invariant
            i <= entries.len(),
            all == solution_entries_view(entries@),
            writer@ == old(writer)@ + entries_text(all.take(i as int)),
        decreases entries.len() - i,
    {
        let ghost before = entries_text(all.take(i as int));
        let ghost start = writer@;
        proof {
            assert(all.take(i + 1).drop_last() =~= all.take(i as int));
            assert(all.take(i + 1).last() == entries@[i as int]@);
        }
        let e = &entries[i];
        writer.append("Project(\"");
        push_braced(
            writer,
            if e.is_folder {
                FOLDER_UUID
            } else {
                PROJECT_UUID
            },
        );
        writer.append("\") = \"");
        writer.append(e.name.as_str());
        writer.append("\", \"");
        writer.append(e.path.as_str());
        writer.append("\", \"");
        push_braced(writer, e.guid.value);
        writer.append("\"\nEndProject\n");
        assert(writer@ =~= start + entry_text(e@));
        assert(writer@ =~= old(writer)@ + (before + entry_text(e@)));
        i += 1;
    }
    assert(all.take(entries.len() as int) =~= all);
}

/// Appends the section that maps each project in each configuration on each
/// platform.
fn write_project_configurations(writer: &mut String, entries: &Vec<SolutionEntry>)
    ensures
        final(writer)@ == old(writer)@
            + "\tGlobalSection(ProjectConfigurationPlatforms) = postSolution\n"@
            + configurations_text(solution_entries_view(entries@)) + "\tEndGlobalSection\n"@,
{
    writer.append("\tGlobalSection(ProjectConfigurationPlatforms) = postSolution\n");
    let ghost opened = writer@;
    let ghost all = solution_entries_view(entries@);
    let mut i: usize = 0;
    assert(writer@ =~= opened + configurations_text(all.take(0)));
    while i < entries.len()
        invariant
            i <= entries.len(),
            all == solution_entries_view(entries@),
            writer@ == opened + configurations_text(all.take(i as int)),
        decreases entries.len() - i,
    {
        let ghost before = configurations_text(all.take(i as int));
        let ghost start = writer@;
        proof {
            assert(all.take(i + 1).drop_last() =~= all.take(i as int));
            assert(all.take(i + 1).last() == entries@[i as int]@);
        }
        if !entries[i].is_folder {
            push_mappings(writer, entries[i].guid.value);
            assert(writer@ =~= opened + (before + mappings_text(
                entries@[i as int]@.guid,
                configurations(),
                architectures(),
            )));
        } else {
            assert(writer@ =~= opened + (before + Seq::<char>::empty()));
        }
        i += 1;
    }
    assert(all.take(entries.len() as int) =~= all);
    writer.append("\tEndGlobalSection\n");
    assert(writer@ =~= old(writer)@
        + "\tGlobalSection(ProjectConfigurationPlatforms) = postSolution\n"@ + configurations_text(
        all,
    ) + "\tEndGlobalSection\n"@);
}

/// Appends the section that puts each entry into the folder that it is
/// shown in.
fn write_nested_projects(writer: &mut String, entries: &Vec<SolutionEntry>)
    ensures
        final(writer)@ == old(writer)@ + "\tGlobalSection(NestedProjects) = preSolution\n"@
            + nestings_text(solution_entries_view(entries@)) + "\tEndGlobalSection\n"@,
{
    writer.append("\tGlobalSection(NestedProjects) = preSolution\n");
    let ghost opened = writer@;
    let ghost all = solution_entries_view(entries@);
    let mut i: usize = 0;
    assert(writer@ =~= opened + nestings_text(all.take(0)));
    while i < entries.len()
        invariant
            i <= entries.len(),
            all == solution_entries_view(entries@),
            writer@ == opened + nestings_text(all.take(i as int)),
        decreases entries.len() - i,
    {
        let ghost before = nestings_text(all.take(i as int));
        let ghost start = writer@;
        proof {
            assert(all.take(i + 1).drop_last() =~= all.take(i as int));
            assert(all.take(i + 1).last() == entries@[i as int]@);
        }
        match entries[i].parent {
            Some(parent) => {
                writer.append("\t\t");
                push_braced(writer, entries[i].guid.value);
                writer.append(" = ");
                push_braced(writer, parent.value);
                writer.append("\n");
                assert(writer@ =~= start + nesting_text(entries@[i as int]@));
            },
            None => {
                assert(writer@ =~= start + nesting_text(entries@[i as int]@));
            },
        }
        assert(writer@ =~= opened + (before + nesting_text(entries@[i as int]@)));
        i += 1;
    }
    assert(all.take(entries.len() as int) =~= all);
    writer.append("\tEndGlobalSection\n");
    assert(writer@ =~= old(writer)@ + "\tGlobalSection(NestedProjects) = preSolution\n"@
        + nestings_text(all) + "\tEndGlobalSection\n"@);
}

} // verus!
