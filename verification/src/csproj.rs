//! Project files: what one says, and the record that is made of it.

use vstd::prelude::*;
use vstd::slice::slice_subrange;
use vstd::string::StringExecFns;
use vstd::string::StringSliceAdditionalSpecFns;
use vstd::utf8::decode_utf8;
use vstd::utf8::valid_utf8;
use crate::framework::moniker_spec;
use crate::framework::parse_target_framework_version;
use crate::path_extensions::display_spec;
use crate::path_extensions::ComponentView;
use crate::path_extensions::FilePath;
use crate::text::sort_dedup;
use crate::text::split;
use crate::text::split_spec;
use crate::text::str_eq;
use crate::text::strictly_ascending;
use crate::text::texts;
use crate::xml::attribute_spec;
use crate::xml::nodes_view;
use crate::xml::parse_document;
use crate::xml::xml_document;
use crate::xml::XmlError;
use crate::xml::XmlErrorView;
use crate::xml::XmlNode;
use crate::xml::XmlNodeView;

verus! {

/// A reference to an external package.
#[derive(Debug, Clone, PartialEq, Eq)]
pub struct PackageReference {
    pub name: String,
    pub version: String,
}

/// What a project file says, before its references to other projects are
/// looked up on disk.
#[derive(Debug, Clone, PartialEq, Eq)]
pub struct ProjectFile {
    pub is_sdk: bool,
    pub is_exe: bool,
    pub target_frameworks: Vec<String>,
    /// The paths of the referenced projects, as the file writes them.
    pub reference_includes: Vec<String>,
    pub package_references: Vec<PackageReference>,
}

/// A project: a buildable unit with its references to other projects and to
/// external packages.
#[derive(Debug, Clone, PartialEq, Eq)]
pub struct Project {
    pub path: FilePath,
    pub is_sdk: bool,
    pub is_exe: bool,
    pub target_frameworks: Vec<String>,
    pub project_references: Vec<FilePath>,
    pub package_references: Vec<PackageReference>,
}

/// The projects of a graph, as they are written out.
#[derive(Debug, Clone, PartialEq, Eq)]
pub struct JsonRoot {
    pub projects: Vec<Project>,
}

/// Why a project could not be loaded.
#[derive(Debug, Clone, PartialEq, Eq)]
pub enum Error {
    /// The file could not be read; the message says why.
    Io(String),
    /// The file is no well-formed XML document.
    Parse(XmlError),
    /// A referenced project is not on disk.
    UnresolvedReference(FilePath),
    /// A legacy framework version has no moniker; the text is the version as
    /// written, empty where the element holds none.
    FrameworkVersion(String),
}

/// The mathematical value of a [`PackageReference`].
pub struct PackageReferenceView {
    pub name: Seq<char>,
    pub version: Seq<char>,
}

/// The mathematical value of a [`ProjectFile`].
pub struct ProjectFileView {
    pub is_sdk: bool,
    pub is_exe: bool,
    pub target_frameworks: Seq<Seq<char>>,
    pub reference_includes: Seq<Seq<char>>,
    pub package_references: Seq<PackageReferenceView>,
}

/// The mathematical value of a [`Project`].
pub struct ProjectView {
    pub path: Seq<ComponentView>,
    pub is_sdk: bool,
    pub is_exe: bool,
    pub target_frameworks: Seq<Seq<char>>,
    pub project_references: Seq<Seq<ComponentView>>,
    pub package_references: Seq<PackageReferenceView>,
}

/// The mathematical value of an [`Error`].
pub enum ErrorView {
    Io(Seq<char>),
    Parse(XmlErrorView),
    UnresolvedReference(Seq<ComponentView>),
    FrameworkVersion(Seq<char>),
}

impl View for PackageReference {
    type V = PackageReferenceView;

    open spec fn view(&self) -> PackageReferenceView {
        PackageReferenceView { name: self.name@, version: self.version@ }
    }
}

/// The package references of a vector, as mathematical values.
pub open spec fn packages_view(items: Seq<PackageReference>) -> Seq<PackageReferenceView> {
    items.map_values(|p: PackageReference| p@)
}

/// The paths of a vector, as mathematical values.
pub open spec fn paths_view(items: Seq<FilePath>) -> Seq<Seq<ComponentView>> {
    items.map_values(|p: FilePath| p@)
}

impl View for ProjectFile {
    type V = ProjectFileView;

    open spec fn view(&self) -> ProjectFileView {
        ProjectFileView {
            is_sdk: self.is_sdk,
            is_exe: self.is_exe,
            target_frameworks: texts(self.target_frameworks@),
            reference_includes: texts(self.reference_includes@),
            package_references: packages_view(self.package_references@),
        }
    }
}

impl View for Project {
    type V = ProjectView;

    open spec fn view(&self) -> ProjectView {
        ProjectView {
            path: self.path@,
            is_sdk: self.is_sdk,
            is_exe: self.is_exe,
            target_frameworks: texts(self.target_frameworks@),
            project_references: paths_view(self.project_references@),
            package_references: packages_view(self.package_references@),
        }
    }
}

impl View for Error {
    type V = ErrorView;

    open spec fn view(&self) -> ErrorView {
        match self {
            Error::Io(m) => ErrorView::Io(m@),
            Error::Parse(e) => ErrorView::Parse(e@),
            Error::UnresolvedReference(p) => ErrorView::UnresolvedReference(p@),
            Error::FrameworkVersion(t) => ErrorView::FrameworkVersion(t@),
        }
    }
}

/// An error that `core::str::from_utf8` returns.
#[verifier::external_type_specification]
#[verifier::external_body]
pub struct ExUtf8Error(core::str::Utf8Error);

/// `core::str::from_utf8` succeeds exactly on well-formed UTF-8, and the
/// string that it returns is made of the bytes given.
pub assume_specification[ core::str::from_utf8 ](v: &[u8]) -> (r: Result<
    &str,
    core::str::Utf8Error,
>)
    ensures
        r is Ok <==> valid_utf8(v@),
        r matches Ok(s) ==> s.spec_bytes() == v@,
;

/// The length of the byte-order mark at the start of the bytes: three for the
/// UTF-8 form, two for either 16-bit form, zero where there is none.
pub open spec fn bom_len(bytes: Seq<u8>) -> nat {
    if bytes.len() >= 3 && bytes[0] == 0xEF && bytes[1] == 0xBB && bytes[2] == 0xBF {
        3
    } else if bytes.len() >= 2 && (bytes[0] == 0xFE && bytes[1] == 0xFF || bytes[0] == 0xFF
        && bytes[1] == 0xFE) {
        2
    } else {
        0
    }
}

/// The number of bytes to skip at the start of a file so as to pass over a
/// byte-order mark.
pub fn strip_bom(bytes: &[u8]) -> (skip: usize)
    ensures
        skip == bom_len(bytes@),
        skip <= bytes@.len(),
{
    let n = bytes.len();
    if n >= 3 && bytes[0] == 0xEF && bytes[1] == 0xBB && bytes[2] == 0xBF {
        3
    } else if n >= 2 && (bytes[0] == 0xFE && bytes[1] == 0xFF || bytes[0] == 0xFF && bytes[1]
        == 0xFE) {
        2
    } else {
        0
    }
}

/// Whether the node is an element directly below the document's root.
pub open spec fn is_top_element(n: XmlNodeView) -> bool {
    n.is_element && n.parent == Some(0usize)
}

/// The position of the first element directly below the root, from `from` on.
pub open spec fn root_element_from(nodes: Seq<XmlNodeView>, from: int) -> Option<int>
    decreases nodes.len() - from,
{
    if from < 0 || from >= nodes.len() {
        None
    } else if is_top_element(nodes[from]) {
        Some(from)
    } else {
        root_element_from(nodes, from + 1)
    }
}

/// Whether the document's root element declares an `Sdk` attribute.
pub open spec fn is_sdk_spec(nodes: Seq<XmlNodeView>) -> bool {
    match root_element_from(nodes, 0) {
        Some(i) => attribute_spec(nodes[i].attributes, "Sdk"@) is Some,
        None => false,
    }
}

/// Whether the node is an `OutputType` element that names an executable.
pub open spec fn names_executable(n: XmlNodeView) -> bool {
    n.name == "OutputType"@ && (n.text == Some("Exe"@) || n.text == Some("WinExe"@))
}

/// Whether any `OutputType` element of the document names an executable.
pub open spec fn is_exe_spec(nodes: Seq<XmlNodeView>) -> bool {
    exists|i: int| 0 <= i < nodes.len() && names_executable(#[trigger] nodes[i])
}

/// Whether the node is a legacy framework version without a moniker.
pub open spec fn bad_version(n: XmlNodeView) -> bool {
    n.name == "TargetFrameworkVersion"@ && match n.text {
        Some(t) => moniker_spec(t) is None,
        None => true,
    }
}

/// The frameworks that one node names.
pub open spec fn node_frameworks(n: XmlNodeView) -> Seq<Seq<char>> {
    if n.name == "TargetFrameworks"@ {
        match n.text {
            Some(t) => split_spec(t, ';'),
            None => Seq::empty(),
        }
    } else if n.name == "TargetFramework"@ {
        match n.text {
            Some(t) => seq![t],
            None => Seq::empty(),
        }
    } else if n.name == "TargetFrameworkVersion"@ {
        match n.text {
            Some(t) => match moniker_spec(t) {
                Some(m) => seq![m],
                None => Seq::empty(),
            },
            None => Seq::empty(),
        }
    } else {
        Seq::empty()
    }
}

/// The frameworks that the nodes name, in document order, with repetitions.
pub open spec fn named_frameworks(nodes: Seq<XmlNodeView>) -> Seq<Seq<char>>
    decreases nodes.len(),
{
    if nodes.len() == 0 {
        Seq::empty()
    } else {
        named_frameworks(nodes.drop_last()) + node_frameworks(nodes.last())
    }
}

/// The project reference that one node makes, as the file writes it.
pub open spec fn node_include(n: XmlNodeView) -> Option<Seq<char>> {
    if n.name == "ProjectReference"@ {
        attribute_spec(n.attributes, "Include"@)
    } else {
        None
    }
}

/// The project references of the nodes, in document order.
pub open spec fn includes_spec(nodes: Seq<XmlNodeView>) -> Seq<Seq<char>>
    decreases nodes.len(),
{
    if nodes.len() == 0 {
        Seq::empty()
    } else {
        let before = includes_spec(nodes.drop_last());
        match node_include(nodes.last()) {
            Some(t) => before.push(t),
            None => before,
        }
    }
}

/// The package reference that one node makes: it needs both a name and a
/// version.
pub open spec fn node_package(n: XmlNodeView) -> Option<PackageReferenceView> {
    if n.name == "PackageReference"@ {
        match (attribute_spec(n.attributes, "Include"@), attribute_spec(n.attributes, "Version"@)) {
            (Some(name), Some(version)) => Some(PackageReferenceView { name, version }),
            _ => None,
        }
    } else {
        None
    }
}

/// The package references of the nodes, in document order.
pub open spec fn packages_spec(nodes: Seq<XmlNodeView>) -> Seq<PackageReferenceView>
    decreases nodes.len(),
{
    if nodes.len() == 0 {
        Seq::empty()
    } else {
        let before = packages_spec(nodes.drop_last());
        match node_package(nodes.last()) {
            Some(p) => before.push(p),
            None => before,
        }
    }
}

/// The position of the first legacy framework version without a moniker,
/// from `from` on.
pub open spec fn bad_version_from(nodes: Seq<XmlNodeView>, from: int) -> Option<int>
    decreases nodes.len() - from,
{
    if from < 0 || from >= nodes.len() {
        None
    } else if bad_version(nodes[from]) {
        Some(from)
    } else {
        bad_version_from(nodes, from + 1)
    }
}

/// The version text of a node, empty where it holds none.
pub open spec fn version_text(n: XmlNodeView) -> Seq<char> {
    match n.text {
        Some(t) => t,
        None => Seq::empty(),
    }
}

/// What a document says of its project, or the failure that it amounts to:
/// - the project is SDK-style when the root element declares `Sdk`;
/// - it is executable when any `OutputType` says `Exe` or `WinExe`;
/// - its frameworks are those named anywhere in it, each once, ascending;
/// - its project references are the `Include`s of `ProjectReference`s;
/// - its package references are the `PackageReference`s with both `Include`
///   and `Version`;
/// - a legacy framework version without a moniker fails the project.
pub open spec fn describes(nodes: Seq<XmlNodeView>, out: Result<ProjectFileView, ErrorView>) -> bool {
    match bad_version_from(nodes, 0) {
        Some(i) => out == Err::<ProjectFileView, ErrorView>(
            ErrorView::FrameworkVersion(version_text(nodes[i])),
        ),
        None => match out {
            Ok(file) => {
                &&& file.is_sdk == is_sdk_spec(nodes)
                &&& file.is_exe == is_exe_spec(nodes)
                &&& strictly_ascending(file.target_frameworks)
                &&& forall|t: Seq<char>|
                    file.target_frameworks.contains(t) <==> named_frameworks(nodes).contains(t)
                &&& file.reference_includes == includes_spec(nodes)
                &&& file.package_references == packages_spec(nodes)
            },
            Err(_) => false,
        },
    }
}

/// The mathematical value of a loading result.
pub open spec fn file_result_view(out: Result<ProjectFile, Error>) -> Result<
    ProjectFileView,
    ErrorView,
> {
    match out {
        Ok(file) => Ok(file@),
        Err(e) => Err(e@),
    }
}

/// Whether the root element declares an `Sdk` attribute.
fn document_is_sdk(nodes: &Vec<XmlNode>) -> (yes: bool)
    ensures
        yes == is_sdk_spec(nodes_view(nodes@)),
{
    let ghost all = nodes_view(nodes@);
    let mut i: usize = 0;
    while i < nodes.len()
        invariant
            i <= nodes.len(),
            all == nodes_view(nodes@),
            root_element_from(all, 0) == root_element_from(all, i as int),
        decreases nodes.len() - i,
    {
        let top = nodes[i].is_element && match nodes[i].parent {
            Some(p) => p == 0,
            None => false,
        };
        if top {
            return nodes[i].attribute("Sdk").is_some();
        }
        i += 1;
    }
    false
}

/// Whether any `OutputType` element names an executable.
fn document_is_exe(nodes: &Vec<XmlNode>) -> (yes: bool)
    ensures
        yes == is_exe_spec(nodes_view(nodes@)),
{
    let ghost all = nodes_view(nodes@);
    let mut i: usize = 0;
    while i < nodes.len()
        invariant
            i <= nodes.len(),
            all == nodes_view(nodes@),
            forall|k: int| 0 <= k < i ==> !names_executable(#[trigger] all[k]),
        decreases nodes.len() - i,
    {
        if nodes[i].has_name("OutputType") {
            let names = match &nodes[i].text {
                Some(t) => str_eq(t.as_str(), "Exe") || str_eq(t.as_str(), "WinExe"),
                None => false,
            };
            if names {
                assert(names_executable(all[i as int]));
                return true;
            }
        }
        i += 1;
    }
    false
}

/// The frameworks that the document names, each once, ascending; or the
/// first legacy version without a moniker.
fn document_frameworks(nodes: &Vec<XmlNode>) -> (out: Result<Vec<String>, Error>)
    ensures
        match bad_version_from(nodes_view(nodes@), 0) {
            Some(i) => out matches Err(Error::FrameworkVersion(t)) && t@ == version_text(
                nodes_view(nodes@)[i],
            ),
            None => out matches Ok(found) && strictly_ascending(texts(found@)) && forall|
                t: Seq<char>,
            |
                texts(found@).contains(t) <==> named_frameworks(nodes_view(nodes@)).contains(t),
        },
{
    let ghost all = nodes_view(nodes@);
    let mut named: Vec<String> = Vec::new();
    let mut i: usize = 0;
    proof {
        reveal_strlit("TargetFrameworks");
        reveal_strlit("TargetFramework");
        reveal_strlit("TargetFrameworkVersion");
    }
    assert(all.take(0) =~= Seq::<XmlNodeView>::empty());
    assert(texts(named@) =~= named_frameworks(all.take(0)));
    while i < nodes.len()
        invariant
            i <= nodes.len(),
            all == nodes_view(nodes@),
            bad_version_from(all, 0) == bad_version_from(all, i as int),
            texts(named@) == named_frameworks(all.take(i as int)),
            "TargetFrameworks"@.len() == 16,
            "TargetFramework"@.len() == 15,
            "TargetFrameworkVersion"@.len() == 22,
        decreases nodes.len() - i,
    {
        let node = &nodes[i];
        let ghost before = texts(named@);
        proof {
            assert(all.take(i + 1).drop_last() =~= all.take(i as int));
            assert(all.take(i + 1).last() == all[i as int]);
            assert(all[i as int] == node@);
        }
        if node.has_name("TargetFrameworks") {
            match &node.text {
                Some(t) => {
                    let mut parts = split(t.as_str(), ';');
                    let ghost split = texts(parts@);
                    named.append(&mut parts);
                    assert(texts(named@) =~= before + split);
                },
                None => {
                    assert(texts(named@) =~= before + Seq::<Seq<char>>::empty());
                },
            }
        } else if node.has_name("TargetFramework") {
            match &node.text {
                Some(t) => {
                    named.push(t.clone());
                    assert(texts(named@) =~= before + seq![t@]);
                },
                None => {
                    assert(texts(named@) =~= before + Seq::<Seq<char>>::empty());
                },
            }
        } else if node.has_name("TargetFrameworkVersion") {
            match &node.text {
                Some(t) => match parse_target_framework_version(t.as_str()) {
                    Some(m) => {
                        let ghost mv = m@;
                        named.push(m);
                        assert(texts(named@) =~= before + seq![mv]);
                    },
                    None => {
                        return Err(Error::FrameworkVersion(t.clone()));
                    },
                },
                None => {
                    return Err(Error::FrameworkVersion(String::new()));
                },
            }
        } else {
            assert(texts(named@) =~= before + Seq::<Seq<char>>::empty());
        }
        i += 1;
    }
    assert(all.take(nodes.len() as int) =~= all);
    Ok(sort_dedup(named))
}

/// The project references of the document, as the file writes them.
fn document_includes(nodes: &Vec<XmlNode>) -> (out: Vec<String>)
    ensures
        texts(out@) == includes_spec(nodes_view(nodes@)),
{
    let ghost all = nodes_view(nodes@);
    let mut out: Vec<String> = Vec::new();
    let mut i: usize = 0;
    assert(all.take(0) =~= Seq::<XmlNodeView>::empty());
    assert(texts(out@) =~= includes_spec(all.take(0)));
    while i < nodes.len()
        invariant
            i <= nodes.len(),
            all == nodes_view(nodes@),
            texts(out@) == includes_spec(all.take(i as int)),
        decreases nodes.len() - i,
    {
        let node = &nodes[i];
        let ghost before = texts(out@);
        proof {
            assert(all.take(i + 1).drop_last() =~= all.take(i as int));
            assert(all.take(i + 1).last() == all[i as int]);
            assert(all[i as int] == node@);
        }
        if node.has_name("ProjectReference") {
            match node.attribute("Include") {
                Some(t) => {
                    out.push(t.clone());
                    assert(texts(out@) =~= before.push(t@));
                },
                None => {},
            }
        }
        i += 1;
    }
    assert(all.take(nodes.len() as int) =~= all);
    out
}

/// The package references of the document.
fn document_packages(nodes: &Vec<XmlNode>) -> (out: Vec<PackageReference>)
    ensures
        packages_view(out@) == packages_spec(nodes_view(nodes@)),
{
    let ghost all = nodes_view(nodes@);
    let mut out: Vec<PackageReference> = Vec::new();
    let mut i: usize = 0;
    assert(all.take(0) =~= Seq::<XmlNodeView>::empty());
    assert(packages_view(out@) =~= packages_spec(all.take(0)));
    while i < nodes.len()
        invariant
            i <= nodes.len(),
            all == nodes_view(nodes@),
            packages_view(out@) == packages_spec(all.take(i as int)),
        decreases nodes.len() - i,
    {
        let node = &nodes[i];
        let ghost before = packages_view(out@);
        proof {
            assert(all.take(i + 1).drop_last() =~= all.take(i as int));
            assert(all.take(i + 1).last() == all[i as int]);
            assert(all[i as int] == node@);
        }
        if node.has_name("PackageReference") {
            match (node.attribute("Include"), node.attribute("Version")) {
                (Some(name), Some(version)) => {
                    let package = PackageReference { name: name.clone(), version: version.clone() };
                    let ghost pv = package@;
                    out.push(package);
                    assert(packages_view(out@) =~= before.push(pv));
                },
                _ => {},
            }
        }
        i += 1;
    }
    assert(all.take(nodes.len() as int) =~= all);
    out
}

/// Reads off a parsed document what it says of its project.
pub fn project_file_from_nodes(nodes: &Vec<XmlNode>) -> (out: Result<ProjectFile, Error>)
    ensures
        describes(nodes_view(nodes@), file_result_view(out)),
{
    let target_frameworks = match document_frameworks(nodes) {
        Ok(found) => found,
        Err(e) => {
            return Err(e);
        },
    };
    let file = ProjectFile {
        is_sdk: document_is_sdk(nodes),
        is_exe: document_is_exe(nodes),
        target_frameworks,
        reference_includes: document_includes(nodes),
        package_references: document_packages(nodes),
    };
    Ok(file)
}

/// What the contents of a project file amount to:
/// - bytes that are no UTF-8 text, behind a byte-order mark or without one,
///   are a read failure;
/// - text that is no XML document is a parse failure, with the parser's
///   reason and position;
/// - a document is described as [`describes`] says.
pub open spec fn file_outcome(contents: Seq<u8>, out: Result<ProjectFileView, ErrorView>) -> bool {
    let bytes = contents.skip(bom_len(contents) as int);
    if !valid_utf8(bytes) {
        out == Err::<ProjectFileView, ErrorView>(
            ErrorView::Io("stream did not contain valid UTF-8"@),
        )
    } else {
        match xml_document(decode_utf8(bytes)) {
            Err(e) => out == Err::<ProjectFileView, ErrorView>(ErrorView::Parse(e)),
            Ok(nodes) => describes(nodes, out),
        }
    }
}

/// A byte-order mark in front of a file changes nothing: the file amounts to
/// what it amounts to without the mark.
pub proof fn lemma_mark_is_skipped(contents: Seq<u8>, out: Result<ProjectFileView, ErrorView>)
    requires
        bom_len(contents) == 0,
    ensures
        file_outcome(seq![0xEFu8, 0xBBu8, 0xBFu8] + contents, out) == file_outcome(contents, out),
        file_outcome(seq![0xFEu8, 0xFFu8] + contents, out) == file_outcome(contents, out),
        file_outcome(seq![0xFFu8, 0xFEu8] + contents, out) == file_outcome(contents, out),
{
    assert((seq![0xEFu8, 0xBBu8, 0xBFu8] + contents).skip(3) =~= contents);
    assert((seq![0xFEu8, 0xFFu8] + contents).skip(2) =~= contents);
    assert((seq![0xFFu8, 0xFEu8] + contents).skip(2) =~= contents);
    assert(contents.skip(0) =~= contents);
}

/// Parses the contents of a project file: skips a byte-order mark, parses the
/// rest as XML, and reads off the document what it says of its project.
pub fn parse_project_file(contents: &[u8]) -> (out: Result<ProjectFile, Error>)
    ensures
        file_outcome(contents@, file_result_view(out)),
{
    let skip = strip_bom(contents);
    let bytes = slice_subrange(contents, skip, contents.len());
    assert(bytes@ =~= contents@.skip(skip as int));
    let text = match core::str::from_utf8(bytes) {
        Ok(text) => text,
        Err(_) => {
            return Err(Error::Io("stream did not contain valid UTF-8".to_owned()));
        },
    };
    proof {
        vstd::utf8::encode_utf8_decode_utf8(text@);
    }
    match parse_document(text) {
        Ok(nodes) => project_file_from_nodes(&nodes),
        Err(e) => Err(Error::Parse(e)),
    }
}

/// A reference of a project, looked up on disk.
#[derive(Debug, Clone, PartialEq, Eq)]
pub struct ResolvedReference {
    /// The path that the project file stands for: joined onto the project's
    /// directory and normalized.
    pub wanted: FilePath,
    /// The canonical path of the file found there; `None` where there is none.
    pub found: Option<FilePath>,
}

/// The mathematical value of a [`ResolvedReference`].
pub struct ResolvedReferenceView {
    pub wanted: Seq<ComponentView>,
    pub found: Option<Seq<ComponentView>>,
}

impl View for ResolvedReference {
    type V = ResolvedReferenceView;

    open spec fn view(&self) -> ResolvedReferenceView {
        ResolvedReferenceView {
            wanted: self.wanted@,
            found: match self.found {
                Some(p) => Some(p@),
                None => None,
            },
        }
    }
}

/// The references of a vector, as mathematical values.
pub open spec fn references_view(items: Seq<ResolvedReference>) -> Seq<ResolvedReferenceView> {
    items.map_values(|r: ResolvedReference| r@)
}

/// The position of the first reference that was not found, from `from` on.
pub open spec fn missing_from(references: Seq<ResolvedReferenceView>, from: int) -> Option<int>
    decreases references.len() - from,
{
    if from < 0 || from >= references.len() {
        None
    } else if references[from].found is None {
        Some(from)
    } else {
        missing_from(references, from + 1)
    }
}

/// The canonical paths of references that were all found.
pub open spec fn found_paths(references: Seq<ResolvedReferenceView>) -> Seq<Seq<ComponentView>> {
    Seq::new(references.len(), |i: int| references[i].found->0)
}

/// The path that a reference written in a project file stands for: the
/// written path pushed onto the project's directory, in normal form.
pub open spec fn reference_path_spec(
    project_dir: Seq<ComponentView>,
    written: Seq<ComponentView>,
) -> Seq<ComponentView> {
    crate::path_extensions::simplify_spec(
        crate::path_extensions::collect_spec(project_dir, written),
    )
}

/// The path that a reference written in a project file stands for.
pub fn reference_path(project_dir: &FilePath, written: &FilePath) -> (out: FilePath)
    ensures
        out@ == reference_path_spec(project_dir@, written@),
{
    let joined = project_dir.join(written);
    crate::path_extensions::PathExt::simplify(&joined)
}

/// The mathematical value of a project or the failure to load it.
pub open spec fn outcome_view(out: Result<Project, Error>) -> Result<ProjectView, ErrorView> {
    match out {
        Ok(project) => Ok(project@),
        Err(e) => Err(e@),
    }
}

/// The record of the project at `project_path`, made of what its file says
/// and of its references as they were found on disk. The first reference that
/// is not on disk fails the project.
pub fn read_and_parse_project(
    project_path: FilePath,
    file: ProjectFile,
    references: Vec<ResolvedReference>,
) -> (out: Result<Project, Error>)
    ensures
        match missing_from(references_view(references@), 0) {
            Some(i) => outcome_view(out) == Err::<ProjectView, ErrorView>(
                ErrorView::UnresolvedReference(references@[i].wanted@),
            ),
            None => outcome_view(out) == Ok::<ProjectView, ErrorView>(
                ProjectView {
                    path: project_path@,
                    is_sdk: file.is_sdk,
                    is_exe: file.is_exe,
                    target_frameworks: file@.target_frameworks,
                    project_references: found_paths(references_view(references@)),
                    package_references: file@.package_references,
                },
            ),
        },
{
    let ghost all = references_view(references@);
    let mut project_references: Vec<FilePath> = Vec::new();
    let mut i: usize = 0;
    while i < references.len()
        invariant
            i <= references.len(),
            all == references_view(references@),
            missing_from(all, 0) == missing_from(all, i as int),
            project_references.len() == i,
            forall|k: int| 0 <= k < i ==> Some(#[trigger] project_references@[k]@) == all[k].found,
        decreases references.len() - i,
    {
        assert(all[i as int] == references@[i as int]@);
        match &references[i].found {
            Some(path) => {
                project_references.push(path.clone());
            },
            None => {
                return Err(Error::UnresolvedReference(references[i].wanted.clone()));
            },
        }
        i += 1;
    }
    let project = Project {
        path: project_path,
        is_sdk: file.is_sdk,
        is_exe: file.is_exe,
        target_frameworks: file.target_frameworks,
        project_references,
        package_references: file.package_references,
    };
    assert(project@.project_references =~= found_paths(all));
    Ok(project)
}

/// What an error says, where `separator` parts the components of a path.
pub open spec fn error_text(e: ErrorView, separator: char) -> Seq<char> {
    match e {
        ErrorView::Io(m) => "failed to read project: "@ + m,
        ErrorView::Parse(x) => "failed to parse project: "@ + x.message,
        ErrorView::UnresolvedReference(p) => "failed to read project: no such project: "@
            + display_spec(p, separator),
        ErrorView::FrameworkVersion(t) => "failed to parse project: no such framework version: "@
            + t,
    }
}

impl Error {
    /// What the error says, where `separator` parts the components of a
    /// path.
    pub fn to_text(&self, separator: char) -> (out: String)
        ensures
            out@ == error_text(self@, separator),
    {
        let mut out = String::new();
        match self {
            Error::Io(m) => {
                out.append("failed to read project: ");
                out.append(m.as_str());
            },
            Error::Parse(x) => {
                out.append("failed to parse project: ");
                out.append(x.message.as_str());
            },
            Error::UnresolvedReference(p) => {
                out.append("failed to read project: no such project: ");
                p.push_display(&mut out, separator);
            },
            Error::FrameworkVersion(t) => {
                out.append("failed to parse project: no such framework version: ");
                out.append(t.as_str());
            },
        }
        assert(out@ =~= error_text(self@, separator));
        out
    }
}

} // verus!
