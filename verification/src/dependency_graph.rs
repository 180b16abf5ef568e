//! The dependency graph of the projects, as it is written out: the entries
//! with their paths taken from the search root, the DOT text, and the
//! projects that go into the JSON document.

use vstd::prelude::*;
use vstd::string::StringExecFns;
use crate::csproj::error_text;
use crate::csproj::outcome_view;
use crate::csproj::paths_view;
use crate::csproj::Error;
use crate::csproj::JsonRoot;
use crate::csproj::Project;
use crate::csproj::ProjectView;
use crate::list::edges_from;
use crate::list::position_of;
use crate::list::projects_view;
use crate::list::reference_edges;
use crate::longest_path::holds;
use crate::longest_path::longest_paths;
use crate::longest_path::longest_paths_spec;
use crate::order::lemma_map_keeps_multiset;
use crate::order::sort;
use crate::order::TotalOrder;
use crate::path_extensions::display_spec;
use crate::path_extensions::relative_path;
use crate::path_extensions::relative_path_spec;
use crate::path_extensions::FilePath;
use crate::path_order::lemma_path_le_total;
use crate::path_order::lemma_path_le_transitive;
use crate::path_order::path_le;
use crate::path_order::path_le_exec;
use crate::project_graph::outcome_refs;
use crate::project_graph::OutcomeView;
use crate::project_graph::PathView;
use crate::text::decimal_spec;
use crate::text::doubled_backslashes;
use crate::text::push_decimal;
use crate::text::push_doubled_backslashes;
use crate::text::split;
use crate::text::split_spec;
use crate::text::texts;

verus! {

/// An entry of the graph: a project's identity and the outcome of loading
/// it.
#[derive(Debug, PartialEq, Eq)]
pub struct GraphEntry {
    pub path: FilePath,
    pub outcome: Result<Project, Error>,
}

/// The mathematical value of a [`GraphEntry`].
pub struct GraphEntryView {
    pub path: PathView,
    pub outcome: OutcomeView,
}

impl View for GraphEntry {
    type V = GraphEntryView;

    open spec fn view(&self) -> GraphEntryView {
        GraphEntryView { path: self.path@, outcome: outcome_view(self.outcome) }
    }
}

impl TotalOrder for GraphEntry {
    open spec fn before(&self, other: &Self) -> bool {
        path_le(self.path@, other.path@)
    }

    fn is_before(&self, other: &Self) -> (yes: bool) {
        path_le_exec(&self.path, &other.path)
    }

    proof fn before_total(a: &Self, b: &Self) {
        lemma_path_le_total(a.path@, b.path@);
    }

    proof fn before_transitive(a: &Self, b: &Self, c: &Self) {
        lemma_path_le_transitive(a.path@, b.path@, c.path@);
    }
}

/// The entries of a vector, as mathematical values.
pub open spec fn entries_view(entries: Seq<GraphEntry>) -> Seq<GraphEntryView> {
    entries.map_values(|e: GraphEntry| e@)
}

/// The identities of the entries.
pub open spec fn entry_paths(entries: Seq<GraphEntryView>) -> Seq<PathView> {
    entries.map_values(|e: GraphEntryView| e.path)
}

/// What each entry refers to: a failed project refers to nothing.
pub open spec fn entry_refs(entries: Seq<GraphEntryView>) -> Seq<Seq<PathView>> {
    entries.map_values(|e: GraphEntryView| outcome_refs(e.outcome))
}

/// The paths, each taken from `dir`.
pub open spec fn relative_paths(dir: PathView, paths: Seq<PathView>) -> Seq<PathView> {
    Seq::new(paths.len(), |k: int| relative_path_spec(dir, paths[k]))
}

/// A project with its path and its references taken from `dir`.
pub open spec fn relative_project(dir: PathView, project: ProjectView) -> ProjectView {
    ProjectView {
        path: relative_path_spec(dir, project.path),
        is_sdk: project.is_sdk,
        is_exe: project.is_exe,
        target_frameworks: project.target_frameworks,
        project_references: relative_paths(dir, project.project_references),
        package_references: project.package_references,
    }
}

/// An entry with all its paths taken from `dir`.
pub open spec fn relative_entry(dir: PathView, entry: GraphEntryView) -> GraphEntryView {
    GraphEntryView {
        path: relative_path_spec(dir, entry.path),
        outcome: match entry.outcome {
            Ok(project) => Ok(relative_project(dir, project)),
            Err(e) => Err(e),
        },
    }
}

/// The entries, each with all its paths taken from `dir`.
pub open spec fn relative_entries(dir: PathView, entries: Seq<GraphEntryView>) -> Seq<
    GraphEntryView,
> {
    Seq::new(entries.len(), |k: int| relative_entry(dir, entries[k]))
}

/// Whether the entries ascend by their paths.
pub open spec fn ascending(entries: Seq<GraphEntryView>) -> bool {
    forall|i: int, j: int|
        0 <= i < j < entries.len() ==> path_le(
            (#[trigger] entries[i]).path,
            (#[trigger] entries[j]).path,
        )
}

/// A project with its path and its references taken from `dir`.
fn project_from(dir: &FilePath, project: Project) -> (out: Project)
    ensures
        out@ == relative_project(dir@, project@),
{
    let mut project_references: Vec<FilePath> = Vec::new();
    let mut k: usize = 0;
    while k < project.project_references.len()
        invariant
            k <= project.project_references.len(),
            project_references.len() == k,
            forall|m: int|
                0 <= m < k ==> (#[trigger] project_references@[m])@ == relative_path_spec(
                    dir@,
                    project.project_references@[m]@,
                ),
        decreases project.project_references.len() - k,
    {
        project_references.push(relative_path(dir, &project.project_references[k]));
        k += 1;
    }
    let out = Project {
        path: relative_path(dir, &project.path),
        is_sdk: project.is_sdk,
        is_exe: project.is_exe,
        target_frameworks: project.target_frameworks,
        project_references,
        package_references: project.package_references,
    };
    assert(out@.project_references =~= relative_paths(dir@, project@.project_references));
    out
}

/// Prepares the graph for writing: every path in it is taken from
/// `search_dir`, and the entries are put in the order of their paths.
pub fn dependency_graph(search_dir: &FilePath, entries: Vec<GraphEntry>) -> (out: Vec<GraphEntry>)
    ensures
        ascending(entries_view(out@)),
        entries_view(out@).to_multiset() == relative_entries(
            search_dir@,
            entries_view(entries@),
        ).to_multiset(),
{
    let ghost given = entries_view(entries@);
    let mut relative: Vec<GraphEntry> = Vec::new();
    for entry in it: entries
        invariant
            it.seq() == entries@,
            given == entries_view(entries@),
            relative.len() == it.index(),
            forall|k: int|
                0 <= k < it.index() ==> (#[trigger] relative@[k])@ == relative_entry(
                    search_dir@,
                    given[k],
                ),
    {
        assert(given[it.index() as int] == entry@);
        let path = relative_path(search_dir, &entry.path);
        let outcome = match entry.outcome {
            Ok(project) => Ok(project_from(search_dir, project)),
            Err(e) => Err(e),
        };
        relative.push(GraphEntry { path, outcome });
    }
    let ghost unsorted = relative@;
    assert(entries_view(unsorted) =~= relative_entries(search_dir@, given));
    let out = sort(relative);
    proof {
        let view_of = |e: GraphEntry| e@;
        lemma_map_keeps_multiset(out@, unsorted, view_of);
        assert(out@.map_values(view_of) =~= entries_view(out@));
        assert(unsorted.map_values(view_of) =~= entries_view(unsorted));
        assert forall|i: int, j: int| 0 <= i < j < out@.len() implies path_le(
            (#[trigger] entries_view(out@)[i]).path,
            (#[trigger] entries_view(out@)[j]).path,
        ) by {
            assert(out@[i].before(&out@[j]));
        }
    }
    out
}

/// The projects that were loaded, in the order of the entries: what goes
/// into the JSON document. A failed project is left out.
pub open spec fn loaded_projects(entries: Seq<GraphEntryView>) -> Seq<ProjectView>
    decreases entries.len(),
{
    if entries.len() == 0 {
        Seq::empty()
    } else {
        let before = loaded_projects(entries.drop_last());
        match entries.last().outcome {
            Ok(project) => before.push(project),
            Err(_) => before,
        }
    }
}

/// The projects that go into the JSON document: every loaded project, no
/// failed one.
pub fn json_root(entries: Vec<GraphEntry>) -> (root: JsonRoot)
    ensures
        projects_view(root.projects@) == loaded_projects(entries_view(entries@)),
{
    let ghost given = entries_view(entries@);
    let mut projects: Vec<Project> = Vec::new();
    assert(projects_view(projects@) =~= loaded_projects(given.take(0)));
    for entry in it: entries
        invariant
            it.seq() == entries@,
            given == entries_view(entries@),
            projects_view(projects@) == loaded_projects(given.take(it.index() as int)),
    {
        let ghost before = projects_view(projects@);
        proof {
            assert(given.take(it.index() + 1).drop_last() =~= given.take(it.index() as int));
            assert(given.take(it.index() + 1).last() == entry@);
        }
        match entry.outcome {
            Ok(project) => {
                let ghost pv = project@;
                projects.push(project);
                assert(projects_view(projects@) =~= before.push(pv));
            },
            Err(_) => {},
        }
    }
    assert(given.take(given.len() as int) =~= given);
    JsonRoot { projects }
}

/// The line that reports a failed project; nothing for a loaded one.
pub open spec fn failure_text(entry: GraphEntryView, separator: char) -> Seq<char> {
    match entry.outcome {
        Err(e) => "// failed to read and parse "@ + doubled_backslashes(
            display_spec(entry.path, separator),
        ) + ": "@ + error_text(e, separator) + "\n"@,
        Ok(_) => Seq::empty(),
    }
}

/// The lines that report the failed projects.
pub open spec fn failures_text(entries: Seq<GraphEntryView>, separator: char) -> Seq<char>
    decreases entries.len(),
{
    if entries.len() == 0 {
        Seq::empty()
    } else {
        failures_text(entries.drop_last(), separator) + failure_text(entries.last(), separator)
    }
}

/// The parts, each followed by a line break.
pub open spec fn broken_lines(parts: Seq<Seq<char>>) -> Seq<char>
    decreases parts.len(),
{
    if parts.len() == 0 {
        Seq::empty()
    } else {
        broken_lines(parts.drop_last()) + parts.last() + "<BR/>"@
    }
}

/// The label of a node: the parts of its path between backslashes, one to a
/// line, the last one in bold.
pub open spec fn label_text(path: Seq<char>) -> Seq<char> {
    let parts = split_spec(path, '\\');
    broken_lines(parts.drop_last()) + "<B>"@ + parts.last() + "</B>"@
}

/// The fill colour of a node: by whether the project is SDK-style; red for
/// a failed one.
pub open spec fn fill_text(outcome: OutcomeView) -> Seq<char> {
    match outcome {
        Ok(project) => if project.is_sdk {
            "#7fc79f"@
        } else {
            "#fdc086"@
        },
        Err(_) => "red"@,
    }
}

/// The shape of a node: a box for an executable, an ellipse for a library,
/// a star for a failed project.
pub open spec fn shape_text(outcome: OutcomeView) -> Seq<char> {
    match outcome {
        Ok(project) => if project.is_exe {
            "box"@
        } else {
            "ellipse"@
        },
        Err(_) => "star"@,
    }
}

/// The line of the node at `index`.
pub open spec fn node_text(index: nat, entry: GraphEntryView, separator: char) -> Seq<char> {
    "  n"@ + decimal_spec(index) + " [label = < "@ + label_text(display_spec(entry.path, separator))
        + " >, fillcolor = \""@ + fill_text(entry.outcome) + "\", style = filled, shape = \""@
        + shape_text(entry.outcome) + "\"]\n"@
}

/// The lines of the nodes.
pub open spec fn nodes_text(entries: Seq<GraphEntryView>, separator: char) -> Seq<char>
    decreases entries.len(),
{
    if entries.len() == 0 {
        Seq::empty()
    } else {
        nodes_text(entries.drop_last(), separator) + node_text(
            (entries.len() - 1) as nat,
            entries.last(),
            separator,
        )
    }
}

/// The line of one reference: an edge to a project of the graph, muted
/// where the table holds a longer way from the one to the other; a remark
/// for a reference to a project that the graph does not hold.
pub open spec fn edge_text(
    table: Seq<Seq<int>>,
    paths: Seq<PathView>,
    from: int,
    to: PathView,
    separator: char,
) -> Seq<char> {
    match position_of(paths, to) {
        Some(at) => "  n"@ + decimal_spec(from as nat) + " -> n"@ + decimal_spec(at as nat) + if
            table[from][at] > 2 {
            " [color = \"#e2e2e2\"];\n"@
        } else {
            ";\n"@
        },
        None => "  // n"@ + decimal_spec(from as nat) + " -> "@ + doubled_backslashes(
            display_spec(to, separator),
        ) + ": not found\n"@,
    }
}

/// The lines of the references of the node at `from`.
pub open spec fn edges_text_from(
    table: Seq<Seq<int>>,
    paths: Seq<PathView>,
    from: int,
    refs: Seq<PathView>,
    separator: char,
) -> Seq<char>
    decreases refs.len(),
{
    if refs.len() == 0 {
        Seq::empty()
    } else {
        edges_text_from(table, paths, from, refs.drop_last(), separator) + edge_text(
            table,
            paths,
            from,
            refs.last(),
            separator,
        )
    }
}

/// The lines of the references of the first `upto` nodes.
pub open spec fn edges_text(
    table: Seq<Seq<int>>,
    paths: Seq<PathView>,
    refs: Seq<Seq<PathView>>,
    upto: int,
    separator: char,
) -> Seq<char>
    decreases upto,
{
    if upto <= 0 {
        Seq::empty()
    } else {
        edges_text(table, paths, refs, upto - 1, separator) + edges_text_from(
            table,
            paths,
            upto - 1,
            refs[upto - 1],
            separator,
        )
    }
}

/// The DOT text of the graph:
/// - a remark with the number of projects, and one for each failed project;
/// - one node for each entry, styled by its outcome;
/// - one edge for each reference to a project of the graph, muted where a
///   longer way leads from the one project to the other, and a remark for
///   each reference to a project that the graph does not hold.
pub open spec fn dot_text(entries: Seq<GraphEntryView>, separator: char) -> Seq<char> {
    let paths = entry_paths(entries);
    let refs = entry_refs(entries);
    let table = longest_paths_spec(
        entries.len(),
        reference_edges(paths, refs, entries.len() as int),
    );
    "// "@ + decimal_spec(entries.len()) + " projects\n"@ + failures_text(entries, separator)
        + "digraph {\n"@ + "  rankdir = \"LR\";\n"@ + nodes_text(entries, separator) + edges_text(
        table,
        paths,
        refs,
        entries.len() as int,
        separator,
    ) + "}\n"@
}

/// Appends the label of a node.
fn push_label(out: &mut String, path: &str)
    ensures
        final(out)@ == old(out)@ + label_text(path@),
{
    let parts = split(path, '\\');
    let ghost all = texts(parts@);
    let last = parts.len() - 1;
    let mut i: usize = 0;
    assert(out@ =~= old(out)@ + broken_lines(all.drop_last().take(0)));
    while i < last
        invariant
            i <= last,
            last + 1 == parts.len(),
            all == texts(parts@),
            out@ == old(out)@ + broken_lines(all.drop_last().take(i as int)),
        decreases last - i,
    {
        let ghost before = broken_lines(all.drop_last().take(i as int));
        proof {
            assert(all.drop_last().take(i + 1).drop_last() =~= all.drop_last().take(i as int));
            assert(all.drop_last().take(i + 1).last() == parts@[i as int]@);
        }
        out.append(parts[i].as_str());
        out.append("<BR/>");
        assert(out@ =~= old(out)@ + (before + parts@[i as int]@ + "<BR/>"@));
        i += 1;
    }
    assert(all.drop_last().take(last as int) =~= all.drop_last());
    let ghost lines = broken_lines(all.drop_last());
    out.append("<B>");
    out.append(parts[last].as_str());
    out.append("</B>");
    assert(all.last() == parts@[last as int]@);
    assert(out@ =~= old(out)@ + (lines + "<B>"@ + all.last() + "</B>"@));
}

/// The position of the entry with the identity `path`.
fn entry_position(entries: &Vec<GraphEntry>, path: &FilePath) -> (out: Option<usize>)
    ensures
        match out {
            Some(to) => position_of(entry_paths(entries_view(entries@)), path@) == Some(to as int)
                && to < entries.len(),
            None => position_of(entry_paths(entries_view(entries@)), path@) is None,
        },
{
    let ghost paths = entry_paths(entries_view(entries@));
    let mut i: usize = entries.len();
    assert(paths.take(i as int) =~= paths);
    while i > 0
        invariant
            i <= entries.len(),
            paths == entry_paths(entries_view(entries@)),
            position_of(paths, path@) == position_of(paths.take(i as int), path@),
        decreases i,
    {
        assert(paths.take(i as int).last() == entries@[i - 1]@.path);
        assert(paths.take(i as int).drop_last() =~= paths.take(i - 1));
        if entries[i - 1].path.same(path) {
            return Some(i - 1);
        }
        i -= 1;
    }
    None
}

/// The edges between the entries: one from each loaded project to each
/// project of the graph that it refers to.
fn entry_edges(entries: &Vec<GraphEntry>) -> (edges: Vec<(usize, usize)>)
    ensures
        edges@ == reference_edges(
            entry_paths(entries_view(entries@)),
            entry_refs(entries_view(entries@)),
            entries.len() as int,
        ),
{
    let ghost paths = entry_paths(entries_view(entries@));
    let ghost all_refs = entry_refs(entries_view(entries@));
    let mut edges: Vec<(usize, usize)> = Vec::new();
    let mut from: usize = 0;
    while from < entries.len()
        invariant
            from <= entries.len(),
            paths == entry_paths(entries_view(entries@)),
            all_refs == entry_refs(entries_view(entries@)),
            edges@ == reference_edges(paths, all_refs, from as int),
        decreases entries.len() - from,
    {
        let ghost before = edges@;
        let ghost wanted = all_refs[from as int];
        assert(wanted == outcome_refs(entries@[from as int]@.outcome));
        match &entries[from].outcome {
            Ok(project) => {
                let refs = &project.project_references;
                let mut k: usize = 0;
                assert(wanted.take(0) =~= Seq::<PathView>::empty());
                assert(edges@ =~= before + edges_from(paths, from as int, wanted.take(0)));
                while k < refs.len()
                    invariant
                        k <= refs.len(),
                        from < entries.len(),
                        paths == entry_paths(entries_view(entries@)),
                        wanted == paths_view(refs@),
                        edges@ == before + edges_from(paths, from as int, wanted.take(k as int)),
                    decreases refs.len() - k,
                {
                    proof {
                        assert(wanted.take(k + 1).drop_last() =~= wanted.take(k as int));
                        assert(wanted.take(k + 1).last() == refs@[k as int]@);
                    }
                    let ghost sofar = edges_from(paths, from as int, wanted.take(k as int));
                    match entry_position(entries, &refs[k]) {
                        Some(to) => {
                            edges.push((from, to));
                            assert(edges@ =~= before + sofar.push((from, to)));
                        },
                        None => {},
                    }
                    k += 1;
                }
                assert(wanted.take(refs.len() as int) =~= wanted);
            },
            Err(_) => {
                assert(edges@ =~= before + edges_from(paths, from as int, wanted));
            },
        }
        from += 1;
    }
    edges
}

/// Appends the lines of the references of the entry at `from`.
fn push_edges_from(
    out: &mut String,
    table: &Vec<Vec<u64>>,
    entries: &Vec<GraphEntry>,
    from: usize,
    refs: &Vec<FilePath>,
    separator: char,
    Ghost(t): Ghost<Seq<Seq<int>>>,
)
    requires
        from < entries.len(),
        holds(table@, t, entries.len() as nat),
    ensures
        final(out)@ == old(out)@ + edges_text_from(
            t,
            entry_paths(entries_view(entries@)),
            from as int,
            paths_view(refs@),
            separator,
        ),
{
    let ghost paths = entry_paths(entries_view(entries@));
    let ghost wanted = paths_view(refs@);
    let mut k: usize = 0;
    assert(out@ =~= old(out)@ + edges_text_from(t, paths, from as int, wanted.take(0), separator));
    while k < refs.len()
        invariant
            k <= refs.len(),
            from < entries.len(),
            holds(table@, t, entries.len() as nat),
            paths == entry_paths(entries_view(entries@)),
            wanted == paths_view(refs@),
            out@ == old(out)@ + edges_text_from(
                t,
                paths,
                from as int,
                wanted.take(k as int),
                separator,
            ),
        decreases refs.len() - k,
    {
        let ghost before = edges_text_from(t, paths, from as int, wanted.take(k as int), separator);
        let ghost start = out@;
        proof {
            assert(wanted.take(k + 1).drop_last() =~= wanted.take(k as int));
            assert(wanted.take(k + 1).last() == refs@[k as int]@);
        }
        match entry_position(entries, &refs[k]) {
            Some(to) => {
                out.append("  n");
                push_decimal(out, from);
                out.append(" -> n");
                push_decimal(out, to);
                assert(crate::longest_path::entry_holds(
                    table@[from as int]@[to as int],
                    t[from as int][to as int],
                ));
                if table[from][to] > 2 {
                    out.append(" [color = \"#e2e2e2\"];\n");
                } else {
                    out.append(";\n");
                }
                assert(out@ =~= start + edge_text(t, paths, from as int, refs@[k as int]@, separator));
            },
            None => {
                out.append("  // n");
                push_decimal(out, from);
                out.append(" -> ");
                let shown = refs[k].display(separator);
                push_doubled_backslashes(out, shown.as_str());
                out.append(": not found\n");
                assert(out@ =~= start + edge_text(t, paths, from as int, refs@[k as int]@, separator));
            },
        }
        assert(out@ =~= old(out)@ + (before + edge_text(
            t,
            paths,
            from as int,
            refs@[k as int]@,
            separator,
        )));
        k += 1;
    }
    assert(wanted.take(refs.len() as int) =~= wanted);
}

/// Writes the graph as DOT text. The entries' paths are written with
/// `separator` between their components.
pub fn serialize_dot(projects: &Vec<GraphEntry>, separator: char) -> (out: String)
    ensures
        out@ == dot_text(entries_view(projects@), separator),
{
    let ghost entries = entries_view(projects@);
    let ghost paths = entry_paths(entries);
    let ghost refs = entry_refs(entries);
    let n = projects.len();
    let mut out = String::new();
    out.append("// ");
    push_decimal(&mut out, n);
    out.append(" projects\n");
    let ghost head = out@;
    assert(head =~= "// "@ + decimal_spec(n as nat) + " projects\n"@);

    let mut i: usize = 0;
    assert(out@ =~= head + failures_text(entries.take(0), separator));
    while i < n
        invariant
            i <= n,
            n == projects.len(),
            entries == entries_view(projects@),
            out@ == head + failures_text(entries.take(i as int), separator),
        decreases n - i,
    {
        let ghost before = failures_text(entries.take(i as int), separator);
        let ghost start = out@;
        proof {
            assert(entries.take(i + 1).drop_last() =~= entries.take(i as int));
            assert(entries.take(i + 1).last() == projects@[i as int]@);
        }
        match &projects[i].outcome {
            Err(e) => {
                out.append("// failed to read and parse ");
                let shown = projects[i].path.display(separator);
                push_doubled_backslashes(&mut out, shown.as_str());
                out.append(": ");
                let reason = e.to_text(separator);
                out.append(reason.as_str());
                out.append("\n");
                assert(out@ =~= start + failure_text(projects@[i as int]@, separator));
            },
            Ok(_) => {
                assert(out@ =~= start + failure_text(projects@[i as int]@, separator));
            },
        }
        assert(out@ =~= head + (before + failure_text(projects@[i as int]@, separator)));
        i += 1;
    }
    assert(entries.take(n as int) =~= entries);

    out.append("digraph {\n");
    out.append("  rankdir = \"LR\";\n");
    let ghost opened = out@;
    assert(opened =~= head + failures_text(entries, separator) + "digraph {\n"@
        + "  rankdir = \"LR\";\n"@);

    let mut i: usize = 0;
    assert(out@ =~= opened + nodes_text(entries.take(0), separator));
    while i < n
        invariant
            i <= n,
            n == projects.len(),
            entries == entries_view(projects@),
            out@ == opened + nodes_text(entries.take(i as int), separator),
        decreases n - i,
    {
        let ghost before = nodes_text(entries.take(i as int), separator);
        let ghost start = out@;
        proof {
            assert(entries.take(i + 1).drop_last() =~= entries.take(i as int));
            assert(entries.take(i + 1).last() == projects@[i as int]@);
        }
        let entry = &projects[i];
        out.append("  n");
        push_decimal(&mut out, i);
        out.append(" [label = < ");
        let shown = entry.path.display(separator);
        push_label(&mut out, shown.as_str());
        out.append(" >, fillcolor = \"");
        out.append(
            match &entry.outcome {
                Ok(project) => if project.is_sdk {
                    "#7fc79f"
                } else {
                    "#fdc086"
                },
                Err(_) => "red",
            },
        );
        out.append("\", style = filled, shape = \"");
        out.append(
            match &entry.outcome {
                Ok(project) => if project.is_exe {
                    "box"
                } else {
                    "ellipse"
                },
                Err(_) => "star",
            },
        );
        out.append("\"]\n");
        assert(out@ =~= start + node_text(i as nat, entry@, separator));
        assert(out@ =~= opened + (before + node_text(i as nat, entry@, separator)));
        i += 1;
    }
    assert(entries.take(n as int) =~= entries);
    let ghost drawn = out@;

    let edges = entry_edges(projects);
    let table = longest_paths(n, &edges);
    let ghost t = longest_paths_spec(n as nat, edges@);

    let mut from: usize = 0;
    assert(out@ =~= drawn + edges_text(t, paths, refs, 0, separator));
    while from < n
        invariant
            from <= n,
            n == projects.len(),
            entries == entries_view(projects@),
            paths == entry_paths(entries),
            refs == entry_refs(entries),
            holds(table@, t, n as nat),
            out@ == drawn + edges_text(t, paths, refs, from as int, separator),
        decreases n - from,
    {
        let ghost before = edges_text(t, paths, refs, from as int, separator);
        let ghost start = out@;
        assert(refs[from as int] == outcome_refs(projects@[from as int]@.outcome));
        match &projects[from].outcome {
            Ok(project) => {
                push_edges_from(
                    &mut out,
                    &table,
                    projects,
                    from,
                    &project.project_references,
                    separator,
                    Ghost(t),
                );
            },
            Err(_) => {},
        }
        assert(out@ =~= drawn + (before + edges_text_from(
            t,
            paths,
            from as int,
            refs[from as int],
            separator,
        )));
        from += 1;
    }
    out.append("}\n");
    assert(out@ =~= dot_text(entries, separator));
    out
}

} // verus!
