//! Discovery of the projects that a set of seeds leads to.
//!
//! The graph is built one project at a time. It names the next project to
//! load; the caller loads it and hands the outcome back; the graph then adds
//! the projects that the outcome refers to and that it has not seen before.
//! A project is loaded once, however many others refer to it, so cycles are
//! harmless.

use vstd::prelude::*;
use crate::csproj::outcome_view;
use crate::csproj::Error;
use crate::csproj::ErrorView;
use crate::csproj::Project;
use crate::csproj::ProjectView;
use crate::dependency_graph::GraphEntry;
use crate::dependency_graph::GraphEntryView;
use crate::path_extensions::ComponentView;
use crate::path_extensions::FilePath;

verus! {

/// A path, as a mathematical value.
pub type PathView = Seq<ComponentView>;

/// A project or the failure to load it, as a mathematical value.
pub type OutcomeView = Result<ProjectView, ErrorView>;

/// A node of the graph: a project's identity and, once it was loaded, the
/// outcome.
#[derive(Debug, PartialEq, Eq)]
pub struct GraphNode {
    pub path: FilePath,
    pub outcome: Option<Result<Project, Error>>,
}

/// The mathematical value of a [`GraphNode`].
pub struct GraphNodeView {
    pub path: PathView,
    pub outcome: Option<OutcomeView>,
}

impl View for GraphNode {
    type V = GraphNodeView;

    open spec fn view(&self) -> GraphNodeView {
        GraphNodeView {
            path: self.path@,
            outcome: match self.outcome {
                Some(out) => Some(outcome_view(out)),
                None => None,
            },
        }
    }
}

/// The projects found so far, in the order of their discovery: first the
/// seeds, then the projects that loaded ones refer to. The first `next` nodes
/// are loaded; the others wait.
#[derive(Debug, PartialEq, Eq)]
pub struct ProjectGraph {
    pub nodes: Vec<GraphNode>,
    pub next: usize,
    pub seed_count: usize,
    pub follow: bool,
}

/// The mathematical value of a [`ProjectGraph`].
pub struct ProjectGraphView {
    pub nodes: Seq<GraphNodeView>,
    pub next: nat,
    pub seed_count: nat,
    pub follow: bool,
}

impl View for ProjectGraph {
    type V = ProjectGraphView;

    open spec fn view(&self) -> ProjectGraphView {
        ProjectGraphView {
            nodes: self.nodes@.map_values(|n: GraphNode| n@),
            next: self.next as nat,
            seed_count: self.seed_count as nat,
            follow: self.follow,
        }
    }
}

/// The projects that an outcome refers to: those of a loaded project, none
/// for a failure.
pub open spec fn outcome_refs(out: OutcomeView) -> Seq<PathView> {
    match out {
        Ok(project) => project.project_references,
        Err(_) => Seq::empty(),
    }
}

/// The projects that a node refers to, as far as it is known.
pub open spec fn node_refs(node: GraphNodeView) -> Seq<PathView> {
    match node.outcome {
        Some(out) => outcome_refs(out),
        None => Seq::empty(),
    }
}

/// The paths in `known`, followed by those of `found` that are new, each
/// once, in the order in which they are found.
pub open spec fn discover(known: Seq<PathView>, found: Seq<PathView>) -> Seq<PathView>
    decreases found.len(),
{
    if found.len() == 0 {
        known
    } else if known.contains(found[0]) {
        discover(known, found.skip(1))
    } else {
        discover(known.push(found[0]), found.skip(1))
    }
}

impl ProjectGraphView {
    /// The identities of the nodes, in the order of discovery.
    pub open spec fn paths(self) -> Seq<PathView> {
        self.nodes.map_values(|n: GraphNodeView| n.path)
    }

    /// The seeds, each once.
    pub open spec fn seeds(self) -> Seq<PathView> {
        self.paths().take(self.seed_count as int)
    }

    /// Whether every node is loaded.
    pub open spec fn complete(self) -> bool {
        self.next >= self.nodes.len()
    }

    /// Whether some node has the identity `path`.
    pub open spec fn has(self, path: PathView) -> bool {
        exists|j: int| 0 <= j < self.nodes.len() && (#[trigger] self.nodes[j]).path == path
    }

    /// The invariant of the graph:
    /// - no identity occurs twice;
    /// - exactly the first `next` nodes have an outcome;
    /// - where references are followed, whatever a loaded project refers to
    ///   is a node;
    /// - every node behind the seeds is referred to by a loaded project that
    ///   was discovered before it.
    pub open spec fn wf(self) -> bool {
        &&& self.next <= self.nodes.len()
        &&& self.seed_count <= self.nodes.len()
        &&& forall|i: int, j: int|
            0 <= i < j < self.nodes.len() ==> (#[trigger] self.nodes[i]).path
                != (#[trigger] self.nodes[j]).path
        &&& forall|i: int|
            0 <= i < self.nodes.len() ==> ((#[trigger] self.nodes[i]).outcome is Some) == (i
                < self.next)
        &&& self.follow ==> forall|i: int, k: int|
            0 <= i < self.next && 0 <= k < node_refs(self.nodes[i]).len() ==> self.has(
                #[trigger] node_refs(self.nodes[i])[k],
            )
        &&& forall|j: int|
            self.seed_count <= j < self.nodes.len() ==> #[trigger] self.found_earlier(j)
    }

    /// Whether references are followed and a loaded project that was
    /// discovered before the node at `j` refers to it.
    pub open spec fn found_earlier(self, j: int) -> bool {
        self.follow && exists|i: int|
            0 <= i < j && i < self.next && node_refs(#[trigger] self.nodes[i]).contains(
                self.nodes[j].path,
            )
    }

    /// Whether every outcome in the graph is what `world` gives for that
    /// identity.
    pub open spec fn loaded_from(self, world: spec_fn(PathView) -> OutcomeView) -> bool {
        forall|i: int|
            0 <= i < self.next && i < self.nodes.len() ==> (#[trigger] self.nodes[i]).outcome
                == Some(world(self.nodes[i].path))
    }
}

/// Whether `route` leads from a seed along references: it starts at a seed,
/// and each project on it refers to the next, where `world` says what each
/// project refers to.
pub open spec fn is_route(
    world: spec_fn(PathView) -> OutcomeView,
    seeds: Seq<PathView>,
    route: Seq<PathView>,
) -> bool {
    &&& route.len() > 0
    &&& seeds.contains(route[0])
    &&& forall|k: int| 0 < k < route.len() ==> #[trigger] refers_along(world, route, k)
}

/// Whether the project at `k` of a route is referred to by the project
/// before it.
pub open spec fn refers_along(
    world: spec_fn(PathView) -> OutcomeView,
    route: Seq<PathView>,
    k: int,
) -> bool {
    outcome_refs(world(route[k - 1])).contains(route[k])
}

/// Whether `to` can be reached from a seed by zero or more references.
pub open spec fn reachable(
    world: spec_fn(PathView) -> OutcomeView,
    seeds: Seq<PathView>,
    to: PathView,
) -> bool {
    exists|route: Seq<PathView>| #[trigger] is_route(world, seeds, route) && route.last() == to
}

impl ProjectGraph {
    /// Whether some node has the identity `path`.
    pub fn contains(&self, path: &FilePath) -> (yes: bool)
        ensures
            yes == self@.has(path@),
    {
        let mut j: usize = 0;
        while j < self.nodes.len()
            invariant
                j <= self.nodes.len(),
                forall|k: int| 0 <= k < j ==> (#[trigger] self@.nodes[k]).path != path@,
            decreases self.nodes.len() - j,
        {
            if self.nodes[j].path.same(path) {
                assert(self@.nodes[j as int].path == path@);
                return true;
            }
            j += 1;
        }
        false
    }

    /// The identity of the next project to load; `None` when all are loaded.
    pub fn pending(&self) -> (out: Option<&FilePath>)
        ensures
            out is None == self@.complete(),
            out matches Some(path) ==> path@ == self@.nodes[self@.next as int].path,
    {
        if self.next < self.nodes.len() {
            Some(&self.nodes[self.next].path)
        } else {
            None
        }
    }

    /// Whether every project is loaded.
    pub fn is_complete(&self) -> (yes: bool)
        ensures
            yes == self@.complete(),
    {
        self.next >= self.nodes.len()
    }

    /// The loaded projects with their outcomes, in the order of discovery.
    /// For a complete graph these are all its nodes.
    pub fn into_entries(self) -> (out: Vec<GraphEntry>)
        requires
            self@.wf(),
        ensures
            out.len() == self@.next,
            forall|i: int|
                0 <= i < out.len() ==> (#[trigger] out@[i])@ == (GraphEntryView {
                    path: self@.nodes[i].path,
                    outcome: self@.nodes[i].outcome->0,
                }),
    {
        let ghost g = self@;
        let ghost given = self.nodes@;
        let next = self.next;
        let mut out: Vec<GraphEntry> = Vec::new();
        for node in it: self.nodes
            invariant
                it.seq() == given,
                g.wf(),
                g.nodes == given.map_values(|n: GraphNode| n@),
                g.next == next,
                out.len() == if it.index() <= next {
                    it.index()
                } else {
                    next as int
                },
                forall|i: int|
                    0 <= i < out.len() ==> (#[trigger] out@[i])@ == (GraphEntryView {
                        path: g.nodes[i].path,
                        outcome: g.nodes[i].outcome->0,
                    }),
        {
            assert(g.nodes[it.index() as int] == node@);
            match node.outcome {
                Some(outcome) => {
                    out.push(GraphEntry { path: node.path, outcome });
                },
                None => {},
            }
        }
        out
    }

    /// Adds the paths of `found` that are new as waiting nodes.
    fn add_new(&mut self, found: &Vec<FilePath>)
        requires
            forall|i: int|
                0 <= i < old(self)@.nodes.len() ==> ((#[trigger] old(self)@.nodes[i]).outcome
                    is Some) == (i < old(self)@.next),
        ensures
            final(self).next == old(self).next,
            final(self).seed_count == old(self).seed_count,
            final(self).follow == old(self).follow,
            final(self)@.paths() == discover(
                old(self)@.paths(),
                crate::csproj::paths_view(found@),
            ),
            final(self)@.nodes.len() >= old(self)@.nodes.len(),
            forall|i: int|
                0 <= i < old(self)@.nodes.len() ==> final(self)@.nodes[i] == old(self)@.nodes[i],
            forall|i: int|
                old(self)@.nodes.len() <= i < final(self)@.nodes.len() ==> (
                #[trigger] final(self)@.nodes[i]).outcome is None,
    {
        let ghost all = crate::csproj::paths_view(found@);
        let ghost before = self@;
        let mut k: usize = 0;
        assert(all.skip(0) =~= all);
        while k < found.len()
            invariant
                k <= found.len(),
                all == crate::csproj::paths_view(found@),
                self.next == before.next,
                self.seed_count == before.seed_count,
                self.follow == before.follow,
                self@.nodes.len() >= before.nodes.len(),
                discover(self@.paths(), all.skip(k as int)) == discover(before.paths(), all),
                forall|i: int| 0 <= i < before.nodes.len() ==> self@.nodes[i] == before.nodes[i],
                forall|i: int|
                    before.nodes.len() <= i < self@.nodes.len() ==> (#[trigger] self@.nodes[i]).outcome
                        is None,
            decreases found.len() - k,
        {
            let ghost was = self@;
            proof {
                assert(all.skip(k as int).skip(1) =~= all.skip(k + 1));
                assert(all.skip(k as int)[0] == found@[k as int]@);
                lemma_has_is_contains(was, found@[k as int]@);
            }
            if !self.contains(&found[k]) {
                self.nodes.push(GraphNode { path: found[k].clone(), outcome: None });
                assert(self@.paths() =~= was.paths().push(found@[k as int]@));
                assert forall|i: int| 0 <= i < before.nodes.len() implies self@.nodes[i]
                    == before.nodes[i] by {
                    assert(self@.nodes[i] == was.nodes[i]);
                }
                assert forall|i: int| before.nodes.len() <= i < self@.nodes.len() implies (
                #[trigger] self@.nodes[i]).outcome is None by {
                    if i < was.nodes.len() {
                        assert(self@.nodes[i] == was.nodes[i]);
                    }
                }
            }
            k += 1;
        }
    }

    /// Records the outcome of loading the next project, and adds the projects
    /// that it refers to and that are new as waiting nodes. Returns whether a
    /// project was waiting; where none was, nothing changes.
    pub fn record(&mut self, outcome: Result<Project, Error>) -> (recorded: bool)
        requires
            old(self)@.wf(),
        ensures
            final(self)@.wf(),
            recorded == !old(self)@.complete(),
            !recorded ==> final(self)@ == old(self)@,
            recorded ==> {
                let at = old(self)@.next as int;
                &&& final(self)@.next == old(self)@.next + 1
                &&& final(self)@.seed_count == old(self)@.seed_count
                &&& final(self)@.follow == old(self)@.follow
                &&& final(self)@.paths() == if old(self)@.follow {
                    discover(old(self)@.paths(), outcome_refs(outcome_view(outcome)))
                } else {
                    old(self)@.paths()
                }
                &&& final(self)@.nodes[at].outcome == Some(outcome_view(outcome))
                &&& forall|i: int|
                    0 <= i < old(self)@.nodes.len() && i != at ==> final(self)@.nodes[i] == old(
                        self,
                    )@.nodes[i]
            },
    {
        if self.next >= self.nodes.len() {
            return false;
        }
        let ghost before = self@;
        let ghost at = self.next as int;
        let ghost refs = outcome_refs(outcome_view(outcome));
        if self.follow {
            match &outcome {
                Ok(project) => {
                    self.add_new(&project.project_references);
                },
                Err(_) => {},
            }
        }
        let ghost grown = self@;
        proof {
            if !(self.follow && outcome is Ok) {
                assert(grown == before);
            }
            if before.follow {
                lemma_discover_covers(before.paths(), refs);
                if outcome is Err {
                    assert(discover(before.paths(), refs) == before.paths());
                }
            }
        }
        let at_path = self.nodes[self.next].path.clone();
        self.nodes[self.next] = GraphNode { path: at_path, outcome: Some(outcome) };
        self.next = self.next + 1;
        proof {
            let after = self@;
            assert(after.nodes =~= grown.nodes.update(
                at,
                GraphNodeView { path: before.nodes[at].path, outcome: Some(outcome_view(outcome)) },
            ));
            assert(after.paths() =~= grown.paths());
            assert(node_refs(after.nodes[at]) == refs);
            assert forall|i: int, j: int| 0 <= i < j < after.nodes.len() implies (
            #[trigger] after.nodes[i]).path != (#[trigger] after.nodes[j]).path by {
                lemma_discover_distinct(before.paths(), refs);
                assert(after.paths()[i] == after.nodes[i].path);
                assert(after.paths()[j] == after.nodes[j].path);
            }
            assert forall|i: int| 0 <= i < after.nodes.len() implies ((
            #[trigger] after.nodes[i]).outcome is Some) == (i < after.next) by {
                if i < before.nodes.len() && i != at {
                    assert(after.nodes[i] == before.nodes[i]);
                }
            }
            if after.follow {
                assert forall|i: int, k: int|
                    0 <= i < after.next && 0 <= k < node_refs(after.nodes[i]).len() implies after.has(
                    #[trigger] node_refs(after.nodes[i])[k],
                ) by {
                    let r = node_refs(after.nodes[i])[k];
                    if i == at {
                        assert(refs.contains(r));
                        assert(after.paths().contains(r));
                        lemma_has_is_contains(after, r);
                    } else {
                        assert(after.nodes[i] == before.nodes[i]);
                        assert(before.has(r));
                        let j = choose|j: int|
                            0 <= j < before.nodes.len() && (#[trigger] before.nodes[j]).path == r;
                        assert(after.nodes[j].path == r);
                    }
                }
            }
            assert forall|j: int| after.seed_count <= j < after.nodes.len() implies (
            #[trigger] after.found_earlier(j)) by {
                if j < before.nodes.len() {
                    assert(before.found_earlier(j));
                    let i = choose|i: int|
                        0 <= i < j && i < before.next && node_refs(
                            #[trigger] before.nodes[i],
                        ).contains(before.nodes[j].path);
                    assert(after.nodes[i] == before.nodes[i]);
                    assert(after.nodes[j].path == before.nodes[j].path);
                } else {
                    assert(after.nodes.len() == grown.nodes.len());
                    assert(before.follow && outcome is Ok);
                    assert(after.paths()[j] == after.nodes[j].path);
                    lemma_discover_new(before.paths(), refs, j);
                    assert(node_refs(after.nodes[at]).contains(after.nodes[j].path));
                }
            }
        }
        true
    }
}

/// A graph has a path exactly if the path is among its nodes' identities.
pub proof fn lemma_has_is_contains(g: ProjectGraphView, path: PathView)
    ensures
        g.has(path) == g.paths().contains(path),
{
    if g.has(path) {
        let j = choose|j: int| 0 <= j < g.nodes.len() && (#[trigger] g.nodes[j]).path == path;
        assert(g.paths()[j] == path);
    }
    if g.paths().contains(path) {
        let j = choose|j: int| 0 <= j < g.paths().len() && g.paths()[j] == path;
        assert(g.nodes[j].path == path);
    }
}

/// Discovery keeps what was known, in place, and holds all that was found.
pub proof fn lemma_discover_covers(known: Seq<PathView>, found: Seq<PathView>)
    ensures
        discover(known, found).len() >= known.len(),
        discover(known, found).take(known.len() as int) == known,
        forall|k: int| 0 <= k < found.len() ==> discover(known, found).contains(#[trigger] found[k]),
    decreases found.len(),
{
    let out = discover(known, found);
    if found.len() == 0 {
        assert(out.take(known.len() as int) =~= known);
    } else {
        let next = if known.contains(found[0]) {
            known
        } else {
            known.push(found[0])
        };
        lemma_discover_covers(next, found.skip(1));
        assert(out.take(known.len() as int) =~= known) by {
            assert(out.take(next.len() as int) == next);
            assert forall|i: int| 0 <= i < known.len() implies out[i] == known[i] by {
                assert(out.take(next.len() as int)[i] == next[i]);
            }
        }
        assert forall|k: int| 0 <= k < found.len() implies out.contains(#[trigger] found[k]) by {
            if k == 0 {
                assert(next.contains(found[0])) by {
                    if !known.contains(found[0]) {
                        assert(next[known.len() as int] == found[0]);
                    }
                }
                let i = choose|i: int| 0 <= i < next.len() && next[i] == found[0];
                assert(out.take(next.len() as int)[i] == next[i]);
                assert(out[i] == found[0]);
            } else {
                assert(found.skip(1)[k - 1] == found[k]);
            }
        }
    }
}

/// Discovery adds no identity twice.
pub proof fn lemma_discover_distinct(known: Seq<PathView>, found: Seq<PathView>)
    requires
        forall|i: int, j: int| 0 <= i < j < known.len() ==> known[i] != known[j],
    ensures
        forall|i: int, j: int|
            0 <= i < j < discover(known, found).len() ==> discover(known, found)[i] != discover(
                known,
                found,
            )[j],
    decreases found.len(),
{
    let out = discover(known, found);
    if found.len() > 0 {
        if known.contains(found[0]) {
            lemma_discover_distinct(known, found.skip(1));
            assert(out == discover(known, found.skip(1)));
        } else {
            let next = known.push(found[0]);
            assert forall|i: int, j: int| 0 <= i < j < next.len() implies next[i] != next[j] by {
                if j == known.len() {
                    assert(known.contains(known[i]));
                }
            }
            lemma_discover_distinct(next, found.skip(1));
            assert(out == discover(next, found.skip(1)));
        }
    } else {
        assert(out == known);
    }
    assert forall|i: int, j: int| 0 <= i < j < out.len() implies out[i] != out[j] by {}
}

/// Whatever discovery adds was found.
pub proof fn lemma_discover_new(known: Seq<PathView>, found: Seq<PathView>, j: int)
    requires
        known.len() <= j < discover(known, found).len(),
    ensures
        found.contains(discover(known, found)[j]),
    decreases found.len(),
{
    if found.len() > 0 {
        let rest = found.skip(1);
        if known.contains(found[0]) {
            lemma_discover_new(known, rest, j);
            let k = choose|k: int| 0 <= k < rest.len() && rest[k] == discover(known, found)[j];
            assert(found[k + 1] == rest[k]);
        } else {
            let next = known.push(found[0]);
            if j == known.len() {
                lemma_discover_covers(next, rest);
                assert(discover(next, rest).take(next.len() as int)[j] == next[j]);
                assert(found[0] == discover(known, found)[j]);
            } else {
                lemma_discover_new(next, rest, j);
                let k = choose|k: int| 0 <= k < rest.len() && rest[k] == discover(known, found)[j];
                assert(found[k + 1] == rest[k]);
            }
        }
    }
}

/// Every node of a graph can be reached from a seed.
pub proof fn lemma_node_is_reachable(
    g: ProjectGraphView,
    world: spec_fn(PathView) -> OutcomeView,
    j: int,
)
    requires
        g.wf(),
        g.loaded_from(world),
        0 <= j < g.nodes.len(),
    ensures
        reachable(world, g.seeds(), g.nodes[j].path),
    decreases j,
{
    let to = g.nodes[j].path;
    if j < g.seed_count {
        assert(g.seeds()[j] == to);
        let route = seq![to];
        assert(is_route(world, g.seeds(), route) && route.last() == to);
    } else {
        assert(g.found_earlier(j));
        let i = choose|i: int|
            0 <= i < j && i < g.next && node_refs(#[trigger] g.nodes[i]).contains(g.nodes[j].path);
        lemma_node_is_reachable(g, world, i);
        let via = g.nodes[i].path;
        let before = choose|route: Seq<PathView>|
            #[trigger] is_route(world, g.seeds(), route) && route.last() == via;
        assert(g.nodes[i].outcome == Some(world(via)));
        let route = before.push(to);
        assert forall|k: int| 0 < k < route.len() implies #[trigger] refers_along(
            world,
            route,
            k,
        ) by {
            if k < before.len() {
                assert(route[k] == before[k]);
                assert(route[k - 1] == before[k - 1]);
                assert(refers_along(world, before, k));
            } else {
                assert(route[k - 1] == via);
            }
        }
        assert(is_route(world, g.seeds(), route) && route.last() == to);
    }
}

/// In a complete graph that follows references, the end of every route is a
/// node.
pub proof fn lemma_route_ends_at_node(
    g: ProjectGraphView,
    world: spec_fn(PathView) -> OutcomeView,
    route: Seq<PathView>,
)
    requires
        g.wf(),
        g.loaded_from(world),
        g.complete(),
        g.follow,
        is_route(world, g.seeds(), route),
    ensures
        g.has(route.last()),
    decreases route.len(),
{
    let to = route.last();
    if route.len() == 1 {
        let k = choose|k: int| 0 <= k < g.seeds().len() && g.seeds()[k] == to;
        assert(g.nodes[k].path == to);
    } else {
        let before = route.drop_last();
        assert forall|k: int| 0 < k < before.len() implies #[trigger] refers_along(
            world,
            before,
            k,
        ) by {
            assert(before[k] == route[k]);
            assert(before[k - 1] == route[k - 1]);
            assert(refers_along(world, route, k));
        }
        lemma_route_ends_at_node(g, world, before);
        let via = before.last();
        let i = choose|i: int| 0 <= i < g.nodes.len() && (#[trigger] g.nodes[i]).path == via;
        assert(g.nodes[i].outcome == Some(world(via)));
        assert(refers_along(world, route, route.len() - 1));
        let k = choose|k: int|
            0 <= k < node_refs(g.nodes[i]).len() && node_refs(g.nodes[i])[k] == to;
        assert(g.has(node_refs(g.nodes[i])[k]));
    }
}

/// The nodes of a complete graph: every project that can be reached from a
/// seed by zero or more references is a node, nothing else is, no project is
/// a node twice, and every node has its outcome. Without following
/// references, the nodes are the seeds.
pub proof fn lemma_complete_graph(g: ProjectGraphView, world: spec_fn(PathView) -> OutcomeView)
    requires
        g.wf(),
        g.loaded_from(world),
        g.complete(),
    ensures
        g.follow ==> forall|to: PathView| g.has(to) <==> reachable(world, g.seeds(), to),
        !g.follow ==> forall|to: PathView| g.has(to) <==> g.seeds().contains(to),
        g.paths().no_duplicates(),
        forall|i: int|
            0 <= i < g.nodes.len() ==> (#[trigger] g.nodes[i]).outcome == Some(
                world(g.nodes[i].path),
            ),
{
    if g.follow {
        assert forall|to: PathView| g.has(to) <==> reachable(world, g.seeds(), to) by {
            if g.has(to) {
                let j = choose|j: int| 0 <= j < g.nodes.len() && (#[trigger] g.nodes[j]).path == to;
                lemma_node_is_reachable(g, world, j);
            }
            if reachable(world, g.seeds(), to) {
                let route = choose|route: Seq<PathView>|
                    #[trigger] is_route(world, g.seeds(), route) && route.last() == to;
                lemma_route_ends_at_node(g, world, route);
            }
        }
    } else {
        assert(g.nodes.len() == g.seed_count) by {
            if g.seed_count < g.nodes.len() {
                assert(g.found_earlier(g.seed_count as int));
            }
        }
        assert(g.seeds() =~= g.paths());
        assert forall|to: PathView| g.has(to) <==> g.seeds().contains(to) by {
            lemma_has_is_contains(g, to);
        }
    }
    assert forall|i: int, j: int| 0 <= i < g.paths().len() && 0 <= j < g.paths().len() && i
        != j implies g.paths()[i] != g.paths()[j] by {
        if i < j {
            assert(g.nodes[i].path != g.nodes[j].path);
        } else {
            assert(g.nodes[j].path != g.nodes[i].path);
        }
    }
}

/// Reachability depends on which paths are seeds, not on their order.
pub proof fn lemma_reachable_by_seed_set(
    world: spec_fn(PathView) -> OutcomeView,
    a: Seq<PathView>,
    b: Seq<PathView>,
    to: PathView,
)
    requires
        forall|x: PathView| a.contains(x) == b.contains(x),
        reachable(world, a, to),
    ensures
        reachable(world, b, to),
{
    let route = choose|route: Seq<PathView>| #[trigger] is_route(world, a, route) && route.last() == to;
    assert forall|k: int| 0 < k < route.len() implies #[trigger] refers_along(world, route, k) by {}
    assert(is_route(world, b, route));
}

/// Building the graph twice over the same files gives the same graph: two
/// complete graphs with the same seeds, loaded from the same world, have the
/// same nodes, and a project has the same outcome, and so the same
/// references, in both.
pub proof fn lemma_graph_is_determined(
    g: ProjectGraphView,
    h: ProjectGraphView,
    world: spec_fn(PathView) -> OutcomeView,
)
    requires
        g.wf(),
        h.wf(),
        g.loaded_from(world),
        h.loaded_from(world),
        g.complete(),
        h.complete(),
        g.follow == h.follow,
        forall|x: PathView| g.seeds().contains(x) == h.seeds().contains(x),
    ensures
        forall|to: PathView| g.has(to) == h.has(to),
        forall|i: int, j: int|
            0 <= i < g.nodes.len() && 0 <= j < h.nodes.len() && (#[trigger] g.nodes[i]).path == (
            #[trigger] h.nodes[j]).path ==> g.nodes[i] == h.nodes[j],
{
    lemma_complete_graph(g, world);
    lemma_complete_graph(h, world);
    assert forall|to: PathView| g.has(to) == h.has(to) by {
        if g.follow {
            if reachable(world, g.seeds(), to) {
                lemma_reachable_by_seed_set(world, g.seeds(), h.seeds(), to);
            }
            if reachable(world, h.seeds(), to) {
                lemma_reachable_by_seed_set(world, h.seeds(), g.seeds(), to);
            }
        }
    }
}

/// The graph never holds more nodes than there are projects to reach: with
/// every load one more node is loaded, so the loads come to an end wherever
/// the seeds lead to finitely many projects.
pub proof fn lemma_nodes_are_bounded(
    g: ProjectGraphView,
    world: spec_fn(PathView) -> OutcomeView,
    universe: Set<PathView>,
)
    requires
        g.wf(),
        g.loaded_from(world),
        universe.finite(),
        forall|to: PathView| reachable(world, g.seeds(), to) ==> universe.contains(to),
    ensures
        g.next <= g.nodes.len() <= universe.len(),
{
    let paths = g.paths();
    assert forall|i: int, j: int| 0 <= i < paths.len() && 0 <= j < paths.len() && i
        != j implies paths[i] != paths[j] by {
        if i < j {
            assert(g.nodes[i].path != g.nodes[j].path);
        } else {
            assert(g.nodes[j].path != g.nodes[i].path);
        }
    }
    paths.unique_seq_to_set();
    assert forall|to: PathView| paths.to_set().contains(to) implies universe.contains(to) by {
        let j = choose|j: int| 0 <= j < paths.len() && paths[j] == to;
        lemma_node_is_reachable(g, world, j);
    }
    vstd::set_lib::lemma_len_subset(paths.to_set(), universe);
}

/// Starts a graph from its seeds; a seed that is given twice counts once.
/// With `follow_project_references` unset the graph stays with its seeds.
pub fn parse_projects(seeds: Vec<FilePath>, follow_project_references: bool) -> (graph:
    ProjectGraph)
    ensures
        graph@.wf(),
        graph@.next == 0,
        graph@.follow == follow_project_references,
        graph@.paths() == discover(Seq::empty(), crate::csproj::paths_view(seeds@)),
        graph@.seed_count == graph@.nodes.len(),
{
    let mut graph = ProjectGraph {
        nodes: Vec::new(),
        next: 0,
        seed_count: 0,
        follow: follow_project_references,
    };
    assert(graph@.paths() =~= Seq::<PathView>::empty());
    graph.add_new(&seeds);
    graph.seed_count = graph.nodes.len();
    proof {
        lemma_discover_distinct(Seq::empty(), crate::csproj::paths_view(seeds@));
        assert forall|i: int, j: int| 0 <= i < j < graph@.nodes.len() implies (
        #[trigger] graph@.nodes[i]).path != (#[trigger] graph@.nodes[j]).path by {
            assert(graph@.paths()[i] == graph@.nodes[i].path);
            assert(graph@.paths()[j] == graph@.nodes[j].path);
        }
    }
    graph
}

} // verus!
