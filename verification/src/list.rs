//! The listing of projects: which projects a request selects, and how the
//! selection spreads along references.

use vstd::prelude::*;
use vstd::seq_lib::to_multiset_build;
use crate::csproj::Project;
use crate::csproj::ProjectView;
use crate::order::lemma_map_keeps_multiset;
use crate::order::sort;
use crate::order::TotalOrder;
use crate::path_extensions::join_components_spec;
use crate::path_extensions::relative_path;
use crate::path_extensions::relative_path_spec;
use crate::path_extensions::starts_with_spec;
use crate::path_extensions::ComponentView;
use crate::path_extensions::FilePath;
use crate::path_extensions::PathExt;
use crate::path_order::lemma_path_le_total;
use crate::path_order::lemma_path_le_transitive;
use crate::path_order::path_le;
use crate::path_order::path_le_exec;

verus! {

/// What to list: the projects below `search_path`, and whether the projects
/// that refer to them, and those that they refer to, come along.
#[derive(Debug, Clone, Copy)]
pub struct Options<'a> {
    pub search_path: &'a FilePath,
    pub follow_incoming_project_references: bool,
    pub follow_outgoing_project_references: bool,
}

/// Whether `edge` is a step from `from` to `to`: along the reference where
/// outgoing references are followed, against it where incoming ones are.
pub open spec fn edge_leads(edge: (usize, usize), outgoing: bool, from: int, to: int) -> bool {
    if outgoing {
        edge.0 == from && edge.1 == to
    } else {
        edge.1 == from && edge.0 == to
    }
}

/// Whether some edge is a step from `from` to `to`.
pub open spec fn is_step(edges: Seq<(usize, usize)>, outgoing: bool, from: int, to: int) -> bool {
    exists|e: int| 0 <= e < edges.len() && edge_leads(#[trigger] edges[e], outgoing, from, to)
}

/// Whether `walk` is a walk over the nodes below `n`: each node on it is
/// one step from the node before.
pub open spec fn is_walk(n: nat, edges: Seq<(usize, usize)>, outgoing: bool, walk: Seq<int>) -> bool {
    &&& walk.len() > 0
    &&& forall|k: int| 0 <= k < walk.len() ==> 0 <= #[trigger] walk[k] < n
    &&& forall|k: int| 0 < k < walk.len() ==> #[trigger] steps_at(edges, outgoing, walk, k)
}

/// Whether the node at `k` of a walk is one step from the node before.
pub open spec fn steps_at(edges: Seq<(usize, usize)>, outgoing: bool, walk: Seq<int>, k: int) -> bool {
    is_step(edges, outgoing, walk[k - 1], walk[k])
}

/// Whether the selection spreads to the node `to`: a walk leads there from a
/// selected node.
pub open spec fn spreads_to(
    edges: Seq<(usize, usize)>,
    outgoing: bool,
    included: Seq<bool>,
    to: int,
) -> bool {
    exists|walk: Seq<int>|
        #[trigger] is_walk(included.len(), edges, outgoing, walk) && included[walk[0]]
            && walk.last() == to
}

/// Whether `closed` is the selection `included` after it has spread as far as
/// it goes: it selects exactly the nodes that `included` spreads to.
pub open spec fn is_closure(
    edges: Seq<(usize, usize)>,
    outgoing: bool,
    included: Seq<bool>,
    closed: Seq<bool>,
) -> bool {
    &&& closed.len() == included.len()
    &&& forall|x: int|
        0 <= x < closed.len() ==> #[trigger] closed[x] == spreads_to(edges, outgoing, included, x)
}

/// The number of nodes that are not selected.
pub open spec fn count_unselected(included: Seq<bool>) -> nat
    decreases included.len(),
{
    if included.len() == 0 {
        0
    } else {
        count_unselected(included.drop_last()) + if included.last() {
            0nat
        } else {
            1nat
        }
    }
}

/// Selecting one more node leaves one node less unselected.
proof fn lemma_select_one(included: Seq<bool>, at: int)
    requires
        0 <= at < included.len(),
        !included[at],
    ensures
        count_unselected(included.update(at, true)) + 1 == count_unselected(included),
    decreases included.len(),
{
    let after = included.update(at, true);
    if at == included.len() - 1 {
        assert(after.drop_last() =~= included.drop_last());
    } else {
        assert(after.drop_last() =~= included.drop_last().update(at, true));
        lemma_select_one(included.drop_last(), at);
    }
}

/// Whether every node one step from `u` is selected.
spec fn closed_at(adj: Seq<Vec<usize>>, included: Seq<bool>, u: int) -> bool {
    forall|k: int| 0 <= k < adj[u]@.len() ==> included[(#[trigger] adj[u]@[k]) as int]
}

/// Whether the lists hold, for each node, exactly the nodes one step away.
spec fn lists_steps(n: nat, edges: Seq<(usize, usize)>, outgoing: bool, adj: Seq<Vec<usize>>) -> bool {
    &&& adj.len() == n
    &&& forall|u: int, k: int|
        0 <= u < n && 0 <= k < adj[u]@.len() ==> (#[trigger] adj[u]@[k]) < n && is_step(
            edges,
            outgoing,
            u,
            adj[u]@[k] as int,
        )
    &&& forall|u: int, v: int|
        0 <= u < n && 0 <= v < n && #[trigger] is_step(edges, outgoing, u, v) ==> adj[u]@.contains(
            v as usize,
        )
}

/// For each node below `n`, the nodes one step away from it.
fn adjacency(n: usize, edges: &Vec<(usize, usize)>, outgoing: bool) -> (adj: Vec<Vec<usize>>)
    ensures
        lists_steps(n as nat, edges@, outgoing, adj@),
{
    let mut adj: Vec<Vec<usize>> = Vec::new();
    let mut i: usize = 0;
    while i < n
        invariant
            i <= n,
            adj.len() == i,
            forall|u: int| 0 <= u < i ==> (#[trigger] adj@[u])@.len() == 0,
        decreases n - i,
    {
        adj.push(Vec::new());
        i += 1;
    }
    let mut e: usize = 0;
    while e < edges.len()
        invariant
            e <= edges.len(),
            adj.len() == n,
            forall|u: int, k: int|
                0 <= u < n && 0 <= k < adj@[u]@.len() ==> (#[trigger] adj@[u]@[k]) < n && is_step(
                    edges@,
                    outgoing,
                    u,
                    adj@[u]@[k] as int,
                ),
            forall|f: int, u: int, v: int|
                0 <= f < e && 0 <= u < n && 0 <= v < n && edge_leads(
                    #[trigger] edges@[f],
                    outgoing,
                    u,
                    v,
                ) ==> #[trigger] adj@[u]@.contains(v as usize),
        decreases edges.len() - e,
    {
        let edge = edges[e];
        let from = if outgoing {
            edge.0
        } else {
            edge.1
        };
        let to = if outgoing {
            edge.1
        } else {
            edge.0
        };
        if from < n && to < n {
            let ghost before = adj@;
            let mut row = Vec::new();
            core::mem::swap(&mut row, &mut adj[from]);
            row.push(to);
            adj[from] = row;
            proof {
                assert(edge_leads(edges@[e as int], outgoing, from as int, to as int));
                assert(is_step(edges@, outgoing, from as int, to as int));
                assert(adj@[from as int]@ =~= before[from as int]@.push(to));
                assert forall|u: int, k: int| 0 <= u < n && 0 <= k < adj@[u]@.len() implies (
                #[trigger] adj@[u]@[k]) < n && is_step(edges@, outgoing, u, adj@[u]@[k] as int) by {
                    if u == from {
                        if k < before[u]@.len() {
                            assert(adj@[u]@[k] == before[u]@[k]);
                        }
                    } else {
                        assert(adj@[u] == before[u]);
                    }
                }
                assert forall|f: int, u: int, v: int|
                    0 <= f < e + 1 && 0 <= u < n && 0 <= v < n && edge_leads(
                        #[trigger] edges@[f],
                        outgoing,
                        u,
                        v,
                    ) implies #[trigger] adj@[u]@.contains(v as usize) by {
                    if f == e {
                        assert(u == from && v == to);
                        assert(adj@[u]@[before[u]@.len() as int] == to);
                    } else {
                        assert(before[u]@.contains(v as usize));
                        let k = choose|k: int| 0 <= k < before[u]@.len() && before[u]@[k] == v as usize;
                        if u == from {
                            assert(adj@[u]@[k] == before[u]@[k]);
                        } else {
                            assert(adj@[u] == before[u]);
                        }
                    }
                }
            }
        }
        e += 1;
    }
    proof {
        assert forall|u: int, v: int|
            0 <= u < n && 0 <= v < n && #[trigger] is_step(edges@, outgoing, u, v) implies adj@[u]@.contains(
            v as usize,
        ) by {
            let f = choose|f: int|
                0 <= f < edges@.len() && edge_leads(#[trigger] edges@[f], outgoing, u, v);
            assert(adj@[u]@.contains(v as usize));
        }
    }
    adj
}

/// Along a walk that starts at a selected node, every node is selected,
/// provided that the selection is closed under steps.
proof fn lemma_walk_stays_selected(
    edges: Seq<(usize, usize)>,
    outgoing: bool,
    included: Seq<bool>,
    walk: Seq<int>,
)
    requires
        is_walk(included.len(), edges, outgoing, walk),
        included[walk[0]],
        forall|u: int, v: int|
            0 <= u < included.len() && 0 <= v < included.len() && included[u] && #[trigger] is_step(
                edges,
                outgoing,
                u,
                v,
            ) ==> included[v],
    ensures
        included[walk.last()],
    decreases walk.len(),
{
    if walk.len() > 1 {
        let before = walk.drop_last();
        assert forall|k: int| 0 < k < before.len() implies #[trigger] steps_at(
            edges,
            outgoing,
            before,
            k,
        ) by {
            assert(before[k] == walk[k]);
            assert(before[k - 1] == walk[k - 1]);
            assert(steps_at(edges, outgoing, walk, k));
        }
        assert forall|k: int| 0 <= k < before.len() implies 0 <= #[trigger] before[k]
            < included.len() by {
            assert(before[k] == walk[k]);
        }
        lemma_walk_stays_selected(edges, outgoing, included, before);
        let last = walk.len() - 1;
        assert(steps_at(edges, outgoing, walk, last));
        assert(0 <= walk[last - 1] < included.len());
        assert(0 <= walk[last] < included.len());
    }
}

/// A walk, lengthened by one step, is a walk.
proof fn lemma_walk_extends(
    n: nat,
    edges: Seq<(usize, usize)>,
    outgoing: bool,
    walk: Seq<int>,
    to: int,
)
    requires
        is_walk(n, edges, outgoing, walk),
        0 <= to < n,
        is_step(edges, outgoing, walk.last(), to),
    ensures
        is_walk(n, edges, outgoing, walk.push(to)),
{
    let longer = walk.push(to);
    assert forall|k: int| 0 <= k < longer.len() implies 0 <= #[trigger] longer[k] < n by {
        if k < walk.len() {
            assert(longer[k] == walk[k]);
        }
    }
    assert forall|k: int| 0 < k < longer.len() implies #[trigger] steps_at(
        edges,
        outgoing,
        longer,
        k,
    ) by {
        if k < walk.len() {
            assert(longer[k] == walk[k]);
            assert(longer[k - 1] == walk[k - 1]);
            assert(steps_at(edges, outgoing, walk, k));
        } else {
            assert(longer[k - 1] == walk.last());
        }
    }
}

/// Whether every selected node is one that the first selection spreads to.
spec fn all_spread(edges: Seq<(usize, usize)>, outgoing: bool, first: Seq<bool>, now: Seq<bool>) -> bool {
    forall|x: int|
        0 <= x < now.len() && #[trigger] now[x] ==> spreads_to(edges, outgoing, first, x)
}

/// Whether every selected node that does not wait in `work`, but for `busy`,
/// has all the nodes one step away selected.
spec fn settled(adj: Seq<Vec<usize>>, now: Seq<bool>, work: Seq<usize>, busy: int) -> bool {
    forall|u: int|
        0 <= u < now.len() && now[u] && u != busy && !work.contains(u as usize) ==> #[trigger] closed_at(
            adj,
            now,
            u,
        )
}

/// Spreads the selection along the references as far as it goes: against
/// them (to the projects that refer to a selected one) or, with `outgoing`,
/// along them (to the projects that a selected one refers to). An edge
/// `(from, to)` says that project `from` refers to project `to`; an edge
/// that names no project is ignored.
pub fn follow_references(included: &mut Vec<bool>, edges: &Vec<(usize, usize)>, outgoing: bool)
    ensures
        is_closure(edges@, outgoing, old(included)@, final(included)@),
{
    let n = included.len();
    let ghost first = included@;
    let adj = adjacency(n, edges, outgoing);
    let mut work: Vec<usize> = Vec::new();
    let mut i: usize = 0;
    while i < n
        invariant
            i <= n,
            n == included.len(),
            included@ == first,
            forall|w: int| 0 <= w < work.len() ==> (#[trigger] work@[w]) < n && included@[work@[w] as int],
            forall|x: int| 0 <= x < i && included@[x] ==> work@.contains(x as usize),
        decreases n - i,
    {
        if included[i] {
            let ghost before = work@;
            work.push(i);
            assert forall|x: int| 0 <= x < i + 1 && included@[x] implies work@.contains(
                x as usize,
            ) by {
                if x < i {
                    let w = choose|w: int| 0 <= w < before.len() && before[w] == x as usize;
                    assert(work@[w] == x as usize);
                } else {
                    assert(work@[before.len() as int] == x as usize);
                }
            }
        }
        i += 1;
    }
    proof {
        assert forall|x: int| 0 <= x < n && #[trigger] included@[x] implies spreads_to(
            edges@,
            outgoing,
            first,
            x,
        ) by {
            let walk = seq![x];
            assert(is_walk(n as nat, edges@, outgoing, walk) && first[walk[0]] && walk.last() == x);
        }
    }
    while work.len() > 0
        invariant
            n == included.len(),
            n == first.len(),
            lists_steps(n as nat, edges@, outgoing, adj@),
            forall|x: int| 0 <= x < n && first[x] ==> included@[x],
            all_spread(edges@, outgoing, first, included@),
            forall|w: int| 0 <= w < work.len() ==> (#[trigger] work@[w]) < n && included@[work@[w] as int],
            settled(adj@, included@, work@, -1),
        decreases count_unselected(included@), work.len(),
    {
        let ghost count_before = count_unselected(included@);
        let ghost waiting_before = work@;
        let u = work.pop().unwrap();
        let ghost waiting = work@;
        proof {
            assert forall|x: int|
                0 <= x < n && included@[x] && x != u && !waiting.contains(
                    x as usize,
                ) implies #[trigger] closed_at(adj@, included@, x) by {
                assert(!waiting_before.contains(x as usize)) by {
                    if waiting_before.contains(x as usize) {
                        let w = choose|w: int|
                            0 <= w < waiting_before.len() && waiting_before[w] == x as usize;
                        assert(waiting[w] == x as usize);
                    }
                }
            }
        }
        let mut k: usize = 0;
        while k < adj[u].len()
            invariant
                k <= adj@[u as int]@.len(),
                u < n,
                n == included.len(),
                n == first.len(),
                lists_steps(n as nat, edges@, outgoing, adj@),
                included@[u as int],
                forall|x: int| 0 <= x < n && first[x] ==> included@[x],
                all_spread(edges@, outgoing, first, included@),
                forall|w: int|
                    0 <= w < work.len() ==> (#[trigger] work@[w]) < n && included@[work@[w] as int],
                settled(adj@, included@, work@, u as int),
                forall|j: int| 0 <= j < k ==> included@[(#[trigger] adj@[u as int]@[j]) as int],
                count_unselected(included@) < count_before || (count_unselected(included@)
                    == count_before && work.len() == waiting.len()),
                waiting.len() + 1 == waiting_before.len(),
            decreases adj@[u as int]@.len() - k,
        {
            let v = adj[u][k];
            if !included[v] {
                let ghost was = included@;
                let ghost queue = work@;
                included[v] = true;
                work.push(v);
                proof {
                    assert(included@ =~= was.update(v as int, true));
                    lemma_select_one(was, v as int);
                    assert(spreads_to(edges@, outgoing, first, v as int)) by {
                        assert(was[u as int]);
                        let walk = choose|walk: Seq<int>|
                            #[trigger] is_walk(first.len(), edges@, outgoing, walk) && first[walk[0]]
                                && walk.last() == u as int;
                        lemma_walk_extends(n as nat, edges@, outgoing, walk, v as int);
                        let longer = walk.push(v as int);
                        assert(longer[0] == walk[0]);
                        assert(is_walk(first.len(), edges@, outgoing, longer) && first[longer[0]]
                            && longer.last() == v as int);
                    }
                    assert forall|x: int| 0 <= x < included@.len() && #[trigger] included@[x] implies spreads_to(
                        edges@,
                        outgoing,
                        first,
                        x,
                    ) by {
                        if x != v {
                            assert(was[x]);
                        }
                    }
                    assert forall|w: int| 0 <= w < work.len() implies (#[trigger] work@[w]) < n
                        && included@[work@[w] as int] by {
                        if w < queue.len() {
                            assert(work@[w] == queue[w]);
                        }
                    }
                    assert forall|x: int|
                        0 <= x < n && included@[x] && x != u && !work@.contains(
                            x as usize,
                        ) implies #[trigger] closed_at(adj@, included@, x) by {
                        assert(work@[queue.len() as int] == v);
                        assert(x != v);
                        assert(was[x]);
                        assert(!queue.contains(x as usize)) by {
                            if queue.contains(x as usize) {
                                let w = choose|w: int| 0 <= w < queue.len() && queue[w] == x as usize;
                                assert(work@[w] == x as usize);
                            }
                        }
                        assert(closed_at(adj@, was, x));
                    }
                }
            }
            k += 1;
        }
        proof {
            assert(closed_at(adj@, included@, u as int));
            assert forall|x: int|
                0 <= x < n && included@[x] && x != -1 && !work@.contains(
                    x as usize,
                ) implies #[trigger] closed_at(adj@, included@, x) by {
                if x != u {
                    assert(closed_at(adj@, included@, x));
                }
            }
        }
    }
    proof {
        let closed = included@;
        assert forall|u: int, v: int|
            0 <= u < closed.len() && 0 <= v < closed.len() && closed[u] && #[trigger] is_step(
                edges@,
                outgoing,
                u,
                v,
            ) implies closed[v] by {
            assert(!work@.contains(u as usize));
            assert(closed_at(adj@, closed, u));
            assert(adj@[u]@.contains(v as usize));
            let k = choose|k: int| 0 <= k < adj@[u]@.len() && adj@[u]@[k] == v as usize;
            assert(closed[adj@[u]@[k] as int]);
        }
        assert forall|x: int| 0 <= x < closed.len() implies #[trigger] closed[x] == spreads_to(
            edges@,
            outgoing,
            first,
            x,
        ) by {
            if spreads_to(edges@, outgoing, first, x) {
                let walk = choose|walk: Seq<int>|
                    #[trigger] is_walk(first.len(), edges@, outgoing, walk) && first[walk[0]]
                        && walk.last() == x;
                assert(0 <= walk[0] < n);
                lemma_walk_stays_selected(edges@, outgoing, closed, walk);
            }
        }
    }
}

/// The selection after it has spread as far as it goes.
pub open spec fn closure_of(edges: Seq<(usize, usize)>, outgoing: bool, included: Seq<bool>) -> Seq<
    bool,
> {
    Seq::new(included.len(), |x: int| spreads_to(edges, outgoing, included, x))
}

/// A closure is the closure.
pub proof fn lemma_closure_is_closure_of(
    edges: Seq<(usize, usize)>,
    outgoing: bool,
    included: Seq<bool>,
    closed: Seq<bool>,
)
    ensures
        is_closure(edges, outgoing, included, closed) <==> closed == closure_of(
            edges,
            outgoing,
            included,
        ),
{
    if is_closure(edges, outgoing, included, closed) {
        assert(closed =~= closure_of(edges, outgoing, included));
    }
}

/// Spreading only adds: what was selected stays selected.
pub proof fn lemma_closure_keeps_selection(
    edges: Seq<(usize, usize)>,
    outgoing: bool,
    included: Seq<bool>,
    closed: Seq<bool>,
    x: int,
)
    requires
        is_closure(edges, outgoing, included, closed),
        0 <= x < included.len(),
        included[x],
    ensures
        closed[x],
{
    let walk = seq![x];
    assert(is_walk(included.len(), edges, outgoing, walk) && included[walk[0]] && walk.last() == x);
}

/// Two walks, the second starting where the first ends, make one walk.
proof fn lemma_walks_join(
    n: nat,
    edges: Seq<(usize, usize)>,
    outgoing: bool,
    a: Seq<int>,
    b: Seq<int>,
)
    requires
        is_walk(n, edges, outgoing, a),
        is_walk(n, edges, outgoing, b),
        a.last() == b[0],
    ensures
        is_walk(n, edges, outgoing, a + b.skip(1)),
        (a + b.skip(1))[0] == a[0],
        (a + b.skip(1)).last() == b.last(),
{
    let joined = a + b.skip(1);
    assert forall|k: int| 0 <= k < joined.len() implies 0 <= #[trigger] joined[k] < n by {
        if k < a.len() {
            assert(joined[k] == a[k]);
        } else {
            assert(joined[k] == b[k - a.len() + 1]);
        }
    }
    assert forall|k: int| 0 < k < joined.len() implies #[trigger] steps_at(
        edges,
        outgoing,
        joined,
        k,
    ) by {
        if k < a.len() {
            assert(joined[k] == a[k]);
            assert(joined[k - 1] == a[k - 1]);
            assert(steps_at(edges, outgoing, a, k));
        } else if k == a.len() {
            assert(joined[k] == b[1]);
            assert(joined[k - 1] == b[0]);
            assert(steps_at(edges, outgoing, b, 1));
        } else {
            assert(joined[k] == b[k - a.len() + 1]);
            assert(joined[k - 1] == b[k - a.len()]);
            assert(steps_at(edges, outgoing, b, k - a.len() + 1));
        }
    }
}

/// Following references a second time changes nothing: the closure of a
/// closure is that closure.
pub proof fn lemma_follow_twice(
    edges: Seq<(usize, usize)>,
    outgoing: bool,
    included: Seq<bool>,
    once: Seq<bool>,
    twice: Seq<bool>,
)
    requires
        is_closure(edges, outgoing, included, once),
        is_closure(edges, outgoing, once, twice),
    ensures
        twice == once,
{
    assert forall|x: int| 0 <= x < once.len() implies twice[x] == once[x] by {
        if once[x] {
            lemma_closure_keeps_selection(edges, outgoing, once, twice, x);
        }
        if twice[x] {
            assert(spreads_to(edges, outgoing, once, x));
            let b = choose|walk: Seq<int>|
                #[trigger] is_walk(once.len(), edges, outgoing, walk) && once[walk[0]]
                    && walk.last() == x;
            assert(0 <= b[0] < once.len());
            assert(spreads_to(edges, outgoing, included, b[0]));
            let a = choose|walk: Seq<int>|
                #[trigger] is_walk(included.len(), edges, outgoing, walk) && included[walk[0]]
                    && walk.last() == b[0];
            lemma_walks_join(included.len(), edges, outgoing, a, b);
            let joined = a + b.skip(1);
            assert(is_walk(included.len(), edges, outgoing, joined) && included[joined[0]]
                && joined.last() == x);
        }
    }
    assert(twice =~= once);
}

/// The projects of a vector, as mathematical values.
pub open spec fn projects_view(projects: Seq<Project>) -> Seq<ProjectView> {
    projects.map_values(|p: Project| p@)
}

/// The identities of the projects.
pub open spec fn project_paths(projects: Seq<ProjectView>) -> Seq<Seq<ComponentView>> {
    projects.map_values(|p: ProjectView| p.path)
}

/// What each project refers to.
pub open spec fn project_refs(projects: Seq<ProjectView>) -> Seq<Seq<Seq<ComponentView>>> {
    projects.map_values(|p: ProjectView| p.project_references)
}

/// The position of `path` among `paths`: the last one, where it occurs more
/// than once.
pub open spec fn position_of(paths: Seq<Seq<ComponentView>>, path: Seq<ComponentView>) -> Option<
    int,
>
    decreases paths.len(),
{
    if paths.len() == 0 {
        None
    } else if paths.last() == path {
        Some(paths.len() - 1)
    } else {
        position_of(paths.drop_last(), path)
    }
}

/// The position that is found is one of `paths`, and `path` stands there.
pub proof fn lemma_position_of(paths: Seq<Seq<ComponentView>>, path: Seq<ComponentView>)
    ensures
        match position_of(paths, path) {
            Some(at) => 0 <= at < paths.len() && paths[at] == path,
            None => !paths.contains(path),
        },
    decreases paths.len(),
{
    if paths.len() > 0 && paths.last() != path {
        lemma_position_of(paths.drop_last(), path);
        if paths.contains(path) {
            let k = choose|k: int| 0 <= k < paths.len() && paths[k] == path;
            assert(paths.drop_last()[k] == path);
        }
    }
}

/// The edges from the node at `from` to the nodes among `refs` that are
/// known; a reference to an unknown node makes no edge.
pub open spec fn edges_from(
    paths: Seq<Seq<ComponentView>>,
    from: int,
    refs: Seq<Seq<ComponentView>>,
) -> Seq<(usize, usize)>
    decreases refs.len(),
{
    if refs.len() == 0 {
        Seq::empty()
    } else {
        let before = edges_from(paths, from, refs.drop_last());
        match position_of(paths, refs.last()) {
            Some(to) => before.push((from as usize, to as usize)),
            None => before,
        }
    }
}

/// The edges from the first `upto` nodes, where `refs[i]` is what the node
/// at `i` refers to.
pub open spec fn reference_edges(
    paths: Seq<Seq<ComponentView>>,
    refs: Seq<Seq<Seq<ComponentView>>>,
    upto: int,
) -> Seq<(usize, usize)>
    decreases upto,
{
    if upto <= 0 {
        Seq::empty()
    } else {
        reference_edges(paths, refs, upto - 1) + edges_from(paths, upto - 1, refs[upto - 1])
    }
}

/// Whether the node at `from` refers to the node at `to`: one of its
/// references is the identity that stands at `to`.
pub open spec fn refers_to(
    paths: Seq<Seq<ComponentView>>,
    refs: Seq<Seq<Seq<ComponentView>>>,
    from: int,
    to: int,
) -> bool {
    0 <= from < refs.len() && exists|k: int|
        0 <= k < refs[from].len() && position_of(paths, #[trigger] refs[from][k]) == Some(to)
}

/// The edges from a node are its references to known nodes.
pub proof fn lemma_edges_from(
    paths: Seq<Seq<ComponentView>>,
    from: int,
    refs: Seq<Seq<ComponentView>>,
    edge: (usize, usize),
)
    requires
        0 <= from <= usize::MAX,
        paths.len() <= usize::MAX,
    ensures
        edges_from(paths, from, refs).contains(edge) <==> edge.0 == from && exists|k: int|
            0 <= k < refs.len() && position_of(paths, #[trigger] refs[k]) == Some(edge.1 as int),
    decreases refs.len(),
{
    let edges = edges_from(paths, from, refs);
    if refs.len() > 0 {
        let before = edges_from(paths, from, refs.drop_last());
        let last = refs.last();
        lemma_edges_from(paths, from, refs.drop_last(), edge);
        lemma_position_of(paths, last);
        if edges.contains(edge) {
            let e = choose|e: int| 0 <= e < edges.len() && edges[e] == edge;
            if e < before.len() {
                assert(before[e] == edge);
                let k = choose|k: int|
                    0 <= k < refs.drop_last().len() && position_of(
                        paths,
                        #[trigger] refs.drop_last()[k],
                    ) == Some(edge.1 as int);
                assert(refs[k] == refs.drop_last()[k]);
            } else {
                assert(position_of(paths, refs[refs.len() - 1]) == Some(edge.1 as int));
            }
        }
        if edge.0 == from && exists|k: int|
            0 <= k < refs.len() && position_of(paths, #[trigger] refs[k]) == Some(edge.1 as int) {
            let k = choose|k: int|
                0 <= k < refs.len() && position_of(paths, #[trigger] refs[k]) == Some(
                    edge.1 as int,
                );
            if k < refs.len() - 1 {
                assert(refs.drop_last()[k] == refs[k]);
                assert(before.contains(edge));
                let e = choose|e: int| 0 <= e < before.len() && before[e] == edge;
                assert(edges[e] == edge);
            } else {
                assert(edges[edges.len() - 1] == edge);
            }
        }
    }
}

/// The edges are what the nodes refer to: an edge leads from one node to
/// another exactly if the one refers to the other.
pub proof fn lemma_reference_edges(
    paths: Seq<Seq<ComponentView>>,
    refs: Seq<Seq<Seq<ComponentView>>>,
    upto: int,
    edge: (usize, usize),
)
    requires
        0 <= upto <= refs.len(),
        upto <= usize::MAX,
        paths.len() <= usize::MAX,
    ensures
        reference_edges(paths, refs, upto).contains(edge) <==> edge.0 < upto && refers_to(
            paths,
            refs,
            edge.0 as int,
            edge.1 as int,
        ),
    decreases upto,
{
    let edges = reference_edges(paths, refs, upto);
    if upto > 0 {
        let before = reference_edges(paths, refs, upto - 1);
        let here = edges_from(paths, upto - 1, refs[upto - 1]);
        lemma_reference_edges(paths, refs, upto - 1, edge);
        lemma_edges_from(paths, upto - 1, refs[upto - 1], edge);
        if edges.contains(edge) {
            let e = choose|e: int| 0 <= e < edges.len() && edges[e] == edge;
            if e < before.len() {
                assert(before[e] == edge);
            } else {
                assert(here[e - before.len()] == edge);
            }
        }
        if before.contains(edge) {
            let e = choose|e: int| 0 <= e < before.len() && before[e] == edge;
            assert(edges[e] == edge);
        }
        if here.contains(edge) {
            let e = choose|e: int| 0 <= e < here.len() && here[e] == edge;
            assert(edges[before.len() + e] == edge);
        }
    }
}

/// The projects that lie below the search path, before any reference is
/// followed; both paths are taken from the current directory.
pub open spec fn first_selection(
    current_dir: Seq<ComponentView>,
    search: Seq<ComponentView>,
    projects: Seq<ProjectView>,
) -> Seq<bool> {
    Seq::new(
        projects.len(),
        |i: int| starts_with_spec(relative_path_spec(current_dir, projects[i].path), search),
    )
}

/// The projects that a request selects: those below the search path; then,
/// where incoming references are followed, whatever refers to a selected
/// project, directly or not; then, where outgoing references are followed,
/// whatever a selected project refers to, directly or not.
pub open spec fn selection(
    search_path: Seq<ComponentView>,
    incoming: bool,
    outgoing: bool,
    current_dir: Seq<ComponentView>,
    projects: Seq<ProjectView>,
) -> Seq<bool> {
    let search = relative_path_spec(current_dir, join_components_spec(current_dir, search_path));
    let edges = reference_edges(
        project_paths(projects),
        project_refs(projects),
        projects.len() as int,
    );
    let first = first_selection(current_dir, search, projects);
    let second = if incoming {
        closure_of(edges, false, first)
    } else {
        first
    };
    if outgoing {
        closure_of(edges, true, second)
    } else {
        second
    }
}

/// The items whose position the mask selects, in order.
pub open spec fn pick<T>(items: Seq<T>, mask: Seq<bool>) -> Seq<T>
    decreases items.len(),
{
    if items.len() == 0 {
        Seq::empty()
    } else {
        let before = pick(items.drop_last(), mask.drop_last());
        if mask.last() {
            before.push(items.last())
        } else {
            before
        }
    }
}

/// Whether the projects ascend by their paths as seen from `current_dir`.
pub open spec fn ascends_from(current_dir: Seq<ComponentView>, projects: Seq<Project>) -> bool {
    forall|i: int, j: int|
        0 <= i < j < projects.len() ==> path_le(
            relative_path_spec(current_dir, (#[trigger] projects[i])@.path),
            relative_path_spec(current_dir, (#[trigger] projects[j])@.path),
        )
}

/// The projects of listed items.
pub open spec fn projects_of(items: Seq<Listed>) -> Seq<Project> {
    items.map_values(|l: Listed| l.project)
}

/// A project with the path that it is listed under.
#[derive(Debug, PartialEq, Eq)]
pub struct Listed {
    pub relative: FilePath,
    pub project: Project,
}

impl TotalOrder for Listed {
    open spec fn before(&self, other: &Self) -> bool {
        path_le(self.relative@, other.relative@)
    }

    fn is_before(&self, other: &Self) -> (yes: bool) {
        path_le_exec(&self.relative, &other.relative)
    }

    proof fn before_total(a: &Self, b: &Self) {
        lemma_path_le_total(a.relative@, b.relative@);
    }

    proof fn before_transitive(a: &Self, b: &Self, c: &Self) {
        lemma_path_le_transitive(a.relative@, b.relative@, c.relative@);
    }
}

/// The position of the project with the identity `path`.
fn position(projects: &Vec<Project>, path: &FilePath) -> (out: Option<usize>)
    ensures
        match out {
            Some(to) => position_of(project_paths(projects_view(projects@)), path@) == Some(
                to as int,
            ) && to < projects.len(),
            None => position_of(project_paths(projects_view(projects@)), path@) is None,
        },
{
    let ghost paths = project_paths(projects_view(projects@));
    let mut i: usize = projects.len();
    assert(paths.take(i as int) =~= paths);
    while i > 0
        invariant
            i <= projects.len(),
            paths == project_paths(projects_view(projects@)),
            position_of(paths, path@) == position_of(paths.take(i as int), path@),
        decreases i,
    {
        assert(paths.take(i as int).last() == projects@[i - 1]@.path);
        assert(paths.take(i as int).drop_last() =~= paths.take(i - 1));
        if projects[i - 1].path.same(path) {
            return Some(i - 1);
        }
        i -= 1;
    }
    None
}

/// The edges between the projects: one from each project to each listed
/// project that it refers to.
fn edges_between(projects: &Vec<Project>) -> (edges: Vec<(usize, usize)>)
    ensures
        edges@ == reference_edges(
            project_paths(projects_view(projects@)),
            project_refs(projects_view(projects@)),
            projects.len() as int,
        ),
{
    let ghost paths = project_paths(projects_view(projects@));
    let ghost all_refs = project_refs(projects_view(projects@));
    let mut edges: Vec<(usize, usize)> = Vec::new();
    let mut from: usize = 0;
    while from < projects.len()
        invariant
            from <= projects.len(),
            paths == project_paths(projects_view(projects@)),
            all_refs == project_refs(projects_view(projects@)),
            edges@ == reference_edges(paths, all_refs, from as int),
        decreases projects.len() - from,
    {
        let ghost before = edges@;
        let refs = &projects[from].project_references;
        let ghost wanted = all_refs[from as int];
        let mut k: usize = 0;
        assert(wanted.take(0) =~= Seq::<Seq<ComponentView>>::empty());
        assert(edges@ =~= before + edges_from(paths, from as int, wanted.take(0)));
        while k < refs.len()
            invariant
                k <= refs.len(),
                from < projects.len(),
                paths == project_paths(projects_view(projects@)),
                refs == &projects@[from as int].project_references,
                wanted == projects@[from as int]@.project_references,
                edges@ == before + edges_from(paths, from as int, wanted.take(k as int)),
            decreases refs.len() - k,
        {
            proof {
                assert(wanted.take(k + 1).drop_last() =~= wanted.take(k as int));
                assert(wanted.take(k + 1).last() == refs@[k as int]@);
            }
            let ghost sofar = edges_from(paths, from as int, wanted.take(k as int));
            match position(projects, &refs[k]) {
                Some(to) => {
                    edges.push((from, to));
                    assert(edges@ =~= before + sofar.push((from, to)));
                },
                None => {},
            }
            k += 1;
        }
        assert(wanted.take(refs.len() as int) =~= wanted);
        from += 1;
    }
    edges
}

/// Lists the projects that the request selects, in the order of their paths
/// as seen from `current_dir`. The search path is taken from `current_dir`
/// too, where it does not start anew by itself.
pub fn list(options: Options, current_dir: &FilePath, projects: Vec<Project>) -> (out: Vec<Project>)
    ensures
        out@.to_multiset() == pick(
            projects@,
            selection(
                options.search_path@,
                options.follow_incoming_project_references,
                options.follow_outgoing_project_references,
                current_dir@,
                projects_view(projects@),
            ),
        ).to_multiset(),
        ascends_from(current_dir@, out@),
{
    let ghost all = projects_view(projects@);
    let ghost given = projects@;
    let search_path = options.search_path.simplified_absolute(current_dir);
    let rel_search_path = relative_path(current_dir, &search_path);
    let n = projects.len();
    let mut relatives: Vec<FilePath> = Vec::new();
    let mut included: Vec<bool> = Vec::new();
    let mut i: usize = 0;
    while i < n
        invariant
            i <= n,
            n == projects.len(),
            all == projects_view(projects@),
            relatives.len() == i,
            included.len() == i,
            forall|k: int|
                0 <= k < i ==> (#[trigger] relatives@[k])@ == relative_path_spec(
                    current_dir@,
                    all[k].path,
                ),
            forall|k: int|
                0 <= k < i ==> #[trigger] included@[k] == starts_with_spec(
                    relative_path_spec(current_dir@, all[k].path),
                    rel_search_path@,
                ),
        decreases n - i,
    {
        let relative = relative_path(current_dir, &projects[i].path);
        assert(all[i as int] == projects@[i as int]@);
        included.push(relative.starts_with(&rel_search_path));
        relatives.push(relative);
        i += 1;
    }
    let ghost first = included@;
    assert(first =~= first_selection(current_dir@, rel_search_path@, all));
    let edges = edges_between(&projects);
    if options.follow_incoming_project_references {
        follow_references(&mut included, &edges, false);
        proof {
            lemma_closure_is_closure_of(edges@, false, first, included@);
        }
    }
    let ghost second = included@;
    if options.follow_outgoing_project_references {
        follow_references(&mut included, &edges, true);
        proof {
            lemma_closure_is_closure_of(edges@, true, second, included@);
        }
    }
    let ghost mask = included@;
    assert(mask == selection(
        options.search_path@,
        options.follow_incoming_project_references,
        options.follow_outgoing_project_references,
        current_dir@,
        all,
    ));
    let mut rest = projects;
    let mut listed: Vec<Listed> = Vec::new();
    proof {
        assert(given.take(n as int) =~= given);
        assert(mask.take(n as int) =~= mask);
        assert(projects_of(listed@) =~= Seq::<Project>::empty());
        lemma_empty_multiset(projects_of(listed@));
        assert(pick(given, mask).to_multiset() =~= pick(given, mask).to_multiset().add(
            projects_of(listed@).to_multiset(),
        ));
    }
    while rest.len() > 0
        invariant
            rest.len() <= n,
            n == given.len(),
            n == mask.len(),
            rest@ == given.take(rest.len() as int),
            relatives@.len() == rest.len(),
            included@ == mask.take(rest.len() as int),
            forall|k: int|
                0 <= k < rest.len() ==> (#[trigger] relatives@[k])@ == relative_path_spec(
                    current_dir@,
                    given[k]@.path,
                ),
            forall|k: int|
                0 <= k < listed.len() ==> (#[trigger] listed@[k]).relative@ == relative_path_spec(
                    current_dir@,
                    listed@[k].project@.path,
                ),
            pick(given, mask).to_multiset() == pick(rest@, included@).to_multiset().add(
                projects_of(listed@).to_multiset(),
            ),
        decreases rest.len(),
    {
        let ghost rest_before = rest@;
        let ghost included_before = included@;
        let ghost listed_before = listed@;
        let project = rest.pop().unwrap();
        let relative = relatives.pop().unwrap();
        let keep = included.pop().unwrap();
        proof {
            assert(rest@ =~= rest_before.drop_last());
            assert(included@ =~= included_before.drop_last());
            assert(rest@ =~= given.take(rest.len() as int));
            assert(included@ =~= mask.take(rest.len() as int));
        }
        if keep {
            listed.push(Listed { relative, project });
            proof {
                assert(projects_of(listed@) =~= projects_of(listed_before).push(project));
                to_multiset_build(projects_of(listed_before), project);
                to_multiset_build(pick(rest@, included@), project);
                assert(pick(rest_before, included_before) == pick(rest@, included@).push(project));
                assert(pick(given, mask).to_multiset() =~= pick(rest@, included@).to_multiset().add(
                    projects_of(listed@).to_multiset(),
                ));
            }
        }
    }
    proof {
        lemma_empty_multiset(pick(rest@, included@));
        assert(pick(given, mask).to_multiset() =~= projects_of(listed@).to_multiset());
    }
    let ghost unsorted = listed@;
    let ordered = sort(listed);
    proof {
        let project_of = |l: Listed| l.project;
        lemma_map_keeps_multiset(ordered@, unsorted, project_of);
        assert(ordered@.map_values(project_of) =~= projects_of(ordered@));
        assert(unsorted.map_values(project_of) =~= projects_of(unsorted));
        assert forall|k: int| 0 <= k < ordered.len() implies (#[trigger] ordered@[k]).relative@
            == relative_path_spec(current_dir@, ordered@[k].project@.path) by {
            ordered@.to_multiset_ensures();
            unsorted.to_multiset_ensures();
            assert(ordered@.contains(ordered@[k]));
            assert(ordered@.to_multiset().count(ordered@[k]) > 0);
            assert(unsorted.contains(ordered@[k]));
            let m = choose|m: int| 0 <= m < unsorted.len() && unsorted[m] == ordered@[k];
            assert(unsorted[m].relative@ == relative_path_spec(
                current_dir@,
                unsorted[m].project@.path,
            ));
        }
    }
    let mut out: Vec<Project> = Vec::new();
    for item in it: ordered
        invariant
            it.seq() == ordered@,
            out@ == projects_of(ordered@.take(it.index() as int)),
    {
        out.push(item.project);
        proof {
            assert(projects_of(ordered@.take(it.index() + 1)) =~= projects_of(
                ordered@.take(it.index() as int),
            ).push(item.project));
        }
    }
    proof {
        assert(ordered@.take(ordered@.len() as int) =~= ordered@);
        assert forall|a: int, b: int| 0 <= a < b < out.len() implies path_le(
            relative_path_spec(current_dir@, (#[trigger] out@[a])@.path),
            relative_path_spec(current_dir@, (#[trigger] out@[b])@.path),
        ) by {
            assert(ordered@[a].before(&ordered@[b]));
            assert(out@[a] == ordered@[a].project);
            assert(out@[b] == ordered@[b].project);
        }
    }
    out
}

/// A sequence without items holds nothing.
proof fn lemma_empty_multiset<T>(items: Seq<T>)
    requires
        items.len() == 0,
    ensures
        items.to_multiset() == vstd::multiset::Multiset::<T>::empty(),
{
    items.to_multiset_ensures();
    vstd::multiset::lemma_multiset_empty_len(items.to_multiset());
    assert(items.to_multiset() =~= vstd::multiset::Multiset::<T>::empty());
}

} // verus!
