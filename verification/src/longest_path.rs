//! The table of longest paths between the nodes of a graph.
//!
//! A path's length counts its nodes: a node alone has length 1, an edge
//! length 2. The table starts from the nodes and the edges and is relaxed
//! once through every node: where a path from `i` to `k` and one from `k` to
//! `j` together are longer than what the table holds for `i` and `j`, the
//! entry is raised. An edge whose entry ends above 2 has a longer way
//! around it.

use vstd::prelude::*;

verus! {

/// The table before any relaxation: 2 where an edge leads from `i` to `j`,
/// else 1 on the diagonal, else 0.
pub open spec fn seeded(n: nat, edges: Seq<(usize, usize)>) -> Seq<Seq<int>> {
    Seq::new(
        n,
        |i: int|
            Seq::new(
                n,
                |j: int|
                    if edges.contains((i as usize, j as usize)) {
                        2int
                    } else if i == j {
                        1int
                    } else {
                        0int
                    },
            ),
    )
}

/// One relaxation: the entry for `i` and `j` is raised to the length of the
/// path through `k`, where both halves exist and the path is longer.
pub open spec fn relax(t: Seq<Seq<int>>, k: int, i: int, j: int) -> Seq<Seq<int>> {
    let through = t[i][k] + t[k][j] - 1;
    if t[i][k] != 0 && t[k][j] != 0 && through > t[i][j] {
        t.update(i, t[i].update(j, through))
    } else {
        t
    }
}

/// The relaxations through `k` from `i` to the first `upto` nodes.
pub open spec fn relax_row(t: Seq<Seq<int>>, k: int, i: int, upto: int) -> Seq<Seq<int>>
    decreases upto,
{
    if upto <= 0 {
        t
    } else {
        relax(relax_row(t, k, i, upto - 1), k, i, upto - 1)
    }
}

/// The relaxations through `k` from the first `upto` nodes to all `n` nodes.
pub open spec fn relax_round(t: Seq<Seq<int>>, n: int, k: int, upto: int) -> Seq<Seq<int>>
    decreases upto,
{
    if upto <= 0 {
        t
    } else {
        relax_row(relax_round(t, n, k, upto - 1), k, upto - 1, n)
    }
}

/// The relaxations through the first `upto` nodes.
pub open spec fn relax_all(t: Seq<Seq<int>>, n: int, upto: int) -> Seq<Seq<int>>
    decreases upto,
{
    if upto <= 0 {
        t
    } else {
        relax_round(relax_all(t, n, upto - 1), n, upto - 1, n)
    }
}

/// The table of longest paths of a graph with `n` nodes.
pub open spec fn longest_paths_spec(n: nat, edges: Seq<(usize, usize)>) -> Seq<Seq<int>> {
    relax_all(seeded(n, edges), n as int, n as int)
}

/// Whether `held` is the table `t`, each entry as far as a `u64` holds it.
pub open spec fn holds(held: Seq<Vec<u64>>, t: Seq<Seq<int>>, n: nat) -> bool {
    &&& held.len() == n
    &&& t.len() == n
    &&& forall|i: int| 0 <= i < n ==> (#[trigger] held[i])@.len() == n
    &&& forall|i: int| 0 <= i < n ==> (#[trigger] t[i]).len() == n
    &&& forall|i: int, j: int|
        0 <= i < n && 0 <= j < n ==> entry_holds(#[trigger] held[i]@[j], t[i][j])
}

/// Whether `held` is the entry `entry`, as far as a `u64` holds it.
pub open spec fn entry_holds(held: u64, entry: int) -> bool {
    0 <= entry && held as int == if entry > u64::MAX {
        u64::MAX as int
    } else {
        entry
    }
}

/// Computes the table of longest paths of a graph with `n` nodes. An edge
/// that names no node is ignored. An entry beyond what a `u64` holds is held
/// as the largest `u64`.
pub fn longest_paths(n: usize, edges: &Vec<(usize, usize)>) -> (table: Vec<Vec<u64>>)
    ensures
        holds(table@, longest_paths_spec(n as nat, edges@), n as nat),
{
    let mut table: Vec<Vec<u64>> = Vec::new();
    let mut i: usize = 0;
    while i < n
        invariant
            i <= n,
            table.len() == i,
            forall|a: int| 0 <= a < i ==> (#[trigger] table@[a])@.len() == n,
            forall|a: int, b: int|
                0 <= a < i && 0 <= b < n ==> (#[trigger] table@[a]@[b]) == if a == b {
                    1u64
                } else {
                    0u64
                },
        decreases n - i,
    {
        let mut row: Vec<u64> = Vec::new();
        let mut j: usize = 0;
        while j < n
            invariant
                j <= n,
                i < n,
                row.len() == j,
                forall|b: int|
                    0 <= b < j ==> (#[trigger] row@[b]) == if i == b {
                        1u64
                    } else {
                        0u64
                    },
            decreases n - j,
        {
            row.push(if i == j {
                1
            } else {
                0
            });
            j += 1;
        }
        table.push(row);
        i += 1;
    }
    let mut e: usize = 0;
    assert(edges@.take(0) =~= Seq::<(usize, usize)>::empty());
    while e < edges.len()
        invariant
            e <= edges.len(),
            table.len() == n,
            forall|a: int| 0 <= a < n ==> (#[trigger] table@[a])@.len() == n,
            forall|a: int, b: int|
                0 <= a < n && 0 <= b < n ==> (#[trigger] table@[a]@[b]) == if edges@.take(
                    e as int,
                ).contains((a as usize, b as usize)) {
                    2u64
                } else if a == b {
                    1u64
                } else {
                    0u64
                },
        decreases edges.len() - e,
    {
        let edge = edges[e];
        let ghost before = table@;
        let ghost seen = edges@.take(e as int);
        proof {
            assert(edges@.take(e + 1) =~= seen.push(edge));
            assert forall|x: (usize, usize)| edges@.take(e + 1).contains(x) <==> (seen.contains(x)
                || x == edge) by {
                if seen.contains(x) {
                    let m = choose|m: int| 0 <= m < seen.len() && seen[m] == x;
                    assert(edges@.take(e + 1)[m] == x);
                }
                if x == edge {
                    assert(edges@.take(e + 1)[e as int] == x);
                }
            }
        }
        if edge.0 < n && edge.1 < n {
            let mut row = Vec::new();
            core::mem::swap(&mut row, &mut table[edge.0]);
            row[edge.1] = 2;
            table[edge.0] = row;
            proof {
                assert forall|a: int| 0 <= a < n implies (#[trigger] table@[a])@.len() == n by {
                    if a != edge.0 {
                        assert(table@[a] == before[a]);
                    }
                }
                assert forall|a: int, b: int| 0 <= a < n && 0 <= b < n implies (
                #[trigger] table@[a]@[b]) == if edges@.take(e + 1).contains(
                    (a as usize, b as usize),
                ) {
                    2u64
                } else if a == b {
                    1u64
                } else {
                    0u64
                } by {
                    if a != edge.0 {
                        assert(table@[a] == before[a]);
                        assert(before[a]@[b] == table@[a]@[b]);
                    } else if b != edge.1 {
                        assert(before[a]@[b] == table@[a]@[b]);
                    }
                }
            }
        }
        e += 1;
    }
    let ghost mut t = seeded(n as nat, edges@);
    proof {
        assert(edges@.take(edges.len() as int) =~= edges@);
        assert(holds(table@, t, n as nat));
    }
    let mut k: usize = 0;
    while k < n
        invariant
            k <= n,
            t == relax_all(seeded(n as nat, edges@), n as int, k as int),
            holds(table@, t, n as nat),
        decreases n - k,
    {
        let ghost round_start = t;
        let mut i: usize = 0;
        while i < n
            invariant
                i <= n,
                k < n,
                t == relax_round(round_start, n as int, k as int, i as int),
                holds(table@, t, n as nat),
            decreases n - i,
        {
            let ghost row_start = t;
            let mut j: usize = 0;
            while j < n
                invariant
                    j <= n,
                    i < n,
                    k < n,
                    t == relax_row(row_start, k as int, i as int, j as int),
                    holds(table@, t, n as nat),
                decreases n - j,
            {
                let ik = table[i][k];
                let kj = table[k][j];
                let ij = table[i][j];
                let ghost held = table@;
                let ghost was = t;
                proof {
                    assert(entry_holds(held[i as int]@[k as int], was[i as int][k as int]));
                    assert(entry_holds(held[k as int]@[j as int], was[k as int][j as int]));
                    assert(entry_holds(held[i as int]@[j as int], was[i as int][j as int]));
                    t = relax(was, k as int, i as int, j as int);
                }
                if ik != 0 && kj != 0 {
                    let through = if ik > u64::MAX - (kj - 1) {
                        u64::MAX
                    } else {
                        ik + (kj - 1)
                    };
                    if through > ij {
                        let mut row = Vec::new();
                        core::mem::swap(&mut row, &mut table[i]);
                        row[j] = through;
                        table[i] = row;
                    }
                }
                proof {
                    assert forall|a: int| 0 <= a < n implies (#[trigger] table@[a])@.len() == n by {
                        if a != i {
                            assert(table@[a] == held[a]);
                        }
                    }
                    assert forall|a: int| 0 <= a < n implies (#[trigger] t[a]).len() == n by {
                        assert(was[a].len() == n);
                    }
                    assert forall|a: int, b: int| 0 <= a < n && 0 <= b < n implies entry_holds(
                        #[trigger] table@[a]@[b],
                        t[a][b],
                    ) by {
                        assert(entry_holds(held[a]@[b], was[a][b]));
                        if a != i {
                            assert(table@[a] == held[a]);
                        }
                    }
                }
                j += 1;
            }
            i += 1;
        }
        k += 1;
    }
    table
}

/// Whether `walk` is a walk of `nodes` nodes from `from` to `to`: it stays
/// below `n`, and an edge leads from each of its nodes to the next.
pub open spec fn is_walk_of(
    edges: Seq<(usize, usize)>,
    n: nat,
    walk: Seq<usize>,
    from: int,
    to: int,
    nodes: int,
) -> bool {
    &&& nodes >= 1
    &&& walk.len() == nodes
    &&& walk[0] == from
    &&& walk.last() == to
    &&& forall|k: int| 0 <= k < walk.len() ==> (#[trigger] walk[k]) < n
    &&& forall|k: int| 0 < k < walk.len() ==> #[trigger] steps_along(edges, walk, k)
}

/// Whether an edge leads to the node at `k` of a walk from the node before.
pub open spec fn steps_along(edges: Seq<(usize, usize)>, walk: Seq<usize>, k: int) -> bool {
    edges.contains((walk[k - 1], walk[k]))
}

/// Whether some walk of `nodes` nodes leads from `from` to `to`.
pub open spec fn has_walk(edges: Seq<(usize, usize)>, n: nat, from: int, to: int, nodes: int) -> bool {
    exists|walk: Seq<usize>| #[trigger] is_walk_of(edges, n, walk, from, to, nodes)
}

/// Whether the table is square, and every entry but 0 is the number of
/// nodes of some walk between its two nodes.
pub open spec fn counts_walks(edges: Seq<(usize, usize)>, n: nat, t: Seq<Seq<int>>) -> bool {
    &&& t.len() == n
    &&& forall|i: int| 0 <= i < n ==> (#[trigger] t[i]).len() == n
    &&& forall|i: int, j: int|
        0 <= i < n && 0 <= j < n && t[i][j] != 0 ==> #[trigger] has_walk(edges, n, i, j, t[i][j])
}

/// Every entry of the seeded table counts a walk: a node alone, or an edge.
proof fn lemma_seeded_counts_walks(edges: Seq<(usize, usize)>, n: nat)
    requires
        n <= usize::MAX,
    ensures
        counts_walks(edges, n, seeded(n, edges)),
{
    let t = seeded(n, edges);
    assert forall|i: int, j: int| 0 <= i < n && 0 <= j < n && t[i][j] != 0 implies #[trigger] has_walk(
        edges,
        n,
        i,
        j,
        t[i][j],
    ) by {
        if edges.contains((i as usize, j as usize)) {
            let walk = seq![i as usize, j as usize];
            assert(steps_along(edges, walk, 1));
            assert(is_walk_of(edges, n, walk, i, j, 2));
        } else {
            let walk = seq![i as usize];
            assert(is_walk_of(edges, n, walk, i, j, 1));
        }
    }
}

/// Two walks, the second starting where the first ends, make one walk.
proof fn lemma_walks_meet(
    edges: Seq<(usize, usize)>,
    n: nat,
    first: Seq<usize>,
    second: Seq<usize>,
    from: int,
    via: int,
    to: int,
)
    requires
        is_walk_of(edges, n, first, from, via, first.len() as int),
        is_walk_of(edges, n, second, via, to, second.len() as int),
    ensures
        is_walk_of(
            edges,
            n,
            first + second.skip(1),
            from,
            to,
            first.len() + second.len() - 1,
        ),
{
    let joined = first + second.skip(1);
    assert forall|m: int| 0 <= m < joined.len() implies (#[trigger] joined[m]) < n by {
        if m < first.len() {
            assert(joined[m] == first[m]);
        } else {
            assert(joined[m] == second[m - first.len() + 1]);
        }
    }
    assert forall|m: int| 0 < m < joined.len() implies #[trigger] steps_along(
        edges,
        joined,
        m,
    ) by {
        if m < first.len() {
            assert(joined[m] == first[m]);
            assert(joined[m - 1] == first[m - 1]);
            assert(steps_along(edges, first, m));
        } else if m == first.len() {
            assert(joined[m] == second[1]);
            assert(joined[m - 1] == first[first.len() - 1]);
            assert(second[0] == first.last());
            assert(steps_along(edges, second, 1));
        } else {
            assert(joined[m] == second[m - first.len() + 1]);
            assert(joined[m - 1] == second[m - first.len()]);
            assert(steps_along(edges, second, m - first.len() + 1));
        }
    }
    assert(joined[0] == first[0]);
    if second.len() > 1 {
        assert(joined.last() == second.last());
    } else {
        assert(joined.last() == first.last());
    }
}

/// A relaxation keeps every entry the count of a walk: the two walks that
/// meet in the middle make one.
proof fn lemma_relax_counts_walks(
    edges: Seq<(usize, usize)>,
    n: nat,
    t: Seq<Seq<int>>,
    k: int,
    i: int,
    j: int,
)
    requires
        counts_walks(edges, n, t),
        0 <= k < n,
        0 <= i < n,
        0 <= j < n,
    ensures
        counts_walks(edges, n, relax(t, k, i, j)),
{
    let out = relax(t, k, i, j);
    let through = t[i][k] + t[k][j] - 1;
    if t[i][k] != 0 && t[k][j] != 0 && through > t[i][j] {
        assert(has_walk(edges, n, i, k, t[i][k]));
        assert(has_walk(edges, n, k, j, t[k][j]));
        let first = choose|walk: Seq<usize>| #[trigger] is_walk_of(edges, n, walk, i, k, t[i][k]);
        let second = choose|walk: Seq<usize>| #[trigger] is_walk_of(edges, n, walk, k, j, t[k][j]);
        lemma_walks_meet(edges, n, first, second, i, k, j);
        assert(is_walk_of(edges, n, first + second.skip(1), i, j, through));
        assert(has_walk(edges, n, i, j, through));
        assert(t[i].len() == n);
        assert(out == t.update(i, t[i].update(j, through)));
        assert forall|a: int| 0 <= a < n implies (#[trigger] out[a]).len() == n by {
            assert(t[a].len() == n);
        }
        assert forall|a: int, b: int| 0 <= a < n && 0 <= b < n && out[a][b] != 0 implies #[trigger] has_walk(
            edges,
            n,
            a,
            b,
            out[a][b],
        ) by {
            assert(t[a].len() == n);
            if a == i && b == j {
                assert(out[a][b] == through);
            } else {
                assert(out[a][b] == t[a][b]);
                assert(has_walk(edges, n, a, b, t[a][b]));
            }
        }
    } else {
        assert(out == t);
    }
}

/// The relaxations of a row keep every entry the count of a walk.
proof fn lemma_row_counts_walks(
    edges: Seq<(usize, usize)>,
    n: nat,
    t: Seq<Seq<int>>,
    k: int,
    i: int,
    upto: int,
)
    requires
        counts_walks(edges, n, t),
        0 <= k < n,
        0 <= i < n,
        upto <= n,
    ensures
        counts_walks(edges, n, relax_row(t, k, i, upto)),
    decreases upto,
{
    if upto > 0 {
        lemma_row_counts_walks(edges, n, t, k, i, upto - 1);
        lemma_relax_counts_walks(edges, n, relax_row(t, k, i, upto - 1), k, i, upto - 1);
    }
}

/// The relaxations of a round keep every entry the count of a walk.
proof fn lemma_round_counts_walks(
    edges: Seq<(usize, usize)>,
    n: nat,
    t: Seq<Seq<int>>,
    k: int,
    upto: int,
)
    requires
        counts_walks(edges, n, t),
        0 <= k < n,
        upto <= n,
    ensures
        counts_walks(edges, n, relax_round(t, n as int, k, upto)),
    decreases upto,
{
    if upto > 0 {
        lemma_round_counts_walks(edges, n, t, k, upto - 1);
        lemma_row_counts_walks(
            edges,
            n,
            relax_round(t, n as int, k, upto - 1),
            k,
            upto - 1,
            n as int,
        );
    }
}

/// All the relaxations keep every entry the count of a walk.
proof fn lemma_all_counts_walks(edges: Seq<(usize, usize)>, n: nat, t: Seq<Seq<int>>, upto: int)
    requires
        counts_walks(edges, n, t),
        upto <= n,
    ensures
        counts_walks(edges, n, relax_all(t, n as int, upto)),
    decreases upto,
{
    if upto > 0 {
        lemma_all_counts_walks(edges, n, t, upto - 1);
        lemma_round_counts_walks(edges, n, relax_all(t, n as int, upto - 1), upto - 1, n as int);
    }
}

/// What an entry of the table says: where it is not 0, a walk of that many
/// nodes leads from the one node to the other. So an edge whose entry is
/// above 2 has another way around it, of two edges or more.
pub proof fn lemma_entry_counts_a_walk(edges: Seq<(usize, usize)>, n: nat, from: int, to: int)
    requires
        n <= usize::MAX,
        0 <= from < n,
        0 <= to < n,
        longest_paths_spec(n, edges)[from][to] != 0,
    ensures
        has_walk(edges, n, from, to, longest_paths_spec(n, edges)[from][to]),
{
    lemma_seeded_counts_walks(edges, n);
    lemma_all_counts_walks(edges, n, seeded(n, edges), n as int);
}

/// Whether the table has `n` rows of `n` entries.
pub open spec fn is_square(t: Seq<Seq<int>>, n: nat) -> bool {
    &&& t.len() == n
    &&& forall|i: int| 0 <= i < n ==> (#[trigger] t[i]).len() == n
}

/// Whether `u` is the table `t` with some entries raised.
pub open spec fn is_raised(t: Seq<Seq<int>>, u: Seq<Seq<int>>, n: nat) -> bool {
    &&& is_square(t, n)
    &&& is_square(u, n)
    &&& forall|a: int, b: int| 0 <= a < n && 0 <= b < n ==> #[trigger] u[a][b] >= t[a][b]
}

/// A relaxation only raises, and it raises the entry to the length of the
/// path through the middle at least.
proof fn lemma_relax_raises(t: Seq<Seq<int>>, n: nat, k: int, i: int, j: int)
    requires
        is_square(t, n),
        0 <= k < n,
        0 <= i < n,
        0 <= j < n,
    ensures
        is_raised(t, relax(t, k, i, j), n),
        t[i][k] != 0 && t[k][j] != 0 ==> relax(t, k, i, j)[i][j] >= t[i][k] + t[k][j] - 1,
{
    let out = relax(t, k, i, j);
    assert forall|a: int| 0 <= a < n implies (#[trigger] out[a]).len() == n by {
        assert(t[a].len() == n);
    }
    assert forall|a: int, b: int| 0 <= a < n && 0 <= b < n implies #[trigger] out[a][b]
        >= t[a][b] by {
        assert(t[a].len() == n);
    }
}

/// To raise and raise again is to raise.
proof fn lemma_raised_twice(t: Seq<Seq<int>>, u: Seq<Seq<int>>, v: Seq<Seq<int>>, n: nat)
    requires
        is_raised(t, u, n),
        is_raised(u, v, n),
    ensures
        is_raised(t, v, n),
{
    assert forall|a: int, b: int| 0 <= a < n && 0 <= b < n implies #[trigger] v[a][b]
        >= t[a][b] by {
        assert(u[a][b] >= t[a][b]);
    }
}

/// The relaxations of a row only raise, the more of them the more.
proof fn lemma_row_raises(t: Seq<Seq<int>>, n: nat, k: int, i: int, less: int, more: int)
    requires
        is_square(t, n),
        0 <= k < n,
        0 <= i < n,
        0 <= less <= more <= n,
    ensures
        is_raised(relax_row(t, k, i, less), relax_row(t, k, i, more), n),
        is_raised(t, relax_row(t, k, i, less), n),
    decreases more,
{
    if more == 0 {
        assert(is_raised(t, t, n));
    } else if less == more {
        lemma_row_raises(t, n, k, i, less - 1, more - 1);
        let before = relax_row(t, k, i, more - 1);
        lemma_relax_raises(before, n, k, i, more - 1);
        lemma_raised_twice(t, before, relax_row(t, k, i, more), n);
        assert(is_raised(relax_row(t, k, i, more), relax_row(t, k, i, more), n));
    } else {
        lemma_row_raises(t, n, k, i, less, more - 1);
        let before = relax_row(t, k, i, more - 1);
        lemma_relax_raises(before, n, k, i, more - 1);
        lemma_raised_twice(relax_row(t, k, i, less), before, relax_row(t, k, i, more), n);
    }
}

/// The relaxations of a round only raise, the more of them the more.
proof fn lemma_round_raises(t: Seq<Seq<int>>, n: nat, k: int, less: int, more: int)
    requires
        is_square(t, n),
        0 <= k < n,
        0 <= less <= more <= n,
    ensures
        is_raised(relax_round(t, n as int, k, less), relax_round(t, n as int, k, more), n),
        is_raised(t, relax_round(t, n as int, k, less), n),
    decreases more,
{
    if more == 0 {
        assert(is_raised(t, t, n));
    } else if less == more {
        lemma_round_raises(t, n, k, less - 1, more - 1);
        let before = relax_round(t, n as int, k, more - 1);
        lemma_row_raises(before, n, k, more - 1, n as int, n as int);
        lemma_raised_twice(t, before, relax_round(t, n as int, k, more), n);
        assert(is_raised(relax_round(t, n as int, k, more), relax_round(t, n as int, k, more), n));
    } else {
        lemma_round_raises(t, n, k, less, more - 1);
        let before = relax_round(t, n as int, k, more - 1);
        lemma_row_raises(before, n, k, more - 1, n as int, n as int);
        lemma_raised_twice(
            relax_round(t, n as int, k, less),
            before,
            relax_round(t, n as int, k, more),
            n,
        );
    }
}

/// All the relaxations only raise.
proof fn lemma_all_raises(t: Seq<Seq<int>>, n: nat, upto: int)
    requires
        is_square(t, n),
        0 <= upto <= n,
    ensures
        is_raised(t, relax_all(t, n as int, upto), n),
    decreases upto,
{
    if upto == 0 {
        assert(is_raised(t, t, n));
    } else {
        lemma_all_raises(t, n, upto - 1);
        let before = relax_all(t, n as int, upto - 1);
        lemma_round_raises(before, n, upto - 1, n as int, n as int);
        lemma_raised_twice(t, before, relax_all(t, n as int, upto), n);
    }
}

/// After a round through `k`, the entry for `i` and `j` is the length of
/// the path through `k` at least, as the table held the two halves before
/// the round.
proof fn lemma_round_joins(t: Seq<Seq<int>>, n: nat, k: int, i: int, j: int)
    requires
        is_square(t, n),
        0 <= k < n,
        0 <= i < n,
        0 <= j < n,
        t[i][k] >= 1,
        t[k][j] >= 1,
    ensures
        relax_round(t, n as int, k, n as int)[i][j] >= t[i][k] + t[k][j] - 1,
{
    let rows = relax_round(t, n as int, k, i);
    lemma_round_raises(t, n, k, i, i);
    let row = relax_row(rows, k, i, j);
    lemma_row_raises(rows, n, k, i, j, j);
    lemma_raised_twice(t, rows, row, n);
    assert(row[i][k] >= t[i][k]);
    assert(row[k][j] >= t[k][j]);
    lemma_relax_raises(row, n, k, i, j);
    let stepped = relax(row, k, i, j);
    assert(stepped == relax_row(rows, k, i, j + 1));
    lemma_row_raises(rows, n, k, i, j + 1, n as int);
    let full_row = relax_row(rows, k, i, n as int);
    assert(full_row[i][j] >= stepped[i][j]);
    assert(full_row == relax_round(t, n as int, k, i + 1));
    lemma_round_raises(t, n, k, i + 1, n as int);
    let round = relax_round(t, n as int, k, n as int);
    assert(round[i][j] >= full_row[i][j]);
}

/// Whether all the nodes between the ends of a path are below `k`.
pub open spec fn runs_below(path: Seq<usize>, k: int) -> bool {
    forall|m: int| 0 < m < path.len() - 1 ==> (#[trigger] path[m]) < k
}

/// A path without a repeated node that runs below `k + 1` and through `k`
/// falls into two such paths that run below `k`: one to `k`, one from it.
proof fn lemma_path_halves(
    edges: Seq<(usize, usize)>,
    n: nat,
    path: Seq<usize>,
    from: int,
    to: int,
    m: int,
    k: int,
)
    requires
        is_walk_of(edges, n, path, from, to, path.len() as int),
        path.no_duplicates(),
        runs_below(path, k + 1),
        0 < m < path.len() - 1,
        path[m] == k,
    ensures
        is_walk_of(edges, n, path.take(m + 1), from, k, m + 1),
        is_walk_of(edges, n, path.skip(m), k, to, path.len() - m),
        path.take(m + 1).no_duplicates(),
        path.skip(m).no_duplicates(),
        runs_below(path.take(m + 1), k),
        runs_below(path.skip(m), k),
{
    let first = path.take(m + 1);
    let second = path.skip(m);
    assert forall|x: int| 0 < x < first.len() implies #[trigger] steps_along(
        edges,
        first,
        x,
    ) by {
        assert(first[x] == path[x]);
        assert(first[x - 1] == path[x - 1]);
        assert(steps_along(edges, path, x));
    }
    assert forall|x: int| 0 < x < second.len() implies #[trigger] steps_along(
        edges,
        second,
        x,
    ) by {
        assert(second[x] == path[m + x]);
        assert(second[x - 1] == path[m + x - 1]);
        assert(steps_along(edges, path, m + x));
    }
    assert forall|x: int| 0 <= x < first.len() implies (#[trigger] first[x]) < n by {
        assert(first[x] == path[x]);
    }
    assert forall|x: int| 0 <= x < second.len() implies (#[trigger] second[x]) < n by {
        assert(second[x] == path[m + x]);
    }
    assert forall|x: int| 0 < x < first.len() - 1 implies (#[trigger] first[x]) < k by {
        assert(first[x] == path[x]);
        assert(path[x] < k + 1);
        assert(path[x] != path[m]);
    }
    assert forall|x: int| 0 < x < second.len() - 1 implies (#[trigger] second[x]) < k by {
        assert(second[x] == path[m + x]);
        assert(path[m + x] < k + 1);
        assert(path[m + x] != path[m]);
    }
    assert forall|x: int, y: int|
        0 <= x < first.len() && 0 <= y < first.len() && x != y implies first[x] != first[y] by {
        assert(first[x] == path[x] && first[y] == path[y]);
    }
    assert forall|x: int, y: int|
        0 <= x < second.len() && 0 <= y < second.len() && x != y implies second[x]
        != second[y] by {
        assert(second[x] == path[m + x] && second[y] == path[m + y]);
    }
    assert(first[0] == path[0]);
    assert(first.last() == path[m]);
    assert(second[0] == path[m]);
    assert(second.last() == path.last());
}

/// A path that runs below 0 is a node alone or an edge, and the seeded
/// table holds its number of nodes at least.
proof fn lemma_seed_covers(
    edges: Seq<(usize, usize)>,
    n: nat,
    path: Seq<usize>,
    from: int,
    to: int,
)
    requires
        n <= usize::MAX,
        is_walk_of(edges, n, path, from, to, path.len() as int),
        runs_below(path, 0),
    ensures
        0 <= from < n,
        0 <= to < n,
        seeded(n, edges)[from][to] >= path.len(),
{
    assert(path[0] < n);
    assert(path[path.len() - 1] < n);
    if path.len() >= 3 {
        assert(path[1] < 0);
    }
    if path.len() == 2 {
        assert(steps_along(edges, path, 1));
        assert(edges.contains((from as usize, to as usize)));
    }
}

/// After the rounds through the nodes below `k`, the table holds for every
/// path without a repeated node that runs below `k` its number of nodes at
/// least.
proof fn lemma_rounds_cover(
    edges: Seq<(usize, usize)>,
    n: nat,
    k: int,
    path: Seq<usize>,
    from: int,
    to: int,
)
    requires
        n <= usize::MAX,
        0 <= k <= n,
        is_walk_of(edges, n, path, from, to, path.len() as int),
        path.no_duplicates(),
        runs_below(path, k),
    ensures
        0 <= from < n,
        0 <= to < n,
        relax_all(seeded(n, edges), n as int, k)[from][to] >= path.len(),
    decreases k,
{
    let start = seeded(n, edges);
    assert(is_square(start, n));
    assert(path[0] < n);
    assert(path[path.len() - 1] < n);
    if k == 0 {
        lemma_seed_covers(edges, n, path, from, to);
    } else {
        let before = relax_all(start, n as int, k - 1);
        let after = relax_all(start, n as int, k);
        lemma_all_raises(start, n, k - 1);
        lemma_round_raises(before, n, k - 1, n as int, n as int);
        assert(after == relax_round(before, n as int, k - 1, n as int));
        if runs_below(path, k - 1) {
            lemma_rounds_cover(edges, n, k - 1, path, from, to);
            assert(after[from][to] >= before[from][to]);
        } else {
            let m = choose|m: int| 0 < m < path.len() - 1 && !((#[trigger] path[m]) < k - 1);
            assert(path[m] < k);
            lemma_path_halves(edges, n, path, from, to, m, k - 1);
            lemma_rounds_cover(edges, n, k - 1, path.take(m + 1), from, k - 1);
            lemma_rounds_cover(edges, n, k - 1, path.skip(m), k - 1, to);
            lemma_round_joins(before, n, k - 1, from, to);
        }
    }
}

/// What the table holds for two nodes is the number of nodes of any path
/// from the one to the other without a repeated node, or more. So an edge
/// with such a path of two edges or more around it has an entry above 2.
pub proof fn lemma_table_covers_paths(
    edges: Seq<(usize, usize)>,
    n: nat,
    path: Seq<usize>,
    from: int,
    to: int,
)
    requires
        n <= usize::MAX,
        is_walk_of(edges, n, path, from, to, path.len() as int),
        path.no_duplicates(),
    ensures
        longest_paths_spec(n, edges)[from][to] >= path.len(),
{
    assert forall|m: int| 0 < m < path.len() - 1 implies (#[trigger] path[m]) < n by {}
    lemma_rounds_cover(edges, n, n as int, path, from, to);
}

} // verus!
