//! Computation graphs kept as parent lists.
//!
//! Node `i` was computed from the nodes `parents[i]`. The topological order
//! lists every node a root depends on once, consumers before the nodes they
//! were computed from, as a depth-first search over the parent lists yields
//! it. The text of a graph draws it as a tree of node labels.
use vstd::prelude::*;
use crate::text::texts;

verus! {

/// The parent lists of a graph, as sequences.
pub open spec fn parent_lists(parents: &Vec<Vec<usize>>) -> Seq<Seq<usize>> {
    parents@.map_values(|v: Vec<usize>| v@)
}

/// Every parent names a node of the graph.
pub open spec fn well_indexed(ps: Seq<Seq<usize>>) -> bool {
    forall|i: int, j: int| 0 <= i < ps.len() && 0 <= j < ps[i].len() ==> #[trigger] ps[i][j] < ps.len()
}

/// Entry `k + 1` of `path` is a parent of entry `k`.
pub open spec fn is_link(ps: Seq<Seq<usize>>, path: Seq<usize>, k: int) -> bool {
    0 <= path[k] < ps.len() && ps[path[k] as int].contains(path[k + 1])
}

/// `path` follows parent links: each entry is a parent of the one before.
pub open spec fn is_path(ps: Seq<Seq<usize>>, path: Seq<usize>) -> bool {
    &&& path.len() >= 1
    &&& forall|k: int| 0 <= k < path.len() - 1 ==> #[trigger] is_link(ps, path, k)
}

/// `to` is `from` or one of the nodes `from` was computed from, directly or
/// not.
pub open spec fn reachable(ps: Seq<Seq<usize>>, from: usize, to: usize) -> bool {
    exists|path: Seq<usize>| #[trigger] is_path(ps, path) && path[0] == from && path.last() == to
}

/// `rank` decreases along every parent link.
pub open spec fn is_ranking(ps: Seq<Seq<usize>>, rank: Seq<nat>) -> bool {
    &&& rank.len() == ps.len()
    &&& forall|i: int, j: int|
        0 <= i < ps.len() && 0 <= j < ps[i].len() ==> rank[#[trigger] ps[i][j] as int] < rank[i]
}

/// The graph has no cycle: some ranking decreases along every parent link.
pub open spec fn acyclic(ps: Seq<Seq<usize>>) -> bool {
    exists|rank: Seq<nat>| #[trigger] is_ranking(ps, rank)
}

/// A ranking of an acyclic graph.
pub open spec fn some_ranking(ps: Seq<Seq<usize>>) -> Seq<nat> {
    choose|rank: Seq<nat>| #[trigger] is_ranking(ps, rank)
}

/// `x` appears in `order` at a position after `i`.
pub open spec fn appears_after(order: Seq<usize>, i: int, x: usize) -> bool {
    exists|k: int| i < k < order.len() && order[k] == x
}

/// `x` appears in `order` at a position before `i`.
pub open spec fn appears_before(order: Seq<usize>, i: int, x: usize) -> bool {
    exists|k: int| 0 <= k < i && order[k] == x
}

/// Every parent of the node at position `i` of `order` appears at a later
/// position.
pub open spec fn parents_later(ps: Seq<Seq<usize>>, order: Seq<usize>) -> bool {
    forall|i: int, j: int|
        0 <= i < order.len() && 0 <= j < ps[order[i] as int].len() ==> appears_after(
            order,
            i,
            #[trigger] ps[order[i] as int][j],
        )
}

/// Every parent of the node at position `i` of `order` appears at an
/// earlier position.
pub open spec fn parents_earlier(ps: Seq<Seq<usize>>, order: Seq<usize>) -> bool {
    forall|i: int, j: int|
        0 <= i < order.len() && 0 <= j < ps[order[i] as int].len() ==> appears_before(
            order,
            i,
            #[trigger] ps[order[i] as int][j],
        )
}

/// Number of nodes not yet visited.
pub open spec fn unvisited_count(visited: Seq<bool>) -> nat
    decreases visited.len(),
{
    if visited.len() == 0 {
        0
    } else {
        unvisited_count(visited.drop_last()) + if visited.last() {
            0nat
        } else {
            1nat
        }
    }
}

/// Depth-first search from `node` with at most `fuel` nested visits: marks
/// `node` visited, searches its unvisited parents in list order, then
/// appends `node` to the finish order.
pub open spec fn dfs_visit(
    ps: Seq<Seq<usize>>,
    fuel: nat,
    node: usize,
    visited: Seq<bool>,
    order: Seq<usize>,
) -> (Seq<bool>, Seq<usize>)
    decreases fuel, 0int,
{
    if fuel == 0 {
        (visited, order)
    } else {
        let (v, o) = dfs_parents(ps, (fuel - 1) as nat, node, 0, visited.update(node as int, true), order);
        (v, o.push(node))
    }
}

/// The part of a depth-first search that handles the parents of `node` from
/// position `j` of its list on: each parent not yet visited is searched in
/// turn.
pub open spec fn dfs_parents(
    ps: Seq<Seq<usize>>,
    fuel: nat,
    node: usize,
    j: int,
    visited: Seq<bool>,
    order: Seq<usize>,
) -> (Seq<bool>, Seq<usize>)
    decreases fuel, ps[node as int].len() - j + 1,
{
    if j < 0 || j >= ps[node as int].len() {
        (visited, order)
    } else {
        let p = ps[node as int][j];
        if visited[p as int] {
            dfs_parents(ps, fuel, node, j + 1, visited, order)
        } else {
            let (v, o) = dfs_visit(ps, fuel, p, visited, order);
            dfs_parents(ps, fuel, node, j + 1, v, o)
        }
    }
}

/// The order in which a depth-first search from `root`, over a graph with
/// no node visited yet, finishes the nodes.
pub open spec fn finish_order(ps: Seq<Seq<usize>>, root: usize) -> Seq<usize> {
    dfs_visit(ps, ps.len(), root, Seq::new(ps.len(), |i: int| false), Seq::empty()).1
}

/// A graph with no node visited has every node unvisited.
proof fn lemma_unvisited_none(visited: Seq<bool>)
    requires
        forall|i: int| 0 <= i < visited.len() ==> !#[trigger] visited[i],
    ensures
        unvisited_count(visited) == visited.len(),
    decreases visited.len(),
{
    if visited.len() > 0 {
        lemma_unvisited_none(visited.drop_last());
    }
}

/// Drawn before the parent at position `j` of a list of `len` parents.
pub open spec fn branch(j: int, len: int) -> Seq<char> {
    if j + 1 == len {
        "└──"@
    } else {
        "├──"@
    }
}

/// Added to the prefix of the lines below the parent at position `j` of a
/// list of `len` parents.
pub open spec fn indent(j: int, len: int) -> Seq<char> {
    if j + 1 == len {
        "   "@
    } else {
        "|  "@
    }
}

/// The drawing of the tree under `node`: its label on a line of its own,
/// then each parent in list order, each line below it led by `prefix`.
pub open spec fn tree_text(ps: Seq<Seq<usize>>, labels: Seq<Seq<char>>, node: usize, prefix: Seq<char>) -> Seq<char>
    decreases some_ranking(ps)[node as int], ps[node as int].len() + 1,
    when acyclic(ps) && well_indexed(ps) && node < ps.len()
{
    labels[node as int] + "\n"@ + parents_text(ps, labels, node, 0, prefix)
}

/// The lines that draw the parents of `node` from position `j` of its list
/// on: for each, `prefix`, a branch, and the tree under the parent.
pub open spec fn parents_text(
    ps: Seq<Seq<usize>>,
    labels: Seq<Seq<char>>,
    node: usize,
    j: int,
    prefix: Seq<char>,
) -> Seq<char>
    decreases some_ranking(ps)[node as int], ps[node as int].len() - j,
    when acyclic(ps) && well_indexed(ps) && node < ps.len() && 0 <= j
{
    let len = ps[node as int].len() as int;
    if j >= len {
        Seq::empty()
    } else {
        let p = ps[node as int][j];
        proof {
            assert(is_ranking(ps, some_ranking(ps)));
            assert(ps[node as int][j] < ps.len());
        }
        prefix + branch(j, len) + tree_text(ps, labels, p, prefix + indent(j, len)) + parents_text(
            ps,
            labels,
            node,
            j + 1,
            prefix,
        )
    }
}

/// Marking an unvisited node visits one node fewer.
proof fn lemma_unvisited_mark(visited: Seq<bool>, i: int)
    requires
        0 <= i < visited.len(),
        !visited[i],
    ensures
        unvisited_count(visited.update(i, true)) + 1 == unvisited_count(visited),
    decreases visited.len(),
{
    let n = visited.len() - 1;
    if i == n {
        assert(visited.update(i, true).drop_last() =~= visited.drop_last());
    } else {
        lemma_unvisited_mark(visited.drop_last(), i);
        assert(visited.update(i, true).drop_last() =~= visited.drop_last().update(i, true));
    }
}

/// Visiting more nodes leaves no more nodes unvisited.
proof fn lemma_unvisited_monotone(before: Seq<bool>, after: Seq<bool>)
    requires
        before.len() == after.len(),
        forall|i: int| 0 <= i < before.len() && #[trigger] before[i] ==> after[i],
    ensures
        unvisited_count(after) <= unvisited_count(before),
    decreases before.len(),
{
    if before.len() > 0 {
        lemma_unvisited_monotone(before.drop_last(), after.drop_last());
        assert(before[before.len() - 1] ==> after[after.len() - 1]);
    }
}

/// State of a depth-first search from `root`: the order lists finished
/// nodes once, every visited node is reachable from the root, every parent
/// of a finished node is visited, and, for an acyclic graph, every parent of
/// a finished node finished before it.
pub open spec fn search_state(
    ps: Seq<Seq<usize>>,
    root: usize,
    visited: Seq<bool>,
    order: Seq<usize>,
) -> bool {
    &&& visited.len() == ps.len()
    &&& order.no_duplicates()
    &&& forall|i: int| 0 <= i < order.len() ==> #[trigger] order[i] < ps.len() && visited[order[i] as int]
    &&& forall|y: int| 0 <= y < ps.len() && #[trigger] visited[y] ==> reachable(ps, root, y as usize)
    &&& forall|i: int, j: int|
        0 <= i < order.len() && 0 <= j < ps[order[i] as int].len() ==> visited[#[trigger] ps[order[i] as int][j] as int]
    &&& acyclic(ps) ==> parents_earlier(ps, order)
}

/// A path extended by one parent link is a path.
proof fn lemma_reachable_parent(ps: Seq<Seq<usize>>, root: usize, node: usize, p: usize)
    requires
        reachable(ps, root, node),
        0 <= node < ps.len(),
        ps[node as int].contains(p),
    ensures
        reachable(ps, root, p),
{
    let path = choose|path: Seq<usize>| #[trigger]
        is_path(ps, path) && path[0] == root && path.last() == node;
    let longer = path.push(p);
    assert forall|k: int| 0 <= k < longer.len() - 1 implies #[trigger] is_link(ps, longer, k) by {
        if k < path.len() - 1 {
            assert(is_link(ps, path, k));
        } else {
            assert(longer[k] == node);
        }
    }
    assert(is_path(ps, longer));
}

/// A set of nodes that holds `from` and every parent of its members holds
/// every node reachable from `from`.
proof fn lemma_closed_holds_reachable(ps: Seq<Seq<usize>>, from: usize, to: usize, member: spec_fn(usize) -> bool)
    requires
        member(from),
        forall|x: usize, p: usize|
            #[trigger] member(x) && 0 <= x < ps.len() && ps[x as int].contains(p) ==> #[trigger] member(p),
        reachable(ps, from, to),
    ensures
        member(to),
{
    let path = choose|path: Seq<usize>| #[trigger]
        is_path(ps, path) && path[0] == from && path.last() == to;
    lemma_closed_path(ps, path, path.len() - 1, member);
}

/// Every entry of a path that starts in a set closed under parents lies in
/// the set.
proof fn lemma_closed_path(ps: Seq<Seq<usize>>, path: Seq<usize>, k: int, member: spec_fn(usize) -> bool)
    requires
        is_path(ps, path),
        0 <= k < path.len(),
        member(path[0]),
        forall|x: usize, p: usize|
            #[trigger] member(x) && 0 <= x < ps.len() && ps[x as int].contains(p) ==> #[trigger] member(p),
    ensures
        member(path[k]),
    decreases k,
{
    if k > 0 {
        lemma_closed_path(ps, path, k - 1, member);
        assert(is_link(ps, path, k - 1));
    }
}

/// Depth-first search from `node`: visits every unvisited parent in list
/// order, then appends `node` to `order`.
fn traverse(
    parents: &Vec<Vec<usize>>,
    node: usize,
    order: &mut Vec<usize>,
    visited: &mut Vec<bool>,
    Ghost(root): Ghost<usize>,
    Ghost(fuel): Ghost<nat>,
)
    requires
        well_indexed(parent_lists(parents)),
        node < parents@.len(),
        !old(visited)@[node as int],
        unvisited_count(old(visited)@) <= fuel,
        search_state(parent_lists(parents), root, old(visited)@, old(order)@),
        reachable(parent_lists(parents), root, node),
        acyclic(parent_lists(parents)) ==> forall|y: usize|
            y < parents@.len() && #[trigger] old(visited)@[y as int] && !old(order)@.contains(y)
                ==> some_ranking(parent_lists(parents))[y as int] > some_ranking(
                parent_lists(parents),
            )[node as int],
    ensures
        (final(visited)@, final(order)@) == dfs_visit(parent_lists(parents), fuel, node, old(visited)@, old(order)@),
        search_state(parent_lists(parents), root, final(visited)@, final(order)@),
        final(visited)@[node as int],
        forall|y: int| 0 <= y < parents@.len() && #[trigger] old(visited)@[y] ==> final(visited)@[y],
        final(order)@.len() >= old(order)@.len(),
        final(order)@.subrange(0, old(order)@.len() as int) == old(order)@,
        final(order)@.contains(node),
        final(order)@.len() >= 1 && final(order)@.last() == node,
        forall|y: usize|
            y < parents@.len() ==> ((#[trigger] final(visited)@[y as int] && !old(visited)@[y as int])
                <==> (final(order)@.contains(y) && !old(order)@.contains(y))),
    decreases fuel,
{
    let ghost ps = parent_lists(parents);
    let ghost v0 = visited@;
    let ghost o0 = order@;
    proof {
        lemma_unvisited_mark(visited@, node as int);
    }
    visited.set(node, true);
    let ghost vm = visited@;
    let ghost inner = (fuel - 1) as nat;
    proof {
        assert forall|y: int| 0 <= y < ps.len() && #[trigger] visited@[y] implies reachable(
            ps,
            root,
            y as usize,
        ) by {
            if y != node {
                assert(v0[y]);
            }
        }
        assert forall|i: int, j: int|
            0 <= i < order@.len() && 0 <= j < ps[order@[i] as int].len() implies visited@[#[trigger] ps[order@[i] as int][j] as int] by {
            assert(v0[ps[order@[i] as int][j] as int]);
        }
        assert forall|i: int| 0 <= i < order@.len() implies #[trigger] order@[i] < ps.len()
            && visited@[order@[i] as int] by {
            assert(v0[order@[i] as int]);
        }
        if order@.contains(node) {
            let k = choose|k: int| 0 <= k < order@.len() && order@[k] == node;
            assert(v0[order@[k] as int]);
        }
        assert(visited@.len() == ps.len());
        assert(order@.no_duplicates());
        assert(search_state(ps, root, visited@, order@));
    }
    let count = parents[node].len();
    let mut j: usize = 0;
    while j < count
        invariant
            ps == parent_lists(parents),
            well_indexed(ps),
            node < ps.len(),
            count == ps[node as int].len(),
            j <= count,
            search_state(ps, root, visited@, order@),
            reachable(ps, root, node),
            visited@[node as int],
            !order@.contains(node),
            forall|y: int| 0 <= y < ps.len() && #[trigger] v0[y] ==> visited@[y],
            order@.len() >= o0.len(),
            order@.subrange(0, o0.len() as int) == o0,
            forall|y: usize|
                y < ps.len() && y != node ==> ((#[trigger] visited@[y as int] && !v0[y as int]) <==> (
                order@.contains(y) && !o0.contains(y))),
            unvisited_count(visited@) < unvisited_count(v0),
            unvisited_count(v0) <= fuel,
            inner == fuel - 1,
            dfs_parents(ps, inner, node, j as int, visited@, order@) == dfs_parents(ps, inner, node, 0, vm, o0),
            v0 == old(visited)@,
            !v0[node as int],
            forall|k: int| 0 <= k < j ==> visited@[#[trigger] ps[node as int][k] as int],
            acyclic(ps) ==> forall|k: int| 0 <= k < j ==> order@.contains(#[trigger] ps[node as int][k]),
            acyclic(ps) ==> forall|y: usize|
                y < ps.len() && #[trigger] v0[y as int] && !o0.contains(y) ==> some_ranking(ps)[y as int]
                    > some_ranking(ps)[node as int],
        decreases count - j,
    {
        let p = parents[node][j];
        proof {
            assert(ps[node as int][j as int] == p);
            assert(ps[node as int].contains(p));
            lemma_reachable_parent(ps, root, node, p);
        }
        if !visited[p] {
            let ghost v1 = visited@;
            let ghost o1 = order@;
            proof {
                if acyclic(ps) {
                    let rank = some_ranking(ps);
                    assert(is_ranking(ps, rank));
                    assert(rank[p as int] < rank[node as int]);
                    assert forall|y: usize|
                        y < ps.len() && #[trigger] v1[y as int] && !o1.contains(y) implies rank[y as int]
                            > rank[p as int] by {
                        if y != node {
                            if !v0[y as int] {
                                assert(o1.contains(y));
                            } else if o0.contains(y) {
                                let k = choose|k: int| 0 <= k < o0.len() && o0[k] == y;
                                assert(o1.subrange(0, o0.len() as int)[k] == o0[k]);
                                assert(o1[k] == y);
                            }
                        }
                    }
                }
            }
            traverse(parents, p, order, visited, Ghost(root), Ghost(inner));
            proof {
                assert(dfs_parents(ps, inner, node, j as int, v1, o1) == dfs_parents(
                    ps,
                    inner,
                    node,
                    j + 1,
                    visited@,
                    order@,
                ));
                lemma_unvisited_monotone(v1, visited@);
                assert(order@.subrange(0, o0.len() as int) =~= o0) by {
                    assert forall|k: int| 0 <= k < o0.len() implies order@[k] == o0[k] by {
                        assert(order@.subrange(0, o1.len() as int)[k] == o1[k]);
                        assert(o1.subrange(0, o0.len() as int)[k] == o0[k]);
                    }
                }
                if order@.contains(node) {
                    let k = choose|k: int| 0 <= k < order@.len() && order@[k] == node;
                    if k < o1.len() {
                        assert(order@.subrange(0, o1.len() as int)[k] == o1[k]);
                        assert(o1.contains(node));
                    } else {
                        assert(!v1[node as int] || v1[node as int]);
                        assert(visited@[node as int] && !v1[node as int]);
                    }
                }
                assert forall|y: usize| y < ps.len() && y != node implies ((#[trigger] visited@[y as int]
                    && !v0[y as int]) <==> (order@.contains(y) && !o0.contains(y))) by {
                    if order@.contains(y) && !o1.contains(y) {
                        assert(visited@[y as int] && !v1[y as int]);
                    }
                    if o1.contains(y) {
                        let k = choose|k: int| 0 <= k < o1.len() && o1[k] == y;
                        assert(order@.subrange(0, o1.len() as int)[k] == o1[k]);
                        assert(order@[k] == y);
                        assert(order@.contains(y));
                        assert(v1[o1[k] as int]);
                    }
                }
                assert forall|k: int| 0 <= k < j + 1 implies visited@[#[trigger] ps[node as int][k] as int] by {
                    if k < j {
                        assert(v1[ps[node as int][k] as int]);
                    }
                }
                if acyclic(ps) {
                    assert forall|k: int| 0 <= k < j + 1 implies order@.contains(
                        #[trigger] ps[node as int][k],
                    ) by {
                        if k < j {
                            let q = ps[node as int][k];
                            assert(o1.contains(q));
                            let m = choose|m: int| 0 <= m < o1.len() && o1[m] == q;
                            assert(order@.subrange(0, o1.len() as int)[m] == o1[m]);
                        }
                    }
                }
            }
        } else {
            proof {
                assert(dfs_parents(ps, inner, node, j as int, visited@, order@) == dfs_parents(
                    ps,
                    inner,
                    node,
                    j + 1,
                    visited@,
                    order@,
                ));
                if acyclic(ps) {
                    let rank = some_ranking(ps);
                    assert(is_ranking(ps, rank));
                    assert(rank[p as int] < rank[node as int]);
                    if !order@.contains(p) {
                        assert(p != node);
                        if !v0[p as int] {
                            assert(order@.contains(p));
                        }
                        if o0.contains(p) {
                            let k = choose|k: int| 0 <= k < o0.len() && o0[k] == p;
                            assert(order@.subrange(0, o0.len() as int)[k] == o0[k]);
                            assert(order@[k] == p);
                        }
                        assert(v0[p as int] && !o0.contains(p));
                        assert(rank[p as int] > rank[node as int]);
                    }
                }
            }
        }
        j = j + 1;
    }
    proof {
        let o = order@;
        assert(forall|k: int| 0 <= k < count ==> visited@[#[trigger] ps[node as int][k] as int]);
    }
    let ghost o2 = order@;
    order.push(node);
    proof {
        assert(dfs_parents(ps, inner, node, count as int, visited@, o2) == (visited@, o2));
        let o = order@;
        assert(o.subrange(0, o2.len() as int) =~= o2);
        assert(o.contains(node)) by {
            assert(o[o2.len() as int] == node);
        }
        assert(o.no_duplicates()) by {
            assert forall|a: int, b: int| 0 <= a < o.len() && 0 <= b < o.len() && a != b implies o[a]
                != o[b] by {
                if a < o2.len() && b < o2.len() {
                    assert(o2[a] != o2[b]);
                } else if a < o2.len() {
                    assert(o2.contains(o2[a]));
                } else if b < o2.len() {
                    assert(o2.contains(o2[b]));
                }
            }
        }
        assert forall|i: int, k: int|
            0 <= i < o.len() && 0 <= k < ps[o[i] as int].len() implies visited@[#[trigger] ps[o[i] as int][k] as int] by {
            if i < o2.len() {
                assert(o2[i] == o[i]);
            }
        }
        if acyclic(ps) {
            assert forall|i: int, k: int|
                0 <= i < o.len() && 0 <= k < ps[o[i] as int].len() implies appears_before(
                o,
                i,
                #[trigger] ps[o[i] as int][k],
            ) by {
                if i < o2.len() {
                    assert(o2[i] == o[i]);
                    assert(appears_before(o2, i, ps[o2[i] as int][k]));
                    let m = choose|m: int| 0 <= m < i && o2[m] == ps[o2[i] as int][k];
                    assert(o[m] == o2[m]);
                } else {
                    let q = ps[node as int][k];
                    assert(o2.contains(q));
                    let m = choose|m: int| 0 <= m < o2.len() && o2[m] == q;
                    assert(o[m] == o2[m]);
                }
            }
        }
        assert forall|y: usize| y < ps.len() implies ((#[trigger] visited@[y as int] && !v0[y as int])
            <==> (o.contains(y) && !o0.contains(y))) by {
            if y == node {
                assert(!o0.contains(node)) by {
                    if o0.contains(node) {
                        let k = choose|k: int| 0 <= k < o0.len() && o0[k] == node;
                        assert(v0[o0[k] as int]);
                    }
                }
            } else {
                if o.contains(y) {
                    let k = choose|k: int| 0 <= k < o.len() && o[k] == y;
                    if k < o2.len() {
                        assert(o2[k] == o[k]);
                        assert(o2.contains(y));
                    }
                }
                if o2.contains(y) {
                    let k = choose|k: int| 0 <= k < o2.len() && o2[k] == y;
                    assert(o[k] == o2[k]);
                    assert(o.contains(y));
                }
            }
        }
    }
}

/// Every node that `root` depends on, `root` included, each once, in an
/// order where every node comes before the nodes it was computed from
/// (when the graph has no cycle): the reverse of the order in which a
/// depth-first search over the parent lists finishes the nodes.
pub fn topological_order(parents: &Vec<Vec<usize>>, root: usize) -> (r: Vec<usize>)
    requires
        well_indexed(parent_lists(parents)),
        root < parents@.len(),
    ensures
        r@ == finish_order(parent_lists(parents), root).reverse(),
        r@.no_duplicates(),
        r@.len() >= 1,
        r@[0] == root,
        forall|x: usize| r@.contains(x) <==> reachable(parent_lists(parents), root, x),
        acyclic(parent_lists(parents)) ==> parents_later(parent_lists(parents), r@),
{
    let ghost ps = parent_lists(parents);
    let n = parents.len();
    let mut visited: Vec<bool> = Vec::new();
    let mut k: usize = 0;
    while k < n
        invariant
            k <= n,
            visited@.len() == k,
            forall|y: int| 0 <= y < k ==> !#[trigger] visited@[y],
        decreases n - k,
    {
        visited.push(false);
        k = k + 1;
    }
    let mut order: Vec<usize> = Vec::new();
    proof {
        assert(is_path(ps, seq![root]));
        assert(seq![root][0] == root);
        assert(reachable(ps, root, root));
    }
    proof {
        lemma_unvisited_none(visited@);
        assert(visited@ =~= Seq::new(ps.len(), |i: int| false));
        assert(order@ =~= Seq::<usize>::empty());
    }
    traverse(parents, root, &mut order, &mut visited, Ghost(root), Ghost(n as nat));
    let ghost o = order@;
    proof {
        assert forall|y: usize| y < ps.len() && #[trigger] visited@[y as int] implies o.contains(y) by {}
        let member = |x: usize| o.contains(x);
        assert forall|x: usize, p: usize|
            #[trigger] member(x) && 0 <= x < ps.len() && ps[x as int].contains(p) implies #[trigger] member(p) by {
            let i = choose|i: int| 0 <= i < o.len() && o[i] == x;
            let j = choose|j: int| 0 <= j < ps[x as int].len() && ps[x as int][j] == p;
            assert(visited@[ps[o[i] as int][j] as int]);
        }
        assert forall|x: usize| reachable(ps, root, x) implies o.contains(x) by {
            lemma_closed_holds_reachable(ps, root, x, member);
        }
        assert forall|x: usize| o.contains(x) implies reachable(ps, root, x) by {
            let i = choose|i: int| 0 <= i < o.len() && o[i] == x;
            assert(visited@[o[i] as int]);
        }
    }
    let mut r: Vec<usize> = Vec::new();
    let mut i: usize = order.len();
    while i > 0
        invariant
            i <= o.len(),
            order@ == o,
            r@ == o.subrange(i as int, o.len() as int).reverse(),
        decreases i,
    {
        i = i - 1;
        r.push(order[i]);
        proof {
            assert(r@ =~= o.subrange(i as int, o.len() as int).reverse());
        }
    }
    proof {
        assert(r@ =~= o.reverse());
        assert(r@[0] == root);
        assert(r@.no_duplicates()) by {
            assert forall|a: int, b: int| 0 <= a < r@.len() && 0 <= b < r@.len() && a != b implies r@[a]
                != r@[b] by {
                assert(r@[a] == o[o.len() - 1 - a]);
                assert(r@[b] == o[o.len() - 1 - b]);
            }
        }
        assert forall|x: usize| r@.contains(x) <==> reachable(ps, root, x) by {
            if r@.contains(x) {
                let a = choose|a: int| 0 <= a < r@.len() && r@[a] == x;
                assert(o[o.len() - 1 - a] == x);
                assert(o.contains(x));
            }
            if reachable(ps, root, x) {
                assert(o.contains(x));
                let a = choose|a: int| 0 <= a < o.len() && o[a] == x;
                assert(r@[o.len() - 1 - a] == x);
            }
        }
        assert forall|x: usize| r@.contains(x) <==> o.contains(x) by {
            if r@.contains(x) {
                let a = choose|a: int| 0 <= a < r@.len() && r@[a] == x;
                assert(o[o.len() - 1 - a] == x);
            }
            if o.contains(x) {
                let a = choose|a: int| 0 <= a < o.len() && o[a] == x;
                assert(r@[o.len() - 1 - a] == x);
            }
        }
        if acyclic(ps) {
            assert forall|i: int, j: int|
                0 <= i < r@.len() && 0 <= j < ps[r@[i] as int].len() implies appears_after(
                r@,
                i,
                #[trigger] ps[r@[i] as int][j],
            ) by {
                let oi = o.len() - 1 - i;
                assert(r@[i] == o[oi]);
                assert(appears_before(o, oi, ps[o[oi] as int][j]));
                let m = choose|m: int| 0 <= m < oi && o[m] == ps[o[oi] as int][j];
                assert(r@[o.len() - 1 - m] == o[m]);
            }
        }
    }
    r
}

/// Appends the drawing of the tree under `node` to `output`.
fn push_tree_text(
    labels: &Vec<String>,
    parents: &Vec<Vec<usize>>,
    node: usize,
    prefix: &String,
    output: &mut String,
)
    requires
        acyclic(parent_lists(parents)),
        well_indexed(parent_lists(parents)),
        node < parents@.len(),
        labels@.len() == parents@.len(),
    ensures
        final(output)@ == old(output)@ + tree_text(parent_lists(parents), texts(labels), node, prefix@),
    decreases some_ranking(parent_lists(parents))[node as int],
{
    let ghost ps = parent_lists(parents);
    let ghost ls = texts(labels);
    let ghost start = output@;
    output.append(labels[node].as_str());
    output.append("\n");
    let count = parents[node].len();
    let mut j: usize = 0;
    while j < count
        invariant
            ps == parent_lists(parents),
            ls == texts(labels),
            acyclic(ps),
            well_indexed(ps),
            node < ps.len(),
            labels@.len() == ps.len(),
            count == ps[node as int].len(),
            j <= count,
            start + tree_text(ps, ls, node, prefix@) == output@ + parents_text(ps, ls, node, j as int, prefix@),
        decreases count - j,
    {
        let p = parents[node][j];
        let last = j + 1 == count;
        let ghost before = output@;
        output.append(prefix.as_str());
        if last {
            output.append("└──");
        } else {
            output.append("├──");
        }
        let mut child = prefix.clone();
        if last {
            child.append("   ");
        } else {
            child.append("|  ");
        }
        proof {
            assert(is_ranking(ps, some_ranking(ps)));
            assert(ps[node as int][j as int] == p);
            assert(p < ps.len());
        }
        let ghost middle = output@;
        push_tree_text(labels, parents, p, &child, output);
        proof {
            let rest = parents_text(ps, ls, node, j + 1, prefix@);
            assert(parents_text(ps, ls, node, j as int, prefix@) == prefix@ + branch(j as int, count as int)
                + tree_text(ps, ls, p, prefix@ + indent(j as int, count as int)) + rest);
            assert(child@ == prefix@ + indent(j as int, count as int));
            assert(middle == before + prefix@ + branch(j as int, count as int));
            assert(output@ + rest =~= before + (prefix@ + branch(j as int, count as int) + tree_text(
                ps,
                ls,
                p,
                child@,
            ) + rest));
        }
        j = j + 1;
    }
    proof {
        assert(parents_text(ps, ls, node, count as int, prefix@) == Seq::<char>::empty());
        assert(output@ + Seq::<char>::empty() =~= output@);
    }
}

/// The computation graph under `root` drawn as a tree, one line per node:
/// the label of the node, then the trees of its parents in list order, each
/// introduced by a branch and indented under it. A node that several others
/// depend on is drawn under each of them.
pub fn computation_graph_string(labels: &Vec<String>, parents: &Vec<Vec<usize>>, root: usize) -> (r: String)
    requires
        acyclic(parent_lists(parents)),
        well_indexed(parent_lists(parents)),
        root < parents@.len(),
        labels@.len() == parents@.len(),
    ensures
        r@ == tree_text(parent_lists(parents), texts(labels), root, Seq::empty()),
{
    let mut output = String::new();
    let prefix = String::new();
    push_tree_text(labels, parents, root, &prefix, &mut output);
    proof {
        assert(prefix@ == Seq::<char>::empty());
        assert(Seq::<char>::empty() + tree_text(parent_lists(parents), texts(labels), root, Seq::empty())
            =~= tree_text(parent_lists(parents), texts(labels), root, Seq::empty()));
    }
    output
}

} // verus!
