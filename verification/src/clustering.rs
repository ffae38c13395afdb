//! Clustering: connected components of the similarity graph, oversized
//! components split by removing their weakest edges, and the selection of the
//! groups that are reported as clusters.
use vstd::prelude::*;
use crate::graph::{
    connected, edge_key, groups_view, is_component_listing, is_walk, step_ok, lemma_closed_set_contains_walk,
    lemma_connected_extend, lemma_connected_self, lemma_connected_symmetric, lemma_connected_trans,
    lemma_linked_symmetric, linked, listed_before, lists_neighbor, neighbors_in_range, strictly_increasing,
    symmetric, component_listing, lemma_component_listing_is, node_range, Adjacency, SimilarityGraph,
};
use crate::types::{estimated_tokens_for, is_hdl_language, FunctionInfo, NormalizedFunction};
use std::collections::HashMap;

verus! {

/// `removed` holds the edge named `key`.
fn contains_edge(removed: &Vec<(usize, usize)>, key: (usize, usize)) -> (r: bool)
    ensures
        r == removed@.contains(key),
{
    let mut i: usize = 0;
    while i < removed.len()
        invariant
            i <= removed@.len(),
            forall|j: int| 0 <= j < i ==> removed@[j] != key,
        decreases removed@.len() - i,
    {
        if removed[i].0 == key.0 && removed[i].1 == key.1 {
            assert(removed@[i as int] == key);
            return true;
        }
        i += 1;
    }
    false
}

/// The members of `v` in increasing order.
fn sort_members(v: &Vec<usize>) -> (r: Vec<usize>)
    requires
        v@.no_duplicates(),
    ensures
        strictly_increasing(r@),
        r@.len() == v@.len(),
        forall|x: usize| r@.contains(x) <==> v@.contains(x),
{
    let mut r: Vec<usize> = Vec::new();
    for i in 0..v.len()
        invariant
            v@.no_duplicates(),
            strictly_increasing(r@),
            r@.len() == i,
            forall|x: usize| r@.contains(x) <==> v@.take(i as int).contains(x),
    {
        let x = v[i];
        let mut j: usize = 0;
        while j < r.len() && r[j] < x
            invariant
                j <= r@.len(),
                forall|a: int| 0 <= a < j ==> r@[a] < x,
            decreases r@.len() - j,
        {
            j += 1;
        }
        proof {
            assert(!v@.take(i as int).contains(x)) by {
                if v@.take(i as int).contains(x) {
                    let k = choose|k: int| 0 <= k < i && v@.take(i as int)[k] == x;
                    assert(v@[k] == v@[i as int]);
                }
            }
            if j < r@.len() {
                assert(r@.contains(r@[j as int]));
                assert(r@[j as int] != x);
            }
        }
        let ghost old_r = r@;
        r.insert(j, x);
        proof {
            old_r.insert_ensures(j as int, x);
            let next = v@.take(i + 1);
            assert(next =~= v@.take(i as int).push(x));
            assert forall|y: usize| r@.contains(y) <==> next.contains(y) by {
                if r@.contains(y) {
                    let k = choose|k: int| 0 <= k < r@.len() && r@[k] == y;
                    if k < j {
                        assert(old_r[k] == y);
                    } else if k > j {
                        assert(old_r[k - 1] == y);
                    }
                }
                if old_r.contains(y) {
                    let k = choose|k: int| 0 <= k < old_r.len() && old_r[k] == y;
                    if k < j {
                        assert(r@[k] == y);
                    } else {
                        assert(r@[k + 1] == y);
                    }
                    assert(v@.take(i as int).contains(y));
                    let m = choose|m: int| 0 <= m < i && v@.take(i as int)[m] == y;
                    assert(next[m] == y);
                }
                if next.contains(y) {
                    let m = choose|m: int| 0 <= m < i + 1 && next[m] == y;
                    if m < i {
                        assert(v@.take(i as int)[m] == y);
                        assert(v@.take(i as int).contains(y));
                    }
                }
                assert(r@[j as int] == x);
                assert(next[i as int] == x);
            }
        }
    }
    assert(v@.take(v@.len() as int) =~= v@);
    r
}

/// Components listed larger first, equal sizes by smallest member.
fn sort_components(comps: Vec<Vec<usize>>) -> (r: Vec<Vec<usize>>)
    requires
        forall|i: int| 0 <= i < comps@.len() ==> (#[trigger] comps@[i])@.len() > 0,
        forall|i: int, j: int| 0 <= i < j < comps@.len() ==> (#[trigger] comps@[i])@[0] != (#[trigger] comps@[j])@[0],
    ensures
        forall|i: int, j: int| 0 <= i < j < r@.len() ==> listed_before(#[trigger] r@[i]@, #[trigger] r@[j]@),
        forall|c: Seq<usize>| groups_view(r@).contains(c) <==> groups_view(comps@).contains(c),
{
    let ghost orig = groups_view(comps@);
    let mut rest = comps;
    let mut r: Vec<Vec<usize>> = Vec::new();
    while rest.len() > 0
        invariant
            forall|i: int| 0 <= i < orig.len() ==> (#[trigger] orig[i]).len() > 0,
            forall|i: int, j: int| 0 <= i < j < orig.len() ==> (#[trigger] orig[i])[0] != (#[trigger] orig[j])[0],
            rest@.len() <= orig.len(),
            groups_view(rest@) == orig.take(rest@.len() as int),
            forall|i: int, j: int| 0 <= i < j < r@.len() ==> listed_before(#[trigger] r@[i]@, #[trigger] r@[j]@),
            forall|i: int| 0 <= i < r@.len() ==> (#[trigger] r@[i])@.len() > 0,
            forall|c: Seq<usize>| groups_view(r@).contains(c) <==> orig.skip(rest@.len() as int).contains(c),
        decreases rest@.len(),
    {
        let ghost k = rest@.len() - 1;
        let ghost old_rest = rest@;
        let c = rest.pop().unwrap();
        proof {
            assert(groups_view(old_rest)[k] == old_rest[k]@);
            assert(groups_view(rest@) =~= orig.take(k));
            assert(c@ == orig[k]);
        }
        let mut j: usize = 0;
        while j < r.len() && (r[j].len() > c.len() || (r[j].len() == c.len() && r[j][0] < c[0]))
            invariant
                j <= r@.len(),
                c@.len() > 0,
                forall|i: int| 0 <= i < r@.len() ==> (#[trigger] r@[i])@.len() > 0,
                forall|a: int| 0 <= a < j ==> listed_before(#[trigger] r@[a]@, c@),
            decreases r@.len() - j,
        {
            j += 1;
        }
        let ghost old_r = r@;
        let ghost tail = orig.skip(k + 1);
        let ghost tailk = orig.skip(k);
        proof {
            if j < old_r.len() {
                assert(groups_view(old_r).contains(old_r[j as int]@)) by {
                    assert(groups_view(old_r)[j as int] == old_r[j as int]@);
                }
                let m = choose|m: int| 0 <= m < tail.len() && tail[m] == old_r[j as int]@;
                assert(orig[k + 1 + m] == old_r[j as int]@);
                assert(orig[k][0] != orig[k + 1 + m][0]);
                assert(listed_before(c@, old_r[j as int]@));
                assert forall|b: int| j < b < old_r.len() implies listed_before(c@, #[trigger] old_r[b]@) by {
                    assert(listed_before(old_r[j as int]@, old_r[b]@));
                }
            }
        }
        r.insert(j, c);
        proof {
            old_r.insert_ensures(j as int, c);
            assert forall|a: int, b: int| 0 <= a < b < r@.len() implies listed_before(#[trigger] r@[a]@, #[trigger] r@[b]@) by {
                if b < j {
                    assert(listed_before(old_r[a]@, old_r[b]@));
                } else if b == j {
                    assert(listed_before(old_r[a]@, c@));
                } else if a < j {
                    assert(listed_before(old_r[a]@, old_r[b - 1]@));
                } else if a == j {
                    assert(listed_before(c@, old_r[b - 1]@));
                } else {
                    assert(listed_before(old_r[a - 1]@, old_r[b - 1]@));
                }
            }
            assert forall|i: int| 0 <= i < r@.len() implies (#[trigger] r@[i])@.len() > 0 by {
                if i < j {
                    assert(r@[i] == old_r[i]);
                } else if i > j {
                    assert(r@[i] == old_r[i - 1]);
                }
            }
            assert forall|x: Seq<usize>| groups_view(r@).contains(x) <==> orig.skip(k).contains(x) by {
                if groups_view(r@).contains(x) {
                    let i = choose|i: int| 0 <= i < groups_view(r@).len() && groups_view(r@)[i] == x;
                    if i < j {
                        assert(groups_view(old_r)[i] == x);
                        assert(groups_view(old_r).contains(x));
                    } else if i > j {
                        assert(groups_view(old_r)[i - 1] == x);
                        assert(groups_view(old_r).contains(x));
                    } else {
                        assert(tailk[0] == x);
                    }
                    if groups_view(old_r).contains(x) {
                        let m = choose|m: int| 0 <= m < tail.len() && tail[m] == x;
                        assert(tailk[m + 1] == x);
                    }
                }
                if orig.skip(k).contains(x) {
                    let m = choose|m: int| 0 <= m < tailk.len() && tailk[m] == x;
                    if m == 0 {
                        assert(groups_view(r@)[j as int] == x);
                    } else {
                        assert(tail[m - 1] == x);
                        assert(groups_view(old_r).contains(x));
                        let i = choose|i: int| 0 <= i < groups_view(old_r).len() && groups_view(old_r)[i] == x;
                        if i < j {
                            assert(groups_view(r@)[i] == x);
                        } else {
                            assert(groups_view(r@)[i + 1] == x);
                        }
                    }
                }
            }
        }
    }
    assert(orig.skip(0) =~= orig);
    r
}

/// The visited nodes are closed under permitted steps: exploration from an
/// unvisited node never meets one of them.
pub open spec fn visited_closed(
    adj: Adjacency,
    nodes: Seq<usize>,
    removed: Seq<(usize, usize)>,
    visited: Seq<bool>,
) -> bool {
    forall|x: usize, y: usize|
        x < visited.len() && y < visited.len() && #[trigger] visited[x as int] && #[trigger] linked(adj, nodes, removed, x, y)
            ==> visited[y as int]
}

/// Breadth-first exploration of the component of `start`, marking what it
/// reaches as visited.
fn explore_component(
    graph: &SimilarityGraph,
    Ghost(nodes): Ghost<Seq<usize>>,
    in_set: &Vec<bool>,
    removed: &Vec<(usize, usize)>,
    visited: &mut Vec<bool>,
    start: usize,
) -> (comp: Vec<usize>)
    requires
        in_set@.len() == graph@.len(),
        old(visited)@.len() == graph@.len(),
        start < graph@.len(),
        forall|x: usize| x < graph@.len() ==> (in_set@[x as int] <==> nodes.contains(x)),
        nodes.contains(start),
        !old(visited)@[start as int],
        visited_closed(graph@, nodes, removed@, old(visited)@),
    ensures
        final(visited)@.len() == graph@.len(),
        forall|x: usize| #![trigger final(visited)@[x as int]] #![trigger comp@.contains(x)] x < graph@.len() ==> (final(visited)@[x as int] <==> (old(visited)@[x as int] || comp@.contains(x))),
        comp@.no_duplicates(),
        comp@.len() > 0,
        comp@[0] == start,
        forall|x: usize| #[trigger] comp@.contains(x) ==> x < graph@.len() && !old(visited)@[x as int] && nodes.contains(x)
            && connected(graph@, nodes, removed@, start, x),
        forall|x: usize, y: usize| #[trigger] comp@.contains(x) && linked(graph@, nodes, removed@, x, y) ==> #[trigger] comp@.contains(y),
{
    proof {
        use_type_invariant(graph);
    }
    let ghost adj = graph@;
    let ghost visited0 = visited@;
    let ghost rem = removed@;
    let mut comp: Vec<usize> = Vec::new();
    comp.push(start);
    visited.set(start, true);
    proof {
        lemma_connected_self(adj, nodes, rem, start);
        assert forall|x: usize| x < adj.len() implies (visited@[x as int] <==> (visited0[x as int] || comp@.contains(x))) by {
            if x == start {
                assert(comp@[0] == x);
            }
        }
    }
    let mut head: usize = 0;
    while head < comp.len()
        invariant
            adj == graph@,
            rem == removed@,
            symmetric(adj),
            neighbors_in_range(adj),
            in_set@.len() == adj.len(),
            visited@.len() == adj.len(),
            visited0.len() == adj.len(),
            start < adj.len(),
            forall|x: usize| x < adj.len() ==> (in_set@[x as int] <==> nodes.contains(x)),
            !visited0[start as int],
            visited_closed(adj, nodes, rem, visited0),
            forall|x: usize| x < adj.len() ==> (visited@[x as int] <==> (visited0[x as int] || comp@.contains(x))),
            comp@.no_duplicates(),
            comp@.len() > 0,
            comp@[0] == start,
            head <= comp@.len(),
            forall|x: usize| #[trigger] comp@.contains(x) ==> x < adj.len() && !visited0[x as int] && nodes.contains(x)
                && connected(adj, nodes, rem, start, x),
            forall|i: int, y: usize| 0 <= i < head && #[trigger] linked(adj, nodes, rem, comp@[i], y) ==> comp@.contains(y),
        decreases adj.len() - comp@.len(), comp@.len() - head,
    {
        proof {
            assert forall|i: int| 0 <= i < comp@.len() implies comp@[i] < adj.len() by {
                assert(comp@.contains(comp@[i]));
            }
            crate::graph::lemma_distinct_nodes_bounded(comp@, adj.len());
        }
        let node = comp[head];
        proof {
            assert(comp@.contains(node));
        }
        let neighbors = graph.neighbors(node);
        let ghost comp_before = comp@;
        for k in 0..neighbors.len()
            invariant
                adj == graph@,
                rem == removed@,
                symmetric(adj),
                neighbors_in_range(adj),
                node < adj.len(),
                neighbors@ == adj[node as int],
                in_set@.len() == adj.len(),
                visited@.len() == adj.len(),
                visited0.len() == adj.len(),
                start < adj.len(),
                forall|x: usize| x < adj.len() ==> (in_set@[x as int] <==> nodes.contains(x)),
                !visited0[start as int],
                !visited0[node as int],
                nodes.contains(node),
                connected(adj, nodes, rem, start, node),
                visited_closed(adj, nodes, rem, visited0),
                forall|x: usize| x < adj.len() ==> (visited@[x as int] <==> (visited0[x as int] || comp@.contains(x))),
                comp@.no_duplicates(),
                comp@.len() >= comp_before.len(),
                forall|i: int| 0 <= i < comp_before.len() ==> comp@[i] == comp_before[i],
                forall|x: usize| #[trigger] comp@.contains(x) ==> x < adj.len() && !visited0[x as int] && nodes.contains(x)
                    && connected(adj, nodes, rem, start, x),
                forall|j: int| 0 <= j < k && linked(adj, nodes, rem, node, (#[trigger] neighbors@[j]).0) ==> comp@.contains(neighbors@[j].0),
        {
            let nb = neighbors[k].0;
            proof {
                assert(nb < adj.len());
            }
            let ghost comp_k = comp@;
            if !visited[nb] && in_set[nb] {
                let key = if node <= nb { (node, nb) } else { (nb, node) };
                if !contains_edge(removed, key) {
                    proof {
                        assert(key == edge_key(node, nb));
                        assert(lists_neighbor(adj, node, nb)) by {
                            assert(adj[node as int][k as int].0 == nb);
                        }
                        assert(linked(adj, nodes, rem, node, nb));
                        lemma_connected_extend(adj, nodes, rem, start, node, nb);
                    }
                    visited.set(nb, true);
                    comp.push(nb);
                    proof {
                        assert(comp@.contains(nb)) by {
                            assert(comp@[comp@.len() - 1] == nb);
                        }
                        assert forall|x: usize| #[trigger] comp@.contains(x) implies x < adj.len() && !visited0[x as int]
                            && nodes.contains(x) && connected(adj, nodes, rem, start, x) by {
                            if x != nb {
                                let i = choose|i: int| 0 <= i < comp@.len() && comp@[i] == x;
                                assert(comp_k[i] == x);
                                assert(comp_k.contains(x));
                            }
                        }
                        assert forall|x: usize| x < adj.len() implies (visited@[x as int] <==> (visited0[x as int] || comp@.contains(x))) by {
                            if comp_k.contains(x) {
                                let i = choose|i: int| 0 <= i < comp_k.len() && comp_k[i] == x;
                                assert(comp@[i] == x);
                            }
                            if comp@.contains(x) && x != nb {
                                let i = choose|i: int| 0 <= i < comp@.len() && comp@[i] == x;
                                assert(comp_k[i] == x);
                            }
                        }
                    }
                }
            }
            proof {
                assert forall|x: usize| comp_k.contains(x) implies comp@.contains(x) by {
                    let i = choose|i: int| 0 <= i < comp_k.len() && comp_k[i] == x;
                    assert(comp@[i] == x);
                }
                if linked(adj, nodes, rem, node, nb) {
                    if !comp@.contains(nb) {
                        // nb was visited before this exploration; the visited set is
                        // closed, so node would have been visited too
                        assert(visited0[nb as int]);
                        lemma_linked_symmetric(adj, nodes, rem, node, nb);
                        assert(visited0[node as int]);
                    }
                }
            }
        }
        proof {
            assert forall|i: int, y: usize| 0 <= i < head + 1 && #[trigger] linked(adj, nodes, rem, comp@[i], y) implies comp@.contains(y) by {
                if i < head {
                    assert(comp@[i] == comp_before[i]);
                    assert(comp_before.contains(y));
                    let m = choose|m: int| 0 <= m < comp_before.len() && comp_before[m] == y;
                    assert(comp@[m] == y);
                } else {
                    assert(comp@[i] == node);
                    let k2 = choose|k2: int| 0 <= k2 < adj[node as int].len() && #[trigger] adj[node as int][k2].0 == y;
                    assert(neighbors@[k2].0 == y);
                    assert(linked(adj, nodes, rem, node, neighbors@[k2].0));
                }
            }
        }
        head += 1;
        proof {
            assert forall|i: int| 0 <= i < comp@.len() implies comp@[i] < adj.len() by {
                assert(comp@.contains(comp@[i]));
            }
            crate::graph::lemma_distinct_nodes_bounded(comp@, adj.len());
        }
    }
    proof {
        assert forall|x: usize, y: usize| #[trigger] comp@.contains(x) && linked(adj, nodes, rem, x, y) implies #[trigger] comp@.contains(y) by {
            let i = choose|i: int| 0 <= i < comp@.len() && comp@[i] == x;
            assert(linked(adj, nodes, rem, comp@[i], y));
        }
    }
    comp
}

/// The nodes of `comps` are exactly the visited ones (graph nodes marked in
/// `visited`, the others listed in `outside`), every listed group is a whole
/// component, and the groups do not overlap.
pub open spec fn partial_listing(
    adj: Adjacency,
    nodes: Seq<usize>,
    removed: Seq<(usize, usize)>,
    visited: Seq<bool>,
    outside: Seq<usize>,
    comps: Seq<Seq<usize>>,
) -> bool {
    &&& forall|x: usize| x < visited.len() ==> (visited[x as int] <==> exists|c: int| 0 <= c < comps.len() && #[trigger] comps[c].contains(x))
    &&& forall|x: usize| x >= visited.len() ==> (outside.contains(x) <==> exists|c: int| 0 <= c < comps.len() && #[trigger] comps[c].contains(x))
    &&& forall|c: int| 0 <= c < comps.len() ==> (#[trigger] comps[c]).len() > 0 && strictly_increasing(comps[c])
    &&& forall|c: int, x: usize| 0 <= c < comps.len() && #[trigger] comps[c].contains(x) ==> nodes.contains(x)
    &&& forall|c: int, x: usize, y: usize|
        0 <= c < comps.len() && #[trigger] comps[c].contains(x) && nodes.contains(y) ==> (#[trigger] comps[c].contains(y)
            <==> connected(adj, nodes, removed, x, y))
    &&& forall|c: int, d: int, x: usize| 0 <= c < comps.len() && 0 <= d < comps.len() && c != d && #[trigger] comps[c].contains(x)
        ==> !(#[trigger] comps[d].contains(x))
}

/// The connected components of the subgraph on `nodes`, ignoring the
/// `removed` edges: each with its members in increasing order, larger
/// components first and equal sizes by smallest member. A node that is not
/// in the graph has no edges and forms a component of its own.
pub fn bfs_components(nodes: &[usize], graph: &SimilarityGraph, removed: &Vec<(usize, usize)>) -> (components: Vec<Vec<usize>>)
    ensures
        is_component_listing(groups_view(components@), graph@, nodes@, removed@),
{
    proof {
        use_type_invariant(graph);
    }
    let ghost adj = graph@;
    let ghost rem = removed@;
    let n = graph.node_count();
    let mut in_set: Vec<bool> = vec![false; n];
    for i in 0..nodes.len()
        invariant
            n == adj.len(),
            in_set@.len() == n,
            forall|x: usize| x < n ==> (in_set@[x as int] <==> nodes@.take(i as int).contains(x)),
    {
        if nodes[i] < n {
            in_set.set(nodes[i], true);
        }
        proof {
            let next = nodes@.take(i + 1);
            assert(next =~= nodes@.take(i as int).push(nodes@[i as int]));
            assert forall|x: usize| x < n implies (in_set@[x as int] <==> next.contains(x)) by {
                if x == nodes@[i as int] {
                    assert(next[i as int] == x);
                } else if next.contains(x) {
                    let j = choose|j: int| 0 <= j < next.len() && next[j] == x;
                    assert(nodes@.take(i as int)[j] == x);
                } else if nodes@.take(i as int).contains(x) {
                    let j = choose|j: int| 0 <= j < i && nodes@.take(i as int)[j] == x;
                    assert(next[j] == x);
                }
            }
        }
    }
    proof {
        assert(nodes@.take(nodes@.len() as int) =~= nodes@);
    }
    let mut visited: Vec<bool> = vec![false; n];
    let mut outside: Vec<usize> = Vec::new();
    let mut comps: Vec<Vec<usize>> = Vec::new();
    proof {
        assert(groups_view(comps@) =~= Seq::<Seq<usize>>::empty());
    }
    for s in 0..nodes.len()
        invariant
            adj == graph@,
            rem == removed@,
            n == adj.len(),
            symmetric(adj),
            neighbors_in_range(adj),
            in_set@.len() == n,
            forall|x: usize| x < n ==> (in_set@[x as int] <==> nodes@.contains(x)),
            visited@.len() == n,
            visited_closed(adj, nodes@, rem, visited@),
            partial_listing(adj, nodes@, rem, visited@, outside@, groups_view(comps@)),
            forall|j: int| 0 <= j < s ==> if nodes@[j] < n { visited@[nodes@[j] as int] } else { outside@.contains(nodes@[j]) },
    {
        let start = nodes[s];
        if start >= n {
            if !contains_node(&outside, start) {
                let ghost before = groups_view(comps@);
                let ghost outside_before = outside@;
                proof {
                    assert(nodes@.contains(start)) by {
                        assert(nodes@[s as int] == start);
                    }
                    lemma_partial_listing_push_outside(adj, nodes@, rem, visited@, outside@, before, start);
                }
                let single: Vec<usize> = vec![start];
                comps.push(single);
                outside.push(start);
                proof {
                    assert(single@ =~= seq![start]);
                    assert(groups_view(comps@) =~= before.push(seq![start]));
                    assert(outside@ =~= outside_before.push(start));
                    assert(outside@[outside_before.len() as int] == start);
                    assert forall|j: int| 0 <= j < s && nodes@[j] >= n implies outside@.contains(nodes@[j]) by {
                        let m = choose|m: int| 0 <= m < outside_before.len() && outside_before[m] == nodes@[j];
                        assert(outside@[m] == nodes@[j]);
                    }
                }
            }
        } else if !visited[start] {
            let ghost visited_before = visited@;
            let ghost before = groups_view(comps@);
            proof {
                assert(nodes@.contains(start)) by {
                    assert(nodes@[s as int] == start);
                }
            }
            let comp = explore_component(graph, Ghost(nodes@), &in_set, removed, &mut visited, start);
            proof {
                lemma_explored_component_is_class(adj, nodes@, rem, start, comp@);
                assert forall|x: usize, y: usize|
                    x < visited@.len() && y < visited@.len() && #[trigger] visited@[x as int] && #[trigger] linked(adj, nodes@, rem, x, y)
                    implies visited@[y as int] by {
                    if visited_before[x as int] {
                        assert(visited_before[y as int]);
                    } else {
                        assert(comp@.contains(x));
                        assert(comp@.contains(y));
                    }
                }
            }
            let sorted = sort_members(&comp);
            comps.push(sorted);
            proof {
                let after = groups_view(comps@);
                assert(after =~= before.push(sorted@));
                lemma_partial_listing_push(adj, nodes@, rem, visited_before, visited@, outside@, before, comp@, sorted@);
            }
        }
    }
    proof {
        let g = groups_view(comps@);
        assert forall|c: int, d: int| 0 <= c < d < comps@.len() implies (#[trigger] comps@[c])@[0] != (#[trigger] comps@[d])@[0] by {
            assert(g[c] == comps@[c]@);
            assert(g[d] == comps@[d]@);
            assert(g[c].len() > 0);
            assert(g[c].contains(g[c][0]));
            assert(g[d].len() > 0);
            assert(g[d].contains(g[d][0]));
        }
        assert forall|c: int| 0 <= c < comps@.len() implies (#[trigger] comps@[c])@.len() > 0 by {
            assert(g[c] == comps@[c]@);
        }
    }
    let components = sort_components(comps);
    proof {
        let g = groups_view(comps@);
        let p = groups_view(components@);
        assert forall|x: usize| nodes@.contains(x) implies if x < visited@.len() { visited@[x as int] } else { outside@.contains(x) } by {
            let j = choose|j: int| 0 <= j < nodes@.len() && nodes@[j] == x;
        }
        lemma_listing_from_partial(adj, nodes@, rem, visited@, outside@, g, p);
    }
    components
}

/// What an exploration reaches is exactly the class of each of its members.
proof fn lemma_explored_component_is_class(
    adj: Adjacency,
    nodes: Seq<usize>,
    removed: Seq<(usize, usize)>,
    start: usize,
    comp: Seq<usize>,
)
    requires
        symmetric(adj),
        nodes.contains(start),
        forall|x: usize| #[trigger] comp.contains(x) ==> nodes.contains(x) && connected(adj, nodes, removed, start, x),
        forall|x: usize, y: usize| #[trigger] comp.contains(x) && linked(adj, nodes, removed, x, y) ==> #[trigger] comp.contains(y),
    ensures
        forall|x: usize, y: usize| #[trigger] comp.contains(x) && nodes.contains(y) ==> (#[trigger] comp.contains(y)
            <==> connected(adj, nodes, removed, x, y)),
{
    assert forall|x: usize, y: usize| #[trigger] comp.contains(x) && nodes.contains(y) implies (#[trigger] comp.contains(y)
        <==> connected(adj, nodes, removed, x, y)) by {
        if comp.contains(y) {
            lemma_connected_symmetric(adj, nodes, removed, start, x);
            lemma_connected_trans(adj, nodes, removed, x, start, y);
        }
        if connected(adj, nodes, removed, x, y) {
            let w = choose|w: Seq<usize>| #[trigger] is_walk(adj, nodes, removed, w) && w[0] == x && w[w.len() - 1] == y;
            lemma_closed_set_contains_walk(adj, nodes, removed, comp, w);
        }
    }
}

proof fn lemma_partial_listing_push(
    adj: Adjacency,
    nodes: Seq<usize>,
    removed: Seq<(usize, usize)>,
    visited_before: Seq<bool>,
    visited: Seq<bool>,
    outside: Seq<usize>,
    before: Seq<Seq<usize>>,
    comp: Seq<usize>,
    sorted: Seq<usize>,
)
    requires
        partial_listing(adj, nodes, removed, visited_before, outside, before),
        visited.len() == visited_before.len(),
        forall|x: usize| x < visited.len() ==> (visited[x as int] <==> (visited_before[x as int] || comp.contains(x))),
        comp.len() > 0,
        forall|x: usize| #[trigger] comp.contains(x) ==> x < visited.len() && !visited_before[x as int] && nodes.contains(x),
        forall|x: usize, y: usize| #[trigger] comp.contains(x) && nodes.contains(y) ==> (#[trigger] comp.contains(y)
            <==> connected(adj, nodes, removed, x, y)),
        strictly_increasing(sorted),
        sorted.len() == comp.len(),
        forall|x: usize| sorted.contains(x) <==> comp.contains(x),
    ensures
        partial_listing(adj, nodes, removed, visited, outside, before.push(sorted)),
{
    let after = before.push(sorted);
    let k = before.len() as int;
    assert(after[k] == sorted);
    assert forall|x: usize| x < visited.len() implies (visited[x as int] <==> exists|c: int| 0 <= c < after.len() && #[trigger] after[c].contains(x)) by {
        if visited_before[x as int] {
            let c = choose|c: int| 0 <= c < before.len() && #[trigger] before[c].contains(x);
            assert(after[c] == before[c]);
        } else if comp.contains(x) {
            assert(after[k].contains(x));
        }
        if exists|c: int| 0 <= c < after.len() && #[trigger] after[c].contains(x) {
            let c = choose|c: int| 0 <= c < after.len() && #[trigger] after[c].contains(x);
            if c < k {
                assert(before[c] == after[c]);
            }
        }
    }
    assert forall|x: usize| x >= visited.len() implies (outside.contains(x) <==> exists|c: int| 0 <= c < after.len() && #[trigger] after[c].contains(x)) by {
        if outside.contains(x) {
            let c = choose|c: int| 0 <= c < before.len() && #[trigger] before[c].contains(x);
            assert(after[c] == before[c]);
        }
        if exists|c: int| 0 <= c < after.len() && #[trigger] after[c].contains(x) {
            let c = choose|c: int| 0 <= c < after.len() && #[trigger] after[c].contains(x);
            if c < k {
                assert(before[c] == after[c]);
            } else {
                assert(comp.contains(x));
            }
        }
    }
    assert forall|c: int| 0 <= c < after.len() implies (#[trigger] after[c]).len() > 0 && strictly_increasing(after[c]) by {
        if c < k {
            assert(before[c] == after[c]);
        }
    }
    assert forall|c: int, x: usize| 0 <= c < after.len() && #[trigger] after[c].contains(x) implies nodes.contains(x) by {
        if c < k {
            assert(before[c] == after[c]);
        }
    }
    assert forall|c: int, x: usize, y: usize|
        0 <= c < after.len() && #[trigger] after[c].contains(x) && nodes.contains(y) implies (#[trigger] after[c].contains(y)
            <==> connected(adj, nodes, removed, x, y)) by {
        if c < k {
            assert(before[c] == after[c]);
            assert(before[c].contains(x));
        } else {
            assert(comp.contains(x));
        }
    }
    assert forall|c: int, d: int, x: usize| 0 <= c < after.len() && 0 <= d < after.len() && c != d && #[trigger] after[c].contains(x)
        implies !(#[trigger] after[d].contains(x)) by {
        if c < k && d < k {
            assert(before[c] == after[c]);
            assert(before[d] == after[d]);
            assert(before[c].contains(x));
        } else if c < k {
            assert(before[c] == after[c]);
            assert(before[c].contains(x));
            if after[d].contains(x) {
                assert(sorted.contains(x));
                assert(comp.contains(x));
                assert(visited_before[x as int]);
            }
        } else {
            assert(before[d] == after[d]);
            assert(comp.contains(x));
            if before[d].contains(x) {
                assert(visited_before[x as int]);
            }
        }
    }
}

/// A node outside the graph reaches nothing but itself.
proof fn lemma_outside_connected(adj: Adjacency, nodes: Seq<usize>, removed: Seq<(usize, usize)>, x: usize, y: usize)
    requires
        x >= adj.len(),
        connected(adj, nodes, removed, x, y),
    ensures
        y == x,
{
    let w = choose|w: Seq<usize>| #[trigger] is_walk(adj, nodes, removed, w) && w[0] == x && w[w.len() - 1] == y;
    if w.len() > 1 {
        assert(step_ok(adj, nodes, removed, w, 0));
    }
}

proof fn lemma_partial_listing_push_outside(
    adj: Adjacency,
    nodes: Seq<usize>,
    removed: Seq<(usize, usize)>,
    visited: Seq<bool>,
    outside: Seq<usize>,
    before: Seq<Seq<usize>>,
    x: usize,
)
    requires
        partial_listing(adj, nodes, removed, visited, outside, before),
        visited.len() == adj.len(),
        x >= adj.len(),
        nodes.contains(x),
        !outside.contains(x),
    ensures
        partial_listing(adj, nodes, removed, visited, outside.push(x), before.push(seq![x])),
{
    let after = before.push(seq![x]);
    let out = outside.push(x);
    let k = before.len() as int;
    assert(after[k] == seq![x]);
    assert(seq![x].contains(x)) by {
        assert(seq![x][0] == x);
    }
    assert forall|z: usize| z < visited.len() implies (visited[z as int] <==> exists|c: int| 0 <= c < after.len() && #[trigger] after[c].contains(z)) by {
        if visited[z as int] {
            let c = choose|c: int| 0 <= c < before.len() && #[trigger] before[c].contains(z);
            assert(after[c] == before[c]);
        }
        if exists|c: int| 0 <= c < after.len() && #[trigger] after[c].contains(z) {
            let c = choose|c: int| 0 <= c < after.len() && #[trigger] after[c].contains(z);
            if c < k {
                assert(before[c] == after[c]);
            }
        }
    }
    assert forall|z: usize| z >= visited.len() implies (out.contains(z) <==> exists|c: int| 0 <= c < after.len() && #[trigger] after[c].contains(z)) by {
        if z == x {
            assert(out[outside.len() as int] == z);
        } else {
            if out.contains(z) {
                let i = choose|i: int| 0 <= i < out.len() && out[i] == z;
                assert(outside[i] == z);
                assert(outside.contains(z));
                let c = choose|c: int| 0 <= c < before.len() && #[trigger] before[c].contains(z);
                assert(after[c] == before[c]);
            }
            if exists|c: int| 0 <= c < after.len() && #[trigger] after[c].contains(z) {
                let c = choose|c: int| 0 <= c < after.len() && #[trigger] after[c].contains(z);
                if c < k {
                    assert(before[c] == after[c]);
                    assert(before[c].contains(z));
                    assert(outside.contains(z));
                    let i = choose|i: int| 0 <= i < outside.len() && outside[i] == z;
                    assert(out[i] == z);
                }
            }
        }
    }
    assert forall|c: int| 0 <= c < after.len() implies (#[trigger] after[c]).len() > 0 && strictly_increasing(after[c]) by {
        if c < k {
            assert(before[c] == after[c]);
        }
    }
    assert forall|c: int, z: usize| 0 <= c < after.len() && #[trigger] after[c].contains(z) implies nodes.contains(z) by {
        if c < k {
            assert(before[c] == after[c]);
        }
    }
    assert forall|c: int, a: usize, y: usize|
        0 <= c < after.len() && #[trigger] after[c].contains(a) && nodes.contains(y) implies (#[trigger] after[c].contains(y)
            <==> connected(adj, nodes, removed, a, y)) by {
        if c < k {
            assert(before[c] == after[c]);
            assert(before[c].contains(a));
        } else {
            assert(a == x);
            if y == x {
                lemma_connected_self(adj, nodes, removed, x);
            } else if connected(adj, nodes, removed, a, y) {
                lemma_outside_connected(adj, nodes, removed, x, y);
            }
        }
    }
    assert forall|c: int, d: int, z: usize| 0 <= c < after.len() && 0 <= d < after.len() && c != d && #[trigger] after[c].contains(z)
        implies !(#[trigger] after[d].contains(z)) by {
        if c < k && d < k {
            assert(before[c] == after[c]);
            assert(before[d] == after[d]);
            assert(before[c].contains(z));
        } else if c < k {
            assert(before[c] == after[c]);
            assert(before[c].contains(z));
            if after[d].contains(z) {
                assert(z == x);
            }
        } else {
            assert(before[d] == after[d]);
            assert(z == x);
        }
    }
}

proof fn lemma_listing_from_partial(
    adj: Adjacency,
    nodes: Seq<usize>,
    removed: Seq<(usize, usize)>,
    visited: Seq<bool>,
    outside: Seq<usize>,
    g: Seq<Seq<usize>>,
    p: Seq<Seq<usize>>,
)
    requires
        partial_listing(adj, nodes, removed, visited, outside, g),
        forall|x: usize| nodes.contains(x) ==> if x < visited.len() { visited[x as int] } else { outside.contains(x) },
        forall|c: Seq<usize>| p.contains(c) <==> g.contains(c),
        forall|i: int, j: int| 0 <= i < j < p.len() ==> listed_before(#[trigger] p[i], #[trigger] p[j]),
    ensures
        is_component_listing(p, adj, nodes, removed),
{
    assert forall|i: int| 0 <= i < p.len() implies exists|c: int| 0 <= c < g.len() && #[trigger] g[c] == #[trigger] p[i] by {
        assert(p.contains(p[i]));
        assert(g.contains(p[i]));
    }
    assert forall|i: int| 0 <= i < p.len() implies (#[trigger] p[i]).len() > 0 && strictly_increasing(p[i]) by {
        let c = choose|c: int| 0 <= c < g.len() && #[trigger] g[c] == p[i];
    }
    assert forall|i: int, x: usize| 0 <= i < p.len() && #[trigger] p[i].contains(x) implies nodes.contains(x) by {
        let c = choose|c: int| 0 <= c < g.len() && #[trigger] g[c] == p[i];
        assert(g[c].contains(x));
    }
    assert forall|x: usize| #[trigger] nodes.contains(x) implies exists|i: int| 0 <= i < p.len() && #[trigger] p[i].contains(x) by {
        if x < visited.len() {
            assert(visited[x as int]);
        } else {
            assert(outside.contains(x));
        }
        let c = choose|c: int| 0 <= c < g.len() && #[trigger] g[c].contains(x);
        assert(g.contains(g[c]));
        assert(p.contains(g[c]));
        let i = choose|i: int| 0 <= i < p.len() && p[i] == g[c];
        assert(p[i].contains(x));
    }
    assert forall|i: int, x: usize, y: usize|
        0 <= i < p.len() && #[trigger] p[i].contains(x) && nodes.contains(y) implies (#[trigger] p[i].contains(y)
            <==> connected(adj, nodes, removed, x, y)) by {
        let c = choose|c: int| 0 <= c < g.len() && #[trigger] g[c] == p[i];
        assert(g[c].contains(x));
    }
}

// ─── Splitting oversized components ──────────────────────────────────────

/// Maximum cluster size — prevents meaningless mega-clusters.
pub const MAX_CLUSTER_SIZE: usize = 20;

/// An edge inside a component: smaller endpoint, larger endpoint, weight key.
pub type ComponentEdge = (usize, usize, u64);

/// The edges from `u` to later-numbered members of `component`, in the order
/// of `u`'s adjacency list.
pub open spec fn member_edges(adj: Adjacency, component: Seq<usize>, u: usize) -> Seq<ComponentEdge> {
    if u < adj.len() {
        adj[u as int].filter_map(
            |e: (usize, u64)|
                if component.contains(e.0) && u < e.0 {
                    Some((u, e.0, e.1))
                } else {
                    None
                },
        )
    } else {
        Seq::empty()
    }
}

/// The edges inside `component`, member by member: each edge is listed at
/// its smaller endpoint, once for every place that endpoint takes in
/// `component`.
pub open spec fn component_edges(adj: Adjacency, component: Seq<usize>) -> Seq<ComponentEdge> {
    component.flat_map(|u: usize| member_edges(adj, component, u))
}

/// `e` placed into the weight-sorted `sorted` after every edge that does not
/// weigh more.
pub open spec fn insert_by_weight(sorted: Seq<ComponentEdge>, e: ComponentEdge) -> Seq<ComponentEdge>
    decreases sorted.len(),
{
    if sorted.len() == 0 || sorted.last().2 <= e.2 {
        sorted.push(e)
    } else {
        insert_by_weight(sorted.drop_last(), e).push(sorted.last())
    }
}

/// The edges weakest first; edges of equal weight keep their order (a
/// stable sort).
pub open spec fn sort_by_weight(s: Seq<ComponentEdge>) -> Seq<ComponentEdge>
    decreases s.len(),
{
    if s.len() == 0 {
        s
    } else {
        insert_by_weight(sort_by_weight(s.drop_last()), s.last())
    }
}

/// The names of the given edges.
pub open spec fn edge_names(edges: Seq<ComponentEdge>) -> Seq<(usize, usize)> {
    edges.map_values(|e: ComponentEdge| (e.0, e.1))
}

/// No group is larger than `max_size`.
pub open spec fn all_fit(groups: Seq<Seq<usize>>, max_size: int) -> bool {
    forall|i: int| 0 <= i < groups.len() ==> (#[trigger] groups[i]).len() <= max_size
}

/// The components once the `removed` weakest edges (and, while that is not
/// enough, one more each time) are gone: the first listing that fits, or the
/// listing without any of the edges.
pub open spec fn split_after(
    adj: Adjacency,
    component: Seq<usize>,
    weakest_first: Seq<ComponentEdge>,
    max_size: int,
    removed: nat,
) -> Seq<Seq<usize>>
    decreases weakest_first.len() - removed,
{
    let groups = component_listing(adj, component, edge_names(weakest_first.take(removed as int)));
    if all_fit(groups, max_size) || removed >= weakest_first.len() {
        groups
    } else {
        split_after(adj, component, weakest_first, max_size, removed + 1)
    }
}

/// A component that fits stays whole; a larger one loses its weakest edges,
/// one at a time, until every remaining component fits (or no edge is left).
pub open spec fn split_groups(adj: Adjacency, component: Seq<usize>, max_size: int) -> Seq<Seq<usize>> {
    if component.len() <= max_size {
        seq![component]
    } else {
        split_after(adj, component, sort_by_weight(component_edges(adj, component)), max_size, 0)
    }
}

proof fn lemma_filter_map_keeps<A, B>(s: Seq<A>, f: spec_fn(A) -> Option<B>, k: int, v: B)
    requires
        0 <= k < s.len(),
        f(s[k]) == Some(v),
    ensures
        s.filter_map(f).contains(v),
    decreases s.len(),
{
    let rest = s.drop_last();
    let fm = s.filter_map(f);
    if k == s.len() - 1 {
        assert(fm == rest.filter_map(f) + seq![v]);
        assert(fm[fm.len() - 1] == v);
    } else {
        lemma_filter_map_keeps(rest, f, k, v);
        let rf = rest.filter_map(f);
        let i = choose|i: int| 0 <= i < rf.len() && rf[i] == v;
        match f(s.last()) {
            Some(t) => {
                assert(fm == rf + seq![t]);
            },
            None => {
                assert(fm == rf);
            },
        }
        assert(fm[i] == v);
    }
}

proof fn lemma_flat_map_has<A, B>(s: Seq<A>, f: spec_fn(A) -> Seq<B>, k: int, e: B)
    requires
        0 <= k < s.len(),
        f(s[k]).contains(e),
    ensures
        s.flat_map(f).contains(e),
    decreases s.len(),
{
    let rest = s.drop_last();
    assert(s =~= rest.push(s.last()));
    rest.lemma_flat_map_push(f, s.last());
    let whole = s.flat_map(f);
    let head = rest.flat_map(f);
    assert(whole =~= head + f(s.last()));
    if k == s.len() - 1 {
        let fk = f(s[k]);
        let i = choose|i: int| 0 <= i < fk.len() && fk[i] == e;
        assert(whole[head.len() + i] == e);
    } else {
        assert(rest[k] == s[k]);
        lemma_flat_map_has(rest, f, k, e);
        let i = choose|i: int| 0 <= i < head.len() && head[i] == e;
        assert(whole[i] == e);
    }
}

proof fn lemma_insert_by_weight_contains(s: Seq<ComponentEdge>, e: ComponentEdge, x: ComponentEdge)
    ensures
        insert_by_weight(s, e).contains(x) <==> (s.contains(x) || x == e),
    decreases s.len(),
{
    let r = insert_by_weight(s, e);
    if s.len() == 0 || s.last().2 <= e.2 {
        assert(r == s.push(e));
        if s.contains(x) {
            let i = choose|i: int| 0 <= i < s.len() && s[i] == x;
            assert(r[i] == x);
        }
        if x == e {
            assert(r[s.len() as int] == x);
        }
        if r.contains(x) {
            let i = choose|i: int| 0 <= i < r.len() && r[i] == x;
            if i < s.len() {
                assert(s[i] == x);
            }
        }
    } else {
        let rest = s.drop_last();
        lemma_insert_by_weight_contains(rest, e, x);
        let inner = insert_by_weight(rest, e);
        assert(r == inner.push(s.last()));
        assert(s =~= rest.push(s.last()));
        if s.contains(x) {
            let i = choose|i: int| 0 <= i < s.len() && s[i] == x;
            if i == s.len() - 1 {
                assert(r[inner.len() as int] == x);
            } else {
                assert(rest[i] == x);
                let j = choose|j: int| 0 <= j < inner.len() && inner[j] == x;
                assert(r[j] == x);
            }
        }
        if x == e {
            let j = choose|j: int| 0 <= j < inner.len() && inner[j] == x;
            assert(r[j] == x);
        }
        if r.contains(x) {
            let i = choose|i: int| 0 <= i < r.len() && r[i] == x;
            if i < inner.len() {
                assert(inner[i] == x);
                if rest.contains(x) {
                    let j = choose|j: int| 0 <= j < rest.len() && rest[j] == x;
                    assert(s[j] == x);
                }
            } else {
                assert(s[s.len() - 1] == x);
            }
        }
    }
}

proof fn lemma_sort_by_weight_contains(s: Seq<ComponentEdge>, x: ComponentEdge)
    ensures
        sort_by_weight(s).contains(x) <==> s.contains(x),
    decreases s.len(),
{
    if s.len() > 0 {
        let rest = s.drop_last();
        lemma_sort_by_weight_contains(rest, x);
        lemma_insert_by_weight_contains(sort_by_weight(rest), s.last(), x);
        assert(s =~= rest.push(s.last()));
        if s.contains(x) {
            let i = choose|i: int| 0 <= i < s.len() && s[i] == x;
            if i < s.len() - 1 {
                assert(rest[i] == x);
            }
        }
        if rest.contains(x) {
            let i = choose|i: int| 0 <= i < rest.len() && rest[i] == x;
            assert(s[i] == x);
        }
    }
}

/// Every edge between two members is among the component's edges, so it is
/// named once all of them are removed.
proof fn lemma_edge_named(adj: Adjacency, component: Seq<usize>, x: usize, y: usize)
    requires
        symmetric(adj),
        component.contains(x),
        component.contains(y),
        x != y,
        lists_neighbor(adj, x, y),
    ensures
        edge_names(sort_by_weight(component_edges(adj, component))).contains(edge_key(x, y)),
{
    let (u, v) = edge_key(x, y);
    assert(lists_neighbor(adj, u, v));
    let k = choose|k: int| 0 <= k < adj[u as int].len() && #[trigger] adj[u as int][k].0 == v;
    let w = adj[u as int][k].1;
    let g = |e: (usize, u64)|
        if component.contains(e.0) && u < e.0 {
            Some((u, e.0, e.1))
        } else {
            None
        };
    assert(g(adj[u as int][k]) == Some((u, v, w)));
    lemma_filter_map_keeps(adj[u as int], g, k, (u, v, w));
    let f = |n: usize| member_edges(adj, component, n);
    assert(member_edges(adj, component, u) == adj[u as int].filter_map(g));
    let ku = choose|ku: int| 0 <= ku < component.len() && component[ku] == u;
    assert(f(component[ku]).contains((u, v, w)));
    lemma_flat_map_has(component, f, ku, (u, v, w));
    let edges = component_edges(adj, component);
    lemma_sort_by_weight_contains(edges, (u, v, w));
    let sorted = sort_by_weight(edges);
    let i = choose|i: int| 0 <= i < sorted.len() && sorted[i] == (u, v, w);
    assert(edge_names(sorted)[i] == (u, v));
}

/// The weight keys of `s` never decrease.
pub open spec fn keys_nondecreasing(s: Seq<ComponentEdge>) -> bool {
    forall|i: int, j: int| 0 <= i < j < s.len() ==> (#[trigger] s[i]).2 <= (#[trigger] s[j]).2
}

proof fn lemma_insert_by_weight_sorted(s: Seq<ComponentEdge>, e: ComponentEdge)
    requires
        keys_nondecreasing(s),
    ensures
        keys_nondecreasing(insert_by_weight(s, e)),
    decreases s.len(),
{
    let r = insert_by_weight(s, e);
    if s.len() == 0 || s.last().2 <= e.2 {
        assert(r == s.push(e));
        assert forall|i: int, j: int| 0 <= i < j < r.len() implies (#[trigger] r[i]).2 <= (#[trigger] r[j]).2 by {
            if j == s.len() {
                assert(r[i] == s[i]);
                if i < s.len() - 1 {
                    assert(s[i].2 <= s[s.len() - 1].2);
                }
            } else {
                assert(r[i] == s[i] && r[j] == s[j]);
            }
        }
    } else {
        let rest = s.drop_last();
        assert(keys_nondecreasing(rest)) by {
            assert forall|i: int, j: int| 0 <= i < j < rest.len() implies (#[trigger] rest[i]).2 <= (#[trigger] rest[j]).2 by {
                assert(rest[i] == s[i] && rest[j] == s[j]);
            }
        }
        lemma_insert_by_weight_sorted(rest, e);
        let inner = insert_by_weight(rest, e);
        assert(r == inner.push(s.last()));
        assert forall|i: int, j: int| 0 <= i < j < r.len() implies (#[trigger] r[i]).2 <= (#[trigger] r[j]).2 by {
            if j == inner.len() {
                assert(r[i] == inner[i]);
                assert(inner.contains(inner[i]));
                lemma_insert_by_weight_contains(rest, e, inner[i]);
                if rest.contains(inner[i]) {
                    let k = choose|k: int| 0 <= k < rest.len() && rest[k] == inner[i];
                    assert(s[k] == rest[k]);
                    assert(s[k].2 <= s[s.len() - 1].2);
                }
            } else {
                assert(r[i] == inner[i] && r[j] == inner[j]);
            }
        }
    }
}

proof fn lemma_sort_by_weight_sorted(s: Seq<ComponentEdge>)
    ensures
        keys_nondecreasing(sort_by_weight(s)),
    decreases s.len(),
{
    if s.len() > 0 {
        lemma_sort_by_weight_sorted(s.drop_last());
        lemma_insert_by_weight_sorted(sort_by_weight(s.drop_last()), s.last());
    }
}

proof fn lemma_flat_map_from<A, B>(s: Seq<A>, f: spec_fn(A) -> Seq<B>, e: B)
    requires
        s.flat_map(f).contains(e),
    ensures
        exists|k: int| 0 <= k < s.len() && #[trigger] f(s[k]).contains(e),
    decreases s.len(),
{
    if s.len() == 0 {
        assert(s.flat_map(f) =~= Seq::<B>::empty());
    } else {
        let rest = s.drop_last();
        assert(s =~= rest.push(s.last()));
        rest.lemma_flat_map_push(f, s.last());
        let head = rest.flat_map(f);
        let whole = s.flat_map(f);
        assert(whole =~= head + f(s.last()));
        let i = choose|i: int| 0 <= i < whole.len() && whole[i] == e;
        if i < head.len() {
            assert(head[i] == e);
            lemma_flat_map_from(rest, f, e);
            let k = choose|k: int| 0 <= k < rest.len() && #[trigger] f(rest[k]).contains(e);
            assert(s[k] == rest[k]);
        } else {
            assert(f(s.last())[i - head.len()] == e);
            assert(f(s[s.len() - 1]).contains(e));
        }
    }
}

/// What an edge of the component is: a later-numbered neighbour of a member,
/// itself a member, with the graph's own weight key of that edge.
proof fn lemma_component_edge_is_graph_edge(adj: Adjacency, component: Seq<usize>, x: ComponentEdge)
    requires
        component_edges(adj, component).contains(x),
    ensures
        component.contains(x.0),
        component.contains(x.1),
        x.0 < x.1,
        x.0 < adj.len(),
        adj[x.0 as int].contains((x.1, x.2)),
{
    let f = |u: usize| member_edges(adj, component, u);
    lemma_flat_map_from(component, f, x);
    let k = choose|k: int| 0 <= k < component.len() && #[trigger] f(component[k]).contains(x);
    let u = component[k];
    assert(member_edges(adj, component, u).contains(x));
    assert(u < adj.len());
    let g = |e: (usize, u64)|
        if component.contains(e.0) && u < e.0 {
            Some((u, e.0, e.1))
        } else {
            None
        };
    assert(member_edges(adj, component, u) == adj[u as int].filter_map(g));
    adj[u as int].lemma_filter_map_contains(g, x);
    let t = choose|t: (usize, u64)| #[trigger] adj[u as int].contains(t) && g(t) == Some(x);
    assert(t == (x.1, x.2));
}

/// Each edge between two members, with the graph's weight key, is among the
/// component's edges ordered weakest first.
proof fn lemma_graph_edge_listed(adj: Adjacency, component: Seq<usize>, u: usize, v: usize, w: u64)
    requires
        component.contains(u),
        component.contains(v),
        u < v,
        u < adj.len(),
        adj[u as int].contains((v, w)),
    ensures
        sort_by_weight(component_edges(adj, component)).contains((u, v, w)),
{
    let k = choose|k: int| 0 <= k < adj[u as int].len() && adj[u as int][k] == (v, w);
    let g = |e: (usize, u64)|
        if component.contains(e.0) && u < e.0 {
            Some((u, e.0, e.1))
        } else {
            None
        };
    assert(g(adj[u as int][k]) == Some((u, v, w)));
    lemma_filter_map_keeps(adj[u as int], g, k, (u, v, w));
    let f = |n: usize| member_edges(adj, component, n);
    assert(member_edges(adj, component, u) == adj[u as int].filter_map(g));
    let ku = choose|ku: int| 0 <= ku < component.len() && component[ku] == u;
    assert(f(component[ku]).contains((u, v, w)));
    lemma_flat_map_has(component, f, ku, (u, v, w));
    lemma_sort_by_weight_contains(component_edges(adj, component), (u, v, w));
}

/// The order in which an oversized component loses its edges: exactly the
/// graph's edges between two of its members, each named smaller endpoint
/// first and carrying the graph's own weight key, weakest first. An edge of
/// smaller weight is always removed before one of larger weight.
pub proof fn lemma_split_removes_weakest_first(adj: Adjacency, component: Seq<usize>)
    ensures
        forall|i: int, j: int|
            0 <= i < j < sort_by_weight(component_edges(adj, component)).len() ==> (#[trigger] sort_by_weight(
                component_edges(adj, component),
            )[i]).2 <= (#[trigger] sort_by_weight(component_edges(adj, component))[j]).2,
        forall|x: ComponentEdge| #[trigger] sort_by_weight(component_edges(adj, component)).contains(x) ==> {
            &&& component.contains(x.0)
            &&& component.contains(x.1)
            &&& x.0 < x.1
            &&& x.0 < adj.len()
            &&& adj[x.0 as int].contains((x.1, x.2))
        },
        forall|u: usize, v: usize, w: u64|
            component.contains(u) && component.contains(v) && u < v && u < adj.len() && #[trigger] adj[u as int].contains((v, w))
                ==> sort_by_weight(component_edges(adj, component)).contains((u, v, w)),
{
    let edges = component_edges(adj, component);
    lemma_sort_by_weight_sorted(edges);
    assert forall|x: ComponentEdge| #[trigger] sort_by_weight(edges).contains(x) implies {
        &&& component.contains(x.0)
        &&& component.contains(x.1)
        &&& x.0 < x.1
        &&& x.0 < adj.len()
        &&& adj[x.0 as int].contains((x.1, x.2))
    } by {
        lemma_sort_by_weight_contains(edges, x);
        lemma_component_edge_is_graph_edge(adj, component, x);
    }
    assert forall|u: usize, v: usize, w: u64|
        component.contains(u) && component.contains(v) && u < v && u < adj.len() && #[trigger] adj[u as int].contains((v, w))
        implies sort_by_weight(edges).contains((u, v, w)) by {
        lemma_graph_edge_listed(adj, component, u, v, w);
    }
}

proof fn lemma_split_after_first_fit(
    adj: Adjacency,
    component: Seq<usize>,
    weakest_first: Seq<ComponentEdge>,
    max_size: int,
    removed: nat,
)
    requires
        removed <= weakest_first.len(),
        forall|m: int| 0 <= m < removed ==> !all_fit(
            #[trigger] component_listing(adj, component, edge_names(weakest_first.take(m))),
            max_size,
        ),
    ensures
        exists|n: int|
            removed <= n <= weakest_first.len() && split_after(adj, component, weakest_first, max_size, removed)
                == component_listing(adj, component, edge_names(#[trigger] weakest_first.take(n))) && (all_fit(
                component_listing(adj, component, edge_names(weakest_first.take(n))),
                max_size,
            ) || n == weakest_first.len()) && forall|m: int| 0 <= m < n ==> !all_fit(
                #[trigger] component_listing(adj, component, edge_names(weakest_first.take(m))),
                max_size,
            ),
    decreases weakest_first.len() - removed,
{
    let groups = component_listing(adj, component, edge_names(weakest_first.take(removed as int)));
    if all_fit(groups, max_size) || removed >= weakest_first.len() {
        assert(split_after(adj, component, weakest_first, max_size, removed) == groups);
    } else {
        assert forall|m: int| 0 <= m < removed + 1 implies !all_fit(
            #[trigger] component_listing(adj, component, edge_names(weakest_first.take(m))),
            max_size,
        ) by {}
        lemma_split_after_first_fit(adj, component, weakest_first, max_size, removed + 1);
    }
}

/// An oversized component loses the fewest weakest edges that make every
/// part fit: its parts are the components left once the first `n` edges,
/// weakest first, are gone, where every shorter prefix still leaves a part
/// that is too large, and `n` either makes every part fit or removes every
/// edge.
pub proof fn lemma_split_removes_fewest_edges(adj: Adjacency, component: Seq<usize>, max_size: int)
    requires
        component.len() > max_size,
    ensures
        exists|n: int|
            0 <= n <= sort_by_weight(component_edges(adj, component)).len() && split_groups(adj, component, max_size)
                == component_listing(
                adj,
                component,
                edge_names(#[trigger] sort_by_weight(component_edges(adj, component)).take(n)),
            ) && (all_fit(
                component_listing(adj, component, edge_names(sort_by_weight(component_edges(adj, component)).take(n))),
                max_size,
            ) || n == sort_by_weight(component_edges(adj, component)).len()) && forall|m: int|
                0 <= m < n ==> !all_fit(
                    #[trigger] component_listing(
                        adj,
                        component,
                        edge_names(sort_by_weight(component_edges(adj, component)).take(m)),
                    ),
                    max_size,
                ),
{
    lemma_split_after_first_fit(adj, component, sort_by_weight(component_edges(adj, component)), max_size, 0);
}

proof fn lemma_walk_without_steps(adj: Adjacency, nodes: Seq<usize>, removed: Seq<(usize, usize)>, w: Seq<usize>)
    requires
        is_walk(adj, nodes, removed, w),
        forall|x: usize, y: usize| #[trigger] linked(adj, nodes, removed, x, y) ==> x == y,
    ensures
        w[w.len() - 1] == w[0],
    decreases w.len(),
{
    if w.len() > 1 {
        let v = w.drop_last();
        assert forall|i: int| 0 <= i < v.len() - 1 implies #[trigger] step_ok(adj, nodes, removed, v, i) by {
            assert(step_ok(adj, nodes, removed, w, i));
        }
        lemma_walk_without_steps(adj, nodes, removed, v);
        assert(step_ok(adj, nodes, removed, w, w.len() - 2));
    }
}

/// With every edge between distinct members removed, each component is a
/// single node.
proof fn lemma_without_edges_singletons(
    p: Seq<Seq<usize>>,
    adj: Adjacency,
    nodes: Seq<usize>,
    removed: Seq<(usize, usize)>,
)
    requires
        is_component_listing(p, adj, nodes, removed),
        forall|x: usize, y: usize|
            nodes.contains(x) && nodes.contains(y) && x != y && lists_neighbor(adj, x, y) ==> removed.contains(edge_key(x, y)),
    ensures
        forall|i: int| 0 <= i < p.len() ==> (#[trigger] p[i]).len() == 1,
{
    assert forall|x: usize, y: usize| #[trigger] linked(adj, nodes, removed, x, y) implies x == y by {}
    assert forall|i: int| 0 <= i < p.len() implies (#[trigger] p[i]).len() == 1 by {
        if p[i].len() > 1 {
            let x = p[i][0];
            let y = p[i][1];
            assert(strictly_increasing(p[i]));
            assert(p[i].contains(x) && p[i].contains(y));
            assert(nodes.contains(y));
            let w = choose|w: Seq<usize>| #[trigger] is_walk(adj, nodes, removed, w) && w[0] == x && w[w.len() - 1] == y;
            lemma_walk_without_steps(adj, nodes, removed, w);
        }
    }
}

fn contains_node(v: &Vec<usize>, x: usize) -> (r: bool)
    ensures
        r == v@.contains(x),
{
    let mut i: usize = 0;
    while i < v.len()
        invariant
            i <= v@.len(),
            forall|j: int| 0 <= j < i ==> v@[j] != x,
        decreases v@.len() - i,
    {
        if v[i] == x {
            assert(v@[i as int] == x);
            return true;
        }
        i += 1;
    }
    false
}

/// Appends the edges from `node` to later-numbered members of `component`.
fn push_member_edges(edges: &mut Vec<ComponentEdge>, component: &Vec<usize>, graph: &SimilarityGraph, node: usize)
    ensures
        final(edges)@ == old(edges)@ + member_edges(graph@, component@, node),
{
    let ghost adj = graph@;
    if node >= graph.node_count() {
        assert(old(edges)@ + member_edges(adj, component@, node) =~= old(edges)@);
        return;
    }
    let neighbors = graph.neighbors(node);
    let ghost g = |e: (usize, u64)|
        if component@.contains(e.0) && node < e.0 {
            Some((node, e.0, e.1))
        } else {
            None
        };
    let ghost prefix = edges@;
    for k in 0..neighbors.len()
        invariant
            neighbors@ == adj[node as int],
            node < adj.len(),
            g == (|e: (usize, u64)|
                if component@.contains(e.0) && node < e.0 {
                    Some((node, e.0, e.1))
                } else {
                    None
                }),
            edges@ == prefix + neighbors@.take(k as int).filter_map(g),
    {
        let (nb, w) = neighbors[k];
        if contains_node(component, nb) && node < nb {
            edges.push((node, nb, w));
        }
        proof {
            neighbors@.lemma_filter_map_take_succ(g, k as int);
            assert(edges@ =~= prefix + neighbors@.take(k + 1).filter_map(g));
        }
    }
    proof {
        assert(neighbors@.take(neighbors@.len() as int) =~= neighbors@);
        assert(member_edges(adj, component@, node) == neighbors@.filter_map(g));
    }
}

/// The edges of `graph` inside `component`.
fn collect_component_edges(component: &Vec<usize>, graph: &SimilarityGraph) -> (edges: Vec<ComponentEdge>)
    ensures
        edges@ == component_edges(graph@, component@),
{
    let ghost adj = graph@;
    let ghost f = |u: usize| member_edges(adj, component@, u);
    let mut edges: Vec<ComponentEdge> = Vec::new();
    for i in 0..component.len()
        invariant
            adj == graph@,
            f == (|u: usize| member_edges(adj, component@, u)),
            edges@ == component@.take(i as int).flat_map(f),
    {
        push_member_edges(&mut edges, component, graph, component[i]);
        proof {
            component@.lemma_flat_map_take_append(f, i as int);
            assert(edges@ =~= component@.take(i + 1).flat_map(f));
        }
    }
    proof {
        assert(component@.take(component@.len() as int) =~= component@);
    }
    edges
}

proof fn lemma_insert_by_weight_split(s: Seq<ComponentEdge>, e: ComponentEdge, j: int)
    requires
        0 <= j <= s.len(),
        forall|k: int| j <= k < s.len() ==> (#[trigger] s[k]).2 > e.2,
    ensures
        insert_by_weight(s, e) == insert_by_weight(s.take(j), e) + s.skip(j),
    decreases s.len() - j,
{
    if j < s.len() {
        lemma_insert_by_weight_split(s, e, j + 1);
        let t = s.take(j + 1);
        assert(t.drop_last() =~= s.take(j));
        assert(t.last() == s[j]);
        assert(insert_by_weight(t, e) == insert_by_weight(s.take(j), e).push(s[j]));
        assert(s.skip(j) =~= seq![s[j]] + s.skip(j + 1));
        assert(insert_by_weight(s, e) =~= insert_by_weight(s.take(j), e) + s.skip(j));
    } else {
        assert(s.take(j) =~= s);
        assert(s.skip(j) =~= Seq::<ComponentEdge>::empty());
        assert(insert_by_weight(s, e) =~= insert_by_weight(s.take(j), e) + s.skip(j));
    }
}

/// The edges weakest first, equal weights in their original order.
fn sort_edges_by_weight(edges: &Vec<ComponentEdge>) -> (r: Vec<ComponentEdge>)
    ensures
        r@ == sort_by_weight(edges@),
{
    let mut out: Vec<ComponentEdge> = Vec::new();
    for i in 0..edges.len()
        invariant
            out@ == sort_by_weight(edges@.take(i as int)),
    {
        let e = edges[i];
        let ghost sorted = out@;
        out.push(e);
        let mut j: usize = out.len() - 1;
        while j > 0 && out[j - 1].2 > out[j].2
            invariant
                j < out@.len(),
                j <= sorted.len(),
                out@ == sorted.take(j as int) + seq![e] + sorted.skip(j as int),
                forall|k: int| j <= k < sorted.len() ==> (#[trigger] sorted[k]).2 > e.2,
            decreases j,
        {
            let a = out[j - 1];
            let b = out[j];
            out.set(j - 1, b);
            out.set(j, a);
            proof {
                assert(a == sorted[j - 1]);
                assert(b == e);
                assert(out@ =~= sorted.take(j - 1) + seq![e] + sorted.skip(j - 1));
            }
            j -= 1;
        }
        proof {
            lemma_insert_by_weight_split(sorted, e, j as int);
            if j > 0 {
                assert(sorted.take(j as int).last() == sorted[j - 1]);
                assert(out@[j - 1] == sorted[j - 1]);
            }
            assert(insert_by_weight(sorted.take(j as int), e) =~= sorted.take(j as int).push(e));
            assert(out@ =~= insert_by_weight(sorted, e));
            let next = edges@.take(i + 1);
            assert(next.drop_last() =~= edges@.take(i as int));
            assert(next.last() == e);
        }
    }
    assert(edges@.take(edges@.len() as int) =~= edges@);
    out
}

/// Whether every group has at most `max_size` members.
fn all_groups_fit(groups: &Vec<Vec<usize>>, max_size: usize) -> (r: bool)
    ensures
        r == all_fit(groups_view(groups@), max_size as int),
{
    let mut i: usize = 0;
    while i < groups.len()
        invariant
            i <= groups@.len(),
            forall|j: int| 0 <= j < i ==> (#[trigger] groups@[j])@.len() <= max_size,
        decreases groups@.len() - i,
    {
        if groups[i].len() > max_size {
            proof {
                assert(groups_view(groups@)[i as int] == groups@[i as int]@);
            }
            return false;
        }
        i += 1;
    }
    proof {
        assert forall|j: int| 0 <= j < groups_view(groups@).len() implies (#[trigger] groups_view(groups@)[j]).len() <= max_size by {
            assert(groups_view(groups@)[j] == groups@[j]@);
        }
    }
    true
}

/// Split an oversized component into smaller ones by removing weakest edges.
///
/// A component of at most `max_size` members is returned whole. Otherwise the
/// component's edges are ordered weakest first and removed one at a time
/// until every remaining connected component fits.
pub fn split_if_oversized(component: Vec<usize>, graph: &SimilarityGraph, max_size: usize) -> (r: Vec<Vec<usize>>)
    ensures
        groups_view(r@) == split_groups(graph@, component@, max_size as int),
        // a component that fits comes back whole, as given
        component@.len() <= max_size ==> r@.len() == 1 && r@[0]@ == component@,
        // the groups partition the component
        forall|x: usize| component@.contains(x) <==> exists|i: int| 0 <= i < r@.len() && #[trigger] r@[i]@.contains(x),
        forall|i: int, j: int, x: usize|
            0 <= i < r@.len() && 0 <= j < r@.len() && i != j && #[trigger] r@[i]@.contains(x) ==> !(#[trigger] r@[j]@.contains(x)),
        component@.len() > 0 ==> forall|i: int| 0 <= i < r@.len() ==> (#[trigger] r@[i])@.len() > 0,
        // no group is larger than the limit
        max_size >= 1 ==> all_fit(groups_view(r@), max_size as int),
        // a split component falls apart into its components once some edges are gone
        component@.len() > max_size ==> exists|removed: Seq<(usize, usize)>|
            is_component_listing(groups_view(r@), graph@, component@, removed),
{
    proof {
        use_type_invariant(graph);
    }
    if component.len() <= max_size {
        let ghost c = component@;
        let r = vec![component];
        assert(groups_view(r@) =~= seq![c]);
        proof {
            assert forall|x: usize| c.contains(x) implies exists|i: int| 0 <= i < r@.len() && #[trigger] r@[i]@.contains(x) by {
                assert(r@[0]@ == c);
            }
            assert(all_fit(groups_view(r@), max_size as int)) by {
                assert(groups_view(r@)[0] == c);
            }
        }
        return r;
    }
    let edges = collect_component_edges(&component, graph);
    let weakest_first = sort_edges_by_weight(&edges);
    let ghost adj = graph@;
    let ghost sorted = weakest_first@;
    let mut removed: Vec<(usize, usize)> = Vec::new();
    let mut count: usize = 0;
    proof {
        assert(edge_names(sorted.take(0)) =~= removed@);
    }
    while count < weakest_first.len()
        invariant
            adj == graph@,
            sorted == weakest_first@,
            sorted == sort_by_weight(component_edges(adj, component@)),
            component@.len() > max_size,
            count <= sorted.len(),
            removed@ == edge_names(sorted.take(count as int)),
            split_after(adj, component@, sorted, max_size as int, 0) == split_after(adj, component@, sorted, max_size as int, count as nat),
        decreases sorted.len() - count,
    {
        let groups = bfs_components(component.as_slice(), graph, &removed);
        proof {
            lemma_component_listing_is(groups_view(groups@), adj, component@, removed@);
        }
        if all_groups_fit(&groups, max_size) {
            proof {
                lemma_split_result_partitions(groups@, adj, component@, removed@);
            }
            return groups;
        }
        let e = weakest_first[count];
        removed.push((e.0, e.1));
        proof {
            assert(sorted.take(count + 1) =~= sorted.take(count as int).push(e));
            assert(removed@ =~= edge_names(sorted.take(count + 1)));
        }
        count += 1;
    }
    let groups = bfs_components(component.as_slice(), graph, &removed);
    proof {
        lemma_component_listing_is(groups_view(groups@), adj, component@, removed@);
        lemma_split_result_partitions(groups@, adj, component@, removed@);
        assert(sorted.take(count as int) =~= sorted);
        assert forall|x: usize, y: usize|
            component@.contains(x) && component@.contains(y) && x != y && lists_neighbor(adj, x, y) implies removed@.contains(edge_key(x, y)) by {
            lemma_edge_named(adj, component@, x, y);
        }
        lemma_without_edges_singletons(groups_view(groups@), adj, component@, removed@);
        if max_size >= 1 {
            assert forall|i: int| 0 <= i < groups_view(groups@).len() implies (#[trigger] groups_view(groups@)[i]).len() <= max_size by {
                assert(groups_view(groups@)[i].len() == 1);
            }
        }
    }
    groups
}

proof fn lemma_split_result_partitions(
    groups: Seq<Vec<usize>>,
    adj: Adjacency,
    component: Seq<usize>,
    removed: Seq<(usize, usize)>,
)
    requires
        is_component_listing(groups_view(groups), adj, component, removed),
    ensures
        forall|x: usize| component.contains(x) <==> exists|i: int| 0 <= i < groups.len() && #[trigger] groups[i]@.contains(x),
        forall|i: int, j: int, x: usize|
            0 <= i < groups.len() && 0 <= j < groups.len() && i != j && #[trigger] groups[i]@.contains(x) ==> !(#[trigger] groups[j]@.contains(x)),
        forall|i: int| 0 <= i < groups.len() ==> (#[trigger] groups[i])@.len() > 0,
{
    let p = groups_view(groups);
    crate::graph::lemma_listing_disjoint(p, adj, component, removed);
    assert forall|x: usize| component.contains(x) implies exists|i: int| 0 <= i < groups.len() && #[trigger] groups[i]@.contains(x) by {
        let i = choose|i: int| 0 <= i < p.len() && #[trigger] p[i].contains(x);
        assert(groups[i]@ == p[i]);
    }
    assert forall|x: usize| (exists|i: int| 0 <= i < groups.len() && #[trigger] groups[i]@.contains(x)) implies component.contains(x) by {
        let i = choose|i: int| 0 <= i < groups.len() && #[trigger] groups[i]@.contains(x);
        assert(p[i] == groups[i]@);
    }
    assert forall|i: int, j: int, x: usize|
        0 <= i < groups.len() && 0 <= j < groups.len() && i != j && #[trigger] groups[i]@.contains(x) implies !(#[trigger] groups[j]@.contains(x)) by {
        assert(p[i] == groups[i]@);
        assert(p[j] == groups[j]@);
    }
    assert forall|i: int| 0 <= i < groups.len() implies (#[trigger] groups[i])@.len() > 0 by {
        assert(p[i] == groups[i]@);
    }
}

/// HDL source is extracted for discovery but intentionally omitted from
/// refactoring clusters: every member must be a known function in a
/// software language.
pub open spec fn reportable_members(functions: Seq<FunctionInfo>, members: Seq<usize>) -> bool {
    forall|i: int| 0 <= i < members.len() ==> (#[trigger] members[i]) < functions.len() && !is_hdl_language(functions[members[i] as int].language)
}

/// HDL source is extracted for discovery but intentionally omitted from
/// refactoring clusters. Structural similarity does not model elaboration,
/// clock domains, reset trees, widths, resource mapping, or timing semantics.
pub fn is_reportable_hdl_component(
    members: &[usize],
    functions: &[FunctionInfo],
    _normalized: &HashMap<usize, &NormalizedFunction>,
) -> (r: bool)
    ensures
        r == reportable_members(functions@, members@),
{
    members_reportable(members, functions)
}

fn members_reportable(members: &[usize], functions: &[FunctionInfo]) -> (r: bool)
    ensures
        r == reportable_members(functions@, members@),
{
    let mut i: usize = 0;
    while i < members.len()
        invariant
            i <= members@.len(),
            forall|j: int| 0 <= j < i ==> (#[trigger] members@[j]) < functions@.len() && !is_hdl_language(functions@[members@[j] as int].language),
        decreases members@.len() - i,
    {
        let index = members[i];
        if index >= functions.len() {
            return false;
        }
        if functions[index].language.is_hdl() {
            return false;
        }
        i += 1;
    }
    true
}

// ─── Cluster selection ───────────────────────────────────────────────────

/// The groups that become clusters: at least two members, all reportable.
pub open spec fn kept_groups(functions: Seq<FunctionInfo>, groups: Seq<Seq<usize>>) -> Seq<Seq<usize>> {
    groups.filter(|g: Seq<usize>| g.len() >= 2 && reportable_members(functions, g))
}

/// The member lists of the clusters, in cluster order: component by
/// component of the graph, each split to the maximum cluster size, keeping
/// the groups that qualify.
pub open spec fn cluster_groups(adj: Adjacency, functions: Seq<FunctionInfo>) -> Seq<Seq<usize>> {
    component_listing(adj, node_range(adj.len()), Seq::empty()).flat_map(
        |c: Seq<usize>| kept_groups(functions, split_groups(adj, c, MAX_CLUSTER_SIZE as int)),
    )
}

/// What splitting a component of the graph yields: groups that partition
/// the component, fit the size limit and are internally connected.
pub open spec fn split_facts(adj: Adjacency, component: Seq<usize>, subs: Seq<Seq<usize>>) -> bool {
    &&& forall|x: usize| #[trigger] component.contains(x) <==> exists|a: int| 0 <= a < subs.len() && #[trigger] subs[a].contains(x)
    &&& forall|a: int, b: int, x: usize|
        0 <= a < subs.len() && 0 <= b < subs.len() && a != b && #[trigger] subs[a].contains(x) ==> !(#[trigger] subs[b].contains(x))
    &&& all_fit(subs, MAX_CLUSTER_SIZE as int)
    &&& forall|a: int, x: usize, y: usize|
        0 <= a < subs.len() && #[trigger] subs[a].contains(x) && #[trigger] subs[a].contains(y)
            ==> connected(adj, node_range(adj.len()), Seq::empty(), x, y)
}

proof fn lemma_split_facts(adj: Adjacency, listing: Seq<Seq<usize>>, i: int, subs: Seq<Vec<usize>>)
    requires
        is_component_listing(listing, adj, node_range(adj.len()), Seq::empty()),
        0 <= i < listing.len(),
        groups_view(subs) == split_groups(adj, listing[i], MAX_CLUSTER_SIZE as int),
        forall|x: usize| listing[i].contains(x) <==> exists|a: int| 0 <= a < subs.len() && #[trigger] subs[a]@.contains(x),
        forall|a: int, b: int, x: usize|
            0 <= a < subs.len() && 0 <= b < subs.len() && a != b && #[trigger] subs[a]@.contains(x) ==> !(#[trigger] subs[b]@.contains(x)),
        all_fit(groups_view(subs), MAX_CLUSTER_SIZE as int),
        listing[i].len() > MAX_CLUSTER_SIZE ==> exists|removed: Seq<(usize, usize)>|
            is_component_listing(groups_view(subs), adj, listing[i], removed),
    ensures
        split_facts(adj, listing[i], groups_view(subs)),
{
    let sv = groups_view(subs);
    let comp = listing[i];
    let all = node_range(adj.len());
    assert forall|a: int| 0 <= a < sv.len() implies #[trigger] sv[a] == subs[a]@ by {}
    assert forall|x: usize| #[trigger] comp.contains(x) <==> exists|a: int| 0 <= a < sv.len() && #[trigger] sv[a].contains(x) by {
        if comp.contains(x) {
            let a = choose|a: int| 0 <= a < subs.len() && #[trigger] subs[a]@.contains(x);
            assert(sv[a] == subs[a]@);
        }
        if exists|a: int| 0 <= a < sv.len() && #[trigger] sv[a].contains(x) {
            let a = choose|a: int| 0 <= a < sv.len() && #[trigger] sv[a].contains(x);
            assert(sv[a] == subs[a]@);
        }
    }
    assert forall|a: int, b: int, x: usize|
        0 <= a < sv.len() && 0 <= b < sv.len() && a != b && #[trigger] sv[a].contains(x) implies !(#[trigger] sv[b].contains(x)) by {
        assert(sv[a] == subs[a]@);
        assert(sv[b] == subs[b]@);
    }
    assert forall|a: int, x: usize, y: usize|
        0 <= a < sv.len() && #[trigger] sv[a].contains(x) && #[trigger] sv[a].contains(y)
            implies connected(adj, all, Seq::empty(), x, y) by {
        assert(sv[a] == subs[a]@);
        assert(comp.contains(x)) by {
            assert(subs[a]@.contains(x));
        }
        assert(comp.contains(y)) by {
            assert(subs[a]@.contains(y));
        }
        assert(all.contains(y));
        if comp.len() <= MAX_CLUSTER_SIZE {
            assert(comp.contains(x) && all.contains(y));
        } else {
            let removed = choose|removed: Seq<(usize, usize)>| is_component_listing(sv, adj, comp, removed);
            assert(sv[a].contains(x) && comp.contains(y));
            assert(connected(adj, comp, removed, x, y));
            assert forall|z: usize| comp.contains(z) implies all.contains(z) by {
                assert(listing[i].contains(z));
            }
            crate::graph::lemma_connected_monotone(adj, comp, removed, all, x, y);
        }
    }
}

proof fn lemma_push_cluster(
    adj: Adjacency,
    functions: Seq<FunctionInfo>,
    listing: Seq<Seq<usize>>,
    i: int,
    prefix: Seq<Seq<usize>>,
    before: Seq<Seq<usize>>,
    subs: Seq<Seq<usize>>,
    j: int,
)
    requires
        0 <= i < listing.len(),
        0 <= j < subs.len(),
        forall|a: int, b: int, x: usize|
            0 <= a < listing.len() && 0 <= b < listing.len() && a != b && #[trigger] listing[a].contains(x) ==> !(#[trigger] listing[b].contains(x)),
        valid_clusters(adj, functions, before),
        prefix.len() <= before.len(),
        forall|k: int| 0 <= k < prefix.len() ==> #[trigger] before[k] == prefix[k],
        forall|k: int, x: usize| 0 <= k < prefix.len() && #[trigger] prefix[k].contains(x)
            ==> exists|c: int| 0 <= c < i && #[trigger] listing[c].contains(x),
        forall|k: int| prefix.len() <= k < before.len() ==> subs.take(j).contains(#[trigger] before[k]),
        split_facts(adj, listing[i], subs),
        subs[j].len() >= 2,
        reportable_members(functions, subs[j]),
    ensures
        valid_clusters(adj, functions, before.push(subs[j])),
        forall|k: int| prefix.len() <= k < before.len() + 1 ==> subs.take(j + 1).contains(#[trigger] before.push(subs[j])[k]),
{
    let after = before.push(subs[j]);
    let n = before.len() as int;
    assert(after[n] == subs[j]);
    assert forall|x: usize| subs[j].contains(x) implies listing[i].contains(x) by {}
    assert(subs[j].len() <= MAX_CLUSTER_SIZE) by {
        assert(all_fit(subs, MAX_CLUSTER_SIZE as int));
    }
    assert forall|k: int| 0 <= k < after.len() implies 2 <= (#[trigger] after[k]).len() <= MAX_CLUSTER_SIZE
        && reportable_members(functions, after[k]) by {
        if k < n {
            assert(after[k] == before[k]);
        }
    }
    assert forall|a: int, b: int, x: usize|
        0 <= a < after.len() && 0 <= b < after.len() && a != b && #[trigger] after[a].contains(x) implies !(#[trigger] after[b].contains(x)) by {
        if a < n && b < n {
            assert(after[a] == before[a] && after[b] == before[b]);
        } else {
            let (old_k, new_k) = if a < n { (a, b) } else { (b, a) };
            assert(new_k == n);
            assert(after[old_k] == before[old_k]);
            if after[a].contains(x) && after[b].contains(x) {
                assert(subs[j].contains(x));
                assert(listing[i].contains(x));
                assert(before[old_k].contains(x));
                if old_k < prefix.len() {
                    assert(prefix[old_k].contains(x));
                    let c = choose|c: int| 0 <= c < i && #[trigger] listing[c].contains(x);
                } else {
                    assert(subs.take(j).contains(before[old_k]));
                    let jj = choose|jj: int| 0 <= jj < j && subs.take(j)[jj] == before[old_k];
                    assert(subs[jj] == before[old_k]);
                    assert(subs[jj].contains(x));
                }
            }
        }
    }
    assert forall|a: int, x: usize, y: usize|
        0 <= a < after.len() && #[trigger] after[a].contains(x) && #[trigger] after[a].contains(y)
            implies connected(adj, node_range(adj.len()), Seq::empty(), x, y) by {
        if a < n {
            assert(after[a] == before[a]);
        }
    }
    assert forall|k: int| prefix.len() <= k < after.len() implies subs.take(j + 1).contains(#[trigger] after[k]) by {
        if k < n {
            assert(after[k] == before[k]);
            assert(subs.take(j).contains(before[k]));
            let jj = choose|jj: int| 0 <= jj < j && subs.take(j)[jj] == before[k];
            assert(subs.take(j + 1)[jj] == before[k]);
        } else {
            assert(subs.take(j + 1)[j] == after[k]);
        }
    }
}

/// Every cluster has between two and the maximum number of members, all of
/// them software functions; no function is in two clusters; and the members of
/// a cluster are joined by a path of above-threshold similarity edges.
pub open spec fn valid_clusters(adj: Adjacency, functions: Seq<FunctionInfo>, groups: Seq<Seq<usize>>) -> bool {
    &&& forall|i: int| 0 <= i < groups.len() ==> 2 <= (#[trigger] groups[i]).len() <= MAX_CLUSTER_SIZE
        && reportable_members(functions, groups[i])
    &&& forall|i: int, j: int, x: usize|
        0 <= i < groups.len() && 0 <= j < groups.len() && i != j && #[trigger] groups[i].contains(x) ==> !(#[trigger] groups[j].contains(x))
    &&& forall|i: int, x: usize, y: usize|
        0 <= i < groups.len() && #[trigger] groups[i].contains(x) && #[trigger] groups[i].contains(y)
            ==> connected(adj, node_range(adj.len()), Seq::empty(), x, y)
}

/// The member lists of the clusters found in `graph`: its connected
/// components, oversized ones split, groups of fewer than two members or with
/// a member that is not a software function left out. The `k`-th list
/// becomes cluster `C{k}`.
pub fn cluster_member_sets(graph: &SimilarityGraph, functions: &[FunctionInfo]) -> (r: Vec<Vec<usize>>)
    ensures
        groups_view(r@) == cluster_groups(graph@, functions@),
        valid_clusters(graph@, functions@, groups_view(r@)),
{
    let ghost adj = graph@;
    let components = graph.connected_components();
    let ghost listing = groups_view(components@);
    let ghost f = |c: Seq<usize>| kept_groups(functions@, split_groups(adj, c, MAX_CLUSTER_SIZE as int));
    let ghost keep = |g: Seq<usize>| g.len() >= 2 && reportable_members(functions@, g);
    let mut out: Vec<Vec<usize>> = Vec::new();
    proof {
        assert(groups_view(out@) =~= listing.take(0).flat_map(f));
    }
    for i in 0..components.len()
        invariant
            adj == graph@,
            listing == groups_view(components@),
            is_component_listing(listing, adj, node_range(adj.len()), Seq::empty()),
            f == (|c: Seq<usize>| kept_groups(functions@, split_groups(adj, c, MAX_CLUSTER_SIZE as int))),
            keep == (|g: Seq<usize>| g.len() >= 2 && reportable_members(functions@, g)),
            groups_view(out@) == listing.take(i as int).flat_map(f),
            valid_clusters(adj, functions@, groups_view(out@)),
            forall|k: int, x: usize| 0 <= k < out@.len() && #[trigger] groups_view(out@)[k].contains(x)
                ==> exists|c: int| 0 <= c < i && #[trigger] listing[c].contains(x),
    {
        let component = components[i].clone();
        proof {
            assert(component@ =~= listing[i as int]);
            assert(listing[i as int].len() > 0 && strictly_increasing(listing[i as int]));
        }
        let subs = split_if_oversized(component, graph, MAX_CLUSTER_SIZE);
        let ghost subs_view = groups_view(subs@);
        let ghost prefix = groups_view(out@);
        proof {
            crate::graph::lemma_listing_disjoint(listing, adj, node_range(adj.len()), Seq::empty());
            lemma_split_facts(adj, listing, i as int, subs@);
        }
        for j in 0..subs.len()
            invariant
                adj == graph@,
                listing == groups_view(components@),
                is_component_listing(listing, adj, node_range(adj.len()), Seq::empty()),
                forall|a: int, b: int, x: usize|
                    0 <= a < listing.len() && 0 <= b < listing.len() && a != b && #[trigger] listing[a].contains(x) ==> !(#[trigger] listing[b].contains(x)),
                0 <= i < listing.len(),
                subs_view == groups_view(subs@),
                keep == (|g: Seq<usize>| g.len() >= 2 && reportable_members(functions@, g)),
                groups_view(out@) == prefix + subs_view.take(j as int).filter(keep),
                valid_clusters(adj, functions@, groups_view(out@)),
                prefix.len() <= out@.len(),
                forall|k: int| 0 <= k < prefix.len() ==> #[trigger] groups_view(out@)[k] == prefix[k],
                forall|k: int, x: usize| 0 <= k < prefix.len() && #[trigger] prefix[k].contains(x)
                    ==> exists|c: int| 0 <= c < i && #[trigger] listing[c].contains(x),
                forall|k: int| prefix.len() <= k < out@.len() ==> subs_view.take(j as int).contains(#[trigger] groups_view(out@)[k]),
                split_facts(adj, listing[i as int], subs_view),
        {
            let ghost before = groups_view(out@);
            proof {
                assert forall|k: int| prefix.len() <= k < before.len() implies subs_view.take(j as int).contains(#[trigger] before[k]) by {
                    assert(before[k] == groups_view(out@)[k]);
                }
            }
            let kept = subs[j].len() >= 2 && members_reportable(subs[j].as_slice(), functions);
            if kept {
                let member_list = subs[j].clone();
                proof {
                    assert(member_list@ =~= subs@[j as int]@);
                }
                out.push(member_list);
                proof {
                    assert(groups_view(out@) =~= before.push(subs_view[j as int]));
                    lemma_push_cluster(adj, functions@, listing, i as int, prefix, before, subs_view, j as int);
                }
            }
            proof {
                assert forall|k: int| prefix.len() <= k < out@.len() implies subs_view.take(j + 1).contains(#[trigger] groups_view(out@)[k]) by {
                    if kept {
                        assert(groups_view(out@) == before.push(subs_view[j as int]));
                    } else {
                        assert(groups_view(out@) == before);
                        assert(subs_view.take(j as int).contains(before[k]));
                        let jj = choose|jj: int| 0 <= jj < j && subs_view.take(j as int)[jj] == before[k];
                        assert(subs_view.take(j + 1)[jj] == before[k]);
                    }
                }
                subs_view.take(j as int).lemma_filter_push(subs_view[j as int], keep);
                assert(kept == keep(subs_view[j as int]));
                assert(subs_view.take(j + 1) =~= subs_view.take(j as int).push(subs_view[j as int]));
                assert(subs_view[j as int] == subs@[j as int]@);
                assert(groups_view(out@) =~= prefix + subs_view.take(j + 1).filter(keep));
            }
        }
        proof {
            assert(subs_view.take(subs_view.len() as int) =~= subs_view);
            assert(f(listing[i as int]) == subs_view.filter(keep));
            listing.lemma_flat_map_take_append(f, i as int);
            assert(groups_view(out@) =~= listing.take(i + 1).flat_map(f));
            assert forall|k: int, x: usize| 0 <= k < out@.len() && #[trigger] groups_view(out@)[k].contains(x)
                implies exists|c: int| 0 <= c < i + 1 && #[trigger] listing[c].contains(x) by {
                if k < prefix.len() {
                    assert(prefix[k].contains(x));
                    let c = choose|c: int| 0 <= c < i && #[trigger] listing[c].contains(x);
                } else {
                    assert(subs_view.take(subs_view.len() as int).contains(groups_view(out@)[k]));
                    let jj = choose|jj: int| 0 <= jj < subs_view.len() && subs_view.take(subs_view.len() as int)[jj] == groups_view(out@)[k];
                    assert(subs_view[jj] == groups_view(out@)[k]);
                    assert(subs_view[jj].contains(x));
                    assert(listing[i as int].contains(x));
                }
            }
        }
    }
    proof {
        assert(listing.take(listing.len() as int) =~= listing);
        lemma_component_listing_is(listing, adj, node_range(adj.len()), Seq::empty());
    }
    out
}

/// Every edge of the graph joins two functions of the same language.
pub open spec fn edges_within_languages(adj: Adjacency, functions: Seq<FunctionInfo>) -> bool {
    forall|u: usize, v: usize|
        #[trigger] lists_neighbor(adj, u, v) ==> u < functions.len() && v < functions.len()
            && functions[u as int].language == functions[v as int].language
}

proof fn lemma_walk_keeps_language(
    adj: Adjacency,
    functions: Seq<FunctionInfo>,
    nodes: Seq<usize>,
    removed: Seq<(usize, usize)>,
    w: Seq<usize>,
)
    requires
        edges_within_languages(adj, functions),
        is_walk(adj, nodes, removed, w),
        w[0] < functions.len(),
    ensures
        w[w.len() - 1] < functions.len(),
        functions[w[w.len() - 1] as int].language == functions[w[0] as int].language,
    decreases w.len(),
{
    if w.len() > 1 {
        let v = w.drop_last();
        assert forall|i: int| 0 <= i < v.len() - 1 implies #[trigger] step_ok(adj, nodes, removed, v, i) by {
            assert(step_ok(adj, nodes, removed, w, i));
        }
        lemma_walk_keeps_language(adj, functions, nodes, removed, v);
        assert(step_ok(adj, nodes, removed, w, w.len() - 2));
        assert(lists_neighbor(adj, w[w.len() - 2], w[w.len() - 1]));
    }
}

/// Clusters are isolated by language: when no edge of the similarity graph
/// joins two languages, the members of every cluster share one language.
pub proof fn lemma_clusters_keep_to_one_language(adj: Adjacency, functions: Seq<FunctionInfo>, groups: Seq<Seq<usize>>)
    requires
        valid_clusters(adj, functions, groups),
        edges_within_languages(adj, functions),
    ensures
        forall|i: int, x: usize, y: usize|
            0 <= i < groups.len() && #[trigger] groups[i].contains(x) && #[trigger] groups[i].contains(y)
                ==> functions[x as int].language == functions[y as int].language,
{
    assert forall|i: int, x: usize, y: usize|
        0 <= i < groups.len() && #[trigger] groups[i].contains(x) && #[trigger] groups[i].contains(y)
            implies functions[x as int].language == functions[y as int].language by {
        assert(connected(adj, node_range(adj.len()), Seq::empty(), x, y));
        let k = choose|k: int| 0 <= k < groups[i].len() && groups[i][k] == x;
        assert(reportable_members(functions, groups[i]));
        assert(groups[i][k] < functions.len());
        let w = choose|w: Seq<usize>| #[trigger] is_walk(adj, node_range(adj.len()), Seq::empty(), w) && w[0] == x && w[w.len() - 1] == y;
        lemma_walk_keeps_language(adj, functions, node_range(adj.len()), Seq::empty(), w);
    }
}

// ─── Size estimates ──────────────────────────────────────────────────────

/// The estimated tokens of the members that name known functions.
pub open spec fn member_token_total(functions: Seq<FunctionInfo>, members: Seq<usize>) -> nat
    decreases members.len(),
{
    if members.len() == 0 {
        0
    } else {
        let idx = members.last();
        member_token_total(functions, members.drop_last()) + if idx < functions.len() {
            estimated_tokens_for(functions[idx as int].source_bytes as nat)
        } else {
            0
        }
    }
}

/// The average estimated token count of a cluster's members (total over the
/// member count, rounded down; zero without members). `None` when the total
/// does not fit in a `usize`.
pub fn average_member_tokens(members: &[usize], functions: &[FunctionInfo]) -> (r: Option<usize>)
    ensures
        match r {
            Some(avg) => member_token_total(functions@, members@) <= usize::MAX && avg == if members@.len() == 0 {
                0
            } else {
                member_token_total(functions@, members@) / members@.len() as nat
            },
            None => member_token_total(functions@, members@) > usize::MAX,
        },
{
    let mut total: usize = 0;
    let mut i: usize = 0;
    while i < members.len()
        invariant
            i <= members@.len(),
            total == member_token_total(functions@, members@.take(i as int)),
        decreases members@.len() - i,
    {
        let idx = members[i];
        let add = if idx < functions.len() { functions[idx].estimated_tokens() } else { 0 };
        proof {
            let next = members@.take(i + 1);
            assert(next.drop_last() =~= members@.take(i as int));
            assert(next.last() == idx);
            assert(member_token_total(functions@, next) == total + add);
        }
        match total.checked_add(add) {
            Some(t) => {
                total = t;
            },
            None => {
                proof {
                    lemma_member_token_total_monotone(functions@, members@, i + 1);
                }
                return None;
            },
        }
        i += 1;
    }
    proof {
        assert(members@.take(members@.len() as int) =~= members@);
    }
    if members.len() == 0 {
        Some(0)
    } else {
        Some(total / members.len())
    }
}

proof fn lemma_member_token_total_monotone(functions: Seq<FunctionInfo>, members: Seq<usize>, k: int)
    requires
        0 <= k <= members.len(),
    ensures
        member_token_total(functions, members.take(k)) <= member_token_total(functions, members),
    decreases members.len() - k,
{
    if k < members.len() {
        lemma_member_token_total_monotone(functions, members, k + 1);
        let next = members.take(k + 1);
        assert(next.drop_last() =~= members.take(k));
    } else {
        assert(members.take(k) =~= members);
    }
}

} // verus!
