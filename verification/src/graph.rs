//! The similarity graph: one node per function, an undirected edge between two
//! functions whose pair scored at or above the similarity threshold.
//!
//! Edge weights are similarity scores. The library never computes with them; it
//! only orders edges by weight, so each edge carries an integer order key that
//! sorts exactly as the weight does.
use vstd::prelude::*;

verus! {

/// Adjacency lists: for each node, its neighbours together with the order key
/// of the connecting edge's weight.
pub type Adjacency = Seq<Seq<(usize, u64)>>;

/// An undirected edge is named by its two endpoints, smaller first.
pub open spec fn edge_key(u: usize, v: usize) -> (usize, usize) {
    if u <= v {
        (u, v)
    } else {
        (v, u)
    }
}

/// `v` occurs in the adjacency list of `u`.
pub open spec fn lists_neighbor(adj: Adjacency, u: usize, v: usize) -> bool {
    &&& u < adj.len()
    &&& exists|k: int| 0 <= k < adj[u as int].len() && #[trigger] adj[u as int][k].0 == v
}

/// Every edge is recorded at both of its endpoints.
pub open spec fn symmetric(adj: Adjacency) -> bool {
    forall|u: usize, v: usize| #[trigger] lists_neighbor(adj, u, v) ==> lists_neighbor(adj, v, u)
}

/// Every neighbour named in the lists is itself a node of the graph.
pub open spec fn neighbors_in_range(adj: Adjacency) -> bool {
    forall|u: int, k: int|
        0 <= u < adj.len() && 0 <= k < adj[u].len() ==> (#[trigger] adj[u][k]).0 < adj.len()
}

/// One step of a walk inside the node set `nodes`, over an edge that has not
/// been removed.
pub open spec fn linked(
    adj: Adjacency,
    nodes: Seq<usize>,
    removed: Seq<(usize, usize)>,
    u: usize,
    v: usize,
) -> bool {
    &&& nodes.contains(u)
    &&& nodes.contains(v)
    &&& lists_neighbor(adj, u, v)
    &&& !removed.contains(edge_key(u, v))
}

/// The `i`-th step of `w` is a permitted step.
pub open spec fn step_ok(
    adj: Adjacency,
    nodes: Seq<usize>,
    removed: Seq<(usize, usize)>,
    w: Seq<usize>,
    i: int,
) -> bool {
    linked(adj, nodes, removed, w[i], w[i + 1])
}

/// A nonempty walk that starts in `nodes` and takes only permitted steps.
pub open spec fn is_walk(
    adj: Adjacency,
    nodes: Seq<usize>,
    removed: Seq<(usize, usize)>,
    w: Seq<usize>,
) -> bool {
    &&& w.len() > 0
    &&& nodes.contains(w[0])
    &&& forall|i: int| 0 <= i < w.len() - 1 ==> #[trigger] step_ok(adj, nodes, removed, w, i)
}

/// `b` can be reached from `a` inside `nodes` without the removed edges.
pub open spec fn connected(
    adj: Adjacency,
    nodes: Seq<usize>,
    removed: Seq<(usize, usize)>,
    a: usize,
    b: usize,
) -> bool {
    exists|w: Seq<usize>|
        #[trigger] is_walk(adj, nodes, removed, w) && w[0] == a && w[w.len() - 1] == b
}

pub open spec fn strictly_increasing(s: Seq<usize>) -> bool {
    forall|i: int, j: int| 0 <= i < j < s.len() ==> s[i] < s[j]
}

/// Order of components in a listing: larger first, then by smallest member.
pub open spec fn listed_before(a: Seq<usize>, b: Seq<usize>) -> bool {
    a.len() > b.len() || (a.len() == b.len() && a[0] < b[0])
}

/// `p` lists the connected components of `nodes` (with the removed edges
/// ignored): each component once, its members in increasing order, larger
/// components first and equal sizes by smallest member.
pub open spec fn is_component_listing(
    p: Seq<Seq<usize>>,
    adj: Adjacency,
    nodes: Seq<usize>,
    removed: Seq<(usize, usize)>,
) -> bool {
    &&& forall|i: int| 0 <= i < p.len() ==> (#[trigger] p[i]).len() > 0 && strictly_increasing(p[i])
    &&& forall|i: int, x: usize| 0 <= i < p.len() && #[trigger] p[i].contains(x) ==> nodes.contains(x)
    &&& forall|x: usize| #[trigger] nodes.contains(x) ==> exists|i: int| 0 <= i < p.len() && #[trigger] p[i].contains(x)
    &&& forall|i: int, x: usize, y: usize|
        0 <= i < p.len() && #[trigger] p[i].contains(x) && nodes.contains(y) ==> (#[trigger] p[i].contains(y)
            <==> connected(adj, nodes, removed, x, y))
    &&& forall|i: int, j: int| 0 <= i < j < p.len() ==> listed_before(#[trigger] p[i], #[trigger] p[j])
}

/// The listing of the connected components (unique, see
/// `lemma_component_listing_unique`).
pub open spec fn component_listing(adj: Adjacency, nodes: Seq<usize>, removed: Seq<(usize, usize)>) -> Seq<Seq<usize>> {
    choose|p: Seq<Seq<usize>>| is_component_listing(p, adj, nodes, removed)
}

/// The nodes `0 .. n` in order.
pub open spec fn node_range(n: nat) -> Seq<usize> {
    Seq::new(n, |i: int| i as usize)
}

pub open spec fn groups_view(v: Seq<Vec<usize>>) -> Seq<Seq<usize>> {
    v.map_values(|c: Vec<usize>| c@)
}

// ─── Walk lemmas ─────────────────────────────────────────────────────────

pub proof fn lemma_connected_self(adj: Adjacency, nodes: Seq<usize>, removed: Seq<(usize, usize)>, a: usize)
    requires
        nodes.contains(a),
    ensures
        connected(adj, nodes, removed, a, a),
{
    let w = seq![a];
    assert(is_walk(adj, nodes, removed, w));
}

pub proof fn lemma_connected_extend(
    adj: Adjacency,
    nodes: Seq<usize>,
    removed: Seq<(usize, usize)>,
    a: usize,
    b: usize,
    c: usize,
)
    requires
        connected(adj, nodes, removed, a, b),
        linked(adj, nodes, removed, b, c),
    ensures
        connected(adj, nodes, removed, a, c),
{
    let w = choose|w: Seq<usize>| #[trigger] is_walk(adj, nodes, removed, w) && w[0] == a && w[w.len() - 1] == b;
    let w2 = w.push(c);
    assert forall|i: int| 0 <= i < w2.len() - 1 implies #[trigger] step_ok(adj, nodes, removed, w2, i) by {
        if i < w.len() - 1 {
            assert(step_ok(adj, nodes, removed, w, i));
        }
    }
    assert(is_walk(adj, nodes, removed, w2));
}

pub proof fn lemma_linked_symmetric(
    adj: Adjacency,
    nodes: Seq<usize>,
    removed: Seq<(usize, usize)>,
    a: usize,
    b: usize,
)
    requires
        symmetric(adj),
        linked(adj, nodes, removed, a, b),
    ensures
        linked(adj, nodes, removed, b, a),
{
    assert(lists_neighbor(adj, a, b));
    assert(edge_key(a, b) == edge_key(b, a));
}

/// Walks can be followed backwards in an undirected graph.
pub proof fn lemma_connected_symmetric(
    adj: Adjacency,
    nodes: Seq<usize>,
    removed: Seq<(usize, usize)>,
    a: usize,
    b: usize,
)
    requires
        symmetric(adj),
        connected(adj, nodes, removed, a, b),
    ensures
        connected(adj, nodes, removed, b, a),
{
    let w = choose|w: Seq<usize>| #[trigger] is_walk(adj, nodes, removed, w) && w[0] == a && w[w.len() - 1] == b;
    lemma_walk_reverse(adj, nodes, removed, w);
}

proof fn lemma_walk_reverse(adj: Adjacency, nodes: Seq<usize>, removed: Seq<(usize, usize)>, w: Seq<usize>)
    requires
        symmetric(adj),
        is_walk(adj, nodes, removed, w),
    ensures
        connected(adj, nodes, removed, w[w.len() - 1], w[0]),
    decreases w.len(),
{
    if w.len() == 1 {
        lemma_connected_self(adj, nodes, removed, w[0]);
    } else {
        let v = w.drop_last();
        assert forall|i: int| 0 <= i < v.len() - 1 implies #[trigger] step_ok(adj, nodes, removed, v, i) by {
            assert(step_ok(adj, nodes, removed, w, i));
        }
        assert(is_walk(adj, nodes, removed, v));
        lemma_walk_reverse(adj, nodes, removed, v);
        let last = (w.len() - 2) as int;
        assert(step_ok(adj, nodes, removed, w, last));
        lemma_linked_symmetric(adj, nodes, removed, w[last], w[last + 1]);
        // last endpoint -> w[last] -> ... -> w[0]
        lemma_connected_self(adj, nodes, removed, w[w.len() - 1]);
        lemma_connected_extend(adj, nodes, removed, w[w.len() - 1], w[w.len() - 1], w[last]);
        lemma_connected_trans(adj, nodes, removed, w[w.len() - 1], w[last], w[0]);
    }
}

pub proof fn lemma_connected_trans(
    adj: Adjacency,
    nodes: Seq<usize>,
    removed: Seq<(usize, usize)>,
    a: usize,
    b: usize,
    c: usize,
)
    requires
        connected(adj, nodes, removed, a, b),
        connected(adj, nodes, removed, b, c),
    ensures
        connected(adj, nodes, removed, a, c),
{
    let w1 = choose|w: Seq<usize>| #[trigger] is_walk(adj, nodes, removed, w) && w[0] == a && w[w.len() - 1] == b;
    let w2 = choose|w: Seq<usize>| #[trigger] is_walk(adj, nodes, removed, w) && w[0] == b && w[w.len() - 1] == c;
    let w = w1 + w2.drop_first();
    assert forall|i: int| 0 <= i < w.len() - 1 implies #[trigger] step_ok(adj, nodes, removed, w, i) by {
        if i < w1.len() - 1 {
            assert(step_ok(adj, nodes, removed, w1, i));
        } else {
            let j = i - (w1.len() - 1);
            assert(step_ok(adj, nodes, removed, w2, j));
            if i == w1.len() - 1 {
                assert(w[i] == w2[0]);
            }
        }
    }
    assert(is_walk(adj, nodes, removed, w));
}

/// A walk that starts inside a set closed under permitted steps stays inside it.
pub proof fn lemma_closed_set_contains_walk(
    adj: Adjacency,
    nodes: Seq<usize>,
    removed: Seq<(usize, usize)>,
    set: Seq<usize>,
    w: Seq<usize>,
)
    requires
        is_walk(adj, nodes, removed, w),
        set.contains(w[0]),
        forall|x: usize, y: usize| #[trigger] set.contains(x) && linked(adj, nodes, removed, x, y) ==> #[trigger] set.contains(y),
    ensures
        set.contains(w[w.len() - 1]),
    decreases w.len(),
{
    if w.len() > 1 {
        let v = w.drop_last();
        assert forall|i: int| 0 <= i < v.len() - 1 implies #[trigger] step_ok(adj, nodes, removed, v, i) by {
            assert(step_ok(adj, nodes, removed, w, i));
        }
        lemma_closed_set_contains_walk(adj, nodes, removed, set, v);
        assert(step_ok(adj, nodes, removed, w, w.len() - 2));
    }
}

/// Distinct node ids below `n` number at most `n`.
pub proof fn lemma_distinct_nodes_bounded(s: Seq<usize>, n: nat)
    requires
        s.no_duplicates(),
        forall|i: int| 0 <= i < s.len() ==> s[i] < n,
    ensures
        s.len() <= n,
{
    broadcast use vstd::seq_lib::group_seq_properties;
    broadcast use vstd::set::group_set_axioms;
    let t = s.map_values(|x: usize| x as int);
    assert forall|i: int, j: int| 0 <= i < t.len() && 0 <= j < t.len() && i != j implies t[i] != t[j] by {
        assert(s[i] != s[j]);
    }
    assert(t.no_duplicates());
    t.unique_seq_to_set();
    vstd::set_lib::lemma_int_range(0, n as int);
    assert forall|x: int| t.to_set().contains(x) implies vstd::set_lib::set_int_range(0, n as int).contains(x) by {
        assert(t.contains(x));
        let i = choose|i: int| 0 <= i < t.len() && t[i] == x;
        assert(s[i] < n);
    }
    vstd::set_lib::lemma_len_subset(t.to_set(), vstd::set_lib::set_int_range(0, n as int));
}

/// A walk inside a smaller node set, avoiding removed edges, is also a walk
/// inside a larger node set with every edge available.
pub proof fn lemma_connected_monotone(
    adj: Adjacency,
    nodes: Seq<usize>,
    removed: Seq<(usize, usize)>,
    larger: Seq<usize>,
    a: usize,
    b: usize,
)
    requires
        connected(adj, nodes, removed, a, b),
        forall|x: usize| nodes.contains(x) ==> larger.contains(x),
    ensures
        connected(adj, larger, Seq::empty(), a, b),
{
    let w = choose|w: Seq<usize>| #[trigger] is_walk(adj, nodes, removed, w) && w[0] == a && w[w.len() - 1] == b;
    assert forall|i: int| 0 <= i < w.len() - 1 implies #[trigger] step_ok(adj, larger, Seq::empty(), w, i) by {
        assert(step_ok(adj, nodes, removed, w, i));
    }
    assert(is_walk(adj, larger, Seq::empty(), w));
}

/// The groups of a listing do not overlap.
pub proof fn lemma_listing_disjoint(
    p: Seq<Seq<usize>>,
    adj: Adjacency,
    nodes: Seq<usize>,
    removed: Seq<(usize, usize)>,
)
    requires
        is_component_listing(p, adj, nodes, removed),
    ensures
        forall|i: int, j: int, x: usize|
            0 <= i < p.len() && 0 <= j < p.len() && i != j && #[trigger] p[i].contains(x) ==> !(#[trigger] p[j].contains(x)),
{
    assert forall|i: int, j: int, x: usize|
        0 <= i < p.len() && 0 <= j < p.len() && i != j && #[trigger] p[i].contains(x) implies !(#[trigger] p[j].contains(x)) by {
        if p[j].contains(x) {
            assert(nodes.contains(x));
            assert forall|y: usize| p[i].contains(y) <==> p[j].contains(y) by {
                if p[i].contains(y) {
                    assert(nodes.contains(y));
                }
                if p[j].contains(y) {
                    assert(nodes.contains(y));
                }
            }
            let lt = |a: usize, b: usize| a < b;
            assert(strictly_increasing(p[i]) && strictly_increasing(p[j]));
            assert forall|a: int, b: int| 0 <= a < b < p[i].len() implies lt(p[i][a], p[i][b]) by {}
            assert forall|a: int, b: int| 0 <= a < b < p[j].len() implies lt(p[j][a], p[j][b]) by {}
            lemma_sorted_unique(p[i], p[j], lt);
            if i < j {
                assert(listed_before(p[i], p[j]));
            } else {
                assert(listed_before(p[j], p[i]));
            }
        }
    }
}

// ─── Uniqueness of the listing ───────────────────────────────────────────

/// Two sequences ordered by the same asymmetric relation and holding the same
/// elements are equal.
pub proof fn lemma_sorted_unique<A>(s: Seq<A>, t: Seq<A>, before: spec_fn(A, A) -> bool)
    requires
        forall|i: int, j: int| 0 <= i < j < s.len() ==> before(s[i], s[j]),
        forall|i: int, j: int| 0 <= i < j < t.len() ==> before(t[i], t[j]),
        forall|a: A, b: A| #[trigger] before(a, b) ==> !before(b, a),
        forall|a: A| s.contains(a) <==> t.contains(a),
    ensures
        s == t,
    decreases s.len(),
{
    if s.len() == 0 {
        if t.len() > 0 {
            assert(t.contains(t[0]));
        }
        assert(s =~= t);
    } else {
        assert(s.contains(s[0]));
        assert(t.len() > 0);
        assert(t.contains(t[0]));
        let k = choose|k: int| 0 <= k < t.len() && t[k] == s[0];
        let m = choose|m: int| 0 <= m < s.len() && s[m] == t[0];
        if k > 0 {
            assert(before(t[0], t[k]));
            if m == 0 {
                assert(before(t[k], t[k]));
            } else {
                assert(before(s[0], s[m]));
            }
        }
        assert(s[0] == t[0]);
        let s1 = s.drop_first();
        let t1 = t.drop_first();
        assert forall|a: A| s1.contains(a) implies t1.contains(a) by {
            let i = choose|i: int| 0 <= i < s1.len() && s1[i] == a;
            assert(s.contains(a) && s[i + 1] == a);
            let j = choose|j: int| 0 <= j < t.len() && t[j] == a;
            if j == 0 {
                assert(before(s[0], s[i + 1]));
            }
            assert(t1[j - 1] == a);
        }
        assert forall|a: A| t1.contains(a) implies s1.contains(a) by {
            let i = choose|i: int| 0 <= i < t1.len() && t1[i] == a;
            assert(t.contains(a) && t[i + 1] == a);
            let j = choose|j: int| 0 <= j < s.len() && s[j] == a;
            if j == 0 {
                assert(before(t[0], t[i + 1]));
            }
            assert(s1[j - 1] == a);
        }
        assert forall|i: int, j: int| 0 <= i < j < s1.len() implies before(s1[i], s1[j]) by {
            assert(before(s[i + 1], s[j + 1]));
        }
        assert forall|i: int, j: int| 0 <= i < j < t1.len() implies before(t1[i], t1[j]) by {
            assert(before(t[i + 1], t[j + 1]));
        }
        lemma_sorted_unique(s1, t1, before);
        assert(s =~= seq![s[0]] + s1);
        assert(t =~= seq![t[0]] + t1);
    }
}

/// The listing of connected components is determined by the graph, the node
/// set and the removed edges: there is exactly one.
pub proof fn lemma_component_listing_unique(
    p: Seq<Seq<usize>>,
    q: Seq<Seq<usize>>,
    adj: Adjacency,
    nodes: Seq<usize>,
    removed: Seq<(usize, usize)>,
)
    requires
        is_component_listing(p, adj, nodes, removed),
        is_component_listing(q, adj, nodes, removed),
    ensures
        p == q,
{
    assert forall|c: Seq<usize>| p.contains(c) implies q.contains(c) by {
        lemma_listing_member_in_other(p, q, adj, nodes, removed, c);
    }
    assert forall|c: Seq<usize>| q.contains(c) implies p.contains(c) by {
        lemma_listing_member_in_other(q, p, adj, nodes, removed, c);
    }
    let before = |a: Seq<usize>, b: Seq<usize>| listed_before(a, b);
    assert forall|i: int, j: int| 0 <= i < j < p.len() implies before(p[i], p[j]) by {
        assert(listed_before(p[i], p[j]));
    }
    assert forall|i: int, j: int| 0 <= i < j < q.len() implies before(q[i], q[j]) by {
        assert(listed_before(q[i], q[j]));
    }
    lemma_sorted_unique(p, q, before);
}

proof fn lemma_listing_member_in_other(
    p: Seq<Seq<usize>>,
    q: Seq<Seq<usize>>,
    adj: Adjacency,
    nodes: Seq<usize>,
    removed: Seq<(usize, usize)>,
    c: Seq<usize>,
)
    requires
        is_component_listing(p, adj, nodes, removed),
        is_component_listing(q, adj, nodes, removed),
        p.contains(c),
    ensures
        q.contains(c),
{
    let i = choose|i: int| 0 <= i < p.len() && p[i] == c;
    assert(p[i].len() > 0);
    let x = c[0];
    assert(p[i].contains(x));
    assert(nodes.contains(x));
    let j = choose|j: int| 0 <= j < q.len() && #[trigger] q[j].contains(x);
    assert forall|y: usize| c.contains(y) <==> q[j].contains(y) by {
        if c.contains(y) {
            assert(nodes.contains(y));
            assert(connected(adj, nodes, removed, x, y));
        }
        if q[j].contains(y) {
            assert(nodes.contains(y));
            assert(connected(adj, nodes, removed, x, y));
        }
    }
    let lt = |a: usize, b: usize| a < b;
    assert forall|a: int, b: int| 0 <= a < b < c.len() implies lt(c[a], c[b]) by {
        assert(strictly_increasing(p[i]));
    }
    assert(q[j].len() > 0 && strictly_increasing(q[j]));
    assert forall|a: int, b: int| 0 <= a < b < q[j].len() implies lt(q[j][a], q[j][b]) by {}
    lemma_sorted_unique(c, q[j], lt);
    assert(q[j] == c);
}

/// Once one listing is known, `component_listing` names it.
pub proof fn lemma_component_listing_is(
    p: Seq<Seq<usize>>,
    adj: Adjacency,
    nodes: Seq<usize>,
    removed: Seq<(usize, usize)>,
)
    requires
        is_component_listing(p, adj, nodes, removed),
    ensures
        component_listing(adj, nodes, removed) == p,
{
    let q = component_listing(adj, nodes, removed);
    assert(is_component_listing(q, adj, nodes, removed));
    lemma_component_listing_unique(p, q, adj, nodes, removed);
}


// ─── Order keys ──────────────────────────────────────────────────────────

/// Where a binary64 bit pattern stands among the representable values,
/// counted in steps away from zero: negative for negative values, zero for
/// both zeros. For two non-NaN patterns this orders as the values do.
pub open spec fn binary64_rank(bits: u64) -> int {
    if bits >= 0x8000_0000_0000_0000 {
        0x8000_0000_0000_0000 - bits
    } else {
        bits as int
    }
}

/// The order key of a weight given by its bit pattern (`f64::to_bits`): the
/// pattern's rank shifted to be non-negative, so that keys compare as the
/// (non-NaN) weights do and both zeros share one key.
pub fn weight_order_key_from_bits(bits: u64) -> (r: u64)
    ensures
        r == binary64_rank(bits) + 0x8000_0000_0000_0000,
{
    let sign: u64 = 0x8000_0000_0000_0000;
    if bits >= sign {
        sign - (bits - sign)
    } else {
        bits + sign
    }
}

// ─── The graph ───────────────────────────────────────────────────────────

/// Undirected similarity graph over the functions `0 .. node_count()`.
pub struct SimilarityGraph {
    adjacency: Vec<Vec<(usize, u64)>>,
}

impl View for SimilarityGraph {
    type V = Adjacency;

    closed spec fn view(&self) -> Adjacency {
        self.adjacency@.map_values(|l: Vec<(usize, u64)>| l@)
    }
}

impl SimilarityGraph {
    /// Edges are undirected and join nodes of the graph.
    #[verifier::type_invariant]
    pub open spec fn well_formed(&self) -> bool {
        symmetric(self@) && neighbors_in_range(self@)
    }

    /// A graph with `node_count` nodes and no edges.
    pub fn new(node_count: usize) -> (g: Self)
        ensures
            g@.len() == node_count,
            forall|u: int| 0 <= u < node_count ==> (#[trigger] g@[u]).len() == 0,
    {
        let mut adjacency: Vec<Vec<(usize, u64)>> = Vec::new();
        for i in 0..node_count
            invariant
                adjacency@.len() == i,
                forall|u: int| 0 <= u < i ==> (#[trigger] adjacency@[u])@.len() == 0,
        {
            adjacency.push(Vec::new());
        }
        let g = SimilarityGraph { adjacency };
        assert(g@.len() == node_count);
        g
    }

    pub fn node_count(&self) -> (n: usize)
        ensures
            n == self@.len(),
    {
        self.adjacency.len()
    }

    /// The neighbours of `node`, each with the order key of the edge weight.
    pub fn neighbors(&self, node: usize) -> (r: &Vec<(usize, u64)>)
        requires
            node < self@.len(),
        ensures
            r@ == self@[node as int],
    {
        &self.adjacency[node]
    }

    /// The connected components of the whole graph, each with its members in
    /// increasing order, larger components first and equal sizes by
    /// smallest member.
    pub fn connected_components(&self) -> (r: Vec<Vec<usize>>)
        ensures
            is_component_listing(groups_view(r@), self@, node_range(self@.len()), Seq::empty()),
            groups_view(r@) == component_listing(self@, node_range(self@.len()), Seq::empty()),
    {
        let n = self.adjacency.len();
        let mut nodes: Vec<usize> = Vec::new();
        for i in 0..n
            invariant
                n == self@.len(),
                nodes@ == node_range(i as nat),
        {
            nodes.push(i);
            assert(nodes@ =~= node_range((i + 1) as nat));
        }
        let removed: Vec<(usize, usize)> = Vec::new();
        let r = crate::clustering::bfs_components(nodes.as_slice(), self, &removed);
        proof {
            assert(removed@ =~= Seq::<(usize, usize)>::empty());
            lemma_component_listing_is(groups_view(r@), self@, node_range(self@.len()), Seq::empty());
        }
        r
    }

    /// Records an undirected edge between `a` and `b` whose weight orders as
    /// `weight_key`.
    pub fn add_edge(&mut self, a: usize, b: usize, weight_key: u64)
        requires
            a < old(self)@.len(),
            b < old(self)@.len(),
        ensures
            final(self)@.len() == old(self)@.len(),
            a != b ==> final(self)@ == old(self)@.update(a as int, old(self)@[a as int].push((b, weight_key))).update(
                b as int,
                old(self)@[b as int].push((a, weight_key)),
            ),
            a == b ==> final(self)@ == old(self)@.update(
                a as int,
                old(self)@[a as int].push((b, weight_key)).push((a, weight_key)),
            ),
    {
        proof {
            use_type_invariant(&*self);
        }
        let ghost old_adj = self@;
        let mut adjacency: Vec<Vec<(usize, u64)>> = Vec::new();
        std::mem::swap(&mut adjacency, &mut self.adjacency);
        adjacency[a].push((b, weight_key));
        adjacency[b].push((a, weight_key));
        let ghost new_adj = adjacency@.map_values(|l: Vec<(usize, u64)>| l@);
        proof {
            if a != b {
                assert(new_adj =~= old_adj.update(a as int, old_adj[a as int].push((b, weight_key))).update(
                    b as int,
                    old_adj[b as int].push((a, weight_key)),
                ));
            } else {
                assert(new_adj =~= old_adj.update(
                    a as int,
                    old_adj[a as int].push((b, weight_key)).push((a, weight_key)),
                ));
            }
            let la = old_adj[a as int].len() as int;
            let lb = old_adj[b as int].len() as int;
            assert(new_adj[a as int][la].0 == b);
            if a != b {
                assert(new_adj[b as int][lb].0 == a);
            } else {
                assert(new_adj[b as int][lb + 1].0 == a);
            }
            lemma_add_edge_well_formed(old_adj, new_adj, a, b, weight_key);
        }
        self.adjacency = adjacency;
    }
}

proof fn lemma_add_edge_well_formed(old_adj: Adjacency, new_adj: Adjacency, a: usize, b: usize, w: u64)
    requires
        symmetric(old_adj),
        neighbors_in_range(old_adj),
        a < old_adj.len(),
        b < old_adj.len(),
        new_adj.len() == old_adj.len(),
        lists_neighbor(new_adj, a, b),
        lists_neighbor(new_adj, b, a),
        forall|u: int| 0 <= u < new_adj.len() && u != a && u != b ==> new_adj[u] == old_adj[u],
        forall|u: int| 0 <= u < new_adj.len() && (u == a || u == b) ==> {
            &&& new_adj[u].len() >= old_adj[u].len()
            &&& forall|k: int| 0 <= k < old_adj[u].len() ==> new_adj[u][k] == old_adj[u][k]
            &&& forall|k: int| old_adj[u].len() <= k < new_adj[u].len() ==> (new_adj[u][k].0 == a || new_adj[u][k].0 == b)
        },
    ensures
        symmetric(new_adj),
        neighbors_in_range(new_adj),
{
    assert forall|u: usize, v: usize| #[trigger] lists_neighbor(new_adj, u, v) implies lists_neighbor(new_adj, v, u) by {
        let k = choose|k: int| 0 <= k < new_adj[u as int].len() && #[trigger] new_adj[u as int][k].0 == v;
        if u != a && u != b {
            assert(old_adj[u as int][k].0 == v);
            assert(lists_neighbor(old_adj, u, v));
            assert(lists_neighbor(old_adj, v, u));
            let k2 = choose|k2: int| 0 <= k2 < old_adj[v as int].len() && #[trigger] old_adj[v as int][k2].0 == u;
            if v == a || v == b {
                assert(new_adj[v as int][k2].0 == u);
            } else {
                assert(new_adj[v as int][k2].0 == u);
            }
        } else if k < old_adj[u as int].len() {
            assert(old_adj[u as int][k].0 == v);
            assert(lists_neighbor(old_adj, u, v));
            assert(lists_neighbor(old_adj, v, u));
            let k2 = choose|k2: int| 0 <= k2 < old_adj[v as int].len() && #[trigger] old_adj[v as int][k2].0 == u;
            assert(new_adj[v as int][k2].0 == u);
        } else {
            assert(v == a || v == b);
        }
    }
}

} // verus!
