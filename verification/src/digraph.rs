//! The directed graph of target labels, held in a `petgraph` graph.
//!
//! The graph is seen through four names: its node weights by index, the
//! outgoing and the incoming neighbour lists of each node in the order in
//! which `petgraph` walks them (most recently added edge first), and the
//! endpoints of its edges by edge index.
use vstd::prelude::*;

verus! {

#[verifier::external_type_specification]
#[verifier::external_body]
#[verifier::reject_recursive_types(N)]
#[verifier::reject_recursive_types(E)]
#[verifier::reject_recursive_types(Ty)]
#[verifier::reject_recursive_types(Ix)]
pub struct ExGraph<N, E, Ty, Ix>(petgraph::graph::Graph<N, E, Ty, Ix>);

#[verifier::external_type_specification]
#[verifier::external_body]
pub struct ExDirected(petgraph::Directed);

/// Node weights of a graph, by node index.
pub uninterp spec fn graph_nodes(g: petgraph::graph::Graph<String, (), petgraph::Directed, u32>) -> Seq<Seq<char>>;

/// For each node, the targets of its outgoing edges in the order in which
/// `Graph::neighbors_directed(_, Outgoing)` yields them.
pub uninterp spec fn graph_out(g: petgraph::graph::Graph<String, (), petgraph::Directed, u32>) -> Seq<Seq<int>>;

/// For each node, the sources of its incoming edges in the order in which
/// `Graph::neighbors_directed(_, Incoming)` yields them.
pub uninterp spec fn graph_in(g: petgraph::graph::Graph<String, (), petgraph::Directed, u32>) -> Seq<Seq<int>>;

/// Source and target of each edge, by edge index (`Graph::edge_endpoints`).
pub uninterp spec fn graph_edge_ends(g: petgraph::graph::Graph<String, (), petgraph::Directed, u32>) -> Seq<(int, int)>;

/// `s` without any occurrence of `x`, order kept.
pub open spec fn drop_value(s: Seq<int>, x: int) -> Seq<int>
    decreases s.len(),
{
    if s.len() == 0 {
        s
    } else if s.last() == x {
        drop_value(s.drop_last(), x)
    } else {
        drop_value(s.drop_last(), x).push(s.last())
    }
}

/// `s` with every `from` replaced by `to`.
pub open spec fn relabel(s: Seq<int>, from: int, to: int) -> Seq<int> {
    s.map_values(|x: int| if x == from { to } else { x })
}

/// Neighbour lists after node `i` has been removed and the last node has
/// taken its index.
pub open spec fn lists_after_remove(l: Seq<Seq<int>>, i: int) -> Seq<Seq<int>> {
    let last = l.len() - 1;
    Seq::new(
        (l.len() - 1) as nat,
        |k: int| relabel(drop_value(l[if k == i { last } else { k }], i), last, i),
    )
}

/// Node weights after node `i` has been removed (`Vec::swap_remove`).
pub open spec fn nodes_after_remove(n: Seq<Seq<char>>, i: int) -> Seq<Seq<char>> {
    n.update(i, n.last()).drop_last()
}

/// Edge endpoints after edge `e` has been removed: the last edge takes its
/// index (`Vec::swap_remove`).
pub open spec fn ends_after_edge_remove(ends: Seq<(int, int)>, e: int) -> Seq<(int, int)> {
    ends.update(e, ends.last()).drop_last()
}

/// The endpoints of the edges that survive the removal of node `i`, with
/// the last node (index `last`) renamed to `i`.
pub open spec fn ends_after_node_remove(ends: Seq<(int, int)>, i: int, last: int) -> Seq<(int, int)> {
    ends.filter(|p: (int, int)| p.0 != i && p.1 != i).map_values(
        |p: (int, int)| (if p.0 == last { i } else { p.0 }, if p.1 == last { i } else { p.1 }),
    )
}

/// Sequences of node indices read as integers.
pub open spec fn idx_view(v: Seq<usize>) -> Seq<int> {
    v.map_values(|x: usize| x as int)
}

/// `Graph::new`: an empty directed graph.
#[verifier::external_body]
pub(crate) fn graph_new() -> (g: petgraph::graph::Graph<String, (), petgraph::Directed, u32>)
    ensures
        graph_nodes(g) == Seq::<Seq<char>>::empty(),
        graph_out(g) == Seq::<Seq<int>>::empty(),
        graph_in(g) == Seq::<Seq<int>>::empty(),
        graph_edge_ends(g) == Seq::<(int, int)>::empty(),
{
    petgraph::graph::Graph::new()
}

/// `Graph::add_node`: appends a node with weight `w`; its index is the old
/// node count.  `petgraph` panics when the count reaches `u32::MAX`.
#[verifier::external_body]
pub(crate) fn graph_add_node(
    g: &mut petgraph::graph::Graph<String, (), petgraph::Directed, u32>,
    w: String,
) -> (i: usize)
    requires
        graph_nodes(*old(g)).len() < u32::MAX,
    ensures
        i == graph_nodes(*old(g)).len(),
        graph_nodes(*final(g)) == graph_nodes(*old(g)).push(w@),
        graph_out(*final(g)) == graph_out(*old(g)).push(Seq::<int>::empty()),
        graph_in(*final(g)) == graph_in(*old(g)).push(Seq::<int>::empty()),
        graph_edge_ends(*final(g)) == graph_edge_ends(*old(g)),
{
    g.add_node(w).index()
}

/// `Graph::add_edge`: adds an edge `a -> b`; it becomes the first of `a`'s
/// outgoing and of `b`'s incoming lists.  `petgraph` panics on a missing
/// node and when the edge count reaches `u32::MAX`.
#[verifier::external_body]
pub(crate) fn graph_add_edge(
    g: &mut petgraph::graph::Graph<String, (), petgraph::Directed, u32>,
    a: usize,
    b: usize,
)
    requires
        a < graph_nodes(*old(g)).len(),
        b < graph_nodes(*old(g)).len(),
        graph_edge_ends(*old(g)).len() < u32::MAX,
    ensures
        graph_nodes(*final(g)) == graph_nodes(*old(g)),
        graph_out(*final(g)) == graph_out(*old(g)).update(
            a as int,
            seq![b as int] + graph_out(*old(g))[a as int],
        ),
        graph_in(*final(g)) == graph_in(*old(g)).update(
            b as int,
            seq![a as int] + graph_in(*old(g))[b as int],
        ),
        graph_edge_ends(*final(g)) == graph_edge_ends(*old(g)).push((a as int, b as int)),
{
    g.add_edge(petgraph::graph::NodeIndex::new(a), petgraph::graph::NodeIndex::new(b), ());
}

/// `Graph::contains_edge`: whether an edge `a -> b` exists.
#[verifier::external_body]
pub(crate) fn graph_contains_edge(
    g: &petgraph::graph::Graph<String, (), petgraph::Directed, u32>,
    a: usize,
    b: usize,
) -> (r: bool)
    requires
        a < graph_nodes(*g).len(),
    ensures
        r == graph_out(*g)[a as int].contains(b as int),
{
    g.contains_edge(petgraph::graph::NodeIndex::new(a), petgraph::graph::NodeIndex::new(b))
}

/// `Graph::node_count`: the number of nodes.
#[verifier::external_body]
pub(crate) fn graph_node_count(g: &petgraph::graph::Graph<String, (), petgraph::Directed, u32>) -> (n: usize)
    ensures
        n == graph_nodes(*g).len(),
{
    g.node_count()
}

/// `Graph::edge_count`: the number of edges.
#[verifier::external_body]
pub(crate) fn graph_edge_count(g: &petgraph::graph::Graph<String, (), petgraph::Directed, u32>) -> (n: usize)
    ensures
        n == graph_edge_ends(*g).len(),
{
    g.edge_count()
}

/// `Graph`'s `Index` impl: the weight of node `i`, cloned.
#[verifier::external_body]
pub(crate) fn graph_node_label(
    g: &petgraph::graph::Graph<String, (), petgraph::Directed, u32>,
    i: usize,
) -> (r: String)
    requires
        i < graph_nodes(*g).len(),
    ensures
        r@ == graph_nodes(*g)[i as int],
{
    g[petgraph::graph::NodeIndex::new(i)].clone()
}

/// `Graph::neighbors_directed`: the outgoing (or, with `incoming`, the
/// incoming) neighbours of `a`, most recently added edge first.
#[verifier::external_body]
pub(crate) fn graph_neighbors(
    g: &petgraph::graph::Graph<String, (), petgraph::Directed, u32>,
    a: usize,
    incoming: bool,
) -> (r: Vec<usize>)
    requires
        a < graph_nodes(*g).len(),
    ensures
        idx_view(r@) == if incoming {
            graph_in(*g)[a as int]
        } else {
            graph_out(*g)[a as int]
        },
{
    let dir = if incoming {
        petgraph::Direction::Incoming
    } else {
        petgraph::Direction::Outgoing
    };
    g.neighbors_directed(petgraph::graph::NodeIndex::new(a), dir).map(|n| n.index()).collect()
}

/// `Graph::remove_node`: removes node `i` and every edge touching it; the
/// last node takes index `i`, and edges of the moved node follow it.  The
/// order of every remaining neighbour list is kept.  The remaining edges
/// are the others, renamed, in an order left unstated (each removal moves
/// the last edge into the freed index).
#[verifier::external_body]
pub(crate) fn graph_remove_node(
    g: &mut petgraph::graph::Graph<String, (), petgraph::Directed, u32>,
    i: usize,
)
    requires
        i < graph_nodes(*old(g)).len(),
        graph_out(*old(g)).len() == graph_nodes(*old(g)).len(),
        graph_in(*old(g)).len() == graph_nodes(*old(g)).len(),
    ensures
        graph_nodes(*final(g)) == nodes_after_remove(graph_nodes(*old(g)), i as int),
        graph_out(*final(g)) == lists_after_remove(graph_out(*old(g)), i as int),
        graph_in(*final(g)) == lists_after_remove(graph_in(*old(g)), i as int),
        graph_edge_ends(*final(g)).to_multiset() == ends_after_node_remove(
            graph_edge_ends(*old(g)),
            i as int,
            graph_nodes(*old(g)).len() - 1,
        ).to_multiset(),
        graph_edge_ends(*final(g)).len() <= graph_edge_ends(*old(g)).len(),
{
    g.remove_node(petgraph::graph::NodeIndex::new(i));
}

/// `Graph::first_edge(a, Outgoing)`: the index of the most recently added
/// edge leaving `a`, whose target heads `a`'s outgoing list.
#[verifier::external_body]
pub(crate) fn graph_first_out_edge(
    g: &petgraph::graph::Graph<String, (), petgraph::Directed, u32>,
    a: usize,
) -> (r: Option<usize>)
    requires
        a < graph_nodes(*g).len(),
    ensures
        r is None <==> graph_out(*g)[a as int].len() == 0,
        r matches Some(e) ==> e < graph_edge_ends(*g).len() && graph_edge_ends(*g)[e as int] == (
            a as int,
            graph_out(*g)[a as int][0],
        ),
{
    g.first_edge(petgraph::graph::NodeIndex::new(a), petgraph::Direction::Outgoing).map(|e| e.index())
}

/// `Graph::remove_edge`: removes edge `e`, unlinking it from its source's
/// outgoing and its target's incoming list (stated for lists in which the
/// edge's other endpoint occurs once); the last edge takes index `e`.
#[verifier::external_body]
pub(crate) fn graph_remove_edge(
    g: &mut petgraph::graph::Graph<String, (), petgraph::Directed, u32>,
    e: usize,
)
    requires
        e < graph_edge_ends(*old(g)).len(),
        0 <= graph_edge_ends(*old(g))[e as int].0 < graph_nodes(*old(g)).len(),
        0 <= graph_edge_ends(*old(g))[e as int].1 < graph_nodes(*old(g)).len(),
        graph_out(*old(g))[graph_edge_ends(*old(g))[e as int].0].no_duplicates(),
        graph_in(*old(g))[graph_edge_ends(*old(g))[e as int].1].no_duplicates(),
    ensures
        graph_nodes(*final(g)) == graph_nodes(*old(g)),
        ({
            let (s, t) = graph_edge_ends(*old(g))[e as int];
            &&& graph_out(*final(g)) == graph_out(*old(g)).update(s, drop_value(graph_out(*old(g))[s], t))
            &&& graph_in(*final(g)) == graph_in(*old(g)).update(t, drop_value(graph_in(*old(g))[t], s))
        }),
        graph_edge_ends(*final(g)) == ends_after_edge_remove(graph_edge_ends(*old(g)), e as int),
        graph_edge_ends(*final(g)).len() == graph_edge_ends(*old(g)).len() - 1,
{
    g.remove_edge(petgraph::graph::EdgeIndex::new(e));
}


/// Membership in `drop_value`.
pub proof fn lemma_drop_value(s: Seq<int>, x: int)
    ensures
        forall|y: int| #[trigger] drop_value(s, x).contains(y) <==> s.contains(y) && y != x,
        s.no_duplicates() ==> drop_value(s, x).no_duplicates(),
        drop_value(s, x).len() <= s.len(),
        !s.contains(x) ==> drop_value(s, x) == s,
    decreases s.len(),
{
    if s.len() > 0 {
        let p = s.drop_last();
        lemma_drop_value(p, x);
        assert(s == p.push(s.last()));
        let d = drop_value(p, x);
        assert forall|y: int| #[trigger] drop_value(s, x).contains(y) <==> s.contains(y) && y != x by {
            if s.last() != x {
                if d.push(s.last()).contains(y) && y != s.last() {
                    let k = choose|k: int| 0 <= k < d.push(s.last()).len() && d.push(s.last())[k] == y;
                    assert(d[k] == y);
                }
                if d.contains(y) {
                    let k = choose|k: int| 0 <= k < d.len() && d[k] == y;
                    assert(d.push(s.last())[k] == y);
                }
                assert(d.push(s.last())[d.len() as int] == s.last());
            }
            if s.contains(y) && y != s.last() {
                let k = choose|k: int| 0 <= k < s.len() && s[k] == y;
                assert(p[k] == y);
            }
            if p.contains(y) {
                let k = choose|k: int| 0 <= k < p.len() && p[k] == y;
                assert(s[k] == y);
            }
        }
        if s.no_duplicates() {
            assert(p.no_duplicates());
            if s.last() != x {
                assert(!p.contains(s.last()));
                assert forall|a: int, b: int| 0 <= a < b < d.push(s.last()).len() implies d.push(s.last())[a] != d.push(s.last())[b] by {
                    if b == d.len() {
                        assert(d.contains(d[a]));
                    }
                }
            }
        }
        if !s.contains(x) {
            assert(!p.contains(x)) by {
                if p.contains(x) {
                    let k = choose|k: int| 0 <= k < p.len() && p[k] == x;
                    assert(s[k] == x);
                }
            }
            assert(s[s.len() - 1] != x);
        }
    }
}

/// After dropping `i`, relabelling the last node to `i` maps each old
/// neighbour to its new index.
pub proof fn lemma_relabel_drop(s: Seq<int>, n: int, i: int, b: int)
    requires
        0 <= i < n,
        0 <= b < n - 1,
    ensures
        relabel(drop_value(s, i), n - 1, i).contains(b) <==> s.contains(if b == i { n - 1 } else { b }),
{
    let t = drop_value(s, i);
    let r = relabel(t, n - 1, i);
    lemma_drop_value(s, i);
    let src = if b == i { n - 1 } else { b };
    if r.contains(b) {
        let k = choose|k: int| 0 <= k < r.len() && r[k] == b;
        let c = t[k];
        assert(t.contains(c));
        if c == n - 1 {
            assert(b == i);
        } else {
            assert(c == b);
            assert(b != i);
        }
    }
    if s.contains(src) {
        if b == i {
            if i != n - 1 {
                assert(t.contains(n - 1));
                let k = choose|k: int| 0 <= k < t.len() && t[k] == n - 1;
                assert(r[k] == i);
            }
        } else {
            assert(t.contains(b));
            let k = choose|k: int| 0 <= k < t.len() && t[k] == b;
            assert(r[k] == b);
        }
    }
}

/// `relabel` keeps a list free of duplicates when the new label is absent.
pub proof fn lemma_relabel_no_dup(s: Seq<int>, from: int, to: int)
    requires
        s.no_duplicates(),
        !s.contains(to),
    ensures
        relabel(s, from, to).no_duplicates(),
{
    let r = relabel(s, from, to);
    assert forall|a: int, b: int| 0 <= a < b < r.len() implies r[a] != r[b] by {
        assert(s[a] != s[b]);
        if s[a] != from && s[b] != from {
        } else if s[a] == from {
            assert(r[a] == to);
            assert(s[b] != to);
        } else {
            assert(r[b] == to);
            assert(s[a] != to);
        }
    }
}

/// Dropping the head of a list without duplicates removes its first element.
pub proof fn lemma_drop_head(s: Seq<int>)
    requires
        s.no_duplicates(),
        s.len() > 0,
    ensures
        drop_value(s, s[0]) == s.drop_first(),
    decreases s.len(),
{
    if s.len() == 1 {
        assert(drop_value(s.drop_last(), s[0]) == s.drop_last());
        assert(s.drop_last() =~= s.drop_first());
    } else {
        let p = s.drop_last();
        assert(p.no_duplicates());
        lemma_drop_head(p);
        assert(p[0] == s[0]);
        assert(s.last() != s[0]);
        assert(p.drop_first().push(s.last()) =~= s.drop_first());
    }
}

} // verus!
