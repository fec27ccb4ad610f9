//! Reachability over adjacency lists.
use vstd::prelude::*;

verus! {

/// Every neighbour named by a list is a node.
pub open spec fn adj_ok(adj: Seq<Seq<int>>) -> bool {
    forall|a: int, k: int| 0 <= a < adj.len() && 0 <= k < adj[a].len() ==> 0 <= #[trigger] adj[a][k] < adj.len()
}

/// `p` is a walk: consecutive nodes are joined by edges.
pub open spec fn is_walk(adj: Seq<Seq<int>>, p: Seq<int>) -> bool {
    &&& p.len() >= 1
    &&& forall|k: int| 0 <= k < p.len() ==> 0 <= #[trigger] p[k] < adj.len()
    &&& forall|k: int| 0 <= k < p.len() - 1 ==> #[trigger] adj[p[k]].contains(p[k + 1])
}

/// There is a walk from `a` to `b` (of length zero when `a == b`).
pub open spec fn reaches(adj: Seq<Seq<int>>, a: int, b: int) -> bool {
    exists|p: Seq<int>| #[trigger] is_walk(adj, p) && p[0] == a && p.last() == b
}

/// The marked nodes are closed under edges.
pub open spec fn closed(adj: Seq<Seq<int>>, vis: Seq<bool>) -> bool {
    forall|u: int, w: int|
        0 <= u < adj.len() && #[trigger] vis[u] && #[trigger] adj[u].contains(w) ==> vis[w]
}

/// Number of unmarked nodes.
pub open spec fn count_false(s: Seq<bool>) -> nat
    decreases s.len(),
{
    if s.len() == 0 {
        0
    } else {
        count_false(s.drop_last()) + if s.last() {
            0nat
        } else {
            1nat
        }
    }
}

pub proof fn lemma_count_false_mark(s: Seq<bool>, i: int)
    requires
        0 <= i < s.len(),
        !s[i],
    ensures
        count_false(s.update(i, true)) + 1 == count_false(s),
    decreases s.len(),
{
    let t = s.update(i, true);
    if i == s.len() - 1 {
        assert(t.drop_last() =~= s.drop_last());
    } else {
        lemma_count_false_mark(s.drop_last(), i);
        assert(t.drop_last() =~= s.drop_last().update(i, true));
    }
}

/// The nodes of `ns` not marked in `vis`, in order.
pub open spec fn unmarked(ns: Seq<int>, vis: Seq<bool>) -> Seq<int>
    decreases ns.len(),
{
    if ns.len() == 0 {
        ns
    } else if vis[ns.last()] {
        unmarked(ns.drop_last(), vis)
    } else {
        unmarked(ns.drop_last(), vis).push(ns.last())
    }
}

/// A breadth-first walk: the nodes of `queue` from `head` on are still to
/// be taken, `vis` marks the nodes visited so far and `order` lists them as
/// they were visited.  A node taken unmarked is marked and visited, and its
/// neighbours not yet marked join the queue in their order; a marked one is
/// passed over.
pub open spec fn bfs_walk(adj: Seq<Seq<int>>, queue: Seq<int>, head: int, vis: Seq<bool>, order: Seq<int>) -> Seq<int>
    decreases count_false(vis), queue.len() - head,
{
    if head < 0 || head >= queue.len() {
        order
    } else {
        let u = queue[head];
        if 0 <= u < vis.len() && !vis[u] {
            proof {
                lemma_count_false_mark(vis, u);
            }
            let marked = vis.update(u, true);
            bfs_walk(adj, queue + unmarked(adj[u], marked), head + 1, marked, order.push(u))
        } else {
            bfs_walk(adj, queue, head + 1, vis, order)
        }
    }
}

/// The nodes reachable from `s`, in the order in which a breadth-first
/// search from `s` visits them.
pub open spec fn bfs_from(adj: Seq<Seq<int>>, s: int) -> Seq<int> {
    bfs_walk(adj, seq![s], 0, Seq::new(adj.len(), |i: int| false), Seq::empty())
}

/// Taking one more neighbour: it joins the unmarked ones when unmarked.
pub proof fn lemma_unmarked_take(ns: Seq<int>, vis: Seq<bool>, j: int)
    requires
        0 <= j < ns.len(),
    ensures
        unmarked(ns.take(j + 1), vis) == if vis[ns[j]] {
            unmarked(ns.take(j), vis)
        } else {
            unmarked(ns.take(j), vis).push(ns[j])
        },
{
    assert(ns.take(j + 1).drop_last() =~= ns.take(j));
    assert(ns.take(j + 1).last() == ns[j]);
}

pub proof fn lemma_reaches_refl(adj: Seq<Seq<int>>, a: int)
    requires
        0 <= a < adj.len(),
    ensures
        reaches(adj, a, a),
{
    let p = seq![a];
    assert(is_walk(adj, p));
}

pub proof fn lemma_reaches_step(adj: Seq<Seq<int>>, a: int, u: int, w: int)
    requires
        adj_ok(adj),
        reaches(adj, a, u),
        0 <= u < adj.len(),
        adj[u].contains(w),
    ensures
        reaches(adj, a, w),
{
    let p = choose|p: Seq<int>| #[trigger] is_walk(adj, p) && p[0] == a && p.last() == u;
    let k = choose|k: int| 0 <= k < adj[u].len() && adj[u][k] == w;
    assert(0 <= adj[u][k] < adj.len());
    let q = p.push(w);
    assert forall|j: int| 0 <= j < q.len() - 1 implies #[trigger] adj[q[j]].contains(q[j + 1]) by {
        if j < p.len() - 1 {
            assert(q[j] == p[j] && q[j + 1] == p[j + 1]);
        } else {
            assert(q[j] == u && q[j + 1] == w);
        }
    }
    assert forall|j: int| 0 <= j < q.len() implies 0 <= #[trigger] q[j] < adj.len() by {
        if j < p.len() {
            assert(q[j] == p[j]);
        }
    }
    assert(is_walk(adj, q));
}

/// A walk that starts in a closed set stays in it.
pub proof fn lemma_closed_walk(adj: Seq<Seq<int>>, vis: Seq<bool>, p: Seq<int>)
    requires
        vis.len() == adj.len(),
        closed(adj, vis),
        is_walk(adj, p),
        vis[p[0]],
    ensures
        vis[p.last()],
    decreases p.len(),
{
    if p.len() > 1 {
        let q = p.drop_last();
        assert forall|j: int| 0 <= j < q.len() - 1 implies #[trigger] adj[q[j]].contains(q[j + 1]) by {
            assert(adj[p[j]].contains(p[j + 1]));
        }
        assert forall|j: int| 0 <= j < q.len() implies 0 <= #[trigger] q[j] < adj.len() by {
            assert(0 <= p[j] < adj.len());
        }
        assert(is_walk(adj, q));
        lemma_closed_walk(adj, vis, q);
        let k = p.len() - 2;
        assert(adj[p[k]].contains(p[k + 1]));
        assert(0 <= p[k] < adj.len());
    }
}

/// Every node reachable from a node of a closed set is in the set.
pub proof fn lemma_closed_reaches(adj: Seq<Seq<int>>, vis: Seq<bool>, a: int, b: int)
    requires
        vis.len() == adj.len(),
        closed(adj, vis),
        0 <= a < adj.len(),
        vis[a],
        reaches(adj, a, b),
    ensures
        vis[b],
{
    let p = choose|p: Seq<int>| #[trigger] is_walk(adj, p) && p[0] == a && p.last() == b;
    lemma_closed_walk(adj, vis, p);
}

} // verus!
