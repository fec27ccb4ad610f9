//! The dependency graph of Bazel targets, with the JARs, kinds and label
//! aliases recorded for them.
use vstd::prelude::*;
use vstd::string::StringExecFns;
use crate::assoc::{
    assoc_map, find_key, find_str, keys_unique, lemma_assoc_dom, lemma_assoc_index,
    lemma_assoc_push, lemma_assoc_remove, lemma_assoc_update, lemma_contains_push,
    lemma_contains_remove, lemma_assoc_finite,
};
use crate::classpath::TargetKind;
use crate::digraph::{
    drop_value, graph_add_edge, graph_add_node, graph_contains_edge, graph_edge_ends,
    graph_edge_count, graph_first_out_edge, graph_in, graph_neighbors, graph_new, graph_node_count, graph_node_label,
    graph_nodes, graph_out, graph_remove_edge, graph_remove_node, idx_view, lemma_drop_head,
    lemma_drop_value, lemma_relabel_drop, lemma_relabel_no_dup, lists_after_remove,
    nodes_after_remove, relabel,
};
use crate::ide_info::{opt_view, strs_view};
use crate::labels::{spec_normalize_dep_label, slash_label};
use crate::model::{JavaRule, JavaRuleView, ParsedBuildFile, rules_view};
use crate::paths::{path_parent, path_parent_of, path_strip_prefix, path_strip_prefix_of};
use crate::reach::{
    adj_ok, bfs_from, bfs_walk, closed, count_false, is_walk, lemma_closed_reaches, lemma_count_false_mark,
    lemma_reaches_refl, lemma_reaches_step, lemma_unmarked_take, reaches, unmarked,
};
use crate::strutil::{owned, str_eq};

verus! {

/// A classpath JAR with its compile (header) JAR, runtime JAR and source
/// attachment.
#[derive(Debug, Clone, PartialEq, Eq)]
pub struct ResolvedJar {
    pub full_jar_path: String,
    pub compile_jar_path: Option<String>,
    pub runtime_jar_path: Option<String>,
    pub source_path: Option<String>,
}

pub struct ResolvedJarView {
    pub full_jar_path: Seq<char>,
    pub compile_jar_path: Option<Seq<char>>,
    pub runtime_jar_path: Option<Seq<char>>,
    pub source_path: Option<Seq<char>>,
}

impl View for ResolvedJar {
    type V = ResolvedJarView;

    open spec fn view(&self) -> ResolvedJarView {
        ResolvedJarView {
            full_jar_path: self.full_jar_path@,
            compile_jar_path: opt_view(self.compile_jar_path),
            runtime_jar_path: opt_view(self.runtime_jar_path),
            source_path: opt_view(self.source_path),
        }
    }
}

/// The views of a sequence of resolved JARs.
pub open spec fn resolved_view(v: Seq<ResolvedJar>) -> Seq<ResolvedJarView> {
    v.map_values(|j: ResolvedJar| j@)
}

/// Error of a graph query.
#[derive(Debug)]
pub enum GraphError {
    CircularDependency { path: String },
    TargetNotFound { label: String },
}

impl GraphError {
    /// The error's message.
    pub fn message(&self) -> (m: String)
        ensures
            m@ == match self {
                GraphError::CircularDependency { path } => "Circular dependency detected: "@ + path@,
                GraphError::TargetNotFound { label } => "Target not found: "@ + label@,
            },
    {
        match self {
            GraphError::CircularDependency { path } => crate::strutil::concat2(
                "Circular dependency detected: ",
                path.as_str(),
            ),
            GraphError::TargetNotFound { label } => crate::strutil::concat2(
                "Target not found: ",
                label.as_str(),
            ),
        }
    }
}

/// What a dependency graph holds: node labels by index, outgoing and
/// incoming neighbour lists (most recent edge first), the number of edges,
/// and the maps from labels to JARs, kinds and canonical labels, and the
/// test-only labels.
pub struct GraphView {
    pub nodes: Seq<Seq<char>>,
    pub out: Seq<Seq<int>>,
    pub inc: Seq<Seq<int>>,
    pub jars: Map<Seq<char>, Seq<ResolvedJarView>>,
    pub testonly: Set<Seq<char>>,
    pub aliases: Map<Seq<char>, Seq<char>>,
    pub kinds: Map<Seq<char>, Seq<char>>,
}

/// Structural well-formedness: labels are unique, neighbour lists name
/// nodes, hold no edge twice, and the two directions agree.
pub open spec fn graph_wf(v: GraphView) -> bool {
    &&& v.out.len() == v.nodes.len()
    &&& v.inc.len() == v.nodes.len()
    &&& v.nodes.no_duplicates()
    &&& adj_ok(v.out)
    &&& adj_ok(v.inc)
    &&& forall|a: int| 0 <= a < v.out.len() ==> #[trigger] v.out[a].no_duplicates()
    &&& forall|a: int| 0 <= a < v.inc.len() ==> #[trigger] v.inc[a].no_duplicates()
    &&& forall|a: int, b: int|
        0 <= a < v.nodes.len() && 0 <= b < v.nodes.len() && #[trigger] v.out[a].contains(b)
            ==> v.inc[b].contains(a)
    &&& forall|a: int, b: int|
        0 <= a < v.nodes.len() && 0 <= b < v.nodes.len() && #[trigger] v.inc[b].contains(a)
            ==> v.out[a].contains(b)
}

/// The empty graph.
pub open spec fn empty_graph() -> GraphView {
    GraphView {
        nodes: Seq::empty(),
        out: Seq::empty(),
        inc: Seq::empty(),
        jars: Map::empty(),
        testonly: Set::empty(),
        aliases: Map::empty(),
        kinds: Map::empty(),
    }
}

/// `l` is an apparent label whose canonical label is already a node.
pub open spec fn absorbed(v: GraphView, l: Seq<char>) -> bool {
    v.aliases.dom().contains(l) && v.nodes.contains(v.aliases[l])
}

/// Adding a target: a new node unless the label, or the canonical label it
/// is an alias of, is already a node.
pub open spec fn spec_add_target(v: GraphView, l: Seq<char>) -> GraphView {
    if v.nodes.contains(l) || absorbed(v, l) {
        v
    } else {
        GraphView {
            nodes: v.nodes.push(l),
            out: v.out.push(Seq::empty()),
            inc: v.inc.push(Seq::empty()),
            ..v
        }
    }
}

/// The index of the node labelled `l`.
pub open spec fn node_index(nodes: Seq<Seq<char>>, l: Seq<char>) -> int {
    choose|i: int| 0 <= i < nodes.len() && nodes[i] == l
}

/// Adding an edge `a -> b` unless it is there already.
pub open spec fn spec_add_edge(v: GraphView, a: int, b: int) -> GraphView {
    if v.out[a].contains(b) {
        v
    } else {
        GraphView {
            out: v.out.update(a, seq![b] + v.out[a]),
            inc: v.inc.update(b, seq![a] + v.inc[b]),
            ..v
        }
    }
}

/// The label a dependency edge is drawn to: the label itself when it is a
/// node, else the canonical label it is an alias of.
pub open spec fn canonical_label(v: GraphView, l: Seq<char>) -> Seq<char> {
    if !v.nodes.contains(l) && v.aliases.dom().contains(l) {
        v.aliases[l]
    } else {
        l
    }
}

/// Adding target `l` needs no new node, or has room for one below the
/// graph's node limit.
pub open spec fn target_ok(v: GraphView, l: Seq<char>) -> bool {
    v.nodes.contains(l) || absorbed(v, l) || v.nodes.len() + 1 < u32::MAX
}

/// Adding a dependency `f -> t` stays within the node limit of the graph.
pub open spec fn dep_ok(v: GraphView, f: Seq<char>, t: Seq<char>) -> bool {
    &&& target_ok(v, f)
    &&& target_ok(spec_add_target(v, f), t)
}

/// Adding a dependency: both targets, then the edge between their nodes
/// (an alias standing for the node of its canonical label).
pub open spec fn spec_add_dep(v: GraphView, f: Seq<char>, t: Seq<char>) -> GraphView {
    let v2 = spec_add_target(spec_add_target(v, f), t);
    spec_add_edge(v2, node_index(v2.nodes, canonical_label(v2, f)), node_index(v2.nodes, canonical_label(v2, t)))
}

/// The label names a node, directly or through its alias.
pub open spec fn spec_has_target(v: GraphView, l: Seq<char>) -> bool {
    v.nodes.contains(l) || absorbed(v, l)
}

/// Setting a target's JARs: the target is added first.
pub open spec fn spec_set_jars(v: GraphView, l: Seq<char>, j: Seq<ResolvedJarView>) -> GraphView {
    let v1 = spec_add_target(v, l);
    GraphView { jars: v1.jars.insert(l, j), ..v1 }
}

/// The JARs recorded for a label, or for the canonical label it is an
/// alias of.
pub open spec fn spec_get_jars(v: GraphView, l: Seq<char>) -> Option<Seq<ResolvedJarView>> {
    if v.jars.dom().contains(l) {
        Some(v.jars[l])
    } else if v.aliases.dom().contains(l) && v.jars.dom().contains(v.aliases[l]) {
        Some(v.jars[v.aliases[l]])
    } else {
        None
    }
}

/// Recording a rule kind; an empty kind is not recorded.
pub open spec fn spec_set_kind(v: GraphView, l: Seq<char>, k: Seq<char>) -> GraphView {
    if k.len() == 0 {
        v
    } else {
        GraphView { kinds: v.kinds.insert(l, k), ..v }
    }
}

/// The kind of a recorded rule kind string.
pub open spec fn kind_of_rule(k: Seq<char>) -> TargetKind {
    if k == "java_import"@ {
        TargetKind::JavaImport
    } else if k == "java_test"@ {
        TargetKind::JavaTest
    } else if k == "java_binary"@ {
        TargetKind::JavaBinary
    } else if k == "java_library"@ {
        TargetKind::JavaLibrary
    } else {
        TargetKind::Unknown
    }
}

/// The kind recorded for a label; `Unknown` when none is recorded.
pub open spec fn spec_target_kind(v: GraphView, l: Seq<char>) -> TargetKind {
    if v.kinds.dom().contains(l) {
        kind_of_rule(v.kinds[l])
    } else {
        TargetKind::Unknown
    }
}

/// Registering `a` as an alias of `c`, unless `a` already has one.
pub open spec fn spec_alias_or_insert(v: GraphView, a: Seq<char>, c: Seq<char>) -> GraphView {
    if v.aliases.dom().contains(a) {
        v
    } else {
        GraphView { aliases: v.aliases.insert(a, c), ..v }
    }
}

/// Marking a label test-only.
pub open spec fn spec_mark_testonly(v: GraphView, l: Seq<char>) -> GraphView {
    GraphView { testonly: v.testonly.insert(l), ..v }
}

/// The labels of the given nodes.
pub open spec fn labels_of(nodes: Seq<Seq<char>>, idx: Seq<int>) -> Seq<Seq<char>> {
    idx.map_values(|i: int| nodes[i])
}

/// The labels among `l` that start with `p`, in order.
pub open spec fn with_prefix(l: Seq<Seq<char>>, p: Seq<char>) -> Seq<Seq<char>>
    decreases l.len(),
{
    if l.len() == 0 {
        l
    } else if crate::strutil::seq_starts_with(l.last(), p) {
        with_prefix(l.drop_last(), p).push(l.last())
    } else {
        with_prefix(l.drop_last(), p)
    }
}

/// Removing a node keeps the graph well formed.
pub proof fn lemma_remove_node_wf(v: GraphView, i: int)
    requires
        graph_wf(v),
        0 <= i < v.nodes.len(),
    ensures
        graph_wf(spec_remove_node(v, i)),
{
    let n = v.nodes.len() as int;
    let w = spec_remove_node(v, i);
    let last = n - 1;
    assert(w.nodes.len() == n - 1);
    assert forall|a: int| 0 <= a < n - 1 implies #[trigger] w.nodes[a] == v.nodes[if a == i { last } else { a }] by {}
    assert forall|a: int, b: int| 0 <= a < b < w.nodes.len() implies w.nodes[a] != w.nodes[b] by {
        let sa = if a == i { last } else { a };
        let sb = if b == i { last } else { b };
        assert(w.nodes[a] == v.nodes[sa]);
        assert(w.nodes[b] == v.nodes[sb]);
        assert(sa != sb);
    }
    assert forall|a: int| 0 <= a < n - 1 implies #[trigger] w.out[a] == relabel(drop_value(v.out[if a == i { last } else { a }], i), last, i) by {}
    assert forall|a: int| 0 <= a < n - 1 implies #[trigger] w.inc[a] == relabel(drop_value(v.inc[if a == i { last } else { a }], i), last, i) by {}
    assert forall|a: int, k: int| 0 <= a < w.out.len() && 0 <= k < w.out[a].len() implies 0 <= #[trigger] w.out[a][k] < w.out.len() by {
        let sa = if a == i { last } else { a };
        let t = drop_value(v.out[sa], i);
        lemma_drop_value(v.out[sa], i);
        let c = t[k];
        assert(t.contains(c));
        let m = choose|m: int| 0 <= m < v.out[sa].len() && v.out[sa][m] == c;
        assert(0 <= v.out[sa][m] < n);
    }
    assert forall|a: int, k: int| 0 <= a < w.inc.len() && 0 <= k < w.inc[a].len() implies 0 <= #[trigger] w.inc[a][k] < w.inc.len() by {
        let sa = if a == i { last } else { a };
        let t = drop_value(v.inc[sa], i);
        lemma_drop_value(v.inc[sa], i);
        let c = t[k];
        assert(t.contains(c));
        let m = choose|m: int| 0 <= m < v.inc[sa].len() && v.inc[sa][m] == c;
        assert(0 <= v.inc[sa][m] < n);
    }
    assert forall|a: int| 0 <= a < w.out.len() implies #[trigger] w.out[a].no_duplicates() by {
        let sa = if a == i { last } else { a };
        lemma_drop_value(v.out[sa], i);
        lemma_relabel_no_dup(drop_value(v.out[sa], i), last, i);
    }
    assert forall|a: int| 0 <= a < w.inc.len() implies #[trigger] w.inc[a].no_duplicates() by {
        let sa = if a == i { last } else { a };
        lemma_drop_value(v.inc[sa], i);
        lemma_relabel_no_dup(drop_value(v.inc[sa], i), last, i);
    }
    assert forall|a: int, b: int| 0 <= a < w.nodes.len() && 0 <= b < w.nodes.len() && #[trigger] w.out[a].contains(b) implies w.inc[b].contains(a) by {
        let sa = if a == i { last } else { a };
        let sb = if b == i { last } else { b };
        lemma_relabel_drop(v.out[sa], n, i, b);
        lemma_relabel_drop(v.inc[sb], n, i, a);
    }
    assert forall|a: int, b: int| 0 <= a < w.nodes.len() && 0 <= b < w.nodes.len() && #[trigger] w.inc[b].contains(a) implies w.out[a].contains(b) by {
        let sa = if a == i { last } else { a };
        let sb = if b == i { last } else { b };
        lemma_relabel_drop(v.out[sa], n, i, b);
        lemma_relabel_drop(v.inc[sb], n, i, a);
    }
}

/// Removing an edge keeps the graph well formed.
pub proof fn lemma_remove_edge_wf(v: GraphView, a: int, b: int)
    requires
        graph_wf(v),
        0 <= a < v.nodes.len(),
        0 <= b < v.nodes.len(),
    ensures
        graph_wf(spec_remove_edge(v, a, b)),
{
    let w = spec_remove_edge(v, a, b);
    lemma_drop_value(v.out[a], b);
    lemma_drop_value(v.inc[b], a);
    assert forall|x: int, k: int| 0 <= x < w.out.len() && 0 <= k < w.out[x].len() implies 0 <= #[trigger] w.out[x][k] < w.out.len() by {
        if x == a {
            let c = w.out[x][k];
            assert(drop_value(v.out[a], b).contains(c));
            let m = choose|m: int| 0 <= m < v.out[a].len() && v.out[a][m] == c;
            assert(0 <= v.out[a][m] < v.out.len());
        }
    }
    assert forall|x: int, k: int| 0 <= x < w.inc.len() && 0 <= k < w.inc[x].len() implies 0 <= #[trigger] w.inc[x][k] < w.inc.len() by {
        if x == b {
            let c = w.inc[x][k];
            assert(drop_value(v.inc[b], a).contains(c));
            let m = choose|m: int| 0 <= m < v.inc[b].len() && v.inc[b][m] == c;
            assert(0 <= v.inc[b][m] < v.inc.len());
        }
    }
    assert forall|x: int| 0 <= x < w.out.len() implies #[trigger] w.out[x].no_duplicates() by {
        if x == a {
            assert(v.out[a].no_duplicates());
        }
    }
    assert forall|x: int| 0 <= x < w.inc.len() implies #[trigger] w.inc[x].no_duplicates() by {
        if x == b {
            assert(v.inc[b].no_duplicates());
        }
    }
    assert forall|x: int, y: int| 0 <= x < w.nodes.len() && 0 <= y < w.nodes.len() && #[trigger] w.out[x].contains(y) implies w.inc[y].contains(x) by {
        if x == a {
            assert(v.out[a].contains(y) && y != b);
        }
        assert(v.out[x].contains(y));
        assert(v.inc[y].contains(x));
    }
    assert forall|x: int, y: int| 0 <= x < w.nodes.len() && 0 <= y < w.nodes.len() && #[trigger] w.inc[y].contains(x) implies w.out[x].contains(y) by {
        if y == b {
            assert(v.inc[b].contains(x) && x != a);
        }
        assert(v.inc[y].contains(x));
        assert(v.out[x].contains(y));
    }
}

/// Adding a target keeps every node and the aliases, and makes the label's
/// canonical label a node.
pub proof fn lemma_add_target_nodes(v: GraphView, l: Seq<char>)
    ensures
        spec_add_target(v, l).nodes.contains(canonical_label(spec_add_target(v, l), l)),
        spec_add_target(v, l).aliases == v.aliases,
        forall|x: Seq<char>| v.nodes.contains(x) ==> #[trigger] spec_add_target(v, l).nodes.contains(x),
{
    let w = spec_add_target(v, l);
    if !(v.nodes.contains(l) || absorbed(v, l)) {
        assert(w.nodes[v.nodes.len() as int] == l);
        assert forall|x: Seq<char>| v.nodes.contains(x) implies #[trigger] w.nodes.contains(x) by {
            let i = choose|i: int| 0 <= i < v.nodes.len() && v.nodes[i] == x;
            assert(w.nodes[i] == x);
        }
    }
}

/// The adjacency lists followed by a traversal: outgoing edges, or with
/// `incoming` the incoming ones.
pub open spec fn adjacency(v: GraphView, incoming: bool) -> Seq<Seq<int>> {
    if incoming {
        v.inc
    } else {
        v.out
    }
}

/// Node `s` lies on a cycle: some node reachable from it has an edge back.
pub open spec fn on_cycle(adj: Seq<Seq<int>>, s: int) -> bool {
    exists|u: int| 0 <= u < adj.len() && #[trigger] reaches(adj, s, u) && adj[u].contains(s)
}

/// `x` labels a node other than `s` reachable from `s`.
pub open spec fn reached_label(v: GraphView, adj: Seq<Seq<int>>, s: int, x: Seq<char>) -> bool {
    exists|j: int| 0 <= j < v.nodes.len() && j != s && #[trigger] reaches(adj, s, j) && v.nodes[j] == x
}

/// Why the transitive dependencies of `l` cannot be listed: an unknown
/// label, or a label on a dependency cycle (the path names it twice).
pub open spec fn deps_error(v: GraphView, l: Seq<char>, e: GraphError) -> bool {
    match e {
        GraphError::TargetNotFound { label } => label@ == l && !v.nodes.contains(l),
        GraphError::CircularDependency { path } => {
            &&& v.nodes.contains(l)
            &&& on_cycle(v.out, node_index(v.nodes, l))
            &&& path@ == l + " -> "@ + l
        },
    }
}

/// The transitive dependencies of `l` can be listed.
pub open spec fn deps_listable(v: GraphView, l: Seq<char>) -> bool {
    v.nodes.contains(l) && !on_cycle(v.out, node_index(v.nodes, l))
}

/// `deps` lists, once each, the labels of all targets reachable from `l`
/// other than `l` itself, in the order a breadth-first search from `l`
/// visits them.
pub open spec fn is_dep_list(v: GraphView, l: Seq<char>, deps: Seq<Seq<char>>) -> bool {
    &&& deps_listable(v, l)
    &&& deps == labels_of(v.nodes, bfs_from(v.out, node_index(v.nodes, l)).drop_first())
    &&& deps.no_duplicates()
    &&& forall|x: Seq<char>| deps.contains(x) <==> reached_label(v, v.out, node_index(v.nodes, l), x)
}

/// Labels that do not start with `'@'`, in order.
pub open spec fn workspace_labels(l: Seq<Seq<char>>) -> Seq<Seq<char>>
    decreases l.len(),
{
    if l.len() == 0 {
        l
    } else if crate::strutil::seq_starts_with(l.last(), seq!['@']) {
        workspace_labels(l.drop_last())
    } else {
        workspace_labels(l.drop_last()).push(l.last())
    }
}

/// Keeping only some elements keeps membership of the kept ones and keeps
/// a list free of duplicates.
pub proof fn lemma_workspace_labels(l: Seq<Seq<char>>)
    ensures
        forall|x: Seq<char>| #[trigger] workspace_labels(l).contains(x) <==> l.contains(x) && !crate::strutil::seq_starts_with(x, seq!['@']),
        l.no_duplicates() ==> workspace_labels(l).no_duplicates(),
    decreases l.len(),
{
    if l.len() > 0 {
        let p = l.drop_last();
        lemma_workspace_labels(p);
        lemma_contains_push(p, l.last());
        lemma_contains_push(workspace_labels(p), l.last());
        assert(l == p.push(l.last()));
        if l.no_duplicates() {
            assert(p.no_duplicates());
            assert(!p.contains(l.last()));
            if !crate::strutil::seq_starts_with(l.last(), seq!['@']) {
                let w = workspace_labels(p).push(l.last());
                assert forall|a: int, b: int| 0 <= a < b < w.len() implies w[a] != w[b] by {
                    if b == w.len() - 1 {
                        assert(workspace_labels(p).contains(w[a]));
                    }
                }
            }
        }
    }
}

/// The package paths of workspace-internal dependencies, each once, in
/// order of first appearance.
pub open spec fn spec_dep_packages(d: Seq<Seq<char>>) -> Seq<Seq<char>>
    decreases d.len(),
{
    if d.len() == 0 {
        Seq::empty()
    } else {
        let r = spec_dep_packages(d.drop_last());
        let n = crate::labels::spec_normalize_label(d.last());
        if crate::strutil::seq_starts_with(n, seq!['@']) || crate::labels::spec_is_bazel_internal(n) {
            r
        } else if r.contains(crate::labels::spec_package_path(n)) {
            r
        } else {
            r.push(crate::labels::spec_package_path(n))
        }
    }
}

/// A dependency whose package is listed: a workspace label once
/// normalized.
#[verifier::opaque]
pub open spec fn internal_dep(l: Seq<char>) -> bool {
    let n = crate::labels::spec_normalize_label(l);
    !crate::strutil::seq_starts_with(n, seq!['@']) && !crate::labels::spec_is_bazel_internal(n)
}

/// The package path of a dependency label.
#[verifier::opaque]
pub open spec fn dep_package(l: Seq<char>) -> Seq<char> {
    crate::labels::spec_package_path(crate::labels::spec_normalize_label(l))
}

/// Some workspace dependency lies in package `p`.
pub open spec fn has_dep_in(d: Seq<Seq<char>>, p: Seq<char>) -> bool {
    exists|i: int| 0 <= i < d.len() && internal_dep(#[trigger] d[i]) && dep_package(d[i]) == p
}

/// One more dependency: its package is added when it is a workspace
/// dependency in a package not yet listed.
proof fn lemma_dep_packages_step(d: Seq<Seq<char>>)
    requires
        d.len() > 0,
    ensures
        spec_dep_packages(d) == if internal_dep(d.last()) && !spec_dep_packages(d.drop_last()).contains(dep_package(d.last())) {
            spec_dep_packages(d.drop_last()).push(dep_package(d.last()))
        } else {
            spec_dep_packages(d.drop_last())
        },
{
    reveal(internal_dep);
    reveal(dep_package);
}

/// A workspace dependency in `p` among `d` is one among all but the last,
/// or the last.
proof fn lemma_has_dep_in_last(d: Seq<Seq<char>>, p: Seq<char>)
    requires
        d.len() > 0,
    ensures
        has_dep_in(d, p) == (has_dep_in(d.drop_last(), p) || (internal_dep(d.last()) && dep_package(d.last()) == p)),
{
    let d0 = d.drop_last();
    if has_dep_in(d0, p) {
        let i = choose|i: int| 0 <= i < d0.len() && internal_dep(#[trigger] d0[i]) && dep_package(d0[i]) == p;
        assert(d[i] == d0[i]);
    }
    if has_dep_in(d, p) {
        let i = choose|i: int| 0 <= i < d.len() && internal_dep(#[trigger] d[i]) && dep_package(d[i]) == p;
        if i < d.len() - 1 {
            assert(d0[i] == d[i]);
        }
    }
    if internal_dep(d.last()) && dep_package(d.last()) == p {
        assert(d[d.len() - 1] == d.last());
    }
}

/// The dependency packages are listed once each: exactly the package paths
/// of the workspace dependencies.
pub proof fn law_dep_packages_once_each(d: Seq<Seq<char>>)
    ensures
        spec_dep_packages(d).no_duplicates(),
        forall|p: Seq<char>| #[trigger] spec_dep_packages(d).contains(p) <==> has_dep_in(d, p),
    decreases d.len(),
{
    if d.len() > 0 {
        let d0 = d.drop_last();
        law_dep_packages_once_each(d0);
        lemma_dep_packages_step(d);
        let r = spec_dep_packages(d0);
        let q = dep_package(d.last());
        assert forall|p: Seq<char>| #[trigger] spec_dep_packages(d).contains(p) <==> has_dep_in(d, p) by {
            lemma_has_dep_in_last(d, p);
            if internal_dep(d.last()) && !r.contains(q) {
                if p == q {
                    assert(r.push(q)[r.len() as int] == q);
                }
                if r.push(q).contains(p) && p != q {
                    let k = choose|k: int| 0 <= k < r.len() + 1 && r.push(q)[k] == p;
                    assert(r[k] == p);
                }
                if r.contains(p) {
                    let k = choose|k: int| 0 <= k < r.len() && r[k] == p;
                    assert(r.push(q)[k] == p);
                }
            }
        }
    }
}

/// Adds one dependency to the groups of workspace-internal dependency
/// labels by package: appended to its package's group, or a new group.
pub open spec fn group_dep(g: Seq<(Seq<char>, Seq<Seq<char>>)>, dep: Seq<char>) -> Seq<(Seq<char>, Seq<Seq<char>>)> {
    let n = crate::labels::spec_normalize_label(dep);
    let p = crate::labels::spec_package_path(n);
    if crate::strutil::seq_starts_with(n, seq!['@']) || crate::labels::spec_is_bazel_internal(n) {
        g
    } else if exists|i: int| 0 <= i < g.len() && g[i].0 == p {
        let i = choose|i: int| 0 <= i < g.len() && g[i].0 == p;
        g.update(i, (p, g[i].1.push(n)))
    } else {
        g.push((p, seq![n]))
    }
}

/// Groups a list of dependencies.
pub open spec fn group_deps(g: Seq<(Seq<char>, Seq<Seq<char>>)>, deps: Seq<Seq<char>>) -> Seq<(Seq<char>, Seq<Seq<char>>)>
    decreases deps.len(),
{
    if deps.len() == 0 {
        g
    } else {
        group_dep(group_deps(g, deps.drop_last()), deps.last())
    }
}

/// Groups the dependency lists of several targets, in order.
pub open spec fn group_all(ds: Seq<Seq<Seq<char>>>) -> Seq<(Seq<char>, Seq<Seq<char>>)>
    decreases ds.len(),
{
    if ds.len() == 0 {
        Seq::empty()
    } else {
        group_deps(group_all(ds.drop_last()), ds.last())
    }
}

/// Strings joined with `sep`.
pub open spec fn join_with(l: Seq<Seq<char>>, sep: Seq<char>) -> Seq<char>
    decreases l.len(),
{
    if l.len() == 0 {
        Seq::empty()
    } else if l.len() == 1 {
        l[0]
    } else {
        join_with(l.drop_last(), sep) + sep + l.last()
    }
}

/// A group rendered as `package|label,label,...`.
pub open spec fn render_group(g: (Seq<char>, Seq<Seq<char>>)) -> Seq<char> {
    g.0 + seq!['|'] + join_with(g.1, seq![','])
}

/// Removing node `i`: the last node takes its index.
pub open spec fn spec_remove_node(v: GraphView, i: int) -> GraphView {
    GraphView {
        nodes: nodes_after_remove(v.nodes, i),
        out: lists_after_remove(v.out, i),
        inc: lists_after_remove(v.inc, i),
        ..v
    }
}

/// Removing a target: its node (with its edges), its JARs and its
/// test-only mark.
pub open spec fn spec_remove_target(v: GraphView, l: Seq<char>) -> GraphView {
    let v1 = if v.nodes.contains(l) {
        spec_remove_node(v, node_index(v.nodes, l))
    } else {
        v
    };
    GraphView { jars: v1.jars.remove(l), testonly: v1.testonly.remove(l), ..v1 }
}

/// Removing the edge `a -> b`.
pub open spec fn spec_remove_edge(v: GraphView, a: int, b: int) -> GraphView {
    GraphView {
        out: v.out.update(a, drop_value(v.out[a], b)),
        inc: v.inc.update(b, drop_value(v.inc[b], a)),
        ..v
    }
}

/// Removing every edge leaving node `i`.
pub open spec fn spec_clear_out(v: GraphView, i: int) -> GraphView {
    GraphView {
        out: v.out.update(i, Seq::empty()),
        inc: Seq::new(v.inc.len(), |b: int| drop_value(v.inc[b], i)),
        ..v
    }
}

/// A graph with whether every step that built it stayed within what the
/// graph accepts (node limit, labels that resolve to nodes of their own).
pub open spec fn st_target(s: (GraphView, bool), l: Seq<char>) -> (GraphView, bool) {
    (spec_add_target(s.0, l), s.1 && target_ok(s.0, l))
}

/// One dependency step.
pub open spec fn st_dep(s: (GraphView, bool), f: Seq<char>, t: Seq<char>) -> (GraphView, bool) {
    (spec_add_dep(s.0, f, t), s.1 && dep_ok(s.0, f, t))
}

/// Adding dependencies `f -> dep` for each listed dependency, resolved in
/// package `pkg`.
pub open spec fn st_deps(s: (GraphView, bool), f: Seq<char>, ds: Seq<Seq<char>>, pkg: Seq<char>) -> (GraphView, bool)
    decreases ds.len(),
{
    if ds.len() == 0 {
        s
    } else {
        st_dep(st_deps(s, f, ds.drop_last(), pkg), f, spec_normalize_dep_label(ds.last(), pkg))
    }
}

/// Adding the `deps`, `runtime_deps` and `exports` of a rule.
pub open spec fn st_rule_deps(s: (GraphView, bool), l: Seq<char>, r: JavaRuleView, pkg: Seq<char>) -> (GraphView, bool) {
    st_deps(st_deps(st_deps(s, l, r.deps, pkg), l, r.runtime_deps, pkg), l, r.exports, pkg)
}

/// The label of rule `name` in package `pkg`.
pub open spec fn rule_label(pkg: Seq<char>, name: Seq<char>) -> Seq<char> {
    pkg + seq![':'] + name
}

/// Adding one rule of a parsed BUILD file.
pub open spec fn st_parsed_rule(s: (GraphView, bool), pkg: Seq<char>, r: JavaRuleView) -> (GraphView, bool) {
    let l = rule_label(pkg, r.name);
    let s1 = st_target(s, l);
    let s2 = if r.test_only {
        (spec_mark_testonly(s1.0, l), s1.1)
    } else {
        s1
    };
    st_rule_deps(s2, l, r, pkg)
}

/// Adding the rules of a parsed BUILD file, in order.
pub open spec fn st_parsed_rules(s: (GraphView, bool), pkg: Seq<char>, rs: Seq<JavaRuleView>) -> (GraphView, bool)
    decreases rs.len(),
{
    if rs.len() == 0 {
        s
    } else {
        st_parsed_rule(st_parsed_rules(s, pkg, rs.drop_last()), pkg, rs.last())
    }
}

/// The number of dependencies a rule lists.
pub open spec fn rule_dep_count(r: JavaRuleView) -> nat {
    r.deps.len() + r.runtime_deps.len() + r.exports.len()
}

/// The number of dependencies the rules list.
pub open spec fn rules_dep_count(rs: Seq<JavaRuleView>) -> nat
    decreases rs.len(),
{
    if rs.len() == 0 {
        0
    } else {
        rules_dep_count(rs.drop_last()) + rule_dep_count(rs.last())
    }
}

/// The package label of a BUILD file: `//` followed by its directory
/// relative to the workspace root, or by its whole directory when it lies
/// outside the root.
pub open spec fn spec_build_path_package(path: Seq<char>, ws: Seq<char>) -> Seq<char> {
    let dir = match path_parent_of(path) {
        Some(p) => p,
        None => path,
    };
    match path_strip_prefix_of(dir, ws) {
        Some(rel) => slash_label(rel),
        None => slash_label(dir),
    }
}

/// Adding the rules of several parsed BUILD files, in order.
pub open spec fn st_parsed_files(s: (GraphView, bool), fs: Seq<(Seq<char>, Seq<JavaRuleView>)>, ws: Seq<char>) -> (GraphView, bool)
    decreases fs.len(),
{
    if fs.len() == 0 {
        s
    } else {
        st_parsed_rules(st_parsed_files(s, fs.drop_last(), ws), spec_build_path_package(fs.last().0, ws), fs.last().1)
    }
}

/// The number of dependencies the files list.
pub open spec fn files_dep_count(fs: Seq<(Seq<char>, Seq<JavaRuleView>)>) -> nat
    decreases fs.len(),
{
    if fs.len() == 0 {
        0
    } else {
        files_dep_count(fs.drop_last()) + rules_dep_count(fs.last().1)
    }
}

/// A parsed file as its path and rules.
pub open spec fn parsed_view(f: ParsedBuildFile) -> (Seq<char>, Seq<JavaRuleView>) {
    (f.path@, rules_view(f.rules@))
}

/// The result of a step sequence does not depend on the incoming flag, and
/// its flag is the incoming one and the sequence's own.
pub proof fn lemma_st_deps_flag(s: (GraphView, bool), f: Seq<char>, ds: Seq<Seq<char>>, pkg: Seq<char>)
    ensures
        st_deps(s, f, ds, pkg).0 == st_deps((s.0, true), f, ds, pkg).0,
        st_deps(s, f, ds, pkg).1 == (s.1 && st_deps((s.0, true), f, ds, pkg).1),
    decreases ds.len(),
{
    if ds.len() > 0 {
        lemma_st_deps_flag(s, f, ds.drop_last(), pkg);
    }
}

/// A successful step sequence succeeds on every prefix.
pub proof fn lemma_st_deps_prefix(s: (GraphView, bool), f: Seq<char>, ds: Seq<Seq<char>>, pkg: Seq<char>, k: int)
    requires
        0 <= k <= ds.len(),
        st_deps(s, f, ds, pkg).1,
    ensures
        st_deps(s, f, ds.subrange(0, k), pkg).1,
    decreases ds.len(),
{
    if k < ds.len() {
        assert(ds.drop_last().subrange(0, k) =~= ds.subrange(0, k));
        lemma_st_deps_prefix(s, f, ds.drop_last(), pkg, k);
    } else {
        assert(ds.subrange(0, k) =~= ds);
    }
}

/// The flag of a rule sequence.
pub proof fn lemma_st_rules_flag(s: (GraphView, bool), pkg: Seq<char>, rs: Seq<JavaRuleView>)
    ensures
        st_parsed_rules(s, pkg, rs).0 == st_parsed_rules((s.0, true), pkg, rs).0,
        st_parsed_rules(s, pkg, rs).1 == (s.1 && st_parsed_rules((s.0, true), pkg, rs).1),
    decreases rs.len(),
{
    if rs.len() > 0 {
        lemma_st_rules_flag(s, pkg, rs.drop_last());
        let p = st_parsed_rules(s, pkg, rs.drop_last());
        let q = st_parsed_rules((s.0, true), pkg, rs.drop_last());
        lemma_st_rule_flag(p, pkg, rs.last());
        lemma_st_rule_flag(q, pkg, rs.last());
    }
}

/// The flag of one rule.
pub proof fn lemma_st_rule_flag(s: (GraphView, bool), pkg: Seq<char>, r: JavaRuleView)
    ensures
        st_parsed_rule(s, pkg, r).0 == st_parsed_rule((s.0, true), pkg, r).0,
        st_parsed_rule(s, pkg, r).1 == (s.1 && st_parsed_rule((s.0, true), pkg, r).1),
{
    let l = rule_label(pkg, r.name);
    let s1 = st_target(s, l);
    let t1 = st_target((s.0, true), l);
    let s2 = if r.test_only { (spec_mark_testonly(s1.0, l), s1.1) } else { s1 };
    let t2 = if r.test_only { (spec_mark_testonly(t1.0, l), t1.1) } else { t1 };
    lemma_st_deps_flag(s2, l, r.deps, pkg);
    lemma_st_deps_flag(t2, l, r.deps, pkg);
    let s3 = st_deps(s2, l, r.deps, pkg);
    let t3 = st_deps(t2, l, r.deps, pkg);
    lemma_st_deps_flag(s3, l, r.runtime_deps, pkg);
    lemma_st_deps_flag(t3, l, r.runtime_deps, pkg);
    let s4 = st_deps(s3, l, r.runtime_deps, pkg);
    let t4 = st_deps(t3, l, r.runtime_deps, pkg);
    lemma_st_deps_flag(s4, l, r.exports, pkg);
    lemma_st_deps_flag(t4, l, r.exports, pkg);
}

/// A successful rule sequence succeeds on every prefix.
pub proof fn lemma_st_rules_prefix(s: (GraphView, bool), pkg: Seq<char>, rs: Seq<JavaRuleView>, k: int)
    requires
        0 <= k <= rs.len(),
        st_parsed_rules(s, pkg, rs).1,
    ensures
        st_parsed_rules(s, pkg, rs.subrange(0, k)).1,
    decreases rs.len(),
{
    if k < rs.len() {
        assert(rs.drop_last().subrange(0, k) =~= rs.subrange(0, k));
        lemma_st_rule_flag(st_parsed_rules(s, pkg, rs.drop_last()), pkg, rs.last());
        lemma_st_rules_prefix(s, pkg, rs.drop_last(), k);
    } else {
        assert(rs.subrange(0, k) =~= rs);
    }
}

/// Counting the dependencies of a prefix of the rules.
pub proof fn lemma_rules_dep_count_prefix(rs: Seq<JavaRuleView>, k: int)
    requires
        0 <= k <= rs.len(),
    ensures
        rules_dep_count(rs.subrange(0, k)) <= rules_dep_count(rs),
    decreases rs.len(),
{
    if k < rs.len() {
        assert(rs.drop_last().subrange(0, k) =~= rs.subrange(0, k));
        lemma_rules_dep_count_prefix(rs.drop_last(), k);
    } else {
        assert(rs.subrange(0, k) =~= rs);
    }
}

/// Counting the dependencies of a prefix of the files.
pub proof fn lemma_files_dep_count_prefix(fs: Seq<(Seq<char>, Seq<JavaRuleView>)>, k: int)
    requires
        0 <= k <= fs.len(),
    ensures
        files_dep_count(fs.subrange(0, k)) <= files_dep_count(fs),
    decreases fs.len(),
{
    if k < fs.len() {
        assert(fs.drop_last().subrange(0, k) =~= fs.subrange(0, k));
        lemma_files_dep_count_prefix(fs.drop_last(), k);
    } else {
        assert(fs.subrange(0, k) =~= fs);
    }
}

/// A successful file sequence succeeds on every prefix.
pub proof fn lemma_st_files_prefix(s: (GraphView, bool), fs: Seq<(Seq<char>, Seq<JavaRuleView>)>, ws: Seq<char>, k: int)
    requires
        0 <= k <= fs.len(),
        st_parsed_files(s, fs, ws).1,
    ensures
        st_parsed_files(s, fs.subrange(0, k), ws).1,
    decreases fs.len(),
{
    if k < fs.len() {
        assert(fs.drop_last().subrange(0, k) =~= fs.subrange(0, k));
        lemma_st_rules_flag(st_parsed_files(s, fs.drop_last(), ws), spec_build_path_package(fs.last().0, ws), fs.last().1);
        lemma_st_files_prefix(s, fs.drop_last(), ws, k);
    } else {
        assert(fs.subrange(0, k) =~= fs);
    }
}

/// The labels of the rules of a BUILD file, each once, with the last rule
/// of that name (in order of first appearance).
pub open spec fn new_rule_labels(pkg: Seq<char>, rs: Seq<JavaRuleView>) -> Seq<(Seq<char>, JavaRuleView)>
    decreases rs.len(),
{
    if rs.len() == 0 {
        Seq::empty()
    } else {
        let g = new_rule_labels(pkg, rs.drop_last());
        let l = rule_label(pkg, rs.last().name);
        if exists|i: int| 0 <= i < g.len() && g[i].0 == l {
            let i = choose|i: int| 0 <= i < g.len() && g[i].0 == l;
            g.update(i, (l, rs.last()))
        } else {
            g.push((l, rs.last()))
        }
    }
}

/// The first components of pairs.
pub open spec fn firsts<B>(g: Seq<(Seq<char>, B)>) -> Seq<Seq<char>> {
    g.map_values(|p: (Seq<char>, B)| p.0)
}

/// Removing the existing targets that the new file no longer declares.
pub open spec fn st_remove_stale(s: (GraphView, bool), ex: Seq<Seq<char>>, keys: Seq<Seq<char>>) -> (GraphView, bool)
    decreases ex.len(),
{
    if ex.len() == 0 {
        s
    } else {
        let p = st_remove_stale(s, ex.drop_last(), keys);
        if keys.contains(ex.last()) {
            p
        } else {
            (spec_remove_target(p.0, ex.last()), p.1)
        }
    }
}

/// Rewiring one existing target: its old outgoing edges go, the rule's
/// dependencies are added, and its test-only mark follows the rule.
pub open spec fn st_rewire(s: (GraphView, bool), l: Seq<char>, r: JavaRuleView, pkg: Seq<char>) -> (GraphView, bool) {
    let c = if s.0.nodes.contains(l) {
        spec_clear_out(s.0, node_index(s.0.nodes, l))
    } else {
        s.0
    };
    let d = st_rule_deps((c, s.1), l, r, pkg);
    if r.test_only {
        (spec_mark_testonly(d.0, l), d.1)
    } else {
        (GraphView { testonly: d.0.testonly.remove(l), ..d.0 }, d.1)
    }
}

/// Adding one new target with its dependencies and test-only mark.
pub open spec fn st_add_new(s: (GraphView, bool), l: Seq<char>, r: JavaRuleView, pkg: Seq<char>) -> (GraphView, bool) {
    let d = st_rule_deps(st_target(s, l), l, r, pkg);
    if r.test_only {
        (spec_mark_testonly(d.0, l), d.1)
    } else {
        d
    }
}

/// Rewiring the new labels that already existed (with `existing`), or
/// adding those that did not (without).
pub open spec fn st_apply_new(s: (GraphView, bool), nl: Seq<(Seq<char>, JavaRuleView)>, ex: Seq<Seq<char>>, pkg: Seq<char>, existing: bool) -> (GraphView, bool)
    decreases nl.len(),
{
    if nl.len() == 0 {
        s
    } else {
        let p = st_apply_new(s, nl.drop_last(), ex, pkg, existing);
        let (l, r) = nl.last();
        if ex.contains(l) != existing {
            p
        } else if existing {
            st_rewire(p, l, r, pkg)
        } else {
            st_add_new(p, l, r, pkg)
        }
    }
}

/// The labels of a package's targets before an update.
pub open spec fn package_targets(v: GraphView, pkg: Seq<char>) -> Seq<Seq<char>> {
    with_prefix(v.nodes, pkg.push(':'))
}

/// The whole update from a re-parsed BUILD file.
pub open spec fn st_update(v: GraphView, pkg: Seq<char>, rs: Seq<JavaRuleView>) -> (GraphView, bool) {
    let ex = package_targets(v, pkg);
    let nl = new_rule_labels(pkg, rs);
    let s1 = st_remove_stale((v, true), ex, firsts(nl));
    let s2 = st_apply_new(s1, nl, ex, pkg, true);
    st_apply_new(s2, nl, ex, pkg, false)
}

/// The elements of `l` for which `keep` holds of membership in `m`, in
/// order.
pub open spec fn filter_by_membership(l: Seq<Seq<char>>, m: Seq<Seq<char>>, keep: bool) -> Seq<Seq<char>>
    decreases l.len(),
{
    if l.len() == 0 {
        l
    } else if m.contains(l.last()) == keep {
        filter_by_membership(l.drop_last(), m, keep).push(l.last())
    } else {
        filter_by_membership(l.drop_last(), m, keep)
    }
}

/// Dependencies listed by the rules of some of the new labels.
pub open spec fn nl_dep_count(nl: Seq<(Seq<char>, JavaRuleView)>, ex: Seq<Seq<char>>, existing: bool) -> nat
    decreases nl.len(),
{
    if nl.len() == 0 {
        0
    } else {
        nl_dep_count(nl.drop_last(), ex, existing) + if ex.contains(nl.last().0) == existing {
            rule_dep_count(nl.last().1)
        } else {
            0
        }
    }
}

/// The flag of a rewiring step.
pub proof fn lemma_st_rewire_flag(s: (GraphView, bool), l: Seq<char>, r: JavaRuleView, pkg: Seq<char>)
    ensures
        st_rewire(s, l, r, pkg).0 == st_rewire((s.0, true), l, r, pkg).0,
        st_rewire(s, l, r, pkg).1 == (s.1 && st_rewire((s.0, true), l, r, pkg).1),
{
    let c = if s.0.nodes.contains(l) { spec_clear_out(s.0, node_index(s.0.nodes, l)) } else { s.0 };
    lemma_st_rule_deps_flag((c, s.1), l, r, pkg);
}

/// The flag of an adding step.
pub proof fn lemma_st_add_new_flag(s: (GraphView, bool), l: Seq<char>, r: JavaRuleView, pkg: Seq<char>)
    ensures
        st_add_new(s, l, r, pkg).0 == st_add_new((s.0, true), l, r, pkg).0,
        st_add_new(s, l, r, pkg).1 == (s.1 && st_add_new((s.0, true), l, r, pkg).1),
{
    lemma_st_rule_deps_flag(st_target(s, l), l, r, pkg);
    lemma_st_rule_deps_flag(st_target((s.0, true), l), l, r, pkg);
}

/// The flag of a rule's three dependency lists.
pub proof fn lemma_st_rule_deps_flag(s: (GraphView, bool), l: Seq<char>, r: JavaRuleView, pkg: Seq<char>)
    ensures
        st_rule_deps(s, l, r, pkg).0 == st_rule_deps((s.0, true), l, r, pkg).0,
        st_rule_deps(s, l, r, pkg).1 == (s.1 && st_rule_deps((s.0, true), l, r, pkg).1),
{
    lemma_st_deps_flag(s, l, r.deps, pkg);
    lemma_st_deps_flag((s.0, true), l, r.deps, pkg);
    let s3 = st_deps(s, l, r.deps, pkg);
    let t3 = st_deps((s.0, true), l, r.deps, pkg);
    lemma_st_deps_flag(s3, l, r.runtime_deps, pkg);
    lemma_st_deps_flag(t3, l, r.runtime_deps, pkg);
    let s4 = st_deps(s3, l, r.runtime_deps, pkg);
    let t4 = st_deps(t3, l, r.runtime_deps, pkg);
    lemma_st_deps_flag(s4, l, r.exports, pkg);
    lemma_st_deps_flag(t4, l, r.exports, pkg);
}

/// The flag of applying new labels.
pub proof fn lemma_st_apply_flag(s: (GraphView, bool), nl: Seq<(Seq<char>, JavaRuleView)>, ex: Seq<Seq<char>>, pkg: Seq<char>, existing: bool)
    ensures
        st_apply_new(s, nl, ex, pkg, existing).0 == st_apply_new((s.0, true), nl, ex, pkg, existing).0,
        st_apply_new(s, nl, ex, pkg, existing).1 == (s.1 && st_apply_new((s.0, true), nl, ex, pkg, existing).1),
    decreases nl.len(),
{
    if nl.len() > 0 {
        lemma_st_apply_flag(s, nl.drop_last(), ex, pkg, existing);
        let p = st_apply_new(s, nl.drop_last(), ex, pkg, existing);
        let q = st_apply_new((s.0, true), nl.drop_last(), ex, pkg, existing);
        let (l, r) = nl.last();
        lemma_st_rewire_flag(p, l, r, pkg);
        lemma_st_rewire_flag(q, l, r, pkg);
        lemma_st_add_new_flag(p, l, r, pkg);
        lemma_st_add_new_flag(q, l, r, pkg);
    }
}

/// A successful application succeeds on every prefix.
pub proof fn lemma_st_apply_prefix(s: (GraphView, bool), nl: Seq<(Seq<char>, JavaRuleView)>, ex: Seq<Seq<char>>, pkg: Seq<char>, existing: bool, k: int)
    requires
        0 <= k <= nl.len(),
        st_apply_new(s, nl, ex, pkg, existing).1,
    ensures
        st_apply_new(s, nl.subrange(0, k), ex, pkg, existing).1,
    decreases nl.len(),
{
    if k < nl.len() {
        assert(nl.drop_last().subrange(0, k) =~= nl.subrange(0, k));
        let p = st_apply_new(s, nl.drop_last(), ex, pkg, existing);
        let (l, r) = nl.last();
        lemma_st_rewire_flag(p, l, r, pkg);
        lemma_st_add_new_flag(p, l, r, pkg);
        lemma_st_apply_prefix(s, nl.drop_last(), ex, pkg, existing, k);
    } else {
        assert(nl.subrange(0, k) =~= nl);
    }
}

/// Removing stale targets keeps the flag.
pub proof fn lemma_st_remove_flag(s: (GraphView, bool), ex: Seq<Seq<char>>, keys: Seq<Seq<char>>)
    ensures
        st_remove_stale(s, ex, keys).1 == s.1,
        st_remove_stale(s, ex, keys).0 == st_remove_stale((s.0, true), ex, keys).0,
    decreases ex.len(),
{
    if ex.len() > 0 {
        lemma_st_remove_flag(s, ex.drop_last(), keys);
    }
}

/// Counting dependencies of a prefix of the new labels.
pub proof fn lemma_nl_count_prefix(nl: Seq<(Seq<char>, JavaRuleView)>, ex: Seq<Seq<char>>, existing: bool, k: int)
    requires
        0 <= k <= nl.len(),
    ensures
        nl_dep_count(nl.subrange(0, k), ex, existing) <= nl_dep_count(nl, ex, existing),
    decreases nl.len(),
{
    if k < nl.len() {
        assert(nl.drop_last().subrange(0, k) =~= nl.subrange(0, k));
        lemma_nl_count_prefix(nl.drop_last(), ex, existing, k);
    } else {
        assert(nl.subrange(0, k) =~= nl);
    }
}

/// Setting a target's JARs as a step.
pub open spec fn st_set_jars(s: (GraphView, bool), l: Seq<char>, j: Seq<ResolvedJarView>) -> (GraphView, bool) {
    (spec_set_jars(s.0, l, j), s.1 && target_ok(s.0, l))
}

/// Recording the target of one aspect result: the target, its kind, the
/// apparent alias of a canonical label, the test-only mark of a
/// `java_test` and its JARs (when it has some).
pub open spec fn aspect_head(s: (GraphView, bool), info: crate::ide_info::TargetIdeInfoView, j: Option<Seq<ResolvedJarView>>) -> (GraphView, bool) {
    let l = info.label;
    let s1 = st_target(s, l);
    let v2 = spec_set_kind(s1.0, l, info.kind);
    let v3 = match crate::ide_info::spec_canonical_to_apparent(l) {
        Some(a) => spec_alias_or_insert(v2, a, l),
        None => v2,
    };
    let v4 = if info.kind == "java_test"@ {
        spec_mark_testonly(v3, l)
    } else {
        v3
    };
    match j {
        Some(js) => st_set_jars((v4, s1.1), l, js),
        None => (v4, s1.1),
    }
}

/// Recording one aspect result: its target (see [`aspect_head`]), then
/// its dependency edges (`deps`, and with Java info also `runtime_deps`
/// and `exports`), resolved in the target's package.
#[verifier::opaque]
pub open spec fn st_aspect(s: (GraphView, bool), info: crate::ide_info::TargetIdeInfoView, j: Option<Seq<ResolvedJarView>>) -> (GraphView, bool) {
    let l = info.label;
    let s5 = aspect_head(s, info, j);
    let pkg = crate::labels::spec_package_of(l);
    if info.java_info is Some {
        st_deps(st_deps(st_deps(s5, l, info.deps, pkg), l, info.runtime_deps, pkg), l, info.exports, pkg)
    } else {
        st_deps(s5, l, info.deps, pkg)
    }
}

/// Recording aspect results in order, each with its JARs.
pub open spec fn st_aspects(s: (GraphView, bool), rs: Seq<crate::ide_info::TargetIdeInfoView>, js: Seq<Option<Seq<ResolvedJarView>>>) -> (GraphView, bool)
    decreases rs.len(),
{
    if rs.len() == 0 || js.len() == 0 {
        s
    } else {
        st_aspect(st_aspects(s, rs.drop_last(), js.drop_last()), rs.last(), js.last())
    }
}

/// No JARs for any of `n` results.
pub open spec fn no_jars(n: nat) -> Seq<Option<Seq<ResolvedJarView>>> {
    Seq::new(n, |i: int| None)
}

/// Recording the aspect results stays within what the graph accepts.
pub open spec fn aspects_ok(v: GraphView, rs: Seq<crate::ide_info::TargetIdeInfoView>) -> bool {
    st_aspects((v, true), rs, no_jars(rs.len())).1
}

/// The number of dependency edges an aspect result asks for.
pub open spec fn aspect_dep_count(info: crate::ide_info::TargetIdeInfoView) -> nat {
    if info.java_info is Some {
        info.deps.len() + info.runtime_deps.len() + info.exports.len()
    } else {
        info.deps.len()
    }
}

/// The number of dependency edges aspect results ask for.
pub open spec fn aspects_dep_count(rs: Seq<crate::ide_info::TargetIdeInfoView>) -> nat
    decreases rs.len(),
{
    if rs.len() == 0 {
        0
    } else {
        aspects_dep_count(rs.drop_last()) + aspect_dep_count(rs.last())
    }
}

/// Two graphs agree on everything but their JARs.
pub open spec fn same_shape(v: GraphView, w: GraphView) -> bool {
    &&& v.nodes == w.nodes
    &&& v.out == w.out
    &&& v.inc == w.inc
    &&& v.testonly == w.testonly
    &&& v.aliases == w.aliases
    &&& v.kinds == w.kinds
}

/// Dependency steps do not look at JARs.
pub proof fn lemma_st_deps_shape(s: (GraphView, bool), t: (GraphView, bool), f: Seq<char>, ds: Seq<Seq<char>>, pkg: Seq<char>)
    requires
        same_shape(s.0, t.0),
        s.1 == t.1,
    ensures
        same_shape(st_deps(s, f, ds, pkg).0, st_deps(t, f, ds, pkg).0),
        st_deps(s, f, ds, pkg).1 == st_deps(t, f, ds, pkg).1,
    decreases ds.len(),
{
    if ds.len() > 0 {
        lemma_st_deps_shape(s, t, f, ds.drop_last(), pkg);
    }
}

/// After a target is added (or found absorbed), recording its kind, alias
/// and test-only mark keeps it a node or absorbed.
pub proof fn lemma_target_kept(v1: GraphView, info: crate::ide_info::TargetIdeInfoView)
    requires
        v1.nodes.contains(info.label) || absorbed(v1, info.label),
    ensures
        ({
            let l = info.label;
            let v2 = spec_set_kind(v1, l, info.kind);
            let v3 = match crate::ide_info::spec_canonical_to_apparent(l) {
                Some(a) => spec_alias_or_insert(v2, a, l),
                None => v2,
            };
            let v4 = if info.kind == "java_test"@ {
                spec_mark_testonly(v3, l)
            } else {
                v3
            };
            &&& v4.nodes == v1.nodes
            &&& (v4.nodes.contains(l) || absorbed(v4, l))
            &&& spec_add_target(v4, l) == v4
            &&& target_ok(v4, l)
        }),
{
    let l = info.label;
    let v2 = spec_set_kind(v1, l, info.kind);
    let v3 = match crate::ide_info::spec_canonical_to_apparent(l) {
        Some(a) => spec_alias_or_insert(v2, a, l),
        None => v2,
    };
    if !v1.nodes.contains(l) {
        assert(absorbed(v2, l));
        match crate::ide_info::spec_canonical_to_apparent(l) {
            Some(a) => {
                if !v2.aliases.dom().contains(a) {
                    assert(a != l);
                    assert(v3.aliases[l] == v2.aliases[l]);
                }
            },
            None => {},
        }
        assert(absorbed(v3, l));
    }
}

/// One aspect result does not look at JARs.
pub proof fn lemma_st_aspect_shape(
    p: (GraphView, bool),
    q: (GraphView, bool),
    info: crate::ide_info::TargetIdeInfoView,
    j: Option<Seq<ResolvedJarView>>,
    k: Option<Seq<ResolvedJarView>>,
)
    requires
        same_shape(p.0, q.0),
        p.1 == q.1,
    ensures
        same_shape(st_aspect(p, info, j).0, st_aspect(q, info, k).0),
        st_aspect(p, info, j).1 == st_aspect(q, info, k).1,
{
    reveal(st_aspect);
    let l = info.label;
    let s1 = st_target(p, l);
    let t1 = st_target(q, l);
    assert(same_shape(s1.0, t1.0));
    if p.0.nodes.contains(l) || absorbed(p.0, l) {
    } else {
        assert(s1.0.nodes[p.0.nodes.len() as int] == l);
    }
    assert(s1.0.nodes.contains(l) || absorbed(s1.0, l));
    assert(t1.0.nodes.contains(l) || absorbed(t1.0, l));
    lemma_target_kept(s1.0, info);
    lemma_target_kept(t1.0, info);
    let v2 = spec_set_kind(s1.0, l, info.kind);
    let w2 = spec_set_kind(t1.0, l, info.kind);
    let v3 = match crate::ide_info::spec_canonical_to_apparent(l) { Some(a) => spec_alias_or_insert(v2, a, l), None => v2 };
    let w3 = match crate::ide_info::spec_canonical_to_apparent(l) { Some(a) => spec_alias_or_insert(w2, a, l), None => w2 };
    let v4 = if info.kind == "java_test"@ { spec_mark_testonly(v3, l) } else { v3 };
    let w4 = if info.kind == "java_test"@ { spec_mark_testonly(w3, l) } else { w3 };
    assert(same_shape(v4, w4));
    let s5 = match j { Some(js) => st_set_jars((v4, s1.1), l, js), None => (v4, s1.1) };
    let t5 = match k { Some(js) => st_set_jars((w4, t1.1), l, js), None => (w4, t1.1) };
    assert(same_shape(s5.0, t5.0));
    assert(s5.1 == t5.1);
    let pkg = crate::labels::spec_package_of(l);
    lemma_st_deps_shape(s5, t5, l, info.deps, pkg);
    let s6 = st_deps(s5, l, info.deps, pkg);
    let t6 = st_deps(t5, l, info.deps, pkg);
    lemma_st_deps_shape(s6, t6, l, info.runtime_deps, pkg);
    let s7 = st_deps(s6, l, info.runtime_deps, pkg);
    let t7 = st_deps(t6, l, info.runtime_deps, pkg);
    lemma_st_deps_shape(s7, t7, l, info.exports, pkg);
}

/// Recording aspect results does not look at JARs: the flag and
/// everything but the JARs are the same whatever JARs are recorded.
pub proof fn lemma_st_aspects_shape(
    s: (GraphView, bool),
    t: (GraphView, bool),
    rs: Seq<crate::ide_info::TargetIdeInfoView>,
    js: Seq<Option<Seq<ResolvedJarView>>>,
    ks: Seq<Option<Seq<ResolvedJarView>>>,
)
    requires
        same_shape(s.0, t.0),
        s.1 == t.1,
        js.len() == rs.len(),
        ks.len() == rs.len(),
    ensures
        same_shape(st_aspects(s, rs, js).0, st_aspects(t, rs, ks).0),
        st_aspects(s, rs, js).1 == st_aspects(t, rs, ks).1,
    decreases rs.len(),
{
    if rs.len() > 0 {
        lemma_st_aspects_shape(s, t, rs.drop_last(), js.drop_last(), ks.drop_last());
        lemma_st_aspect_shape(
            st_aspects(s, rs.drop_last(), js.drop_last()),
            st_aspects(t, rs.drop_last(), ks.drop_last()),
            rs.last(),
            js.last(),
            ks.last(),
        );
    }
}

/// The flag of recording aspect results.
pub proof fn lemma_st_aspects_flag(s: (GraphView, bool), rs: Seq<crate::ide_info::TargetIdeInfoView>, js: Seq<Option<Seq<ResolvedJarView>>>)
    requires
        js.len() == rs.len(),
    ensures
        st_aspects(s, rs, js).0 == st_aspects((s.0, true), rs, js).0,
        st_aspects(s, rs, js).1 == (s.1 && st_aspects((s.0, true), rs, js).1),
    decreases rs.len(),
{
    if rs.len() > 0 {
        lemma_st_aspects_flag(s, rs.drop_last(), js.drop_last());
        let p = st_aspects(s, rs.drop_last(), js.drop_last());
        let q = st_aspects((s.0, true), rs.drop_last(), js.drop_last());
        lemma_st_aspect_flag(p, rs.last(), js.last());
        lemma_st_aspect_flag(q, rs.last(), js.last());
    }
}

/// The flag of one aspect result.
pub proof fn lemma_st_aspect_flag(s: (GraphView, bool), info: crate::ide_info::TargetIdeInfoView, j: Option<Seq<ResolvedJarView>>)
    ensures
        st_aspect(s, info, j).0 == st_aspect((s.0, true), info, j).0,
        st_aspect(s, info, j).1 == (s.1 && st_aspect((s.0, true), info, j).1),
{
    reveal(st_aspect);
    let l = info.label;
    let s1 = st_target(s, l);
    let t1 = st_target((s.0, true), l);
    let v2 = spec_set_kind(s1.0, l, info.kind);
    let v3 = match crate::ide_info::spec_canonical_to_apparent(l) { Some(a) => spec_alias_or_insert(v2, a, l), None => v2 };
    let v4 = if info.kind == "java_test"@ { spec_mark_testonly(v3, l) } else { v3 };
    let s5 = match j { Some(js) => st_set_jars((v4, s1.1), l, js), None => (v4, s1.1) };
    let t5 = match j { Some(js) => st_set_jars((v4, t1.1), l, js), None => (v4, t1.1) };
    let pkg = crate::labels::spec_package_of(l);
    lemma_st_deps_flag(s5, l, info.deps, pkg);
    lemma_st_deps_flag(t5, l, info.deps, pkg);
    let s6 = st_deps(s5, l, info.deps, pkg);
    let t6 = st_deps(t5, l, info.deps, pkg);
    lemma_st_deps_flag(s6, l, info.runtime_deps, pkg);
    lemma_st_deps_flag(t6, l, info.runtime_deps, pkg);
    let s7 = st_deps(s6, l, info.runtime_deps, pkg);
    let t7 = st_deps(t6, l, info.runtime_deps, pkg);
    lemma_st_deps_flag(s7, l, info.exports, pkg);
    lemma_st_deps_flag(t7, l, info.exports, pkg);
}

/// A successful recording succeeds on every prefix.
pub proof fn lemma_st_aspects_prefix(s: (GraphView, bool), rs: Seq<crate::ide_info::TargetIdeInfoView>, js: Seq<Option<Seq<ResolvedJarView>>>, k: int)
    requires
        js.len() == rs.len(),
        0 <= k <= rs.len(),
        st_aspects(s, rs, js).1,
    ensures
        st_aspects(s, rs.subrange(0, k), js.subrange(0, k)).1,
    decreases rs.len(),
{
    if k < rs.len() {
        assert(rs.drop_last().subrange(0, k) =~= rs.subrange(0, k));
        assert(js.drop_last().subrange(0, k) =~= js.subrange(0, k));
        lemma_st_aspect_flag(st_aspects(s, rs.drop_last(), js.drop_last()), rs.last(), js.last());
        lemma_st_aspects_prefix(s, rs.drop_last(), js.drop_last(), k);
    } else {
        assert(rs.subrange(0, k) =~= rs);
        assert(js.subrange(0, k) =~= js);
    }
}

/// Counting the dependencies of a prefix of the aspect results.
pub proof fn lemma_aspects_count_prefix(rs: Seq<crate::ide_info::TargetIdeInfoView>, k: int)
    requires
        0 <= k <= rs.len(),
    ensures
        aspects_dep_count(rs.subrange(0, k)) <= aspects_dep_count(rs),
    decreases rs.len(),
{
    if k < rs.len() {
        assert(rs.drop_last().subrange(0, k) =~= rs.subrange(0, k));
        lemma_aspects_count_prefix(rs.drop_last(), k);
    } else {
        assert(rs.subrange(0, k) =~= rs);
    }
}

/// The views of aspect results.
pub open spec fn targets_view(v: Seq<crate::ide_info::TargetIdeInfo>) -> Seq<crate::ide_info::TargetIdeInfoView> {
    v.map_values(|t: crate::ide_info::TargetIdeInfo| t@)
}

/// The view of optional resolved JARs.
pub open spec fn opt_jars_view(j: Option<Vec<ResolvedJar>>) -> Option<Seq<ResolvedJarView>> {
    match j {
        Some(v) => Some(resolved_view(v@)),
        None => None,
    }
}

/// The views of string pairs.
pub open spec fn str_pairs(l: Seq<(String, String)>) -> Seq<(Seq<char>, Seq<char>)> {
    l.map_values(|p: (String, String)| (p.0@, p.1@))
}

/// The views of label/JAR-list pairs.
pub open spec fn jar_pairs(l: Seq<(String, Vec<ResolvedJar>)>) -> Seq<(Seq<char>, Seq<ResolvedJarView>)> {
    l.map_values(|p: (String, Vec<ResolvedJar>)| (p.0@, resolved_view(p.1@)))
}

/// The views of a sequence of strings.
pub open spec fn str_list(l: Seq<String>) -> Seq<Seq<char>> {
    l.map_values(|s: String| s@)
}

/// The views of a list with one more string.
pub proof fn lemma_str_list_push(r: Seq<String>, l: String)
    ensures
        str_list(r.push(l)) == str_list(r).push(l@),
{
    assert(str_list(r.push(l)).len() == r.len() + 1);
    assert(str_list(r.push(l)) =~= str_list(r).push(l@));
}


/// The groups held by parallel key and member lists.
pub open spec fn group_view(keys: Seq<String>, members: Seq<Vec<String>>) -> Seq<(Seq<char>, Seq<Seq<char>>)> {
    Seq::new(keys.len(), |i: int| (keys[i]@, str_list(members[i]@)))
}

/// Adds the dependencies of one target to the package groups.
fn add_to_groups(keys: &mut Vec<String>, members: &mut Vec<Vec<String>>, deps: &Vec<String>)
    requires
        old(keys)@.len() == old(members)@.len(),
        keys_unique(group_view(old(keys)@, old(members)@)),
    ensures
        final(keys)@.len() == final(members)@.len(),
        keys_unique(group_view(final(keys)@, final(members)@)),
        group_view(final(keys)@, final(members)@) == group_deps(group_view(old(keys)@, old(members)@), str_list(deps@)),
{
    let ghost g0 = group_view(keys@, members@);
    let mut k: usize = 0;
    while k < deps.len()
        invariant
            k <= deps@.len(),
            keys@.len() == members@.len(),
            keys_unique(group_view(keys@, members@)),
            group_view(keys@, members@) == group_deps(g0, str_list(deps@).subrange(0, k as int)),
        decreases deps@.len() - k,
    {
        let ghost g = group_view(keys@, members@);
        let ghost sub1 = str_list(deps@).subrange(0, k + 1);
        proof {
            assert(sub1.drop_last() =~= str_list(deps@).subrange(0, k as int));
            assert(sub1.last() == deps@[k as int]@);
            assert(group_deps(g0, sub1) == group_dep(g, deps@[k as int]@));
        }
        let n = crate::labels::normalize_label(deps[k].as_str());
        let internal = crate::labels::is_bazel_internal_label(n.as_str());
        let external = crate::strutil::str_starts_with(n.as_str(), "@");
        proof {
            reveal_strlit("@");
            assert("@"@ =~= seq!['@']);
            assert(external == crate::strutil::seq_starts_with(n@, seq!['@']));
        }
        if !external && !internal {
            let p = crate::labels::package_path(n.as_str());
            match find_str(keys, p.as_str()) {
                Some(i) => {
                    let mut ts: Vec<String> = Vec::new();
                    std::mem::swap(&mut ts, &mut members[i]);
                    let ghost t0 = ts@;
                    ts.push(n);
                    members[i] = ts;
                    proof {
                        lemma_str_list_push(t0, n);
                        assert(g[i as int].0 == p@);
                        let c = choose|c: int| 0 <= c < g.len() && g[c].0 == p@;
                        assert(c == i);
                        assert(group_view(keys@, members@) =~= g.update(i as int, (p@, g[i as int].1.push(n@))));
                        assert(group_dep(g, deps@[k as int]@) == g.update(i as int, (p@, g[i as int].1.push(n@))));
                        assert forall|a: int, b: int| 0 <= a < b < group_view(keys@, members@).len() implies group_view(keys@, members@)[a].0 != group_view(keys@, members@)[b].0 by {
                            assert(group_view(keys@, members@)[a].0 == g[a].0);
                            assert(group_view(keys@, members@)[b].0 == g[b].0);
                        }
                    }
                },
                None => {
                    let ghost km = keys@;
                    keys.push(p);
                    let mut ts: Vec<String> = Vec::new();
                    ts.push(n);
                    members.push(ts);
                    proof {
                        assert(!(exists|c: int| 0 <= c < g.len() && g[c].0 == p@)) by {
                            if exists|c: int| 0 <= c < g.len() && g[c].0 == p@ {
                                let c = choose|c: int| 0 <= c < g.len() && g[c].0 == p@;
                                assert(km[c]@ == p@);
                            }
                        }
                        assert(str_list(ts@) =~= seq![n@]);
                        assert(group_view(keys@, members@) =~= g.push((p@, seq![n@])));
                        assert(group_dep(g, deps@[k as int]@) == g.push((p@, seq![n@])));
                        assert forall|a: int, b: int| 0 <= a < b < group_view(keys@, members@).len() implies group_view(keys@, members@)[a].0 != group_view(keys@, members@)[b].0 by {
                            if b == g.len() {
                                assert(group_view(keys@, members@)[a].0 == km[a]@);
                            } else {
                                assert(group_view(keys@, members@)[a].0 == g[a].0);
                                assert(group_view(keys@, members@)[b].0 == g[b].0);
                            }
                        }
                    }
                },
            }
        }
        k = k + 1;
    }
    proof {
        assert(str_list(deps@).subrange(0, deps@.len() as int) =~= str_list(deps@));
    }
}

/// Strings joined with one separator character.
pub fn join_strings(l: &Vec<String>, sep: char) -> (r: String)
    ensures
        r@ == join_with(str_list(l@), seq![sep]),
{
    let mut r = String::new();
    let mut k: usize = 0;
    while k < l.len()
        invariant
            k <= l@.len(),
            r@ == join_with(str_list(l@).subrange(0, k as int), seq![sep]),
        decreases l@.len() - k,
    {
        let ghost before = r@;
        if k > 0 {
            crate::strutil::push_char(&mut r, sep);
        }
        r.append(l[k].as_str());
        proof {
            let sub = str_list(l@).subrange(0, k + 1);
            assert(sub.drop_last() =~= str_list(l@).subrange(0, k as int));
            assert(sub.last() == l@[k as int]@);
            if k == 0 {
                assert(sub.len() == 1);
                assert(r@ =~= sub[0]);
            } else {
                assert(r@ =~= before + seq![sep] + sub.last());
            }
        }
        k = k + 1;
    }
    proof {
        assert(str_list(l@).subrange(0, l@.len() as int) =~= str_list(l@));
    }
    r
}

/// Deduplicated package paths of the workspace-internal labels among
/// `deps`, each normalized first, in order of first appearance.
pub fn dependency_packages(deps: &Vec<String>) -> (r: Vec<String>)
    ensures
        str_list(r@) == spec_dep_packages(str_list(deps@)),
{
    let ghost all = str_list(deps@);
    let mut r: Vec<String> = Vec::new();
    let mut k: usize = 0;
    while k < deps.len()
        invariant
            k <= deps@.len(),
            all == str_list(deps@),
            str_list(r@) == spec_dep_packages(all.subrange(0, k as int)),
        decreases deps@.len() - k,
    {
        let ghost sub1 = all.subrange(0, k + 1);
        let ghost prev = spec_dep_packages(all.subrange(0, k as int));
        proof {
            assert(sub1.drop_last() =~= all.subrange(0, k as int));
            assert(sub1.last() == deps@[k as int]@);
        }
        let n = crate::labels::normalize_label(deps[k].as_str());
        let internal = crate::labels::is_bazel_internal_label(n.as_str());
        let external = crate::strutil::str_starts_with(n.as_str(), "@");
        proof {
            reveal_strlit("@");
            assert("@"@ =~= seq!['@']);
            assert(external == crate::strutil::seq_starts_with(n@, seq!['@']));
        }
        if !external && !internal {
            let p = crate::labels::package_path(n.as_str());
            match find_str(&r, p.as_str()) {
                Some(i) => {
                    proof {
                        assert(str_list(r@)[i as int] == p@);
                        assert(prev.contains(p@));
                        assert(spec_dep_packages(sub1) == prev);
                    }
                },
                None => {
                    let ghost r0 = r@;
                    r.push(p);
                    proof {
                        lemma_str_list_push(r0, p);
                        assert(!str_list(r0).contains(p@));
                        assert(spec_dep_packages(sub1) == prev.push(p@));
                    }
                },
            }
        } else {
            proof {
                assert(spec_dep_packages(sub1) == prev);
            }
        }
        k = k + 1;
    }
    proof {
        assert(all.subrange(0, deps@.len() as int) =~= all);
    }
    r
}

/// The package label of a BUILD file relative to the workspace root, e.g.
/// `/workspace/foo/bar/BUILD` under `/workspace` gives `//foo/bar`.
fn compute_package_label_from_build_path(path: &str, workspace_root: &str) -> (r: String)
    ensures
        r@ == spec_build_path_package(path@, workspace_root@),
{
    let dir = match path_parent(path) {
        Some(p) => p,
        None => owned(path),
    };
    match path_strip_prefix(dir.as_str(), workspace_root) {
        Some(rel) => crate::labels::slash_label_of(rel.as_str()),
        None => crate::labels::slash_label_of(dir.as_str()),
    }
}

/// Dependency graph of Bazel targets.
pub struct DependencyGraph {
    graph: petgraph::graph::Graph<String, (), petgraph::Directed, u32>,
    target_jars: Vec<(String, Vec<ResolvedJar>)>,
    testonly_targets: Vec<String>,
    label_aliases: Vec<(String, String)>,
    target_kinds: Vec<(String, String)>,
}

impl View for DependencyGraph {
    type V = GraphView;

    closed spec fn view(&self) -> GraphView {
        GraphView {
            nodes: graph_nodes(self.graph),
            out: graph_out(self.graph),
            inc: graph_in(self.graph),
            jars: assoc_map(jar_pairs(self.target_jars@)),
            testonly: str_list(self.testonly_targets@).to_set(),
            aliases: assoc_map(str_pairs(self.label_aliases@)),
            kinds: assoc_map(str_pairs(self.target_kinds@)),
        }
    }
}

impl DependencyGraph {
    /// The number of edges (bounded by the graph's index type).
    pub closed spec fn edge_total(&self) -> nat {
        graph_edge_ends(self.graph).len()
    }

    /// The graph is well formed.
    pub closed spec fn wf(&self) -> bool {
        &&& graph_wf(self@)
        &&& keys_unique(jar_pairs(self.target_jars@))
        &&& keys_unique(str_pairs(self.label_aliases@))
        &&& keys_unique(str_pairs(self.target_kinds@))
        &&& str_list(self.testonly_targets@).no_duplicates()
    }

    /// An empty graph.
    pub fn new() -> (g: Self)
        ensures
            g.wf(),
            g@ == empty_graph(),
            g.edge_total() == 0,
    {
        let g = DependencyGraph {
            graph: graph_new(),
            target_jars: Vec::new(),
            testonly_targets: Vec::new(),
            label_aliases: Vec::new(),
            target_kinds: Vec::new(),
        };
        proof {
            assert(jar_pairs(g.target_jars@) =~= Seq::empty());
            assert(str_pairs(g.label_aliases@) =~= Seq::empty());
            assert(str_pairs(g.target_kinds@) =~= Seq::empty());
            assert(str_list(g.testonly_targets@) =~= Seq::empty());
            assert(str_list(g.testonly_targets@).to_set() =~= Set::empty());
            assert(g@ =~= empty_graph());
        }
        g
    }

    /// Index of the node labelled `label`.
    fn find_node(&self, label: &str) -> (r: Option<usize>)
        requires
            self.wf(),
        ensures
            r matches Some(i) ==> i < self@.nodes.len() && self@.nodes[i as int] == label@,
            r is None ==> !self@.nodes.contains(label@),
    {
        let n = graph_node_count(&self.graph);
        let mut i: usize = 0;
        while i < n
            invariant
                n == self@.nodes.len(),
                i <= n,
                forall|j: int| 0 <= j < i ==> self@.nodes[j] != label@,
            decreases n - i,
        {
            let l = graph_node_label(&self.graph, i);
            if str_eq(l.as_str(), label) {
                return Some(i);
            }
            i = i + 1;
        }
        None
    }

    /// Whether `l` is absorbed by its alias.
    fn find_canonical(&self, label: &str) -> (r: Option<usize>)
        requires
            self.wf(),
        ensures
            r matches Some(i) ==> i < self@.nodes.len() && self@.nodes[i as int] == canonical_label(self@, label@),
            r is None ==> !self@.nodes.contains(canonical_label(self@, label@)),
    {
        match self.find_node(label) {
            Some(i) => Some(i),
            None => match self.label_alias(label) {
                Some(c) => self.find_node(c.as_str()),
                None => None,
            },
        }
    }

    fn is_absorbed(&self, label: &str) -> (b: bool)
        requires
            self.wf(),
        ensures
            b == absorbed(self@, label@),
    {
        match find_key(&self.label_aliases, label) {
            Some(i) => {
                proof {
                    lemma_assoc_index(str_pairs(self.label_aliases@), i as int);
                }
                self.find_node(self.label_aliases[i].1.as_str()).is_some()
            },
            None => {
                proof {
                    lemma_assoc_dom(str_pairs(self.label_aliases@), label@);
                }
                false
            },
        }
    }

    /// Adds a target node, unless the label, or the canonical label it is
    /// an alias of, is already a node.
    pub fn add_target(&mut self, label: &str)
        requires
            old(self).wf(),
            target_ok(old(self)@, label@),
        ensures
            final(self).wf(),
            final(self)@ == spec_add_target(old(self)@, label@),
            final(self).edge_total() == old(self).edge_total(),
    {
        if self.find_node(label).is_none() {
            if self.is_absorbed(label) {
                return;
            }
            let ghost v = self@;
            let _ = graph_add_node(&mut self.graph, owned(label));
            proof {
                let w = self@;
                assert(w.nodes =~= v.nodes.push(label@));
                assert forall|a: int, k: int| 0 <= a < w.out.len() && 0 <= k < w.out[a].len() implies 0 <= #[trigger] w.out[a][k] < w.out.len() by {
                    if a < v.out.len() {
                        assert(w.out[a] == v.out[a]);
                    }
                }
                assert forall|a: int, k: int| 0 <= a < w.inc.len() && 0 <= k < w.inc[a].len() implies 0 <= #[trigger] w.inc[a][k] < w.inc.len() by {
                    if a < v.inc.len() {
                        assert(w.inc[a] == v.inc[a]);
                    }
                }
                assert forall|a: int| 0 <= a < w.out.len() implies #[trigger] w.out[a].no_duplicates() by {
                    if a < v.out.len() {
                        assert(w.out[a] == v.out[a]);
                    }
                }
                assert forall|a: int| 0 <= a < w.inc.len() implies #[trigger] w.inc[a].no_duplicates() by {
                    if a < v.inc.len() {
                        assert(w.inc[a] == v.inc[a]);
                    }
                }
                assert forall|a: int, b: int| 0 <= a < w.nodes.len() && 0 <= b < w.nodes.len() && #[trigger] w.out[a].contains(b) implies w.inc[b].contains(a) by {
                    assert(a < v.nodes.len());
                    assert(w.out[a] == v.out[a]);
                    assert(0 <= b < v.nodes.len());
                    assert(w.inc[b] == v.inc[b]);
                }
                assert forall|a: int, b: int| 0 <= a < w.nodes.len() && 0 <= b < w.nodes.len() && #[trigger] w.inc[b].contains(a) implies w.out[a].contains(b) by {
                    assert(b < v.nodes.len());
                    assert(w.inc[b] == v.inc[b]);
                    assert(0 <= a < v.nodes.len());
                    assert(w.out[a] == v.out[a]);
                }
                assert(w =~= spec_add_target(v, label@));
            }
        }
    }

    /// Adds the edge `a -> b` unless it is already there.
    fn add_edge_once(&mut self, a: usize, b: usize)
        requires
            old(self).wf(),
            a < old(self)@.nodes.len(),
            b < old(self)@.nodes.len(),
            old(self).edge_total() + 1 < u32::MAX,
        ensures
            final(self).wf(),
            final(self)@ == spec_add_edge(old(self)@, a as int, b as int),
            final(self).edge_total() <= old(self).edge_total() + 1,
    {
        if !graph_contains_edge(&self.graph, a, b) {
            let ghost v = self@;
            graph_add_edge(&mut self.graph, a, b);
            proof {
                let w = self@;
                assert(!v.inc[b as int].contains(a as int));
                assert forall|x: int, k: int| 0 <= x < w.out.len() && 0 <= k < w.out[x].len() implies 0 <= #[trigger] w.out[x][k] < w.out.len() by {
                    if x == a {
                        if k > 0 {
                            assert(w.out[x][k] == v.out[x][k - 1]);
                        }
                    }
                }
                assert forall|x: int, k: int| 0 <= x < w.inc.len() && 0 <= k < w.inc[x].len() implies 0 <= #[trigger] w.inc[x][k] < w.inc.len() by {
                    if x == b {
                        if k > 0 {
                            assert(w.inc[x][k] == v.inc[x][k - 1]);
                        }
                    }
                }
                assert forall|x: int| 0 <= x < w.out.len() implies #[trigger] w.out[x].no_duplicates() by {
                    if x == a {
                        assert(v.out[x].no_duplicates());
                        assert forall|i: int, j: int| 0 <= i < j < w.out[x].len() implies w.out[x][i] != w.out[x][j] by {
                            if i == 0 {
                                assert(w.out[x][j] == v.out[x][j - 1]);
                            } else {
                                assert(w.out[x][i] == v.out[x][i - 1]);
                                assert(w.out[x][j] == v.out[x][j - 1]);
                            }
                        }
                    }
                }
                assert forall|x: int| 0 <= x < w.inc.len() implies #[trigger] w.inc[x].no_duplicates() by {
                    if x == b {
                        assert(v.inc[x].no_duplicates());
                        assert forall|i: int, j: int| 0 <= i < j < w.inc[x].len() implies w.inc[x][i] != w.inc[x][j] by {
                            if i == 0 {
                                assert(w.inc[x][j] == v.inc[x][j - 1]);
                            } else {
                                assert(w.inc[x][i] == v.inc[x][i - 1]);
                                assert(w.inc[x][j] == v.inc[x][j - 1]);
                            }
                        }
                    }
                }
                assert forall|x: int, y: int| 0 <= x < w.nodes.len() && 0 <= y < w.nodes.len() && #[trigger] w.out[x].contains(y) implies w.inc[y].contains(x) by {
                    let k = choose|k: int| 0 <= k < w.out[x].len() && w.out[x][k] == y;
                    if x == a && k == 0 {
                        assert(w.inc[b as int][0] == a);
                    } else {
                        if x == a {
                            assert(v.out[x][k - 1] == y);
                        } else {
                            assert(v.out[x][k] == y);
                        }
                        assert(v.out[x].contains(y));
                        assert(v.inc[y].contains(x));
                        let m = choose|m: int| 0 <= m < v.inc[y].len() && v.inc[y][m] == x;
                        if y == b {
                            assert(w.inc[y][m + 1] == x);
                        } else {
                            assert(w.inc[y][m] == x);
                        }
                    }
                }
                assert forall|x: int, y: int| 0 <= x < w.nodes.len() && 0 <= y < w.nodes.len() && #[trigger] w.inc[y].contains(x) implies w.out[x].contains(y) by {
                    let k = choose|k: int| 0 <= k < w.inc[y].len() && w.inc[y][k] == x;
                    if y == b && k == 0 {
                        assert(w.out[a as int][0] == b);
                    } else {
                        if y == b {
                            assert(v.inc[y][k - 1] == x);
                        } else {
                            assert(v.inc[y][k] == x);
                        }
                        assert(v.inc[y].contains(x));
                        assert(v.out[x].contains(y));
                        let m = choose|m: int| 0 <= m < v.out[x].len() && v.out[x][m] == y;
                        if x == a {
                            assert(w.out[x][m + 1] == y);
                        } else {
                            assert(w.out[x][m] == y);
                        }
                    }
                }
                assert(w =~= spec_add_edge(v, a as int, b as int));
            }
        }
    }

    /// Adds a dependency edge `from -> to`, adding both targets first; a
    /// label that is an alias of a target stands for that target's node.
    /// An edge that is already there is not added twice.
    pub fn add_dep(&mut self, from: &str, to: &str)
        requires
            old(self).wf(),
            dep_ok(old(self)@, from@, to@),
            old(self).edge_total() + 1 < u32::MAX,
        ensures
            final(self).wf(),
            final(self)@ == spec_add_dep(old(self)@, from@, to@),
            final(self).edge_total() <= old(self).edge_total() + 1,
    {
        let ghost v0 = old(self)@;
        let ghost v1 = spec_add_target(v0, from@);
        let ghost v2 = spec_add_target(v1, to@);
        proof {
            lemma_add_target_nodes(v0, from@);
            lemma_add_target_nodes(v1, to@);
            let cf = canonical_label(v1, from@);
            assert(v2.nodes.contains(cf));
            assert(canonical_label(v2, from@) == cf || v2.nodes.contains(from@));
        }
        self.add_target(from);
        self.add_target(to);
        let fi = self.find_canonical(from);
        let ti = self.find_canonical(to);
        match (fi, ti) {
            (Some(a), Some(b)) => {
                proof {
                    assert(self@.nodes.no_duplicates());
                    let ia = node_index(self@.nodes, canonical_label(self@, from@));
                    let ib = node_index(self@.nodes, canonical_label(self@, to@));
                    assert(0 <= ia < self@.nodes.len() && self@.nodes[ia] == canonical_label(self@, from@));
                    assert(0 <= ib < self@.nodes.len() && self@.nodes[ib] == canonical_label(self@, to@));
                    assert(ia == a);
                    assert(ib == b);
                }
                self.add_edge_once(a, b);
            },
            _ => {
                proof {
                    assert(false);
                }
            },
        }
    }

    /// Whether the label names a target, directly or through its alias.
    pub fn has_target(&self, label: &str) -> (b: bool)
        requires
            self.wf(),
        ensures
            b == spec_has_target(self@, label@),
    {
        self.find_node(label).is_some() || self.is_absorbed(label)
    }

    /// The number of targets.
    pub fn target_count(&self) -> (n: usize)
        requires
            self.wf(),
        ensures
            n == self@.nodes.len(),
    {
        graph_node_count(&self.graph)
    }

    /// The number of dependency edges.
    pub fn dependency_count(&self) -> (n: usize)
        ensures
            n == self.edge_total(),
    {
        graph_edge_count(&self.graph)
    }

    /// Copy of a resolved JAR.
    fn copy_jar(j: &ResolvedJar) -> (r: ResolvedJar)
        ensures
            r@ == j@,
    {
        ResolvedJar {
            full_jar_path: j.full_jar_path.clone(),
            compile_jar_path: match &j.compile_jar_path {
                Some(s) => Some(s.clone()),
                None => None,
            },
            runtime_jar_path: match &j.runtime_jar_path {
                Some(s) => Some(s.clone()),
                None => None,
            },
            source_path: match &j.source_path {
                Some(s) => Some(s.clone()),
                None => None,
            },
        }
    }

    /// Records the JARs of a label (replacing earlier ones).
    fn insert_jars(&mut self, label: &str, jars: Vec<ResolvedJar>)
        requires
            old(self).wf(),
        ensures
            final(self).wf(),
            final(self).edge_total() == old(self).edge_total(),
            final(self)@ == (GraphView { jars: old(self)@.jars.insert(label@, resolved_view(jars@)), ..old(self)@ }),
    {
        let ghost l0 = jar_pairs(self.target_jars@);
        let ghost jv = resolved_view(jars@);
        let ghost v = self@;
        match find_key(&self.target_jars, label) {
            Some(i) => {
                self.target_jars[i] = (owned(label), jars);
                proof {
                    lemma_assoc_update(l0, i as int, jv);
                    assert(jar_pairs(self.target_jars@) =~= l0.update(i as int, (l0[i as int].0, jv)));
                }
            },
            None => {
                self.target_jars.push((owned(label), jars));
                proof {
                    lemma_assoc_push(l0, label@, jv);
                    assert(jar_pairs(self.target_jars@) =~= l0.push((label@, jv)));
                }
            },
        }
        proof {
            assert(self@ =~= (GraphView { jars: v.jars.insert(label@, jv), ..v }));
        }
    }

    /// Associates resolved JARs with a target, adding the target first.
    pub fn set_target_jars(&mut self, label: &str, jars: Vec<ResolvedJar>)
        requires
            old(self).wf(),
            target_ok(old(self)@, label@),
        ensures
            final(self).wf(),
            final(self).edge_total() == old(self).edge_total(),
            final(self)@ == spec_set_jars(old(self)@, label@, resolved_view(jars@)),
    {
        self.add_target(label);
        self.insert_jars(label, jars);
    }

    /// The JARs of a target, resolving through the alias map if needed.
    pub fn get_target_jars(&self, label: &str) -> (r: Option<&Vec<ResolvedJar>>)
        requires
            self.wf(),
        ensures
            match r {
                Some(j) => spec_get_jars(self@, label@) == Some(resolved_view(j@)),
                None => spec_get_jars(self@, label@) is None,
            },
    {
        match find_key(&self.target_jars, label) {
            Some(i) => {
                proof {
                    lemma_assoc_index(jar_pairs(self.target_jars@), i as int);
                }
                return Some(&self.target_jars[i].1);
            },
            None => {
                proof {
                    lemma_assoc_dom(jar_pairs(self.target_jars@), label@);
                }
            },
        }
        match find_key(&self.label_aliases, label) {
            Some(a) => {
                proof {
                    lemma_assoc_index(str_pairs(self.label_aliases@), a as int);
                }
                let canonical = self.label_aliases[a].1.as_str();
                match find_key(&self.target_jars, canonical) {
                    Some(i) => {
                        proof {
                            lemma_assoc_index(jar_pairs(self.target_jars@), i as int);
                        }
                        Some(&self.target_jars[i].1)
                    },
                    None => {
                        proof {
                            lemma_assoc_dom(jar_pairs(self.target_jars@), canonical@);
                        }
                        None
                    },
                }
            },
            None => {
                proof {
                    lemma_assoc_dom(str_pairs(self.label_aliases@), label@);
                }
                None
            },
        }
    }

    /// Whether a target is test-only.
    pub fn is_testonly(&self, label: &str) -> (b: bool)
        requires
            self.wf(),
        ensures
            b == self@.testonly.contains(label@),
    {
        match find_str(&self.testonly_targets, label) {
            Some(i) => {
                proof {
                    assert(str_list(self.testonly_targets@)[i as int] == label@);
                }
                true
            },
            None => false,
        }
    }

    /// Marks a target test-only.
    fn mark_testonly(&mut self, label: &str)
        requires
            old(self).wf(),
        ensures
            final(self).wf(),
            final(self).edge_total() == old(self).edge_total(),
            final(self)@ == spec_mark_testonly(old(self)@, label@),
    {
        let ghost v = self@;
        let ghost l0 = str_list(self.testonly_targets@);
        match find_str(&self.testonly_targets, label) {
            None => {
                self.testonly_targets.push(owned(label));
                proof {
                    assert(str_list(self.testonly_targets@) =~= l0.push(label@));
                    lemma_contains_push(l0, label@);
                    assert(str_list(self.testonly_targets@).to_set() =~= l0.to_set().insert(label@));
                }
            },
            Some(i) => {
                proof {
                    assert(l0[i as int] == label@);
                    assert(v.testonly =~= v.testonly.insert(label@));
                }
            },
        }
        proof {
            assert(self@ =~= spec_mark_testonly(v, label@));
        }
    }

    /// Removes the test-only mark of a target.
    fn unmark_testonly(&mut self, label: &str)
        requires
            old(self).wf(),
        ensures
            final(self).wf(),
            final(self).edge_total() == old(self).edge_total(),
            final(self)@ == (GraphView { testonly: old(self)@.testonly.remove(label@), ..old(self)@ }),
    {
        let ghost v = self@;
        let ghost l0 = str_list(self.testonly_targets@);
        match find_str(&self.testonly_targets, label) {
            Some(i) => {
                self.testonly_targets.remove(i);
                proof {
                    assert(str_list(self.testonly_targets@) =~= l0.remove(i as int));
                    assert(l0[i as int] == label@);
                    lemma_contains_remove(l0, i as int);
                    assert(str_list(self.testonly_targets@).to_set() =~= l0.to_set().remove(label@));
                }
            },
            None => {
                proof {
                    assert(!v.testonly.contains(label@));
                    assert(v.testonly.remove(label@) =~= v.testonly);
                }
            },
        }
        proof {
            assert(self@ =~= (GraphView { testonly: v.testonly.remove(label@), ..v }));
        }
    }

    /// Records the rule kind of a target; an empty kind is ignored.
    pub fn set_target_kind(&mut self, label: &str, kind: &str)
        requires
            old(self).wf(),
        ensures
            final(self).wf(),
            final(self).edge_total() == old(self).edge_total(),
            final(self)@ == spec_set_kind(old(self)@, label@, kind@),
    {
        let ghost v = self@;
        if kind.unicode_len() == 0 {
            return;
        }
        let ghost l0 = str_pairs(self.target_kinds@);
        match find_key(&self.target_kinds, label) {
            Some(i) => {
                self.target_kinds[i] = (owned(label), owned(kind));
                proof {
                    lemma_assoc_update(l0, i as int, kind@);
                    assert(str_pairs(self.target_kinds@) =~= l0.update(i as int, (l0[i as int].0, kind@)));
                }
            },
            None => {
                self.target_kinds.push((owned(label), owned(kind)));
                proof {
                    lemma_assoc_push(l0, label@, kind@);
                    assert(str_pairs(self.target_kinds@) =~= l0.push((label@, kind@)));
                }
            },
        }
        proof {
            assert(self@ =~= spec_set_kind(v, label@, kind@));
        }
    }

    /// The rule kind recorded for a target; `Unknown` when none is.
    pub fn get_target_kind(&self, label: &str) -> (k: TargetKind)
        requires
            self.wf(),
        ensures
            k == spec_target_kind(self@, label@),
    {
        match find_key(&self.target_kinds, label) {
            Some(i) => {
                proof {
                    lemma_assoc_index(str_pairs(self.target_kinds@), i as int);
                }
                let k = self.target_kinds[i].1.as_str();
                if str_eq(k, "java_import") {
                    TargetKind::JavaImport
                } else if str_eq(k, "java_test") {
                    TargetKind::JavaTest
                } else if str_eq(k, "java_binary") {
                    TargetKind::JavaBinary
                } else if str_eq(k, "java_library") {
                    TargetKind::JavaLibrary
                } else {
                    TargetKind::Unknown
                }
            },
            None => {
                proof {
                    lemma_assoc_dom(str_pairs(self.target_kinds@), label@);
                }
                TargetKind::Unknown
            },
        }
    }

    /// Registers `apparent` as an alias of `canonical` (replacing an
    /// earlier alias).
    pub fn set_label_alias(&mut self, apparent: &str, canonical: &str)
        requires
            old(self).wf(),
        ensures
            final(self).wf(),
            final(self).edge_total() == old(self).edge_total(),
            final(self)@ == (GraphView { aliases: old(self)@.aliases.insert(apparent@, canonical@), ..old(self)@ }),
    {
        let ghost v = self@;
        let ghost l0 = str_pairs(self.label_aliases@);
        match find_key(&self.label_aliases, apparent) {
            Some(i) => {
                self.label_aliases[i] = (owned(apparent), owned(canonical));
                proof {
                    lemma_assoc_update(l0, i as int, canonical@);
                    assert(str_pairs(self.label_aliases@) =~= l0.update(i as int, (l0[i as int].0, canonical@)));
                }
            },
            None => {
                self.label_aliases.push((owned(apparent), owned(canonical)));
                proof {
                    lemma_assoc_push(l0, apparent@, canonical@);
                    assert(str_pairs(self.label_aliases@) =~= l0.push((apparent@, canonical@)));
                }
            },
        }
        proof {
            assert(self@ =~= (GraphView { aliases: v.aliases.insert(apparent@, canonical@), ..v }));
        }
    }

    /// The canonical label an apparent label is an alias of, if any.
    pub fn label_alias(&self, apparent: &str) -> (r: Option<String>)
        requires
            self.wf(),
        ensures
            match r {
                Some(c) => self@.aliases.dom().contains(apparent@) && self@.aliases[apparent@] == c@,
                None => !self@.aliases.dom().contains(apparent@),
            },
    {
        let ghost l0 = str_pairs(self.label_aliases@);
        proof {
            lemma_assoc_dom(l0, apparent@);
        }
        match find_key(&self.label_aliases, apparent) {
            Some(i) => {
                proof {
                    lemma_assoc_index(l0, i as int);
                }
                Some(self.label_aliases[i].1.clone())
            },
            None => {
                proof {
                    assert forall|i: int| 0 <= i < l0.len() implies l0[i].0 != apparent@ by {
                        assert(l0[i].0 == self.label_aliases@[i].0@);
                    }
                }
                None
            },
        }
    }

    /// Whether any apparent label is registered as an alias.
    pub fn has_label_aliases(&self) -> (b: bool)
        requires
            self.wf(),
        ensures
            b == (self@.aliases.dom().len() > 0),
    {
        let ghost l0 = str_pairs(self.label_aliases@);
        proof {
            lemma_assoc_finite(l0);
        }
        if self.label_aliases.len() == 0 {
            proof {
                assert(l0.len() == 0);
                assert(self@.aliases.dom() =~= Set::<Seq<char>>::empty());
            }
            false
        } else {
            proof {
                lemma_assoc_dom(l0, l0[0].0);
                assert(self@.aliases.dom().contains(l0[0].0));
                vstd::set::axiom_set_contains_len(self@.aliases.dom(), l0[0].0);
            }
            true
        }
    }

    /// Registers `apparent` as an alias of `canonical` unless it already has
    /// one.
    fn alias_or_insert(&mut self, apparent: &str, canonical: &str)
        requires
            old(self).wf(),
        ensures
            final(self).wf(),
            final(self).edge_total() == old(self).edge_total(),
            final(self)@ == spec_alias_or_insert(old(self)@, apparent@, canonical@),
    {
        match find_key(&self.label_aliases, apparent) {
            Some(i) => {
                proof {
                    lemma_assoc_index(str_pairs(self.label_aliases@), i as int);
                }
            },
            None => {
                proof {
                    lemma_assoc_dom(str_pairs(self.label_aliases@), apparent@);
                }
                self.set_label_alias(apparent, canonical);
            },
        }
    }

    /// All target labels, in node order.
    pub fn all_targets(&self) -> (r: Vec<String>)
        requires
            self.wf(),
        ensures
            str_list(r@) == self@.nodes,
    {
        let n = graph_node_count(&self.graph);
        let mut r: Vec<String> = Vec::new();
        let mut i: usize = 0;
        while i < n
            invariant
                n == self@.nodes.len(),
                i <= n,
                str_list(r@) == self@.nodes.subrange(0, i as int),
            decreases n - i,
        {
            let l = graph_node_label(&self.graph, i);
            let ghost r0 = r@;
            r.push(l);
            proof {
                assert(r@ == r0.push(l));
                assert(str_list(r0) == self@.nodes.subrange(0, i as int));
                assert(str_list(r0).len() == r0.len());
                assert(r0.len() == i);
                assert(r@.len() == i + 1);
                assert(str_list(r@).len() == i + 1);
                assert forall|j: int| 0 <= j < i + 1 implies str_list(r@)[j] == self@.nodes[j] by {
                    if j < i {
                        assert(str_list(r@)[j] == r@[j]@);
                        assert(r@[j] == r0[j]);
                        assert(str_list(r0)[j] == r0[j]@);
                    } else {
                        assert(str_list(r@)[j] == l@);
                    }
                }
                assert(str_list(r@) =~= self@.nodes.subrange(0, i + 1));
            }
            i = i + 1;
        }
        proof {
            assert(self@.nodes.subrange(0, n as int) =~= self@.nodes);
        }
        r
    }

    /// Empties the graph.
    pub fn clear(&mut self)
        ensures
            final(self).wf(),
            final(self)@ == empty_graph(),
            final(self).edge_total() == 0,
    {
        *self = DependencyGraph::new();
    }

    /// Labels of the targets in a package: those of the form
    /// `<package_label>:name`, in node order.
    pub fn targets_in_package(&self, package_label: &str) -> (r: Vec<String>)
        requires
            self.wf(),
        ensures
            str_list(r@) == with_prefix(self@.nodes, package_label@.push(':')),
    {
        let mut prefix = owned(package_label);
        crate::strutil::push_char(&mut prefix, ':');
        let n = graph_node_count(&self.graph);
        let mut r: Vec<String> = Vec::new();
        let mut i: usize = 0;
        while i < n
            invariant
                n == self@.nodes.len(),
                i <= n,
                prefix@ == package_label@.push(':'),
                str_list(r@) == with_prefix(self@.nodes.subrange(0, i as int), prefix@),
            decreases n - i,
        {
            let l = graph_node_label(&self.graph, i);
            proof {
                assert(self@.nodes.subrange(0, i + 1).drop_last() =~= self@.nodes.subrange(0, i as int));
            }
            if crate::strutil::str_starts_with(l.as_str(), prefix.as_str()) {
                r.push(l);
                proof {
                    assert(str_list(r@) =~= str_list(r@).drop_last().push(self@.nodes[i as int]));
                }
            }
            i = i + 1;
        }
        proof {
            assert(self@.nodes.subrange(0, n as int) =~= self@.nodes);
        }
        r
    }

    /// The labels of the given node indices.
    fn labels_at(&self, idx: &Vec<usize>) -> (r: Vec<String>)
        requires
            self.wf(),
            forall|k: int| 0 <= k < idx@.len() ==> idx@[k] < self@.nodes.len(),
        ensures
            str_list(r@) == labels_of(self@.nodes, idx_view(idx@)),
    {
        let mut r: Vec<String> = Vec::new();
        let mut k: usize = 0;
        while k < idx.len()
            invariant
                k <= idx@.len(),
                forall|j: int| 0 <= j < idx@.len() ==> idx@[j] < self@.nodes.len(),
                str_list(r@) == labels_of(self@.nodes, idx_view(idx@)).subrange(0, k as int),
            decreases idx@.len() - k,
        {
            let l = graph_node_label(&self.graph, idx[k]);
            let ghost r0 = r@;
            r.push(l);
            proof {
                lemma_str_list_push(r0, l);
            }
            proof {
                assert(str_list(r@) =~= labels_of(self@.nodes, idx_view(idx@)).subrange(0, k + 1));
            }
            k = k + 1;
        }
        proof {
            assert(labels_of(self@.nodes, idx_view(idx@)).subrange(0, idx@.len() as int) =~= labels_of(self@.nodes, idx_view(idx@)));
        }
        r
    }

    /// The targets that directly depend on a target, most recent edge first;
    /// empty for an unknown target.
    pub fn direct_dependers(&self, label: &str) -> (r: Vec<String>)
        requires
            self.wf(),
        ensures
            self@.nodes.contains(label@) ==> str_list(r@) == labels_of(
                self@.nodes,
                self@.inc[node_index(self@.nodes, label@)],
            ),
            !self@.nodes.contains(label@) ==> r@.len() == 0,
    {
        match self.find_node(label) {
            Some(i) => {
                let nb = graph_neighbors(&self.graph, i, true);
                proof {
                    assert(node_index(self@.nodes, label@) == i);
                    assert forall|k: int| 0 <= k < nb@.len() implies nb@[k] < self@.nodes.len() by {
                        assert(idx_view(nb@)[k] == self@.inc[i as int][k]);
                    }
                }
                self.labels_at(&nb)
            },
            None => Vec::new(),
        }
    }

    /// Breadth-first order of the nodes reachable from `s`, following
    /// outgoing edges, or incoming ones with `incoming`.
    fn bfs_order(&self, s: usize, incoming: bool) -> (order: Vec<usize>)
        requires
            self.wf(),
            s < self@.nodes.len(),
        ensures
            order@.len() >= 1,
            order@[0] == s,
            idx_view(order@).no_duplicates(),
            forall|k: int| 0 <= k < order@.len() ==> #[trigger] order@[k] < self@.nodes.len(),
            forall|j: int| 0 <= j < self@.nodes.len() ==> (idx_view(order@).contains(j) <==> reaches(adjacency(self@, incoming), s as int, j)),
            idx_view(order@) == bfs_from(adjacency(self@, incoming), s as int),
    {
        let ghost adj = adjacency(self@, incoming);
        let n = graph_node_count(&self.graph);
        let mut visited: Vec<bool> = Vec::new();
        let mut i: usize = 0;
        while i < n
            invariant
                i <= n,
                visited@.len() == i,
                forall|j: int| 0 <= j < i ==> !visited@[j],
            decreases n - i,
        {
            visited.push(false);
            i = i + 1;
        }
        let mut queue: Vec<usize> = Vec::new();
        queue.push(s);
        let mut head: usize = 0;
        let mut order: Vec<usize> = Vec::new();
        proof {
            lemma_reaches_refl(adj, s as int);
            assert(visited@ =~= Seq::new(adj.len(), |i: int| false));
            assert(idx_view(queue@) =~= seq![s as int]);
            assert(idx_view(order@) =~= Seq::<int>::empty());
        }
        while head < queue.len()
            invariant
                self.wf(),
                adj == adjacency(self@, incoming),
                adj.len() == n,
                n == self@.nodes.len(),
                s < n,
                visited@.len() == n,
                head <= queue@.len(),
                queue@.len() >= 1,
                forall|q: int| 0 <= q < queue@.len() ==> #[trigger] queue@[q] < n,
                forall|q: int| 0 <= q < queue@.len() ==> reaches(adj, s as int, #[trigger] queue@[q] as int),
                forall|j: int| 0 <= j < n && #[trigger] visited@[j] ==> reaches(adj, s as int, j),
                head == 0 ==> queue@[0] == s,
                head > 0 ==> visited@[s as int],
                forall|u: int, w: int| 0 <= u < n && #[trigger] visited@[u] && #[trigger] adj[u].contains(w) ==> visited@[w] || exists|q: int| head <= q < queue@.len() && queue@[q] == w,
                forall|j: int| 0 <= j < n ==> (#[trigger] visited@[j] <==> idx_view(order@).contains(j)),
                idx_view(order@).no_duplicates(),
                forall|k: int| 0 <= k < order@.len() ==> #[trigger] order@[k] < n,
                head > 0 ==> order@.len() >= 1 && order@[0] == s,
                head == 0 ==> order@.len() == 0,
                bfs_walk(adj, idx_view(queue@), head as int, visited@, idx_view(order@)) == bfs_from(adj, s as int),
            decreases count_false(visited@), queue@.len() - head,
        {
            let node = queue[head];
            let ghost q_in = idx_view(queue@);
            let ghost h_in = head as int;
            assert(q_in[h_in] == node as int);
            head = head + 1;
            if visited[node] {
                proof {
                    assert forall|u: int, w: int| 0 <= u < n && #[trigger] visited@[u] && #[trigger] adj[u].contains(w) implies visited@[w] || exists|q: int| head <= q < queue@.len() && queue@[q] == w by {
                        if !visited@[w] {
                            let q = choose|q: int| head - 1 <= q < queue@.len() && queue@[q] == w;
                            assert(q != head - 1);
                        }
                    }
                }
                continue;
            }
            let ghost vis0 = visited@;
            let ghost ord0 = order@;
            let ghost head0 = head;
            visited.set(node, true);
            order.push(node);
            proof {
                assert(bfs_walk(adj, q_in, h_in, vis0, idx_view(ord0)) == bfs_walk(
                    adj,
                    q_in + unmarked(adj[node as int], visited@),
                    h_in + 1,
                    visited@,
                    idx_view(ord0).push(node as int),
                ));
            }
            proof {
                lemma_count_false_mark(vis0, node as int);
                assert(idx_view(order@) == idx_view(ord0).push(node as int)) by {
                    assert(idx_view(order@) =~= idx_view(ord0).push(node as int));
                }
                assert(!idx_view(ord0).contains(node as int));
                assert forall|a: int, b: int| 0 <= a < b < idx_view(order@).len() implies idx_view(order@)[a] != idx_view(order@)[b] by {
                    if b == ord0.len() {
                        assert(idx_view(order@)[a] == idx_view(ord0)[a]);
                    }
                }
                assert forall|j: int| 0 <= j < n implies (#[trigger] visited@[j] <==> idx_view(order@).contains(j)) by {
                    if j != node {
                        assert(visited@[j] == vis0[j]);
                        if idx_view(order@).contains(j) {
                            let k = choose|k: int| 0 <= k < idx_view(order@).len() && idx_view(order@)[k] == j;
                            assert(idx_view(ord0)[k] == j);
                        }
                        if idx_view(ord0).contains(j) {
                            let k = choose|k: int| 0 <= k < idx_view(ord0).len() && idx_view(ord0)[k] == j;
                            assert(idx_view(order@)[k] == j);
                        }
                    } else {
                        assert(idx_view(order@)[ord0.len() as int] == j);
                    }
                }
                if head0 == 1 {
                    assert(node == s);
                }
            }
            let nbrs = graph_neighbors(&self.graph, node, incoming);
            let mut j: usize = 0;
            while j < nbrs.len()
                invariant
                    self.wf(),
                    adj == adjacency(self@, incoming),
                    adj.len() == n,
                    n == self@.nodes.len(),
                    s < n,
                    node < n,
                    idx_view(nbrs@) == adj[node as int],
                    j <= nbrs@.len(),
                    visited@.len() == n,
                    visited@[node as int],
                    head <= queue@.len(),
                    head >= 1,
                    queue@.len() >= 1,
                    count_false(visited@) < count_false(vis0),
                    forall|q: int| 0 <= q < queue@.len() ==> #[trigger] queue@[q] < n,
                    forall|q: int| 0 <= q < queue@.len() ==> reaches(adj, s as int, #[trigger] queue@[q] as int),
                    forall|x: int| 0 <= x < n && #[trigger] visited@[x] ==> reaches(adj, s as int, x),
                    visited@[s as int],
                    forall|u: int, w: int| 0 <= u < n && u != node && #[trigger] visited@[u] && #[trigger] adj[u].contains(w) ==> visited@[w] || exists|q: int| head <= q < queue@.len() && queue@[q] == w,
                    forall|k: int| 0 <= k < j ==> visited@[#[trigger] nbrs@[k] as int] || exists|q: int| head <= q < queue@.len() && queue@[q] == nbrs@[k],
                    forall|x: int| 0 <= x < n ==> (#[trigger] visited@[x] <==> idx_view(order@).contains(x)),
                    idx_view(order@).no_duplicates(),
                    forall|k: int| 0 <= k < order@.len() ==> #[trigger] order@[k] < n,
                    order@.len() >= 1 && order@[0] == s,
                    idx_view(queue@) == q_in + unmarked(adj[node as int].take(j as int), visited@),
                    head as int == h_in + 1,
                    bfs_walk(adj, q_in + unmarked(adj[node as int], visited@), head as int, visited@, idx_view(order@)) == bfs_from(adj, s as int),
                decreases nbrs@.len() - j,
            {
                let w = nbrs[j];
                proof {
                    lemma_unmarked_take(adj[node as int], visited@, j as int);
                }
                proof {
                    assert(idx_view(nbrs@)[j as int] == adj[node as int][j as int]);
                    assert(adj[node as int].contains(w as int));
                    assert(adj_ok(adj));
                    assert(0 <= adj[node as int][j as int] < adj.len());
                }
                if !visited[w] {
                    let ghost q0 = queue@;
                    queue.push(w);
                    proof {
                        assert(idx_view(queue@) =~= idx_view(q0).push(w as int));
                        lemma_reaches_step(adj, s as int, node as int, w as int);
                        assert(queue@[q0.len() as int] == w);
                        assert forall|q: int| 0 <= q < queue@.len() implies reaches(adj, s as int, #[trigger] queue@[q] as int) by {
                            if q < q0.len() {
                                assert(queue@[q] == q0[q]);
                            }
                        }
                        assert forall|u: int, x: int| 0 <= u < n && u != node && #[trigger] visited@[u] && #[trigger] adj[u].contains(x) implies visited@[x] || exists|q: int| head <= q < queue@.len() && queue@[q] == x by {
                            if !visited@[x] {
                                let q = choose|q: int| head <= q < q0.len() && q0[q] == x;
                                assert(queue@[q] == x);
                            }
                        }
                        assert forall|k: int| 0 <= k < j + 1 implies visited@[#[trigger] nbrs@[k] as int] || exists|q: int| head <= q < queue@.len() && queue@[q] == nbrs@[k] by {
                            if k < j && !visited@[nbrs@[k] as int] {
                                let q = choose|q: int| head <= q < q0.len() && q0[q] == nbrs@[k];
                                assert(queue@[q] == nbrs@[k]);
                            }
                            if k == j {
                                assert(queue@[q0.len() as int] == nbrs@[k]);
                            }
                        }
                    }
                }
                j = j + 1;
            }
            proof {
                assert(idx_view(nbrs@).len() == nbrs@.len());
                assert(adj[node as int].take(nbrs@.len() as int) =~= adj[node as int]);
                assert forall|u: int, w: int| 0 <= u < n && #[trigger] visited@[u] && #[trigger] adj[u].contains(w) implies visited@[w] || exists|q: int| head <= q < queue@.len() && queue@[q] == w by {
                    if u == node {
                        let k = choose|k: int| 0 <= k < adj[u].len() && adj[u][k] == w;
                        assert(idx_view(nbrs@)[k] == w);
                        assert(nbrs@[k] as int == w);
                    }
                }
            }
        }
        proof {
            assert(closed(adj, visited@));
            assert forall|j: int| 0 <= j < n implies (idx_view(order@).contains(j) <==> reaches(adj, s as int, j)) by {
                assert(visited@[j] <==> idx_view(order@).contains(j));
                if reaches(adj, s as int, j) {
                    lemma_closed_reaches(adj, visited@, s as int, j);
                }
            }
            assert(idx_view(order@)[0] == s);
            assert(bfs_walk(adj, idx_view(queue@), head as int, visited@, idx_view(order@)) == idx_view(order@));
        }
        order
    }

    /// All transitive dependencies of a target, in breadth-first order.
    /// Fails for an unknown target and for a target that lies on a
    /// dependency cycle.
    pub fn transitive_deps(&self, label: &str) -> (r: Result<Vec<String>, GraphError>)
        requires
            self.wf(),
        ensures
            match r {
                Err(e) => deps_error(self@, label@, e),
                Ok(deps) => is_dep_list(self@, label@, str_list(deps@)),
            },
    {
        let s = match self.find_node(label) {
            Some(s) => s,
            None => {
                return Err(GraphError::TargetNotFound { label: owned(label) });
            },
        };
        proof {
            assert(node_index(self@.nodes, label@) == s);
        }
        let order = self.bfs_order(s, false);
        proof {
            assert forall|m: int| 0 <= m < order@.len() implies reaches(self@.out, s as int, #[trigger] order@[m] as int) by {
                assert(idx_view(order@)[m] == order@[m] as int);
                assert(idx_view(order@).contains(order@[m] as int));
            }
        }
        let mut k: usize = 0;
        while k < order.len()
            invariant
                self.wf(),
                s < self@.nodes.len(),
                k <= order@.len(),
                forall|m: int| 0 <= m < order@.len() ==> #[trigger] order@[m] < self@.nodes.len(),
                forall|m: int| 0 <= m < k ==> !self@.out[#[trigger] order@[m] as int].contains(s as int),
                forall|m: int| 0 <= m < order@.len() ==> reaches(self@.out, s as int, #[trigger] order@[m] as int),
                self@.nodes[s as int] == label@,
                node_index(self@.nodes, label@) == s,
            decreases order@.len() - k,
        {
            if graph_contains_edge(&self.graph, order[k], s) {
                proof {
                    let u = order@[k as int] as int;
                    assert(idx_view(order@)[k as int] == u);
                    assert(idx_view(order@).contains(u));
                    assert(order@[k as int] < self@.nodes.len());
                    assert(0 <= u < self@.nodes.len());
                    assert(adjacency(self@, false) == self@.out);
                    assert(reaches(self@.out, s as int, u));
                    assert(self@.out[u].contains(s as int));
                    assert(on_cycle(self@.out, s as int));
                }
                return Err(GraphError::CircularDependency { path: crate::strutil::concat3(label, " -> ", label) });
            }
            k = k + 1;
        }
        proof {
            assert forall|u: int| 0 <= u < self@.out.len() && #[trigger] reaches(self@.out, s as int, u) implies !self@.out[u].contains(s as int) by {
                assert(idx_view(order@).contains(u));
                let m = choose|m: int| 0 <= m < idx_view(order@).len() && idx_view(order@)[m] == u;
                assert(order@[m] as int == u);
            }
        }
        let mut deps: Vec<String> = Vec::new();
        let mut k: usize = 1;
        while k < order.len()
            invariant
                self.wf(),
                s < self@.nodes.len(),
                1 <= k <= order@.len(),
                order@[0] == s,
                idx_view(order@).no_duplicates(),
                forall|m: int| 0 <= m < order@.len() ==> #[trigger] order@[m] < self@.nodes.len(),
                str_list(deps@) == labels_of(self@.nodes, idx_view(order@).subrange(1, k as int)),
            decreases order@.len() - k,
        {
            let l = graph_node_label(&self.graph, order[k]);
            let ghost d0 = deps@;
            deps.push(l);
            proof {
                lemma_str_list_push(d0, l);
                assert(labels_of(self@.nodes, idx_view(order@).subrange(1, k + 1)) =~= labels_of(self@.nodes, idx_view(order@).subrange(1, k as int)).push(self@.nodes[order@[k as int] as int]));
            }
            k = k + 1;
        }
        proof {
            let v = self@;
            let tail = idx_view(order@).subrange(1, order@.len() as int);
            assert(str_list(deps@) == labels_of(v.nodes, tail));
            assert(tail =~= bfs_from(v.out, s as int).drop_first());
            assert forall|a: int, b: int| 0 <= a < b < str_list(deps@).len() implies str_list(deps@)[a] != str_list(deps@)[b] by {
                assert(str_list(deps@)[a] == v.nodes[tail[a]]);
                assert(str_list(deps@)[b] == v.nodes[tail[b]]);
                assert(tail[a] == idx_view(order@)[a + 1]);
                assert(tail[b] == idx_view(order@)[b + 1]);
                assert(tail[a] != tail[b]);
                assert(order@[a + 1] < v.nodes.len() && order@[b + 1] < v.nodes.len());
            }
            assert forall|x: Seq<char>| str_list(deps@).contains(x) <==> reached_label(v, v.out, s as int, x) by {
                if str_list(deps@).contains(x) {
                    let a = choose|a: int| 0 <= a < str_list(deps@).len() && str_list(deps@)[a] == x;
                    let j = tail[a];
                    assert(j == idx_view(order@)[a + 1]);
                    assert(order@[a + 1] < v.nodes.len());
                    assert(idx_view(order@).contains(j));
                    assert(j != s) by {
                        assert(idx_view(order@)[0] == s);
                    }
                    assert(reaches(v.out, s as int, j));
                    assert(v.nodes[j] == x);
                }
                if reached_label(v, v.out, s as int, x) {
                    let j = choose|j: int| 0 <= j < v.nodes.len() && j != s && #[trigger] reaches(v.out, s as int, j) && v.nodes[j] == x;
                    assert(idx_view(order@).contains(j));
                    let m = choose|m: int| 0 <= m < idx_view(order@).len() && idx_view(order@)[m] == j;
                    assert(m != 0);
                    assert(tail[m - 1] == j);
                    assert(str_list(deps@)[m - 1] == x);
                }
            }
        }
        Ok(deps)
    }

    /// All targets that transitively depend on a target, following edges
    /// backwards, without the target itself and without external labels
    /// (those starting with `'@'`, Bazel-internal ones included), each once,
    /// in breadth-first order.  Empty for an unknown target.
    pub fn reverse_transitive_deps(&self, label: &str) -> (r: Vec<String>)
        requires
            self.wf(),
        ensures
            !self@.nodes.contains(label@) ==> r@.len() == 0,
            self@.nodes.contains(label@) ==> {
                &&& str_list(r@) == workspace_labels(
                    labels_of(self@.nodes, bfs_from(self@.inc, node_index(self@.nodes, label@)).drop_first()),
                )
                &&& str_list(r@).no_duplicates()
                &&& forall|x: Seq<char>| #[trigger] str_list(r@).contains(x) <==> reached_label(self@, self@.inc, node_index(self@.nodes, label@), x) && !crate::strutil::seq_starts_with(x, seq!['@'])
            },
    {
        let s = match self.find_node(label) {
            Some(s) => s,
            None => {
                return Vec::new();
            },
        };
        proof {
            assert(node_index(self@.nodes, label@) == s);
        }
        let order = self.bfs_order(s, true);
        let mut tail: Vec<usize> = Vec::new();
        let mut k: usize = 1;
        while k < order.len()
            invariant
                1 <= k <= order@.len(),
                tail@ == order@.subrange(1, k as int),
            decreases order@.len() - k,
        {
            tail.push(order[k]);
            proof {
                assert(tail@ =~= order@.subrange(1, k + 1));
            }
            k = k + 1;
        }
        proof {
            assert forall|m: int| 0 <= m < tail@.len() implies tail@[m] < self@.nodes.len() by {
                assert(tail@[m] == order@[m + 1]);
            }
        }
        let labels = self.labels_at(&tail);
        let mut r: Vec<String> = Vec::new();
        let mut k: usize = 0;
        let ghost all = str_list(labels@);
        while k < labels.len()
            invariant
                k <= labels@.len(),
                all == str_list(labels@),
                str_list(r@) == workspace_labels(all.subrange(0, k as int)),
            decreases labels@.len() - k,
        {
            let l = labels[k].clone();
            let ghost sub1 = all.subrange(0, k + 1);
            proof {
                assert(sub1.drop_last() =~= all.subrange(0, k as int));
                assert(all[k as int] == l@);
                assert(sub1.last() == l@);
                reveal_strlit("@");
                assert("@"@ =~= seq!['@']);
            }
            if !crate::strutil::str_starts_with(l.as_str(), "@") {
                let ghost r0 = r@;
                r.push(l);
                proof {
                    lemma_str_list_push(r0, l);
                    assert(workspace_labels(sub1) == workspace_labels(all.subrange(0, k as int)).push(l@));
                }
            } else {
                proof {
                    assert(workspace_labels(sub1) == workspace_labels(all.subrange(0, k as int)));
                }
            }
            k = k + 1;
        }
        proof {
            let v = self@;
            assert(all.subrange(0, all.len() as int) =~= all);
            let t = idx_view(tail@);
            assert(all == labels_of(v.nodes, t));
            assert(t =~= bfs_from(v.inc, s as int).drop_first());
            assert forall|a: int, b: int| 0 <= a < b < all.len() implies all[a] != all[b] by {
                assert(t[a] == idx_view(order@)[a + 1]);
                assert(t[b] == idx_view(order@)[b + 1]);
                assert(order@[a + 1] < v.nodes.len() && order@[b + 1] < v.nodes.len());
            }
            lemma_workspace_labels(all);
            assert forall|x: Seq<char>| all.contains(x) <==> reached_label(v, v.inc, s as int, x) by {
                if all.contains(x) {
                    let a = choose|a: int| 0 <= a < all.len() && all[a] == x;
                    let j = t[a];
                    assert(j == idx_view(order@)[a + 1]);
                    assert(order@[a + 1] < v.nodes.len());
                    assert(idx_view(order@).contains(j));
                    assert(j != s) by {
                        assert(idx_view(order@)[0] == s);
                    }
                    assert(reaches(v.inc, s as int, j));
                }
                if reached_label(v, v.inc, s as int, x) {
                    let j = choose|j: int| 0 <= j < v.nodes.len() && j != s && #[trigger] reaches(v.inc, s as int, j) && v.nodes[j] == x;
                    assert(idx_view(order@).contains(j));
                    let m = choose|m: int| 0 <= m < idx_view(order@).len() && idx_view(order@)[m] == j;
                    assert(m != 0);
                    assert(t[m - 1] == j);
                    assert(all[m - 1] == x);
                }
            }
        }
        r
    }

    /// Deduplicated package paths (such as `utils`) of the
    /// workspace-internal transitive dependencies of a target.
    pub fn transitive_dependency_packages(&self, target_label: &str) -> (r: Result<Vec<String>, GraphError>)
        requires
            self.wf(),
        ensures
            match r {
                Err(e) => deps_error(self@, target_label@, e),
                Ok(p) => exists|d: Seq<Seq<char>>| is_dep_list(self@, target_label@, d) && str_list(p@) == spec_dep_packages(d),
            },
    {
        let deps = match self.transitive_deps(target_label) {
            Ok(d) => d,
            Err(e) => {
                return Err(e);
            },
        };
        let p = dependency_packages(&deps);
        Ok(p)
    }

    /// Workspace-internal transitive dependencies of several targets,
    /// grouped by package, each rendered as `package|//pkg:a,//pkg:b`.
    /// Fails with the error of the first target whose dependencies cannot
    /// be listed.
    pub fn transitive_dependency_targets(&self, target_labels: &[&str]) -> (r: Result<Vec<String>, GraphError>)
        requires
            self.wf(),
        ensures
            match r {
                Err(e) => exists|i: int| {
                    &&& 0 <= i < target_labels@.len()
                    &&& deps_error(self@, target_labels@[i]@, e)
                    &&& forall|j: int| 0 <= j < i ==> deps_listable(self@, #[trigger] target_labels@[j]@)
                },
                Ok(out) => exists|ds: Seq<Seq<Seq<char>>>| {
                    &&& ds.len() == target_labels@.len()
                    &&& forall|i: int| 0 <= i < ds.len() ==> is_dep_list(self@, target_labels@[i]@, #[trigger] ds[i])
                    &&& str_list(out@) == group_all(ds).map_values(|g: (Seq<char>, Seq<Seq<char>>)| render_group(g))
                },
            },
    {
        let mut keys: Vec<String> = Vec::new();
        let mut members: Vec<Vec<String>> = Vec::new();
        let ghost mut ds: Seq<Seq<Seq<char>>> = Seq::empty();
        let mut i: usize = 0;
        while i < target_labels.len()
            invariant
                self.wf(),
                i <= target_labels@.len(),
                ds.len() == i,
                forall|j: int| 0 <= j < i ==> is_dep_list(self@, target_labels@[j]@, #[trigger] ds[j]),
                keys@.len() == members@.len(),
                group_view(keys@, members@) == group_all(ds),
                keys_unique(group_view(keys@, members@)),
            decreases target_labels@.len() - i,
        {
            let deps = match self.transitive_deps(target_labels[i]) {
                Ok(d) => d,
                Err(e) => {
                    proof {
                        assert forall|j: int| 0 <= j < i implies deps_listable(self@, #[trigger] target_labels@[j]@) by {
                            assert(is_dep_list(self@, target_labels@[j]@, ds[j]));
                        }
                    }
                    return Err(e);
                },
            };
            let ghost g0 = group_view(keys@, members@);
            add_to_groups(&mut keys, &mut members, &deps);
            proof {
                let ds2 = ds.push(str_list(deps@));
                assert(ds2.drop_last() =~= ds);
                assert(group_all(ds2) == group_deps(group_all(ds), str_list(deps@)));
                ds = ds2;
            }
            i = i + 1;
        }
        let mut out: Vec<String> = Vec::new();
        let mut k: usize = 0;
        while k < keys.len()
            invariant
                keys@.len() == members@.len(),
                k <= keys@.len(),
                str_list(out@) == group_view(keys@, members@).subrange(0, k as int).map_values(|g: (Seq<char>, Seq<Seq<char>>)| render_group(g)),
            decreases keys@.len() - k,
        {
            let mut line = keys[k].clone();
            crate::strutil::push_char(&mut line, '|');
            let joined = join_strings(&members[k], ',');
            let ghost o0 = out@;
            line.append(joined.as_str());
            out.push(line);
            proof {
                lemma_str_list_push(o0, line);
                assert(group_view(keys@, members@)[k as int] == (keys@[k as int]@, str_list(members@[k as int]@)));
                assert(line@ =~= render_group(group_view(keys@, members@)[k as int]));
                assert(group_view(keys@, members@).subrange(0, k + 1).map_values(|g: (Seq<char>, Seq<Seq<char>>)| render_group(g)) =~= group_view(keys@, members@).subrange(0, k as int).map_values(|g: (Seq<char>, Seq<Seq<char>>)| render_group(g)).push(render_group(group_view(keys@, members@)[k as int])));
            }
            k = k + 1;
        }
        proof {
            assert(group_view(keys@, members@).subrange(0, keys@.len() as int) =~= group_view(keys@, members@));
        }
        Ok(out)
    }

    /// Removes the JARs recorded for a label.
    fn remove_jars(&mut self, label: &str)
        requires
            old(self).wf(),
        ensures
            final(self).wf(),
            final(self).edge_total() == old(self).edge_total(),
            final(self)@ == (GraphView { jars: old(self)@.jars.remove(label@), ..old(self)@ }),
    {
        let ghost v = self@;
        let ghost l0 = jar_pairs(self.target_jars@);
        match find_key(&self.target_jars, label) {
            Some(i) => {
                let _ = self.target_jars.remove(i);
                proof {
                    lemma_assoc_remove(l0, i as int);
                    assert(jar_pairs(self.target_jars@) =~= l0.remove(i as int));
                }
            },
            None => {
                proof {
                    lemma_assoc_dom(l0, label@);
                    assert(v.jars.remove(label@) =~= v.jars);
                }
            },
        }
        proof {
            assert(self@ =~= (GraphView { jars: v.jars.remove(label@), ..v }));
        }
    }

    /// Removes a target: its node with all its edges, its JARs and its
    /// test-only mark.
    fn remove_target(&mut self, label: &str)
        requires
            old(self).wf(),
        ensures
            final(self).wf(),
            final(self).edge_total() <= old(self).edge_total(),
            final(self)@ == spec_remove_target(old(self)@, label@),
    {
        let ghost v = self@;
        match self.find_node(label) {
            Some(i) => {
                proof {
                    assert(node_index(v.nodes, label@) == i);
                    lemma_remove_node_wf(v, i as int);
                }
                graph_remove_node(&mut self.graph, i);
                proof {
                    assert(self@ =~= spec_remove_node(v, i as int));
                }
            },
            None => {},
        }
        self.remove_jars(label);
        self.unmark_testonly(label);
        proof {
            assert(self@ =~= spec_remove_target(v, label@));
        }
    }

    /// Removes every edge leaving node `i`.
    fn clear_out_edges(&mut self, i: usize)
        requires
            old(self).wf(),
            i < old(self)@.nodes.len(),
        ensures
            final(self).wf(),
            final(self).edge_total() <= old(self).edge_total(),
            final(self)@ == spec_clear_out(old(self)@, i as int),
    {
        let ghost v = self@;
        let ghost targets = v.out[i as int];
        let ghost mut m: int = 0;
        loop
            invariant
                self.wf(),
                self.edge_total() <= graph_edge_ends(old(self).graph).len(),
                0 <= m <= targets.len(),
                v == old(self)@,
                graph_wf(v),
                targets == v.out[i as int],
                i < v.nodes.len(),
                self@.nodes == v.nodes,
                self@.jars == v.jars,
                self@.testonly == v.testonly,
                self@.aliases == v.aliases,
                self@.kinds == v.kinds,
                self@.out.len() == v.out.len(),
                self@.inc.len() == v.inc.len(),
                forall|k: int| 0 <= k < v.out.len() && k != i ==> #[trigger] self@.out[k] == v.out[k],
                self@.out[i as int] == targets.subrange(m, targets.len() as int),
                forall|b: int| 0 <= b < v.inc.len() ==> #[trigger] self@.inc[b] == if targets.subrange(0, m).contains(b) {
                    drop_value(v.inc[b], i as int)
                } else {
                    v.inc[b]
                },
            ensures
                self.wf(),
                self.edge_total() <= graph_edge_ends(old(self).graph).len(),
                self@ == spec_clear_out(v, i as int),
            decreases targets.len() - m,
        {
            let e = graph_first_out_edge(&self.graph, i);
            match e {
                None => {
                    proof {
                        assert(m == targets.len());
                        assert(targets.subrange(0, m) =~= targets);
                        assert forall|b: int| 0 <= b < v.inc.len() implies #[trigger] self@.inc[b] == drop_value(v.inc[b], i as int) by {
                            if !targets.contains(b) {
                                assert(!v.inc[b].contains(i as int));
                                lemma_drop_value(v.inc[b], i as int);
                            }
                        }
                        assert(self@.out[i as int] =~= Seq::<int>::empty());
                        assert(self@.out =~= v.out.update(i as int, Seq::empty()));
                        assert(self@.inc =~= Seq::new(v.inc.len(), |b: int| drop_value(v.inc[b], i as int)));
                        assert(self@ =~= spec_clear_out(v, i as int));
                    }
                    break;
                },
                Some(e) => {
                    let ghost w = self@;
                    let ghost t = w.out[i as int][0];
                    proof {
                        assert(w.out[i as int].no_duplicates());
                        assert(t == targets[m]);
                        assert(0 <= t < w.nodes.len());
                        assert(w.inc[t].no_duplicates());
                        lemma_remove_edge_wf(w, i as int, t);
                        lemma_drop_head(w.out[i as int]);
                    }
                    graph_remove_edge(&mut self.graph, e);
                    proof {
                        assert(self@ =~= spec_remove_edge(w, i as int, t));
                        assert(targets.no_duplicates());
                        assert forall|b: int| 0 <= b < v.inc.len() implies #[trigger] self@.inc[b] == if targets.subrange(0, m + 1).contains(b) {
                            drop_value(v.inc[b], i as int)
                        } else {
                            v.inc[b]
                        } by {
                            assert(targets.subrange(0, m + 1) =~= targets.subrange(0, m).push(t));
                            lemma_contains_push(targets.subrange(0, m), t);
                            if b == t {
                                assert(!targets.subrange(0, m).contains(t)) by {
                                    if targets.subrange(0, m).contains(t) {
                                        let q = choose|q: int| 0 <= q < m && targets.subrange(0, m)[q] == t;
                                        assert(targets[q] == targets[m]);
                                    }
                                }
                            }
                        }
                        assert(self@.out[i as int] =~= targets.subrange(m + 1, targets.len() as int));
                        m = m + 1;
                    }
                },
            }
        }
    }

    /// Adds `from -> dep` for each listed dependency, resolved in package
    /// `pkg`.
    fn add_deps_of(&mut self, from: &str, deps: &Vec<String>, pkg: &str)
        requires
            old(self).wf(),
            st_deps((old(self)@, true), from@, strs_view(*deps), pkg@).1,
            old(self).edge_total() + deps@.len() < u32::MAX,
        ensures
            final(self).wf(),
            final(self)@ == st_deps((old(self)@, true), from@, strs_view(*deps), pkg@).0,
            final(self).edge_total() <= old(self).edge_total() + deps@.len(),
    {
        let ghost v = self@;
        let ghost ds = strs_view(*deps);
        let mut k: usize = 0;
        while k < deps.len()
            invariant
                self.wf(),
                v == old(self)@,
                ds == strs_view(*deps),
                k <= deps@.len(),
                st_deps((v, true), from@, ds, pkg@).1,
                self@ == st_deps((v, true), from@, ds.subrange(0, k as int), pkg@).0,
                st_deps((v, true), from@, ds.subrange(0, k as int), pkg@).1,
                self.edge_total() <= old(self).edge_total() + k,
                old(self).edge_total() + deps@.len() < u32::MAX,
            decreases deps@.len() - k,
        {
            let d = crate::labels::normalize_dep_label(deps[k].as_str(), pkg);
            proof {
                let sub1 = ds.subrange(0, k + 1);
                assert(sub1.drop_last() =~= ds.subrange(0, k as int));
                assert(sub1.last() == deps@[k as int]@);
                lemma_st_deps_prefix((v, true), from@, ds, pkg@, k + 1);
            }
            self.add_dep(from, d.as_str());
            k = k + 1;
        }
        proof {
            assert(ds.subrange(0, deps@.len() as int) =~= ds);
        }
    }

    /// Adds one rule of a BUILD file in package `pkg`: its target, its
    /// test-only mark and its dependency edges.
    fn add_parsed_rule(&mut self, rule: &JavaRule, pkg: &str)
        requires
            old(self).wf(),
            st_parsed_rule((old(self)@, true), pkg@, rule@).1,
            old(self).edge_total() + rule_dep_count(rule@) < u32::MAX,
        ensures
            final(self).wf(),
            final(self)@ == st_parsed_rule((old(self)@, true), pkg@, rule@).0,
            final(self).edge_total() <= old(self).edge_total() + rule_dep_count(rule@),
    {
        let ghost v = self@;
        let mut label = owned(pkg);
        crate::strutil::push_char(&mut label, ':');
        label.append(rule.name.as_str());
        let ghost l = rule_label(pkg@, rule.name@);
        proof {
            assert(label@ =~= l);
        }
        let ghost s1 = st_target((v, true), l);
        let ghost s2 = if rule.test_only { (spec_mark_testonly(s1.0, l), s1.1) } else { s1 };
        proof {
            lemma_st_deps_flag(s2, l, rule@.deps, pkg@);
            let s3 = st_deps(s2, l, rule@.deps, pkg@);
            lemma_st_deps_flag(s3, l, rule@.runtime_deps, pkg@);
            let s4 = st_deps(s3, l, rule@.runtime_deps, pkg@);
            lemma_st_deps_flag(s4, l, rule@.exports, pkg@);
        }
        self.add_target(label.as_str());
        if rule.test_only {
            self.mark_testonly(label.as_str());
        }
        proof {
            assert(self@ == s2.0);
            assert(s2.1);
        }
        self.add_deps_of(label.as_str(), &rule.deps, pkg);
        proof {
            lemma_st_deps_flag(s2, l, rule@.deps, pkg@);
        }
        self.add_deps_of(label.as_str(), &rule.runtime_deps, pkg);
        self.add_deps_of(label.as_str(), &rule.exports, pkg);
    }

    /// Populates the graph from a parsed BUILD file: a target per rule
    /// (labelled in the file's package), its test-only mark and its
    /// dependency edges.
    pub fn populate_from_parsed(&mut self, file: &ParsedBuildFile, workspace_root: &str)
        requires
            old(self).wf(),
            st_parsed_rules((old(self)@, true), spec_build_path_package(file.path@, workspace_root@), rules_view(file.rules@)).1,
            old(self).edge_total() + rules_dep_count(rules_view(file.rules@)) < u32::MAX,
        ensures
            final(self).wf(),
            final(self)@ == st_parsed_rules((old(self)@, true), spec_build_path_package(file.path@, workspace_root@), rules_view(file.rules@)).0,
            final(self).edge_total() <= old(self).edge_total() + rules_dep_count(rules_view(file.rules@)),
    {
        let pkg = compute_package_label_from_build_path(file.path.as_str(), workspace_root);
        let ghost v = self@;
        let ghost rs = rules_view(file.rules@);
        let mut k: usize = 0;
        while k < file.rules.len()
            invariant
                self.wf(),
                v == old(self)@,
                rs == rules_view(file.rules@),
                pkg@ == spec_build_path_package(file.path@, workspace_root@),
                k <= file.rules@.len(),
                st_parsed_rules((v, true), pkg@, rs).1,
                self@ == st_parsed_rules((v, true), pkg@, rs.subrange(0, k as int)).0,
                st_parsed_rules((v, true), pkg@, rs.subrange(0, k as int)).1,
                self.edge_total() <= old(self).edge_total() + rules_dep_count(rs.subrange(0, k as int)),
                old(self).edge_total() + rules_dep_count(rs) < u32::MAX,
            decreases file.rules@.len() - k,
        {
            proof {
                let sub1 = rs.subrange(0, k + 1);
                assert(sub1.drop_last() =~= rs.subrange(0, k as int));
                assert(sub1.last() == file.rules@[k as int]@);
                lemma_st_rules_prefix((v, true), pkg@, rs, k + 1);
                lemma_st_rule_flag(st_parsed_rules((v, true), pkg@, rs.subrange(0, k as int)), pkg@, file.rules@[k as int]@);
                lemma_rules_dep_count_prefix(rs, k + 1);
            }
            self.add_parsed_rule(&file.rules[k], pkg.as_str());
            k = k + 1;
        }
        proof {
            assert(rs.subrange(0, file.rules@.len() as int) =~= rs);
        }
    }

    /// Populates the graph from several parsed BUILD files, in order.
    pub fn populate_from_parsed_batch(&mut self, files: &Vec<ParsedBuildFile>, workspace_root: &str)
        requires
            old(self).wf(),
            st_parsed_files((old(self)@, true), files@.map_values(|f: ParsedBuildFile| parsed_view(f)), workspace_root@).1,
            old(self).edge_total() + files_dep_count(files@.map_values(|f: ParsedBuildFile| parsed_view(f))) < u32::MAX,
        ensures
            final(self).wf(),
            final(self)@ == st_parsed_files((old(self)@, true), files@.map_values(|f: ParsedBuildFile| parsed_view(f)), workspace_root@).0,
    {
        let ghost v = self@;
        let ghost fs = files@.map_values(|f: ParsedBuildFile| parsed_view(f));
        let mut k: usize = 0;
        while k < files.len()
            invariant
                self.wf(),
                v == old(self)@,
                fs == files@.map_values(|f: ParsedBuildFile| parsed_view(f)),
                k <= files@.len(),
                st_parsed_files((v, true), fs, workspace_root@).1,
                self@ == st_parsed_files((v, true), fs.subrange(0, k as int), workspace_root@).0,
                st_parsed_files((v, true), fs.subrange(0, k as int), workspace_root@).1,
                self.edge_total() <= old(self).edge_total() + files_dep_count(fs.subrange(0, k as int)),
                old(self).edge_total() + files_dep_count(fs) < u32::MAX,
            decreases files@.len() - k,
        {
            proof {
                let sub1 = fs.subrange(0, k + 1);
                assert(sub1.drop_last() =~= fs.subrange(0, k as int));
                assert(sub1.last() == parsed_view(files@[k as int]));
                lemma_st_files_prefix((v, true), fs, workspace_root@, k + 1);
                let prev = st_parsed_files((v, true), fs.subrange(0, k as int), workspace_root@);
                lemma_st_rules_flag(prev, spec_build_path_package(files@[k as int].path@, workspace_root@), rules_view(files@[k as int].rules@));
                lemma_files_dep_count_prefix(fs, k + 1);
            }
            self.populate_from_parsed(&files[k], workspace_root);
            k = k + 1;
        }
        proof {
            assert(fs.subrange(0, files@.len() as int) =~= fs);
        }
    }

    /// Adds the `deps`, `runtime_deps` and `exports` edges of a rule.
    fn add_rule_deps(&mut self, label: &str, rule: &JavaRule, pkg: &str)
        requires
            old(self).wf(),
            st_rule_deps((old(self)@, true), label@, rule@, pkg@).1,
            old(self).edge_total() + rule_dep_count(rule@) < u32::MAX,
        ensures
            final(self).wf(),
            final(self)@ == st_rule_deps((old(self)@, true), label@, rule@, pkg@).0,
            final(self).edge_total() <= old(self).edge_total() + rule_dep_count(rule@),
    {
        let ghost v = self@;
        let ghost l = label@;
        proof {
            lemma_st_deps_flag((v, true), l, rule@.deps, pkg@);
            let s3 = st_deps((v, true), l, rule@.deps, pkg@);
            lemma_st_deps_flag(s3, l, rule@.runtime_deps, pkg@);
            let s4 = st_deps(s3, l, rule@.runtime_deps, pkg@);
            lemma_st_deps_flag(s4, l, rule@.exports, pkg@);
        }
        self.add_deps_of(label, &rule.deps, pkg);
        self.add_deps_of(label, &rule.runtime_deps, pkg);
        self.add_deps_of(label, &rule.exports, pkg);
    }

    /// Rewires an existing target to a rule: old outgoing edges go, the
    /// rule's dependencies are added, and its test-only mark follows the rule.
    fn rewire_target(&mut self, label: &str, rule: &JavaRule, pkg: &str)
        requires
            old(self).wf(),
            st_rewire((old(self)@, true), label@, rule@, pkg@).1,
            old(self).edge_total() + rule_dep_count(rule@) < u32::MAX,
        ensures
            final(self).wf(),
            final(self)@ == st_rewire((old(self)@, true), label@, rule@, pkg@).0,
            final(self).edge_total() <= old(self).edge_total() + rule_dep_count(rule@),
    {
        let ghost v = self@;
        match self.find_node(label) {
            Some(i) => {
                proof {
                    assert(node_index(v.nodes, label@) == i);
                }
                self.clear_out_edges(i);
            },
            None => {},
        }
        self.add_rule_deps(label, rule, pkg);
        if rule.test_only {
            self.mark_testonly(label);
        } else {
            self.unmark_testonly(label);
        }
    }

    /// Adds a target declared by a rule, with its dependencies and its
    /// test-only mark.
    fn add_new_target(&mut self, label: &str, rule: &JavaRule, pkg: &str)
        requires
            old(self).wf(),
            st_add_new((old(self)@, true), label@, rule@, pkg@).1,
            old(self).edge_total() + rule_dep_count(rule@) < u32::MAX,
        ensures
            final(self).wf(),
            final(self)@ == st_add_new((old(self)@, true), label@, rule@, pkg@).0,
            final(self).edge_total() <= old(self).edge_total() + rule_dep_count(rule@),
    {
        let ghost v = self@;
        proof {
            lemma_st_rule_deps_flag(st_target((v, true), label@), label@, rule@, pkg@);
        }
        self.add_target(label);
        self.add_rule_deps(label, rule, pkg);
        if rule.test_only {
            self.mark_testonly(label);
        }
    }

    /// Updates the graph from a re-parsed BUILD file: targets of the package
    /// that the file no longer declares are removed (with their edges, JARs
    /// and test-only marks); declared targets that existed get their
    /// outgoing edges rebuilt from the rule (JARs kept); new targets are
    /// added.  Returns the added, removed and modified labels.
    pub fn update_from_parsed(&mut self, new_parsed: &ParsedBuildFile, workspace_root: &str) -> (r: (Vec<String>, Vec<String>, Vec<String>))
        requires
            old(self).wf(),
            st_update(old(self)@, spec_build_path_package(new_parsed.path@, workspace_root@), rules_view(new_parsed.rules@)).1,
            old(self).edge_total() + nl_dep_count(
                new_rule_labels(spec_build_path_package(new_parsed.path@, workspace_root@), rules_view(new_parsed.rules@)),
                package_targets(old(self)@, spec_build_path_package(new_parsed.path@, workspace_root@)),
                true,
            ) + nl_dep_count(
                new_rule_labels(spec_build_path_package(new_parsed.path@, workspace_root@), rules_view(new_parsed.rules@)),
                package_targets(old(self)@, spec_build_path_package(new_parsed.path@, workspace_root@)),
                false,
            ) < u32::MAX,
        ensures
            final(self).wf(),
            final(self)@ == st_update(old(self)@, spec_build_path_package(new_parsed.path@, workspace_root@), rules_view(new_parsed.rules@)).0,
            ({
                let pkg = spec_build_path_package(new_parsed.path@, workspace_root@);
                let ex = package_targets(old(self)@, pkg);
                let keys = firsts(new_rule_labels(pkg, rules_view(new_parsed.rules@)));
                &&& str_list(r.0@) == filter_by_membership(keys, ex, false)
                &&& str_list(r.1@) == filter_by_membership(ex, keys, false)
                &&& str_list(r.2@) == filter_by_membership(keys, ex, true)
            }),
    {
        let ghost v = self@;
        let pkg = compute_package_label_from_build_path(new_parsed.path.as_str(), workspace_root);
        let ghost rs = rules_view(new_parsed.rules@);
        let existing = self.targets_in_package(pkg.as_str());
        let ghost ex = str_list(existing@);
        // The labels declared by the file, each with its last rule.
        let mut nl_labels: Vec<String> = Vec::new();
        let mut nl_rules: Vec<usize> = Vec::new();
        let mut k: usize = 0;
        while k < new_parsed.rules.len()
            invariant
                k <= new_parsed.rules@.len(),
                rs == rules_view(new_parsed.rules@),
                nl_labels@.len() == nl_rules@.len(),
                forall|i: int| 0 <= i < nl_rules@.len() ==> #[trigger] nl_rules@[i] < new_parsed.rules@.len(),
                Seq::new(nl_labels@.len(), |i: int| (nl_labels@[i]@, rs[nl_rules@[i] as int])) == new_rule_labels(pkg@, rs.subrange(0, k as int)),
                keys_unique(Seq::new(nl_labels@.len(), |i: int| (nl_labels@[i]@, rs[nl_rules@[i] as int]))),
            decreases new_parsed.rules@.len() - k,
        {
            let ghost g = Seq::new(nl_labels@.len(), |i: int| (nl_labels@[i]@, rs[nl_rules@[i] as int]));
            let mut label = pkg.clone();
            crate::strutil::push_char(&mut label, ':');
            label.append(new_parsed.rules[k].name.as_str());
            proof {
                let sub1 = rs.subrange(0, k + 1);
                assert(sub1.drop_last() =~= rs.subrange(0, k as int));
                assert(sub1.last() == new_parsed.rules@[k as int]@);
                assert(label@ =~= rule_label(pkg@, rs[k as int].name));
            }
            match find_str(&nl_labels, label.as_str()) {
                Some(i) => {
                    nl_rules.set(i, k);
                    proof {
                        let g2 = Seq::new(nl_labels@.len(), |j: int| (nl_labels@[j]@, rs[nl_rules@[j] as int]));
                        assert(g[i as int].0 == label@);
                        let c = choose|c: int| 0 <= c < g.len() && g[c].0 == label@;
                        assert(c == i);
                        assert(g2 =~= g.update(i as int, (label@, rs[k as int])));
                        assert forall|a: int, b: int| 0 <= a < b < g2.len() implies g2[a].0 != g2[b].0 by {
                            assert(g2[a].0 == g[a].0 && g2[b].0 == g[b].0);
                        }
                    }
                },
                None => {
                    let ghost lab0 = nl_labels@;
                    nl_labels.push(label);
                    nl_rules.push(k);
                    proof {
                        let g2 = Seq::new(nl_labels@.len(), |j: int| (nl_labels@[j]@, rs[nl_rules@[j] as int]));
                        assert(!(exists|c: int| 0 <= c < g.len() && g[c].0 == label@)) by {
                            if exists|c: int| 0 <= c < g.len() && g[c].0 == label@ {
                                let c = choose|c: int| 0 <= c < g.len() && g[c].0 == label@;
                                assert(lab0[c]@ == label@);
                            }
                        }
                        assert(g2 =~= g.push((label@, rs[k as int])));
                        assert forall|a: int, b: int| 0 <= a < b < g2.len() implies g2[a].0 != g2[b].0 by {
                            if b < g.len() {
                                assert(g2[a].0 == g[a].0 && g2[b].0 == g[b].0);
                            } else {
                                assert(g2[a].0 == lab0[a]@);
                            }
                        }
                    }
                },
            }
            k = k + 1;
        }
        let ghost nl = Seq::new(nl_labels@.len(), |i: int| (nl_labels@[i]@, rs[nl_rules@[i] as int]));
        proof {
            assert(rs.subrange(0, new_parsed.rules@.len() as int) =~= rs);
            assert(firsts(nl) =~= str_list(nl_labels@));
            lemma_st_remove_flag((v, true), ex, firsts(nl));
            let s1 = st_remove_stale((v, true), ex, firsts(nl));
            lemma_st_apply_flag(s1, nl, ex, pkg@, true);
            let s2 = st_apply_new(s1, nl, ex, pkg@, true);
            lemma_st_apply_flag(s2, nl, ex, pkg@, false);
        }
        // Targets no longer declared.
        let mut removed: Vec<String> = Vec::new();
        let mut k: usize = 0;
        while k < existing.len()
            invariant
                self.wf(),
                k <= existing@.len(),
                ex == str_list(existing@),
                firsts(nl) == str_list(nl_labels@),
                self@ == st_remove_stale((v, true), ex.subrange(0, k as int), firsts(nl)).0,
                self.edge_total() <= old(self).edge_total(),
                str_list(removed@) == filter_by_membership(ex.subrange(0, k as int), firsts(nl), false),
            decreases existing@.len() - k,
        {
            let ghost sub1 = ex.subrange(0, k + 1);
            proof {
                assert(sub1.drop_last() =~= ex.subrange(0, k as int));
                assert(sub1.last() == existing@[k as int]@);
            }
            match find_str(&nl_labels, existing[k].as_str()) {
                Some(i) => {
                    proof {
                        assert(str_list(nl_labels@)[i as int] == existing@[k as int]@);
                    }
                },
                None => {
                    self.remove_target(existing[k].as_str());
                    let ghost r0 = removed@;
                    let l = existing[k].clone();
                    removed.push(l);
                    proof {
                        lemma_str_list_push(r0, l);
                    }
                },
            }
            k = k + 1;
        }
        proof {
            assert(ex.subrange(0, existing@.len() as int) =~= ex);
        }
        let ghost s1 = self@;
        // Targets that existed: rewired.
        let mut modified: Vec<String> = Vec::new();
        let mut k: usize = 0;
        while k < nl_labels.len()
            invariant
                self.wf(),
                k <= nl_labels@.len(),
                nl_labels@.len() == nl_rules@.len(),
                forall|i: int| 0 <= i < nl_rules@.len() ==> #[trigger] nl_rules@[i] < new_parsed.rules@.len(),
                rs == rules_view(new_parsed.rules@),
                nl == Seq::new(nl_labels@.len(), |i: int| (nl_labels@[i]@, rs[nl_rules@[i] as int])),
                ex == str_list(existing@),
                st_apply_new((s1, true), nl, ex, pkg@, true).1,
                self@ == st_apply_new((s1, true), nl.subrange(0, k as int), ex, pkg@, true).0,
                st_apply_new((s1, true), nl.subrange(0, k as int), ex, pkg@, true).1,
                self.edge_total() <= old(self).edge_total() + nl_dep_count(nl.subrange(0, k as int), ex, true),
                old(self).edge_total() + nl_dep_count(nl, ex, true) + nl_dep_count(nl, ex, false) < u32::MAX,
                str_list(modified@) == filter_by_membership(firsts(nl).subrange(0, k as int), ex, true),
            decreases nl_labels@.len() - k,
        {
            let ghost sub1 = nl.subrange(0, k + 1);
            proof {
                assert(sub1.drop_last() =~= nl.subrange(0, k as int));
                assert(firsts(nl).subrange(0, k + 1).drop_last() =~= firsts(nl).subrange(0, k as int));
                lemma_st_apply_prefix((s1, true), nl, ex, pkg@, true, k + 1);
                lemma_nl_count_prefix(nl, ex, true, k + 1);
                lemma_st_rewire_flag(st_apply_new((s1, true), nl.subrange(0, k as int), ex, pkg@, true), nl[k as int].0, nl[k as int].1, pkg@);
            }
            match find_str(&existing, nl_labels[k].as_str()) {
                Some(i) => {
                    proof {
                        assert(ex[i as int] == nl_labels@[k as int]@);
                    }
                    self.rewire_target(nl_labels[k].as_str(), &new_parsed.rules[nl_rules[k]], pkg.as_str());
                    let ghost m0 = modified@;
                    let l = nl_labels[k].clone();
                    modified.push(l);
                    proof {
                        lemma_str_list_push(m0, l);
                    }
                },
                None => {},
            }
            k = k + 1;
        }
        proof {
            assert(nl.subrange(0, nl_labels@.len() as int) =~= nl);
            assert(firsts(nl).subrange(0, nl_labels@.len() as int) =~= firsts(nl));
        }
        let ghost s2 = self@;
        // Targets that are new: added.
        let mut added: Vec<String> = Vec::new();
        let mut k: usize = 0;
        while k < nl_labels.len()
            invariant
                self.wf(),
                k <= nl_labels@.len(),
                nl_labels@.len() == nl_rules@.len(),
                forall|i: int| 0 <= i < nl_rules@.len() ==> #[trigger] nl_rules@[i] < new_parsed.rules@.len(),
                rs == rules_view(new_parsed.rules@),
                nl == Seq::new(nl_labels@.len(), |i: int| (nl_labels@[i]@, rs[nl_rules@[i] as int])),
                ex == str_list(existing@),
                st_apply_new((s2, true), nl, ex, pkg@, false).1,
                self@ == st_apply_new((s2, true), nl.subrange(0, k as int), ex, pkg@, false).0,
                st_apply_new((s2, true), nl.subrange(0, k as int), ex, pkg@, false).1,
                self.edge_total() <= old(self).edge_total() + nl_dep_count(nl, ex, true) + nl_dep_count(nl.subrange(0, k as int), ex, false),
                old(self).edge_total() + nl_dep_count(nl, ex, true) + nl_dep_count(nl, ex, false) < u32::MAX,
                str_list(added@) == filter_by_membership(firsts(nl).subrange(0, k as int), ex, false),
            decreases nl_labels@.len() - k,
        {
            let ghost sub1 = nl.subrange(0, k + 1);
            proof {
                assert(sub1.drop_last() =~= nl.subrange(0, k as int));
                assert(firsts(nl).subrange(0, k + 1).drop_last() =~= firsts(nl).subrange(0, k as int));
                lemma_st_apply_prefix((s2, true), nl, ex, pkg@, false, k + 1);
                lemma_nl_count_prefix(nl, ex, false, k + 1);
                lemma_st_add_new_flag(st_apply_new((s2, true), nl.subrange(0, k as int), ex, pkg@, false), nl[k as int].0, nl[k as int].1, pkg@);
            }
            match find_str(&existing, nl_labels[k].as_str()) {
                Some(i) => {
                    proof {
                        assert(ex[i as int] == nl_labels@[k as int]@);
                    }
                },
                None => {
                    self.add_new_target(nl_labels[k].as_str(), &new_parsed.rules[nl_rules[k]], pkg.as_str());
                    let ghost a0 = added@;
                    let l = nl_labels[k].clone();
                    added.push(l);
                    proof {
                        lemma_str_list_push(a0, l);
                    }
                },
            }
            k = k + 1;
        }
        proof {
            assert(nl.subrange(0, nl_labels@.len() as int) =~= nl);
            assert(firsts(nl).subrange(0, nl_labels@.len() as int) =~= firsts(nl));
        }
        (added, removed, modified)
    }

    /// A copy of a list of resolved JARs.
    fn copy_jars(js: &Vec<ResolvedJar>) -> (r: Vec<ResolvedJar>)
        ensures
            resolved_view(r@) == resolved_view(js@),
    {
        let mut r: Vec<ResolvedJar> = Vec::new();
        let mut k: usize = 0;
        while k < js.len()
            invariant
                k <= js@.len(),
                resolved_view(r@) == resolved_view(js@).subrange(0, k as int),
            decreases js@.len() - k,
        {
            let j = Self::copy_jar(&js[k]);
            let ghost r0 = r@;
            r.push(j);
            proof {
                assert(r@ == r0.push(j));
                assert(resolved_view(r@).len() == r0.len() + 1);
                assert(resolved_view(r@) =~= resolved_view(r0).push(j@));
                assert(resolved_view(r@) =~= resolved_view(js@).subrange(0, k + 1));
            }
            k = k + 1;
        }
        proof {
            assert(resolved_view(js@).subrange(0, js@.len() as int) =~= resolved_view(js@));
        }
        r
    }

    /// Records the target of one aspect result (see [`aspect_head`]).
    fn add_aspect_head(&mut self, info: &crate::ide_info::TargetIdeInfo, jars: &Option<Vec<ResolvedJar>>)
        requires
            old(self).wf(),
            aspect_head((old(self)@, true), info@, opt_jars_view(*jars)).1,
        ensures
            final(self).wf(),
            final(self)@ == aspect_head((old(self)@, true), info@, opt_jars_view(*jars)).0,
            final(self).edge_total() == old(self).edge_total(),
    {
        let label = info.label.as_str();
        self.add_target(label);
        self.set_target_kind(label, info.kind.as_str());
        match crate::ide_info::canonical_to_apparent_label(label) {
            Some(apparent) => {
                self.alias_or_insert(apparent.as_str(), label);
            },
            None => {},
        }
        if str_eq(info.kind.as_str(), "java_test") {
            self.mark_testonly(label);
        }
        match jars {
            Some(js) => {
                let copy = Self::copy_jars(js);
                self.set_target_jars(label, copy);
            },
            None => {},
        }
    }

    /// Records one aspect result with the given JARs.
    fn add_aspect_result(&mut self, info: &crate::ide_info::TargetIdeInfo, jars: &Option<Vec<ResolvedJar>>)
        requires
            old(self).wf(),
            st_aspect((old(self)@, true), info@, opt_jars_view(*jars)).1,
            old(self).edge_total() + aspect_dep_count(info@) < u32::MAX,
        ensures
            final(self).wf(),
            final(self)@ == st_aspect((old(self)@, true), info@, opt_jars_view(*jars)).0,
            final(self).edge_total() <= old(self).edge_total() + aspect_dep_count(info@),
    {
        let ghost v = self@;
        let ghost l = info.label@;
        let ghost j = opt_jars_view(*jars);
        let ghost pk = crate::labels::spec_package_of(l);
        let ghost t5 = aspect_head((v, true), info@, j);
        proof {
            reveal(st_aspect);
            lemma_st_deps_flag(t5, l, info@.deps, pk);
            let t6 = st_deps(t5, l, info@.deps, pk);
            lemma_st_deps_flag(t6, l, info@.runtime_deps, pk);
            let t7 = st_deps(t6, l, info@.runtime_deps, pk);
            lemma_st_deps_flag(t7, l, info@.exports, pk);
            lemma_st_deps_flag((t6.0, true), l, info@.runtime_deps, pk);
            lemma_st_deps_flag((t5.0, true), l, info@.deps, pk);
            assert(t5.1);
        }
        self.add_aspect_head(info, jars);
        let label = info.label.as_str();
        let pkg = crate::labels::package_of(label);
        self.add_deps_of(label, &info.deps, pkg.as_str());
        if info.java_info.is_some() {
            self.add_deps_of(label, &info.runtime_deps, pkg.as_str());
            self.add_deps_of(label, &info.exports, pkg.as_str());
        }
        proof {
            reveal(st_aspect);
        }
    }

    /// Populates the graph from aspect results, each with the JARs resolved
    /// for it (see [`st_aspect`]).
    pub fn populate_from_resolved(&mut self, results: &[crate::ide_info::TargetIdeInfo], jars: &[Option<Vec<ResolvedJar>>])
        requires
            old(self).wf(),
            jars@.len() == results@.len(),
            st_aspects((old(self)@, true), targets_view(results@), jars@.map_values(|j: Option<Vec<ResolvedJar>>| opt_jars_view(j))).1,
            old(self).edge_total() + aspects_dep_count(targets_view(results@)) < u32::MAX,
        ensures
            final(self).wf(),
            final(self)@ == st_aspects((old(self)@, true), targets_view(results@), jars@.map_values(|j: Option<Vec<ResolvedJar>>| opt_jars_view(j))).0,
            final(self).edge_total() <= old(self).edge_total() + aspects_dep_count(targets_view(results@)),
    {
        let ghost v = self@;
        let ghost rs = targets_view(results@);
        let ghost js = jars@.map_values(|j: Option<Vec<ResolvedJar>>| opt_jars_view(j));
        let mut k: usize = 0;
        while k < results.len()
            invariant
                self.wf(),
                v == old(self)@,
                rs == targets_view(results@),
                js == jars@.map_values(|j: Option<Vec<ResolvedJar>>| opt_jars_view(j)),
                jars@.len() == results@.len(),
                k <= results@.len(),
                st_aspects((v, true), rs, js).1,
                self@ == st_aspects((v, true), rs.subrange(0, k as int), js.subrange(0, k as int)).0,
                st_aspects((v, true), rs.subrange(0, k as int), js.subrange(0, k as int)).1,
                self.edge_total() <= old(self).edge_total() + aspects_dep_count(rs.subrange(0, k as int)),
                old(self).edge_total() + aspects_dep_count(rs) < u32::MAX,
            decreases results@.len() - k,
        {
            proof {
                assert(rs.subrange(0, k + 1).drop_last() =~= rs.subrange(0, k as int));
                assert(js.subrange(0, k + 1).drop_last() =~= js.subrange(0, k as int));
                assert(rs.subrange(0, k + 1).last() == results@[k as int]@);
                assert(js.subrange(0, k + 1).last() == opt_jars_view(jars@[k as int]));
                lemma_st_aspects_prefix((v, true), rs, js, k + 1);
                lemma_st_aspect_flag(st_aspects((v, true), rs.subrange(0, k as int), js.subrange(0, k as int)), results@[k as int]@, opt_jars_view(jars@[k as int]));
                lemma_aspects_count_prefix(rs, k + 1);
                assert(aspects_dep_count(rs.subrange(0, k + 1)) == aspects_dep_count(rs.subrange(0, k as int)) + aspect_dep_count(results@[k as int]@));
            }
            self.add_aspect_result(&results[k], &jars[k]);
            k = k + 1;
        }
        proof {
            assert(rs.subrange(0, results@.len() as int) =~= rs);
            assert(js.subrange(0, results@.len() as int) =~= js);
        }
    }

    /// Populates the graph from Bazel aspect output: for each result its
    /// target, kind, apparent alias, test-only mark (`java_test`), JARs
    /// with source attachments (see [`crate::jars::resolve_target_jars`];
    /// `home` locates the local Maven cache) and dependency edges.
    pub fn populate_from_aspects(&mut self, results: &[crate::ide_info::TargetIdeInfo], workspace_root: &str, home: Option<&str>)
        requires
            old(self).wf(),
            aspects_ok(old(self)@, targets_view(results@)),
            old(self).edge_total() + aspects_dep_count(targets_view(results@)) < u32::MAX,
        ensures
            final(self).wf(),
            exists|js: Seq<Option<Seq<ResolvedJarView>>>| {
                &&& js.len() == results@.len()
                &&& forall|i: int| 0 <= i < js.len() ==> crate::jars::jars_fit(results@[i]@, workspace_root@, crate::classpath::ws_view(home), #[trigger] js[i])
                &&& final(self)@ == (#[trigger] st_aspects((old(self)@, true), targets_view(results@), js)).0
            },
    {
        let ghost rs = targets_view(results@);
        let mut jars: Vec<Option<Vec<ResolvedJar>>> = Vec::new();
        let mut k: usize = 0;
        while k < results.len()
            invariant
                k <= results@.len(),
                jars@.len() == k,
                forall|i: int| 0 <= i < k ==> crate::jars::jars_fit(results@[i]@, workspace_root@, crate::classpath::ws_view(home), opt_jars_view(#[trigger] jars@[i])),
            decreases results@.len() - k,
        {
            let j = crate::jars::resolve_target_jars(&results[k], workspace_root, home);
            let ghost j0 = jars@;
            jars.push(j);
            proof {
                assert forall|i: int| 0 <= i < k + 1 implies crate::jars::jars_fit(results@[i]@, workspace_root@, crate::classpath::ws_view(home), opt_jars_view(#[trigger] jars@[i])) by {
                    if i < k {
                        assert(jars@[i] == j0[i]);
                    }
                }
            }
            k = k + 1;
        }
        let ghost js = jars@.map_values(|j: Option<Vec<ResolvedJar>>| opt_jars_view(j));
        proof {
            lemma_st_aspects_shape((self@, true), (self@, true), rs, no_jars(rs.len()), js);
        }
        self.populate_from_resolved(results, jars.as_slice());
        proof {
            assert forall|i: int| 0 <= i < js.len() implies crate::jars::jars_fit(results@[i]@, workspace_root@, crate::classpath::ws_view(home), #[trigger] js[i]) by {
                assert(js[i] == opt_jars_view(jars@[i]));
            }
        }
    }
}

impl Default for DependencyGraph {
    /// An empty graph.
    fn default() -> (g: Self)
        ensures
            g.wf(),
            g@ == empty_graph(),
    {
        Self::new()
    }
}

/// A walk followed backwards along the incoming lists is a walk along the
/// outgoing lists, and the other way round.
proof fn lemma_reverse_walk(v: GraphView, p: Seq<int>, incoming: bool)
    requires
        graph_wf(v),
        is_walk(adjacency(v, incoming), p),
    ensures
        is_walk(adjacency(v, !incoming), Seq::new(p.len(), |k: int| p[p.len() - 1 - k])),
{
    let q = Seq::new(p.len(), |k: int| p[p.len() - 1 - k]);
    let adj = adjacency(v, incoming);
    let rev = adjacency(v, !incoming);
    assert forall|k: int| 0 <= k < q.len() implies 0 <= #[trigger] q[k] < rev.len() by {
        assert(q[k] == p[p.len() - 1 - k]);
    }
    assert forall|k: int| 0 <= k < q.len() - 1 implies #[trigger] rev[q[k]].contains(q[k + 1]) by {
        let i = p.len() - 2 - k;
        assert(q[k] == p[i + 1]);
        assert(q[k + 1] == p[i]);
        assert(adj[p[i]].contains(p[i + 1]));
    }
}

/// Reachability along incoming edges is reachability along outgoing edges
/// reversed: `a` reaches `b` backwards exactly when `b` reaches `a`.
pub proof fn law_reverse_reachability(v: GraphView, a: int, b: int)
    requires
        graph_wf(v),
        0 <= a < v.nodes.len(),
        0 <= b < v.nodes.len(),
    ensures
        reaches(v.inc, a, b) <==> reaches(v.out, b, a),
{
    if reaches(v.inc, a, b) {
        let p = choose|p: Seq<int>| #[trigger] is_walk(v.inc, p) && p[0] == a && p.last() == b;
        lemma_reverse_walk(v, p, true);
        let q = Seq::new(p.len(), |k: int| p[p.len() - 1 - k]);
        assert(is_walk(v.out, q) && q[0] == b && q.last() == a);
    }
    if reaches(v.out, b, a) {
        let p = choose|p: Seq<int>| #[trigger] is_walk(v.out, p) && p[0] == b && p.last() == a;
        lemma_reverse_walk(v, p, false);
        let q = Seq::new(p.len(), |k: int| p[p.len() - 1 - k]);
        assert(is_walk(v.inc, q) && q[0] == a && q.last() == b);
    }
}

impl DependencyGraph {
    /// `x` transitively depends on `l` (so that `x` is among the reverse
    /// transitive dependencies of `l`) exactly when `l` is among the targets
    /// `x` transitively depends on.
    pub proof fn law_dependers_are_reverse_deps(&self, l: Seq<char>, x: Seq<char>)
        requires
            self.wf(),
            self@.nodes.contains(l),
            self@.nodes.contains(x),
        ensures
            reached_label(self@, self@.inc, node_index(self@.nodes, l), x) <==> reached_label(
                self@,
                self@.out,
                node_index(self@.nodes, x),
                l,
            ),
    {
        let v = self@;
        let a = node_index(v.nodes, l);
        let b = node_index(v.nodes, x);
        assert(0 <= a < v.nodes.len() && v.nodes[a] == l);
        assert(0 <= b < v.nodes.len() && v.nodes[b] == x);
        law_reverse_reachability(v, a, b);
        if reached_label(v, v.inc, a, x) {
            let j = choose|j: int| 0 <= j < v.nodes.len() && j != a && #[trigger] reaches(v.inc, a, j) && v.nodes[j] == x;
            assert(j == b);
            assert(reaches(v.out, b, a));
        }
        if reached_label(v, v.out, b, l) {
            let j = choose|j: int| 0 <= j < v.nodes.len() && j != b && #[trigger] reaches(v.out, b, j) && v.nodes[j] == l;
            assert(j == a);
            assert(reaches(v.inc, a, b));
        }
    }
}

/// Reading a target's JARs gives back what was last set for it, and
/// leaves every other label's JARs as they were (unless that label is an
/// alias of the target).
pub proof fn law_jars_read_after_write(v: GraphView, l: Seq<char>, j: Seq<ResolvedJarView>, other: Seq<char>)
    ensures
        spec_get_jars(spec_set_jars(v, l, j), l) == Some(j),
        other != l && !(v.aliases.dom().contains(other) && v.aliases[other] == l) ==> spec_get_jars(
            spec_set_jars(v, l, j),
            other,
        ) == spec_get_jars(v, other),
{
}

/// Once an apparent label is recorded as an alias of a canonical one,
/// reading JARs by the apparent label gives the canonical target's JARs
/// (when the apparent label has none of its own).
pub proof fn law_alias_reads_canonical_jars(v: GraphView, apparent: Seq<char>, canonical: Seq<char>)
    requires
        !v.jars.dom().contains(apparent),
    ensures
        spec_get_jars(GraphView { aliases: v.aliases.insert(apparent, canonical), ..v }, apparent) == if v.jars.dom().contains(canonical) {
            Some(v.jars[canonical])
        } else {
            None
        },
{
}

/// Reading a target's kind gives back the kind last recorded for it (an
/// empty kind records nothing), and leaves every other label's kind as
/// it was.
pub proof fn law_kind_read_after_write(v: GraphView, l: Seq<char>, k: Seq<char>, other: Seq<char>)
    ensures
        k.len() > 0 ==> spec_target_kind(spec_set_kind(v, l, k), l) == kind_of_rule(k),
        k.len() == 0 ==> spec_target_kind(spec_set_kind(v, l, k), l) == spec_target_kind(v, l),
        other != l ==> spec_target_kind(spec_set_kind(v, l, k), other) == spec_target_kind(v, other),
{
}

/// Adding a target twice is adding it once.
pub proof fn law_add_target_idempotent(v: GraphView, l: Seq<char>)
    ensures
        spec_add_target(spec_add_target(v, l), l) == spec_add_target(v, l),
{
    let v1 = spec_add_target(v, l);
    if !(v.nodes.contains(l) || absorbed(v, l)) {
        assert(v1.nodes[v1.nodes.len() - 1] == l);
        assert(v1.nodes.contains(l));
    }
}

/// A label stands for a target of the graph: it is a node, or an alias of
/// one.
pub open spec fn present(v: GraphView, l: Seq<char>) -> bool {
    v.nodes.contains(l) || absorbed(v, l)
}

/// `w` keeps every node of `v` and every alias of `v`.
pub open spec fn grows(v: GraphView, w: GraphView) -> bool {
    &&& forall|x: Seq<char>| #[trigger] v.nodes.contains(x) ==> w.nodes.contains(x)
    &&& forall|k: Seq<char>| #[trigger] v.aliases.dom().contains(k) ==> w.aliases.dom().contains(k) && w.aliases[k] == v.aliases[k]
}

proof fn lemma_grows_present(v: GraphView, w: GraphView, x: Seq<char>)
    requires
        grows(v, w),
        present(v, x),
    ensures
        present(w, x),
{
    if absorbed(v, x) {
        assert(w.aliases.dom().contains(x));
        assert(w.nodes.contains(v.aliases[x]));
    }
}

proof fn lemma_add_target_grows(v: GraphView, l: Seq<char>)
    ensures
        grows(v, spec_add_target(v, l)),
        present(spec_add_target(v, l), l),
{
    let w = spec_add_target(v, l);
    if !(v.nodes.contains(l) || absorbed(v, l)) {
        assert forall|x: Seq<char>| #[trigger] v.nodes.contains(x) implies w.nodes.contains(x) by {
            let i = choose|i: int| 0 <= i < v.nodes.len() && v.nodes[i] == x;
            assert(w.nodes[i] == x);
        }
        assert(w.nodes[w.nodes.len() - 1] == l);
    }
}

proof fn lemma_add_dep_grows(v: GraphView, f: Seq<char>, t: Seq<char>)
    ensures
        grows(v, spec_add_dep(v, f, t)),
        present(spec_add_dep(v, f, t), f),
        present(spec_add_dep(v, f, t), t),
{
    let v1 = spec_add_target(v, f);
    let v2 = spec_add_target(v1, t);
    lemma_add_target_grows(v, f);
    lemma_add_target_grows(v1, t);
    lemma_grows_present(v1, v2, f);
    let w = spec_add_dep(v, f, t);
    assert(w.nodes == v2.nodes && w.aliases == v2.aliases);
    if absorbed(v2, f) {
        assert(absorbed(w, f));
    }
    if absorbed(v2, t) {
        assert(absorbed(w, t));
    }
}

proof fn lemma_st_deps_present(s: (GraphView, bool), f: Seq<char>, ds: Seq<Seq<char>>, pkg: Seq<char>)
    ensures
        grows(s.0, st_deps(s, f, ds, pkg).0),
        ds.len() > 0 ==> present(st_deps(s, f, ds, pkg).0, f),
        forall|i: int| 0 <= i < ds.len() ==> present(st_deps(s, f, ds, pkg).0, spec_normalize_dep_label(#[trigger] ds[i], pkg)),
    decreases ds.len(),
{
    if ds.len() > 0 {
        let p = st_deps(s, f, ds.drop_last(), pkg);
        lemma_st_deps_present(s, f, ds.drop_last(), pkg);
        let t = spec_normalize_dep_label(ds.last(), pkg);
        lemma_add_dep_grows(p.0, f, t);
        let w = st_deps(s, f, ds, pkg).0;
        assert(w == spec_add_dep(p.0, f, t));
        assert forall|i: int| 0 <= i < ds.len() implies present(w, spec_normalize_dep_label(#[trigger] ds[i], pkg)) by {
            if i < ds.len() - 1 {
                assert(ds.drop_last()[i] == ds[i]);
                lemma_grows_present(p.0, w, spec_normalize_dep_label(ds[i], pkg));
            }
        }
    }
}

proof fn lemma_grows_trans(u: GraphView, v: GraphView, w: GraphView)
    requires
        grows(u, v),
        grows(v, w),
    ensures
        grows(u, w),
{
}

/// The targets one rule adds: its own label and the labels of its deps,
/// runtime deps and exports.
pub open spec fn rule_targets_present(v: GraphView, pkg: Seq<char>, r: JavaRuleView) -> bool {
    &&& present(v, rule_label(pkg, r.name))
    &&& forall|i: int| 0 <= i < r.deps.len() ==> present(v, spec_normalize_dep_label(#[trigger] r.deps[i], pkg))
    &&& forall|i: int| 0 <= i < r.runtime_deps.len() ==> present(v, spec_normalize_dep_label(#[trigger] r.runtime_deps[i], pkg))
    &&& forall|i: int| 0 <= i < r.exports.len() ==> present(v, spec_normalize_dep_label(#[trigger] r.exports[i], pkg))
}

proof fn lemma_rule_targets_grow(v: GraphView, w: GraphView, pkg: Seq<char>, r: JavaRuleView)
    requires
        grows(v, w),
        rule_targets_present(v, pkg, r),
    ensures
        rule_targets_present(w, pkg, r),
{
    lemma_grows_present(v, w, rule_label(pkg, r.name));
    assert forall|i: int| 0 <= i < r.deps.len() implies present(w, spec_normalize_dep_label(#[trigger] r.deps[i], pkg)) by {
        lemma_grows_present(v, w, spec_normalize_dep_label(r.deps[i], pkg));
    }
    assert forall|i: int| 0 <= i < r.runtime_deps.len() implies present(w, spec_normalize_dep_label(#[trigger] r.runtime_deps[i], pkg)) by {
        lemma_grows_present(v, w, spec_normalize_dep_label(r.runtime_deps[i], pkg));
    }
    assert forall|i: int| 0 <= i < r.exports.len() implies present(w, spec_normalize_dep_label(#[trigger] r.exports[i], pkg)) by {
        lemma_grows_present(v, w, spec_normalize_dep_label(r.exports[i], pkg));
    }
}

proof fn lemma_st_parsed_rule_present(s: (GraphView, bool), pkg: Seq<char>, r: JavaRuleView)
    ensures
        grows(s.0, st_parsed_rule(s, pkg, r).0),
        rule_targets_present(st_parsed_rule(s, pkg, r).0, pkg, r),
{
    let l = rule_label(pkg, r.name);
    let s1 = st_target(s, l);
    lemma_add_target_grows(s.0, l);
    let s2 = if r.test_only {
        (spec_mark_testonly(s1.0, l), s1.1)
    } else {
        s1
    };
    assert(grows(s1.0, s2.0));
    lemma_grows_present(s1.0, s2.0, l);
    let a = st_deps(s2, l, r.deps, pkg);
    let b = st_deps(a, l, r.runtime_deps, pkg);
    let c = st_deps(b, l, r.exports, pkg);
    lemma_st_deps_present(s2, l, r.deps, pkg);
    lemma_st_deps_present(a, l, r.runtime_deps, pkg);
    lemma_st_deps_present(b, l, r.exports, pkg);
    lemma_grows_trans(s.0, s1.0, s2.0);
    lemma_grows_trans(s.0, s2.0, a.0);
    lemma_grows_trans(s.0, a.0, b.0);
    lemma_grows_trans(s.0, b.0, c.0);
    lemma_grows_trans(a.0, b.0, c.0);
    lemma_grows_trans(s2.0, a.0, c.0);
    lemma_grows_present(s2.0, c.0, l);
    assert forall|i: int| 0 <= i < r.deps.len() implies present(c.0, spec_normalize_dep_label(#[trigger] r.deps[i], pkg)) by {
        lemma_grows_present(a.0, c.0, spec_normalize_dep_label(r.deps[i], pkg));
    }
    assert forall|i: int| 0 <= i < r.runtime_deps.len() implies present(c.0, spec_normalize_dep_label(#[trigger] r.runtime_deps[i], pkg)) by {
        lemma_grows_present(b.0, c.0, spec_normalize_dep_label(r.runtime_deps[i], pkg));
    }
    assert(st_parsed_rule(s, pkg, r) == c);
}

/// Adding the rules of a parsed BUILD file makes each rule, and each
/// target it depends on, a target of the graph (a node, or an alias of
/// one), and keeps every target the graph already had.
pub proof fn law_parsed_rules_become_targets(s: (GraphView, bool), pkg: Seq<char>, rs: Seq<JavaRuleView>)
    ensures
        grows(s.0, st_parsed_rules(s, pkg, rs).0),
        forall|i: int| 0 <= i < rs.len() ==> rule_targets_present(st_parsed_rules(s, pkg, rs).0, pkg, #[trigger] rs[i]),
    decreases rs.len(),
{
    if rs.len() > 0 {
        let p = st_parsed_rules(s, pkg, rs.drop_last());
        law_parsed_rules_become_targets(s, pkg, rs.drop_last());
        lemma_st_parsed_rule_present(p, pkg, rs.last());
        let w = st_parsed_rules(s, pkg, rs).0;
        lemma_grows_trans(s.0, p.0, w);
        assert forall|i: int| 0 <= i < rs.len() implies rule_targets_present(w, pkg, #[trigger] rs[i]) by {
            if i < rs.len() - 1 {
                assert(rs.drop_last()[i] == rs[i]);
                lemma_rule_targets_grow(p.0, w, pkg, rs[i]);
            }
        }
    }
}

proof fn lemma_aspect_head_present(s: (GraphView, bool), info: crate::ide_info::TargetIdeInfoView, j: Option<Seq<ResolvedJarView>>)
    ensures
        grows(s.0, aspect_head(s, info, j).0),
        present(aspect_head(s, info, j).0, info.label),
{
    let l = info.label;
    let s1 = st_target(s, l);
    lemma_add_target_grows(s.0, l);
    let v2 = spec_set_kind(s1.0, l, info.kind);
    assert(grows(s1.0, v2));
    let v3 = match crate::ide_info::spec_canonical_to_apparent(l) {
        Some(a) => spec_alias_or_insert(v2, a, l),
        None => v2,
    };
    assert(grows(v2, v3));
    let v4 = if info.kind == "java_test"@ {
        spec_mark_testonly(v3, l)
    } else {
        v3
    };
    assert(grows(v3, v4));
    lemma_grows_trans(s1.0, v2, v3);
    lemma_grows_trans(s1.0, v3, v4);
    lemma_grows_trans(s.0, s1.0, v4);
    lemma_grows_present(s1.0, v4, l);
    match j {
        Some(js) => {
            lemma_add_target_grows(v4, l);
            let w = st_set_jars((v4, s1.1), l, js).0;
            assert(grows(spec_add_target(v4, l), w));
            lemma_grows_trans(v4, spec_add_target(v4, l), w);
            lemma_grows_trans(s.0, v4, w);
            lemma_grows_present(v4, w, l);
        },
        None => {},
    }
}

proof fn lemma_st_aspect_present(s: (GraphView, bool), info: crate::ide_info::TargetIdeInfoView, j: Option<Seq<ResolvedJarView>>)
    ensures
        grows(s.0, st_aspect(s, info, j).0),
        present(st_aspect(s, info, j).0, info.label),
{
    reveal(st_aspect);
    let l = info.label;
    let s5 = aspect_head(s, info, j);
    lemma_aspect_head_present(s, info, j);
    let pkg = crate::labels::spec_package_of(l);
    let a = st_deps(s5, l, info.deps, pkg);
    lemma_st_deps_present(s5, l, info.deps, pkg);
    lemma_grows_trans(s.0, s5.0, a.0);
    lemma_grows_present(s5.0, a.0, l);
    if info.java_info is Some {
        let b = st_deps(a, l, info.runtime_deps, pkg);
        let c = st_deps(b, l, info.exports, pkg);
        lemma_st_deps_present(a, l, info.runtime_deps, pkg);
        lemma_st_deps_present(b, l, info.exports, pkg);
        lemma_grows_trans(s.0, a.0, b.0);
        lemma_grows_trans(s.0, b.0, c.0);
        lemma_grows_trans(a.0, b.0, c.0);
        lemma_grows_present(a.0, c.0, l);
    }
}

/// Recording aspect results makes the target of each result a target of
/// the graph (a node, or an alias of one), and keeps every target and
/// alias the graph already had.
pub proof fn law_aspect_results_become_targets(
    s: (GraphView, bool),
    rs: Seq<crate::ide_info::TargetIdeInfoView>,
    js: Seq<Option<Seq<ResolvedJarView>>>,
)
    requires
        rs.len() == js.len(),
    ensures
        grows(s.0, st_aspects(s, rs, js).0),
        forall|i: int| 0 <= i < rs.len() ==> present(st_aspects(s, rs, js).0, (#[trigger] rs[i]).label),
    decreases rs.len(),
{
    if rs.len() > 0 {
        let p = st_aspects(s, rs.drop_last(), js.drop_last());
        law_aspect_results_become_targets(s, rs.drop_last(), js.drop_last());
        lemma_st_aspect_present(p, rs.last(), js.last());
        let w = st_aspects(s, rs, js).0;
        lemma_grows_trans(s.0, p.0, w);
        assert forall|i: int| 0 <= i < rs.len() implies present(w, (#[trigger] rs[i]).label) by {
            if i < rs.len() - 1 {
                assert(rs.drop_last()[i] == rs[i]);
                lemma_grows_present(p.0, w, rs[i].label);
            }
        }
    }
}

} // verus!
