use vstd::prelude::*;

verus! {

// ---------------------------------------------------------------------
// Trusted boundary: the system graph is kept in a `petgraph` directed
// graph. Verus sees the graph through the two names below and the small
// wrappers that follow; everything else about the scheduler is verified
// against them.
// ---------------------------------------------------------------------

#[verifier::external_type_specification]
#[verifier::external_body]
#[verifier::reject_recursive_types(N)]
#[verifier::reject_recursive_types(E)]
#[verifier::reject_recursive_types(Ty)]
#[verifier::reject_recursive_types(Ix)]
pub struct ExGraph<N, E, Ty, Ix>(petgraph::graph::Graph<N, E, Ty, Ix>);

#[verifier::external_type_specification]
#[verifier::external_body]
pub struct ExDirected(petgraph::Directed);

/// The set of directed edges of the scheduler's graph, as pairs of node
/// indices.
pub uninterp spec fn graph_edge_set(
    g: petgraph::graph::Graph<u32, u32, petgraph::Directed, usize>,
) -> Set<(usize, usize)>;

/// The number of nodes of the scheduler's graph.
pub uninterp spec fn graph_node_total(
    g: petgraph::graph::Graph<u32, u32, petgraph::Directed, usize>,
) -> nat;

/// Relies on petgraph's `Graph::with_capacity`: a graph with no nodes and
/// no edges.
#[verifier::external_body]
fn graph_new() -> (g: petgraph::graph::Graph<u32, u32, petgraph::Directed, usize>)
    ensures
        graph_node_total(g) == 0,
        graph_edge_set(g) =~= Set::<(usize, usize)>::empty(),
{
    petgraph::graph::Graph::with_capacity(0, 0)
}

/// Relies on petgraph's `Graph::add_node`: appends a node and returns its
/// index, which is the previous node count; with `usize` indices the node
/// limit is never reached.
#[verifier::external_body]
fn graph_add_node(
    g: &mut petgraph::graph::Graph<u32, u32, petgraph::Directed, usize>,
    weight: u32,
) -> (r: usize)
    ensures
        r == graph_node_total(*old(g)),
        graph_node_total(*final(g)) == graph_node_total(*old(g)) + 1,
        graph_edge_set(*final(g)) == graph_edge_set(*old(g)),
{
    g.add_node(weight).index()
}

/// Relies on petgraph's `Graph::add_edge`: adds a directed edge between two
/// existing nodes; with `usize` indices the edge limit is never reached.
#[verifier::external_body]
fn graph_add_edge(
    g: &mut petgraph::graph::Graph<u32, u32, petgraph::Directed, usize>,
    a: usize,
    b: usize,
    weight: u32,
)
    requires
        a < graph_node_total(*old(g)),
        b < graph_node_total(*old(g)),
    ensures
        graph_node_total(*final(g)) == graph_node_total(*old(g)),
        graph_edge_set(*final(g)) =~= graph_edge_set(*old(g)).insert((a, b)),
{
    let _ = g.add_edge(
        petgraph::graph::NodeIndex::new(a),
        petgraph::graph::NodeIndex::new(b),
        weight,
    );
}

/// Relies on petgraph's `Graph::node_count`.
#[verifier::external_body]
fn graph_node_count(
    g: &petgraph::graph::Graph<u32, u32, petgraph::Directed, usize>,
) -> (r: usize)
    ensures
        r == graph_node_total(*g),
{
    g.node_count()
}

/// Relies on petgraph's `Graph::neighbors_directed` with the incoming
/// direction: yields exactly the sources of the edges into `n` (an absent
/// node yields nothing).
#[verifier::external_body]
fn graph_parents(
    g: &petgraph::graph::Graph<u32, u32, petgraph::Directed, usize>,
    n: usize,
) -> (r: Vec<usize>)
    ensures
        forall|s: usize| #[trigger] r@.contains(s)
            <==> graph_edge_set(*g).contains((s, n)),
{
    let mut out = Vec::new();
    for p in g.neighbors_directed(
        petgraph::graph::NodeIndex::new(n),
        petgraph::Direction::Incoming,
    ) {
        out.push(p.index());
    }
    out
}

/// Relies on petgraph's `Graph::neighbors_directed` with the outgoing
/// direction: reports whether any edge leaves `n`.
#[verifier::external_body]
fn graph_has_outgoing(
    g: &petgraph::graph::Graph<u32, u32, petgraph::Directed, usize>,
    n: usize,
) -> (r: bool)
    ensures
        r == node_has_out_edge(graph_edge_set(*g), n),
{
    g.neighbors_directed(
        petgraph::graph::NodeIndex::new(n),
        petgraph::Direction::Outgoing,
    ).next().is_some()
}

/// What petgraph's `Dot` display renders for the scheduler's graph: a
/// function of the graph's nodes, edges and weights alone.
pub uninterp spec fn dot_of(
    g: petgraph::graph::Graph<u32, u32, petgraph::Directed, usize>,
) -> Seq<char>;

/// Relies on petgraph's `dot::Dot`: renders the graph in the Dot graph
/// description language, for human inspection.
#[verifier::external_body]
fn graph_dot(
    g: &petgraph::graph::Graph<u32, u32, petgraph::Directed, usize>,
) -> (r: String)
    ensures
        r@ == dot_of(*g),
{
    let dot = petgraph::dot::Dot::new(g);
    format!("{}", dot)
}


// ---------------------------------------------------------------------
// Verified scheduler logic
// ---------------------------------------------------------------------

use crate::query::AccessMode;
use crate::sparse_set::{SparseIndex, SparseSet};
use crate::world_container::ComponentId;

/// One access-mode transition on one component, recorded on a dependency
/// edge.
pub struct SystemGraphChange {
    /// The component whose ownership record changed.
    pub component: ComponentId,
    /// The access mode the new system takes on it.
    pub new_access_mode: AccessMode,
}

/// The annotation of one dependency edge: the transitions it carries.
pub struct SystemGraphEdge {
    /// The transitions carried by this edge.
    pub changes: Vec<SystemGraphChange>,
}

/// The per-component "latest owner" record, rebuilt monotonically as
/// systems are added.
pub struct GraphResourceOwnership {
    /// The mode of the latest access.
    pub access_mode: AccessMode,
    /// The node that last wrote the component, if any.
    pub last_writing: Option<usize>,
    /// The nodes that read the component since the last write.
    pub last_accessing: Vec<usize>,
}

/// The scheduler's metadata about one system node.
pub struct SystemNodeMeta {
    /// The union of the system's component accesses.
    pub dependencies: SparseSet<ComponentId, AccessMode>,
    /// Whether the system takes the whole world and must run alone.
    pub exclusive: bool,
}

/// One parallel execution group: the systems it holds have no dependency
/// between any two of them.
pub struct Schedule {
    /// The node indices of the systems to dispatch together.
    pub jobs: Vec<usize>,
}

/// The full execution plan: groups run in order, the systems of one group
/// run in parallel.
pub struct Schedules {
    /// The ordered execution groups.
    pub groups: Vec<Schedule>,
}

impl Schedules {
    pub open spec fn spec_groups(self) -> Seq<Seq<usize>> {
        self.groups@.map(|_i: int, s: Schedule| s.jobs@)
    }
}

/// The recorded owner nodes of one component are real system nodes below
/// the given bound.
pub open spec fn ownership_nodes_ok(own: GraphResourceOwnership, bound: int) -> bool {
    &&& (own.last_writing matches Some(w) ==> 1 <= w < bound)
    &&& forall|j: int| 0 <= j < own.last_accessing@.len()
        ==> 1 <= #[trigger] own.last_accessing@[j] < bound
}

/// Whether some edge leaves node `i`.
pub open spec fn node_has_out_edge(edges: Set<(usize, usize)>, i: usize) -> bool {
    exists|t: usize| #[trigger] edges.contains((i, t))
}

/// Whether some edge enters node `i`.
pub open spec fn node_has_in_edge(edges: Set<(usize, usize)>, i: usize) -> bool {
    exists|p: usize| #[trigger] edges.contains((p, i))
}

/// A depth labelling of the graph: the root sits at depth zero, every
/// other node one past its deepest predecessor, so every edge strictly
/// increases depth.
pub open spec fn depth_ok(edges: Set<(usize, usize)>, n: int, depth: Seq<int>) -> bool {
    &&& depth.len() == n
    &&& n >= 1 ==> depth[0] == 0
    &&& forall|i: int| 1 <= i < n ==> 1 <= #[trigger] depth[i] <= i
    &&& forall|e: (usize, usize)| #[trigger] edges.contains(e)
        ==> depth[e.0 as int] < depth[e.1 as int]
    &&& forall|i: int| 1 <= i < n
        ==> #[trigger] depth[i] >= 1 && exists|p: usize|
            #[trigger] edges.contains((p, i as usize))
            && depth[i] == depth[p as int] + 1
}

/// Every level below an inhabited depth is inhabited: a node of depth `d`
/// has a predecessor of depth `d - 1`, so the depths form a contiguous
/// range from one up to the deepest node.
pub proof fn lemma_level_inhabited(
    edges: Set<(usize, usize)>,
    n: int,
    depth: Seq<int>,
    i: int,
    d: int,
)
    requires
        depth_ok(edges, n, depth),
        forall|e: (usize, usize)| #[trigger] edges.contains(e) ==> e.0 < e.1 < n,
        1 <= i < n,
        1 <= d <= depth[i],
    ensures
        exists|j: int| 1 <= j < n && #[trigger] depth[j] == d,
    decreases depth[i],
{
    if depth[i] == d {
        assert(1 <= i < n && depth[i] == d);
    } else {
        assert(depth[i] >= 1);
        let p = choose|p: usize| #[trigger] edges.contains((p, i as usize))
            && depth[i] == depth[p as int] + 1;
        assert((p as int) < i);
        assert(depth[p as int] >= d);
        assert(1 <= p as int) by {
            if p as int == 0 {
                assert(depth[0] == 0);
            }
        }
        lemma_level_inhabited(edges, n, depth, p as int, d);
    }
}

/// The groups partition the system nodes by depth: group `g` holds exactly
/// the nodes of depth `g + 1`, each once.
pub open spec fn layering_ok(
    edges: Set<(usize, usize)>,
    n: int,
    depth: Seq<int>,
    groups: Seq<Seq<usize>>,
) -> bool {
    &&& depth_ok(edges, n, depth)
    &&& forall|g: int, j: int|
        0 <= g < groups.len() && 0 <= j < groups[g].len() ==> {
            let node = (#[trigger] groups[g][j]) as int;
            &&& 1 <= node < n
            &&& depth[node] == g + 1
        }
    &&& forall|i: int| 1 <= i < n
        ==> 0 <= #[trigger] depth[i] - 1 < groups.len()
            && groups[depth[i] - 1].contains(i as usize)
    &&& forall|g: int, j1: int, j2: int|
        0 <= g < groups.len() && 0 <= j1 < groups[g].len()
            && 0 <= j2 < groups[g].len() && j1 != j2
            ==> (#[trigger] groups[g][j1]) != (#[trigger] groups[g][j2])
}

pub open spec fn barrier_ok(edges: Set<(usize, usize)>, x: usize) -> bool {
    forall|m: usize| m < x ==> #[trigger] edges.contains((m, x))
        || exists|t: usize| m < t < x && #[trigger] edges.contains((m, t))
}

/// Growing the edge set preserves the barrier property.
pub proof fn lemma_barrier_monotone(e1: Set<(usize, usize)>, e2: Set<(usize, usize)>, x: usize)
    requires
        barrier_ok(e1, x),
        forall|e: (usize, usize)| e1.contains(e) ==> #[trigger] e2.contains(e),
    ensures
        barrier_ok(e2, x),
{
    assert forall|m: usize| m < x implies #[trigger] e2.contains((m, x))
        || exists|t: usize| m < t < x && #[trigger] e2.contains((m, t)) by {
        if e1.contains((m, x)) {
            assert(e2.contains((m, x)));
        } else {
            let t = choose|t: usize| m < t < x && #[trigger] e1.contains((m, t));
            assert(e2.contains((m, t)));
        }
    }
}

/// Whether `b` can be reached from `a` over edges, using at most `fuel`
/// steps. Over the scheduler's graph, whose edges always point from a
/// lower to a higher index, a fuel of `b` suffices for any path.
pub open spec fn reaches_within(
    edges: Set<(usize, usize)>,
    a: usize,
    b: usize,
    fuel: nat,
) -> bool
    decreases fuel,
{
    a == b || (fuel > 0 && exists|p: usize| #[trigger] edges.contains((p, b))
        && reaches_within(edges, a, p, (fuel - 1) as nat))
}

/// Whether there is a dependency path from `a` to `b` (or `a == b`).
pub open spec fn reaches(edges: Set<(usize, usize)>, a: usize, b: usize) -> bool {
    reaches_within(edges, a, b, b as nat)
}

/// More fuel never loses a path.
pub proof fn lemma_reaches_fuel(
    edges: Set<(usize, usize)>,
    a: usize,
    b: usize,
    f1: nat,
    f2: nat,
)
    requires
        reaches_within(edges, a, b, f1),
        f1 <= f2,
    ensures
        reaches_within(edges, a, b, f2),
    decreases f1,
{
    if a != b {
        let p = choose|p: usize| #[trigger] edges.contains((p, b))
            && reaches_within(edges, a, p, (f1 - 1) as nat);
        lemma_reaches_fuel(edges, a, p, (f1 - 1) as nat, (f2 - 1) as nat);
    }
}

/// On a graph whose edges strictly increase the node index, a path from
/// `a` to `b` forces `a <= b`, and a fuel of `b` always suffices.
pub proof fn lemma_reaches_bound(
    edges: Set<(usize, usize)>,
    a: usize,
    b: usize,
    fuel: nat,
)
    requires
        forall|e: (usize, usize)| #[trigger] edges.contains(e) ==> e.0 < e.1,
        reaches_within(edges, a, b, fuel),
    ensures
        a <= b,
        reaches(edges, a, b),
    decreases fuel,
{
    if a != b {
        let p = choose|p: usize| #[trigger] edges.contains((p, b))
            && reaches_within(edges, a, p, (fuel - 1) as nat);
        lemma_reaches_bound(edges, a, p, (fuel - 1) as nat);
        lemma_reaches_fuel(edges, a, p, p as nat, (b - 1) as nat);
    }
}

/// An edge is a path.
pub proof fn lemma_reaches_edge(edges: Set<(usize, usize)>, a: usize, b: usize)
    requires
        forall|e: (usize, usize)| #[trigger] edges.contains(e) ==> e.0 < e.1,
        edges.contains((a, b)),
    ensures
        reaches(edges, a, b),
{
    assert(reaches_within(edges, a, a, 0));
    lemma_reaches_fuel(edges, a, a, 0, (b - 1) as nat);
    assert(reaches_within(edges, a, b, b as nat));
}

/// Paths compose.
pub proof fn lemma_reaches_trans(
    edges: Set<(usize, usize)>,
    a: usize,
    m: usize,
    b: usize,
)
    requires
        forall|e: (usize, usize)| #[trigger] edges.contains(e) ==> e.0 < e.1,
        reaches(edges, a, m),
        reaches(edges, m, b),
    ensures
        reaches(edges, a, b),
    decreases b as nat,
{
    if m != b {
        let p = choose|p: usize| #[trigger] edges.contains((p, b))
            && reaches_within(edges, m, p, (b - 1) as nat);
        lemma_reaches_bound(edges, m, p, (b - 1) as nat);
        lemma_reaches_trans(edges, a, m, p);
        assert(reaches_within(edges, a, p, p as nat));
        lemma_reaches_fuel(edges, a, p, p as nat, (b - 1) as nat);
    }
}

/// A path never shrinks when the edge set grows.
pub proof fn lemma_reaches_monotone(
    e1: Set<(usize, usize)>,
    e2: Set<(usize, usize)>,
    a: usize,
    b: usize,
    fuel: nat,
)
    requires
        reaches_within(e1, a, b, fuel),
        forall|e: (usize, usize)| e1.contains(e) ==> #[trigger] e2.contains(e),
    ensures
        reaches_within(e2, a, b, fuel),
    decreases fuel,
{
    if a != b {
        let p = choose|p: usize| #[trigger] e1.contains((p, b))
            && reaches_within(e1, a, p, (fuel - 1) as nat);
        lemma_reaches_monotone(e1, e2, a, p, (fuel - 1) as nat);
        assert(e2.contains((p, b)));
    }
}

/// Under a depth labelling, a path strictly increases the depth: the
/// effects of a system happen before those of everything it reaches.
pub proof fn lemma_reaches_depth(
    edges: Set<(usize, usize)>,
    n: int,
    depth: Seq<int>,
    a: usize,
    b: usize,
    fuel: nat,
)
    requires
        depth_ok(edges, n, depth),
        forall|e: (usize, usize)| #[trigger] edges.contains(e) ==> e.0 < e.1 < n,
        reaches_within(edges, a, b, fuel),
        (b as int) < n,
        a != b,
    ensures
        depth[a as int] < depth[b as int],
    decreases fuel,
{
    let p = choose|p: usize| #[trigger] edges.contains((p, b))
        && reaches_within(edges, a, p, (fuel - 1) as nat);
    if a != p {
        lemma_reaches_depth(edges, n, depth, a, p, (fuel - 1) as nat);
    }
    assert(depth[p as int] < depth[b as int]);
}

/// Two distinct systems of the same execution group are unordered: there
/// is no dependency path between them in either direction. This is what
/// makes dispatching them in parallel sound, and it rules out a shared
/// group for any two systems whose conflict the graph serialized.
pub proof fn lemma_same_group_no_path(
    edges: Set<(usize, usize)>,
    n: int,
    depth: Seq<int>,
    groups: Seq<Seq<usize>>,
    g: int,
    j1: int,
    j2: int,
)
    requires
        layering_ok(edges, n, depth, groups),
        forall|e: (usize, usize)| #[trigger] edges.contains(e) ==> e.0 < e.1 < n,
        0 <= g < groups.len(),
        0 <= j1 < groups[g].len(),
        0 <= j2 < groups[g].len(),
        groups[g][j1] != groups[g][j2],
    ensures
        !reaches(edges, groups[g][j1], groups[g][j2]),
{
    let a = groups[g][j1];
    let b = groups[g][j2];
    if reaches(edges, a, b) {
        lemma_reaches_depth(edges, n, depth, a, b, b as nat);
        assert(depth[a as int] == g + 1);
        assert(depth[b as int] == g + 1);
    }
}

/// Everything inserted before a barrier reaches it: an exclusive system
/// happens after the effects of every earlier system.
pub proof fn lemma_barrier_reached(edges: Set<(usize, usize)>, x: usize, m: usize)
    requires
        forall|e: (usize, usize)| #[trigger] edges.contains(e) ==> e.0 < e.1,
        barrier_ok(edges, x),
        m < x,
    ensures
        reaches(edges, m, x),
    decreases x - m,
{
    if edges.contains((m, x)) {
        lemma_reaches_edge(edges, m, x);
    } else {
        let t = choose|t: usize| m < t < x && #[trigger] edges.contains((m, t));
        lemma_reaches_edge(edges, m, t);
        lemma_barrier_reached(edges, x, t);
        lemma_reaches_trans(edges, m, t, x);
    }
}

/// Whether the computed dependency list records that the new system must
/// wait for `pred` with a transition of mode `m` on component index `c`.
pub open spec fn has_change(
    out: Seq<(usize, SystemGraphEdge)>,
    pred: usize,
    c: int,
    m: AccessMode,
) -> bool {
    exists|i: int, j: int|
        0 <= i < out.len() && 0 <= j < out[i].1.changes@.len()
            && (#[trigger] out[i].1.changes@[j]).component.spec_index() == c
            && out[i].1.changes@[j].new_access_mode == m
            && out[i].0 == pred
}

/// Two dependency maps conflict on component index `c` when both mention
/// it and at least one of them writes it.
pub open spec fn conflicts_on(
    d1: SparseSet<ComponentId, AccessMode>,
    d2: SparseSet<ComponentId, AccessMode>,
    c: int,
) -> bool {
    &&& d1.spec_contains(c)
    &&& d2.spec_contains(c)
    &&& (d1.spec_get(c) == AccessMode::Write || d2.spec_get(c) == AccessMode::Write)
}

/// The dependency-graph scheduler: it turns an ordered stream of systems
/// into a directed acyclic graph whose edges record which earlier system
/// each new one must wait for, and layers the graph into parallel
/// execution groups that preserve the meaning of the insertion order.
pub struct GraphScheduler {
    current_dependencies: SparseSet<ComponentId, GraphResourceOwnership>,
    graph: petgraph::graph::Graph<u32, u32, petgraph::Directed, usize>,
    root_node_idx: usize,
    last_barrier_idx: usize,
    systems: Vec<SystemNodeMeta>,
}

impl GraphScheduler {
    /// The edges of the dependency graph.
    pub closed spec fn spec_edges(self) -> Set<(usize, usize)> {
        graph_edge_set(self.graph)
    }

    /// The node count of the dependency graph: the root plus one node per
    /// system.
    pub closed spec fn spec_n(self) -> int {
        graph_node_total(self.graph) as int
    }

    /// The recorded metadata of the systems, in insertion order; system
    /// `i` is graph node `i + 1`.
    pub closed spec fn spec_systems(self) -> Seq<SystemNodeMeta> {
        self.systems@
    }

    pub closed spec fn spec_ownerships(self) -> SparseSet<ComponentId, GraphResourceOwnership> {
        self.current_dependencies
    }

    /// The index of the distinguished root node.
    pub closed spec fn spec_root(self) -> int {
        self.root_node_idx as int
    }

    pub closed spec fn spec_graph(self) -> petgraph::graph::Graph<u32, u32, petgraph::Directed, usize> {
        self.graph
    }

    /// The dependency map of system node `node`.
    pub open spec fn deps_of(self, node: int) -> SparseSet<ComponentId, AccessMode> {
        self.spec_systems()[node - 1].dependencies
    }

    /// The most recently inserted barrier node, or the root if no
    /// exclusive system was added yet: the anchor for systems that depend
    /// on nothing else.
    pub closed spec fn spec_lb(self) -> usize {
        self.last_barrier_idx
    }

    /// Node `m` is a non-exclusive system that mentions component `c`.
    pub open spec fn accessor_of(self, m: usize, c: int) -> bool {
        &&& 1 <= m < self.spec_n()
        &&& !self.spec_systems()[m as int - 1].exclusive
        &&& self.deps_of(m as int).spec_contains(c)
    }

    /// Node `m` is a non-exclusive system that writes component `c`.
    pub open spec fn writer_of(self, m: usize, c: int) -> bool {
        &&& self.accessor_of(m, c)
        &&& self.deps_of(m as int).spec_get(c) == AccessMode::Write
    }

    /// Node `m` reaches one of the recorded readers.
    pub open spec fn reaches_some_reader(self, m: usize, own: GraphResourceOwnership) -> bool {
        exists|j: int| 0 <= j < own.last_accessing@.len()
            && reaches(self.spec_edges(), m, #[trigger] own.last_accessing@[j])
    }

    /// The ownership record of component `c` covers its accessors: every
    /// accessor reaches the record's readers (or, with no readers, its
    /// writer), every writer reaches the last writer, and a component with
    /// no recorded writer was never written.
    pub open spec fn record_serialized(self, c: int) -> bool {
        let own = self.spec_ownerships().spec_get(c);
        &&& (own.last_accessing@.len() > 0 || own.last_writing is Some)
        &&& (own.last_accessing@.len() > 0
            ==> forall|m: usize| self.accessor_of(m, c)
                ==> #[trigger] self.reaches_some_reader(m, own))
        &&& (own.last_accessing@.len() == 0
            ==> (own.last_writing matches Some(w)
                ==> forall|m: usize| #[trigger] self.accessor_of(m, c)
                    ==> reaches(self.spec_edges(), m, w)))
        &&& (own.last_writing matches Some(w)
            ==> forall|m: usize| #[trigger] self.writer_of(m, c)
                ==> reaches(self.spec_edges(), m, w))
        &&& (own.last_writing is None
            ==> forall|m: usize| !(#[trigger] self.writer_of(m, c)))
    }

    /// Whether a new system taking component `c` with mode `m` must wait
    /// for node `s` under the current ownership records: a writer waits
    /// for the readers since the last write (or, with none, the last
    /// writer), a reader waits for the last writer.
    pub open spec fn waits_for(self, c: int, m: AccessMode, s: usize) -> bool {
        &&& self.spec_ownerships().spec_contains(c)
        &&& {
            let own = self.spec_ownerships().spec_get(c);
            if m == AccessMode::Write {
                if own.last_accessing@.len() > 0 {
                    own.last_accessing@.contains(s)
                } else {
                    own.last_writing == Some(s)
                }
            } else {
                own.last_writing == Some(s)
            }
        }
    }

    /// Every node recorded as an owner of component `c` is reachable from
    /// node `x`.
    pub open spec fn record_reached_from(self, x: usize, c: int) -> bool {
        let own = self.spec_ownerships().spec_get(c);
        &&& (own.last_writing matches Some(w) ==> reaches(self.spec_edges(), x, w))
        &&& forall|j: int| 0 <= j < own.last_accessing@.len()
            ==> reaches(self.spec_edges(), x, #[trigger] own.last_accessing@[j])
    }

    /// The serialization invariant: every mentioned component is tracked,
    /// every tracked component's record covers its accessors, any two
    /// non-exclusive systems that conflict on a component are connected by
    /// a dependency path from the earlier to the later one, every system
    /// inserted after a barrier is ordered after it, and a barrier reaches
    /// every recorded owner that came after it.
    pub open spec fn serialized(self) -> bool {
        &&& forall|c: int| !(#[trigger] self.spec_ownerships().spec_contains(c))
            ==> forall|m: usize| !(#[trigger] self.accessor_of(m, c))
        &&& forall|c: int| #[trigger] self.spec_ownerships().spec_contains(c)
            ==> self.record_serialized(c)
        &&& forall|a: usize, b: usize, c: int|
            1 <= a < b < self.spec_n()
                && !self.spec_systems()[a as int - 1].exclusive
                && !self.spec_systems()[b as int - 1].exclusive
                && #[trigger] conflicts_on(
                self.deps_of(a as int),
                self.deps_of(b as int),
                c,
            ) ==> reaches(self.spec_edges(), a, b)
        &&& forall|x: usize, m: usize|
            1 <= x < m < self.spec_n()
                && self.spec_systems()[x as int - 1].exclusive
            ==> #[trigger] reaches(self.spec_edges(), x, m)
        &&& forall|x: usize, c: int|
            1 <= x < self.spec_n()
                && self.spec_systems()[x as int - 1].exclusive
                && self.spec_ownerships().spec_contains(c)
            ==> #[trigger] self.record_reached_from(x, c)
    }



    pub open spec fn wf(self) -> bool {
        &&& self.spec_root() == 0
        &&& self.spec_n() == self.spec_systems().len() + 1
        &&& forall|e: (usize, usize)| #[trigger] self.spec_edges().contains(e)
            ==> e.0 < e.1 < self.spec_n()
        &&& forall|i: usize| 1 <= i < self.spec_n()
            ==> #[trigger] node_has_in_edge(self.spec_edges(), i)
        &&& self.spec_ownerships().wf()
        &&& forall|i: int| 0 <= i < self.spec_ownerships().spec_len()
            ==> ownership_nodes_ok(
                (#[trigger] self.spec_ownerships().entries()[i]).1,
                self.spec_n(),
            )
        &&& forall|i: int| 0 <= i < self.spec_systems().len()
            ==> (#[trigger] self.spec_systems()[i]).dependencies.wf()
        &&& forall|i: int| 0 <= i < self.spec_systems().len()
                && (#[trigger] self.spec_systems()[i]).exclusive
            ==> barrier_ok(self.spec_edges(), (i + 1) as usize)
        &&& (self.spec_lb() as int) < self.spec_n()
        &&& (self.spec_lb() == 0
            || self.spec_systems()[self.spec_lb() as int - 1].exclusive)
        &&& forall|i: int| 0 <= i < self.spec_systems().len()
                && (#[trigger] self.spec_systems()[i]).exclusive
            ==> i + 1 <= self.spec_lb() as int
    }

    /// Creates a scheduler whose graph holds only the root node.
    pub fn new() -> (r: Self)
        ensures
            r.wf(),
            r.spec_systems().len() == 0,
            r.spec_n() == 1,
            r.spec_edges() =~= Set::<(usize, usize)>::empty(),
            r.serialized(),
    {
        let mut graph = graph_new();
        let root_node_idx = graph_add_node(&mut graph, 0);
        let r = GraphScheduler {
            current_dependencies: SparseSet::new(),
            graph,
            root_node_idx,
            last_barrier_idx: 0,
            systems: Vec::new(),
        };
        proof {
            assert forall|c: int|
                !(#[trigger] r.spec_ownerships().spec_contains(c))
                implies forall|m: usize| !(#[trigger] r.accessor_of(m, c)) by {}
            assert(r.spec_ownerships().spec_len() == 0);
            assert forall|c: int| #[trigger] r.spec_ownerships().spec_contains(c)
                implies r.record_serialized(c) by {
                assert(false);
            }
        }
        r
    }

    /// Renders the dependency graph in the Dot graph description language,
    /// for human inspection.
    pub fn dump_graph(&self) -> (r: String)
        ensures
            r@ == dot_of(self.spec_graph()),
    {
        graph_dot(&self.graph)
    }

    /// The accessor and writer relations after one system was appended.
    proof fn lemma_system_extended(pre: Self, post: Self, node: usize, meta: SystemNodeMeta)
        requires
            post.spec_systems() =~= pre.spec_systems().push(meta),
            pre.spec_n() == pre.spec_systems().len() + 1,
            post.spec_n() == pre.spec_n() + 1,
            node as int == pre.spec_n(),
        ensures
            forall|m: usize, c: int| m < node
                ==> (#[trigger] post.accessor_of(m, c) <==> pre.accessor_of(m, c)),
            forall|m: usize, c: int| m < node
                ==> (#[trigger] post.writer_of(m, c) <==> pre.writer_of(m, c)),
            forall|c: int| #[trigger] post.accessor_of(node, c)
                <==> !meta.exclusive && meta.dependencies.spec_contains(c),
            forall|c: int| #[trigger] post.writer_of(node, c)
                <==> !meta.exclusive && meta.dependencies.spec_contains(c)
                    && meta.dependencies.spec_get(c) == AccessMode::Write,
            forall|m: usize| 1 <= m < node
                ==> #[trigger] post.deps_of(m as int) == pre.deps_of(m as int),
            post.deps_of(node as int) == meta.dependencies,
            forall|m: usize, c: int| post.accessor_of(m, c) ==> m <= node,
    {
        assert forall|m: usize, c: int| m < node
            implies (#[trigger] post.accessor_of(m, c) <==> pre.accessor_of(m, c)) by {
            if 1 <= m {
                assert(post.spec_systems()[m as int - 1]
                    == pre.spec_systems()[m as int - 1]);
            }
        }
        assert forall|m: usize, c: int| m < node
            implies (#[trigger] post.writer_of(m, c) <==> pre.writer_of(m, c)) by {
            if 1 <= m {
                assert(post.spec_systems()[m as int - 1]
                    == pre.spec_systems()[m as int - 1]);
            }
        }
        assert(post.spec_systems()[node as int - 1] == meta);
    }

    /// Adds a system with the given dependency map and exclusivity flag to
    /// the graph; returns the system's node index. An exclusive system is
    /// a barrier: it waits for every current leaf and captures the
    /// ownership of every known component. A non-exclusive system waits
    /// for the latest conflicting owners of each of its components; if
    /// none of its components yields an edge, it hangs off the latest
    /// barrier (or the root). Every component it mentions is recorded: a
    /// writer captures the component, a reader joins the recorded readers.
    ///
    /// The serialization invariant is maintained unconditionally: any two
    /// non-exclusive systems that conflict on a component stay connected
    /// by a dependency path from the earlier to the later one.
    pub fn add_system(
        &mut self,
        dependencies: SparseSet<ComponentId, AccessMode>,
        is_exclusive: bool,
    ) -> (r: usize)
        requires
            old(self).wf(),
            old(self).serialized(),
            dependencies.wf(),
            forall|j: int| 0 <= j < dependencies.spec_len()
                ==> 0 <= #[trigger] dependencies.key_seq()[j] < usize::MAX,
        ensures
            final(self).wf(),
            final(self).serialized(),
            r == old(self).spec_n(),
            final(self).spec_n() == old(self).spec_n() + 1,
            final(self).spec_systems() =~= old(self).spec_systems().push(
                SystemNodeMeta { dependencies, exclusive: is_exclusive },
            ),
            forall|e: (usize, usize)| old(self).spec_edges().contains(e)
                ==> #[trigger] final(self).spec_edges().contains(e),
            forall|e: (usize, usize)| #[trigger] final(self).spec_edges().contains(e)
                ==> old(self).spec_edges().contains(e) || e.1 == r,
            // a non-exclusive system is wired to exactly the owners its
            // components make it wait for, or to the latest barrier when
            // there are none
            !is_exclusive ==> forall|c: int, st: usize|
                dependencies.spec_contains(c)
                    && #[trigger] old(self).waits_for(c, dependencies.spec_get(c), st)
                ==> final(self).spec_edges().contains((st, r as usize)),
            !is_exclusive ==> forall|e: (usize, usize)|
                #[trigger] final(self).spec_edges().contains(e)
                    && !old(self).spec_edges().contains(e)
                ==> e.1 == r && (e.0 == old(self).spec_lb()
                    || exists|c: int| #[trigger] dependencies.spec_contains(c)
                        && old(self).waits_for(c, dependencies.spec_get(c), e.0)),
            // the ownership records after the insertion
            !is_exclusive ==> (forall|c: int|
                #[trigger] final(self).spec_ownerships().spec_contains(c)
                <==> old(self).spec_ownerships().spec_contains(c)
                    || dependencies.spec_contains(c)),
            !is_exclusive ==> forall|c: int|
                #[trigger] dependencies.spec_contains(c) ==> {
                    let own = final(self).spec_ownerships().spec_get(c);
                    &&& (dependencies.spec_get(c) == AccessMode::Write
                        ==> own.last_writing == Some(r as usize)
                            && own.last_accessing@.len() == 0)
                    &&& (dependencies.spec_get(c) == AccessMode::Read
                            && old(self).spec_ownerships().spec_contains(c)
                        ==> own.last_writing
                            == old(self).spec_ownerships().spec_get(c).last_writing
                            && (forall|v: usize|
                                #[trigger] own.last_accessing@.contains(v)
                                <==> old(self).spec_ownerships().spec_get(c)
                                    .last_accessing@.contains(v) || v == r))
                    &&& (dependencies.spec_get(c) == AccessMode::Read
                            && !old(self).spec_ownerships().spec_contains(c)
                        ==> own.last_writing is None
                            && own.last_accessing@ =~= seq![r as usize])
                },
            forall|c: int| old(self).spec_ownerships().spec_contains(c)
                    && !dependencies.spec_contains(c) && !is_exclusive
                ==> #[trigger] final(self).spec_ownerships().spec_get(c)
                    == old(self).spec_ownerships().spec_get(c),
            is_exclusive ==> (forall|c: int|
                #[trigger] final(self).spec_ownerships().spec_contains(c)
                <==> old(self).spec_ownerships().spec_contains(c)),
            is_exclusive ==> forall|c: int|
                #[trigger] old(self).spec_ownerships().spec_contains(c)
                ==> final(self).spec_ownerships().spec_get(c).last_writing
                    == Some(r as usize)
                    && final(self).spec_ownerships().spec_get(c).last_accessing@
                        .len() == 0,
    {
        let ghost pre = *self;
        let ghost deps = dependencies;
        let node = graph_add_node(&mut self.graph, 1);
        proof {
            assert forall|e: (usize, usize)| #[trigger] self.spec_edges().contains(e)
                implies e.0 < e.1 < node by {
                assert(pre.spec_edges().contains(e));
            }
            assert forall|i: usize| 1 <= i < node
                implies #[trigger] node_has_in_edge(self.spec_edges(), i) by {
                assert(node_has_in_edge(pre.spec_edges(), i));
                let p = choose|p: usize|
                    #[trigger] pre.spec_edges().contains((p, i));
                assert(self.spec_edges().contains((p, i)));
            }
        }
        let ghost mut nd_ghost = Seq::<(usize, SystemGraphEdge)>::empty();
        if is_exclusive {
            self.place_system_dependency_on_leaves(node);
            self.last_barrier_idx = node;
        } else {
            let node_dependencies = self.compute_node_dependencies(&dependencies, node);
            proof {
                nd_ghost = node_dependencies@;
            }
            if node_dependencies.len() == 0 {
                // nothing yields an edge: hang the system off the latest
                // barrier, so it never runs before one
                let ghost before_edge = *self;
                graph_add_edge(&mut self.graph, self.last_barrier_idx, node, 0);
                proof {
                    assert(self.spec_edges().contains((
                        before_edge.last_barrier_idx,
                        node,
                    )));
                    assert(node_has_in_edge(self.spec_edges(), node));
                    assert(before_edge.last_barrier_idx == pre.spec_lb());
                    assert forall|e: (usize, usize)|
                        #[trigger] self.spec_edges().contains(e)
                            && !pre.spec_edges().contains(e)
                        implies e == (pre.spec_lb(), node) by {
                        if e != (before_edge.last_barrier_idx, node) {
                            assert(before_edge.spec_edges().contains(e));
                        }
                    }
                }
            } else {
                self.place_system_dependencies(node_dependencies, node);
            }
            let ghost mid_edges = *self;
            self.update_ownerships(&dependencies, node);
            proof {
                assert(self.spec_edges() == mid_edges.spec_edges());
            }
        }
        let ghost placed = *self;
        self.systems.push(SystemNodeMeta { dependencies, exclusive: is_exclusive });
        proof {
            let post = *self;
            let meta = SystemNodeMeta { dependencies: deps, exclusive: is_exclusive };
            assert forall|i: int| 0 <= i < self.spec_systems().len()
                    && (#[trigger] self.spec_systems()[i]).exclusive
                implies barrier_ok(self.spec_edges(), (i + 1) as usize) by {
                if i < pre.spec_systems().len() {
                    assert(pre.spec_systems()[i].exclusive);
                    assert(barrier_ok(pre.spec_edges(), (i + 1) as usize));
                    lemma_barrier_monotone(
                        pre.spec_edges(),
                        self.spec_edges(),
                        (i + 1) as usize,
                    );
                } else {
                    assert(is_exclusive);
                    assert(barrier_ok(placed.spec_edges(), node));
                    assert(self.spec_edges() == placed.spec_edges());
                }
            }
            assert forall|i: usize| 1 <= i < self.spec_n()
                implies #[trigger] node_has_in_edge(self.spec_edges(), i) by {
                if i < node {
                    assert(node_has_in_edge(pre.spec_edges(), i));
                    let p = choose|p: usize|
                        #[trigger] pre.spec_edges().contains((p, i));
                    assert(self.spec_edges().contains((p, i)));
                }
            }
            assert forall|i: int| 0 <= i < self.spec_systems().len()
                    && (#[trigger] self.spec_systems()[i]).exclusive
                implies i + 1 <= self.spec_lb() as int by {
                if i < pre.spec_systems().len() {
                    assert(pre.spec_systems()[i].exclusive);
                }
            }
            if is_exclusive {
                self.lemma_serialized_after_exclusive(pre, placed, node, meta);
            } else {
                self.lemma_serialized_after_insert(pre, placed, node, meta, nd_ghost);
                assert forall|e: (usize, usize)|
                    #[trigger] self.spec_edges().contains(e)
                        && !pre.spec_edges().contains(e)
                    implies e.1 == node && (e.0 == pre.spec_lb()
                        || exists|c: int| #[trigger] deps.spec_contains(c)
                            && pre.waits_for(c, deps.spec_get(c), e.0)) by {
                    if nd_ghost.len() == 0 {
                        assert(e == (pre.spec_lb(), node));
                    } else {
                        let i = choose|i: int| 0 <= i < nd_ghost.len()
                            && e == (#[trigger] nd_ghost[i].0, node);
                        let s0 = nd_ghost[i].0;
                        assert(nd_ghost[i].1.changes@.len() >= 1);
                        let ch = nd_ghost[i].1.changes@[0];
                        let c0 = ch.component.spec_index();
                        let m0 = ch.new_access_mode;
                        assert(has_change(nd_ghost, s0, c0, m0)) by {
                            assert(nd_ghost[i].1.changes@[0].component
                                .spec_index() == c0);
                        }
                        assert(deps.spec_contains(c0));
                        assert(deps.spec_get(c0) == m0);
                        assert(pre.waits_for(c0, m0, s0));
                    }
                }
            }
            assert(self.spec_root() == 0);
            assert(self.spec_n() == self.spec_systems().len() + 1);
            assert forall|e: (usize, usize)| #[trigger] self.spec_edges().contains(e)
                implies e.0 < e.1 < self.spec_n() by {
                if !pre.spec_edges().contains(e) {
                    assert(e.1 == node);
                }
            }
            assert(self.spec_ownerships().wf());
            assert forall|i: int| 0 <= i < self.spec_ownerships().spec_len()
                implies ownership_nodes_ok(
                    (#[trigger] self.spec_ownerships().entries()[i]).1,
                    self.spec_n(),
                ) by {
                assert(ownership_nodes_ok(
                    placed.spec_ownerships().entries()[i].1,
                    node as int + 1,
                ));
            }
            assert forall|i: int| 0 <= i < self.spec_systems().len()
                implies (#[trigger] self.spec_systems()[i]).dependencies.wf() by {
                if i < pre.spec_systems().len() {
                    assert(self.spec_systems()[i] == pre.spec_systems()[i]);
                }
            }
            assert((self.spec_lb() as int) < self.spec_n());
            assert(self.spec_lb() == 0
                || self.spec_systems()[self.spec_lb() as int - 1].exclusive) by {
                if self.spec_lb() != 0 {
                    if is_exclusive {
                        assert(self.spec_systems()[node as int - 1] == meta);
                    } else {
                        assert(pre.spec_systems()[self.spec_lb() as int - 1]
                            .exclusive);
                        assert(self.spec_systems()[self.spec_lb() as int - 1]
                            == pre.spec_systems()[self.spec_lb() as int - 1]);
                    }
                }
            }
            assert(self.wf());
        }
        node
    }

    /// Places a barrier: the new node depends on every current leaf, and
    /// every known component's ownership passes to it.
    fn place_system_dependency_on_leaves(&mut self, node: usize)
        requires
            old(self).spec_root() == 0,
            node >= 1,
            (node as int) + 1 == old(self).spec_n(),
            forall|e: (usize, usize)| #[trigger] old(self).spec_edges().contains(e)
                ==> e.0 < e.1 < node,
            forall|i: usize| 1 <= i < node
                ==> #[trigger] node_has_in_edge(old(self).spec_edges(), i),
            old(self).spec_ownerships().wf(),
        ensures
            final(self).spec_root() == 0,
            final(self).spec_n() == old(self).spec_n(),
            final(self).systems == old(self).systems,
            forall|e: (usize, usize)| old(self).spec_edges().contains(e)
                ==> #[trigger] final(self).spec_edges().contains(e),
            forall|e: (usize, usize)| #[trigger] final(self).spec_edges().contains(e)
                ==> old(self).spec_edges().contains(e) || (e.1 == node && e.0 < node),
            node_has_in_edge(final(self).spec_edges(), node),
            barrier_ok(final(self).spec_edges(), node),
            final(self).spec_ownerships().wf(),
            forall|i: int| 0 <= i < final(self).spec_ownerships().spec_len()
                ==> ownership_nodes_ok(
                    (#[trigger] final(self).spec_ownerships().entries()[i]).1,
                    node as int + 1,
                ),
            final(self).spec_ownerships().key_seq()
                =~= old(self).spec_ownerships().key_seq(),
            forall|c: int| #[trigger] old(self).spec_ownerships().spec_contains(c)
                ==> final(self).spec_ownerships().spec_get(c).last_writing == Some(node)
                    && final(self).spec_ownerships().spec_get(c).last_accessing@.len()
                        == 0,
    {
        let ghost pre = *self;
        let mut i: usize = 0;
        let mut added = false;
        while i < node
            invariant
                node >= 1,
                (node as int) + 1 == pre.spec_n(),
                forall|e: (usize, usize)| #[trigger] pre.spec_edges().contains(e)
                    ==> e.0 < e.1 < node,
                forall|i2: usize| 1 <= i2 < node
                    ==> #[trigger] node_has_in_edge(pre.spec_edges(), i2),
                i <= node,
                self.spec_n() == pre.spec_n(),
                self.systems == pre.systems,
                self.current_dependencies == pre.current_dependencies,
                self.root_node_idx == pre.root_node_idx,
                forall|e: (usize, usize)| pre.spec_edges().contains(e)
                    ==> #[trigger] self.spec_edges().contains(e),
                forall|e: (usize, usize)| #[trigger] self.spec_edges().contains(e)
                    ==> pre.spec_edges().contains(e) || (e.1 == node && e.0 < i),
                added == node_has_in_edge(self.spec_edges(), node),
                added == false ==> self.spec_edges() == pre.spec_edges(),
                added == false ==> forall|j: int| 0 <= j < i as int
                    ==> #[trigger] node_has_out_edge(pre.spec_edges(), j as usize),
                forall|m: usize| m < i ==> #[trigger] self.spec_edges().contains((
                    m,
                    node,
                )) || exists|t: usize| m < t < node
                    && #[trigger] self.spec_edges().contains((m, t)),
            decreases node - i,
        {
            let ghost snap = *self;
            let has_out = graph_has_outgoing(&self.graph, i);
            if has_out == false {
                graph_add_edge(&mut self.graph, i, node, 0);
                added = true;
                proof {
                    assert(self.spec_edges().contains((i, node)));
                    assert(node_has_in_edge(self.spec_edges(), node));
                    assert forall|e: (usize, usize)|
                        #[trigger] self.spec_edges().contains(e)
                        implies snap.spec_edges().contains(e) || e == (i, node) by {}
                }
            } else {
                proof {
                    assert(node_has_out_edge(snap.spec_edges(), i));
                    let t0 = choose|t0: usize|
                        #[trigger] snap.spec_edges().contains((i, t0));
                    if snap.spec_edges().contains((i, t0))
                        && !pre.spec_edges().contains((i, t0)) {
                        assert(t0 == node && i < i);
                    }
                    assert(pre.spec_edges().contains((i, t0)));
                    assert(i < t0 < node);
                    if added == false {
                        assert(node_has_out_edge(pre.spec_edges(), i));
                    }
                }
            }
            proof {
                assert forall|m: usize| m < i + 1
                    implies #[trigger] self.spec_edges().contains((m, node))
                        || exists|t: usize| m < t < node
                            && #[trigger] self.spec_edges().contains((m, t)) by {
                    if m < i {
                        if snap.spec_edges().contains((m, node)) {
                            assert(self.spec_edges().contains((m, node)));
                        } else {
                            let t = choose|t: usize| m < t < node
                                && #[trigger] snap.spec_edges().contains((m, t));
                            assert(self.spec_edges().contains((m, t)));
                        }
                    }
                }
            }
            i = i + 1;
        }
        proof {
            if added == false {
                assert(node_has_out_edge(pre.spec_edges(), (node - 1) as usize));
                let t = choose|t: usize| #[trigger] pre.spec_edges().contains((
                    (node - 1) as usize,
                    t,
                ));
                assert(t < node);
                if node >= 2 {
                    assert(node_has_in_edge(pre.spec_edges(), (node - 1) as usize));
                }
                assert(false);
            }
        }
        let m = self.current_dependencies.len();
        let ghost mid = *self;
        let mut j: usize = 0;
        while j < m
            invariant
                m == self.current_dependencies.spec_len(),
                j <= m,
                node >= 1,
                self.spec_n() == mid.spec_n(),
                self.systems == mid.systems,
                self.root_node_idx == mid.root_node_idx,
                self.graph == mid.graph,
                self.current_dependencies.wf(),
                self.current_dependencies.key_seq() =~= mid.current_dependencies.key_seq(),
                forall|i2: int| 0 <= i2 < j as int
                    ==> ownership_nodes_ok(
                        (#[trigger] self.current_dependencies.entries()[i2]).1,
                        node as int + 1,
                    ),
                forall|i2: int| 0 <= i2 < j as int ==> {
                    let own = (#[trigger] self.current_dependencies.entries()[i2]).1;
                    &&& own.last_writing == Some(node)
                    &&& own.last_accessing@.len() == 0
                },
            decreases m - j,
        {
            let own = self.current_dependencies.value_at_mut(j);
            own.access_mode = AccessMode::Write;
            own.last_accessing = Vec::new();
            own.last_writing = Some(node);
            j = j + 1;
        }
        proof {
            assert forall|c: int| #[trigger] pre.spec_ownerships().spec_contains(c)
                implies self.spec_ownerships().spec_get(c).last_writing == Some(node)
                    && self.spec_ownerships().spec_get(c).last_accessing@.len() == 0
                by {
                assert(self.current_dependencies.spec_contains(c));
                self.current_dependencies.lemma_pos_valid(c);
                let p = self.current_dependencies.pos_of(c);
                self.current_dependencies.lemma_pos_unique(p);
                assert(self.current_dependencies.entries()[p]
                    == self.current_dependencies.spec_at(c));
            }
        }
    }

    /// Computes, for a new non-exclusive system, the set of predecessor
    /// nodes it must wait for, with the transitions each edge carries: a
    /// writer waits for the readers since the last write (or, if there are
    /// none, for the last writer), a reader waits for the last writer.
    fn compute_node_dependencies(
        &self,
        system_dependencies: &SparseSet<ComponentId, AccessMode>,
        node: usize,
    ) -> (r: Vec<(usize, SystemGraphEdge)>)
        requires
            self.spec_ownerships().wf(),
            forall|i: int| 0 <= i < self.spec_ownerships().spec_len()
                ==> ownership_nodes_ok(
                    (#[trigger] self.spec_ownerships().entries()[i]).1,
                    node as int,
                ),
            system_dependencies.wf(),
        ensures
            forall|i: int| 0 <= i < r@.len() ==> {
                &&& 1 <= (#[trigger] r@[i]).0 < node
                &&& forall|j: int| 0 <= j < r@[i].1.changes@.len()
                    ==> self.spec_ownerships().spec_contains(
                        (#[trigger] r@[i].1.changes@[j]).component.spec_index(),
                    )
            },
            forall|i1: int, i2: int|
                0 <= i1 < r@.len() && 0 <= i2 < r@.len() && i1 != i2
                    ==> (#[trigger] r@[i1]).0 != (#[trigger] r@[i2]).0,
            forall|i: int| 0 <= i < r@.len()
                ==> (#[trigger] r@[i]).1.changes@.len() >= 1,
            forall|pred: usize, c: int, m: AccessMode|
                #[trigger] has_change(r@, pred, c, m) ==> {
                    &&& system_dependencies.spec_contains(c)
                    &&& system_dependencies.spec_get(c) == m
                    &&& self.spec_ownerships().spec_contains(c)
                    &&& 1 <= pred < node
                    &&& (m == AccessMode::Write
                        && self.spec_ownerships().spec_get(c).last_accessing@.len()
                            > 0
                        ==> self.spec_ownerships().spec_get(c).last_accessing@
                            .contains(pred))
                    &&& (m == AccessMode::Write
                        && self.spec_ownerships().spec_get(c).last_accessing@.len()
                            == 0
                        ==> self.spec_ownerships().spec_get(c).last_writing
                            == Some(pred))
                    &&& (m == AccessMode::Read
                        ==> self.spec_ownerships().spec_get(c).last_writing
                            == Some(pred))
                },
            forall|jj: int| 0 <= jj < system_dependencies.spec_len() ==> {
                let c = #[trigger] system_dependencies.key_seq()[jj];
                self.spec_ownerships().spec_contains(c) ==> {
                    let own = self.spec_ownerships().spec_get(c);
                    &&& (system_dependencies.spec_get(c) == AccessMode::Write
                        && own.last_accessing@.len() > 0
                        ==> forall|k: int| 0 <= k < own.last_accessing@.len()
                            ==> has_change(
                                r@,
                                #[trigger] own.last_accessing@[k],
                                c,
                                AccessMode::Write,
                            ))
                    &&& (system_dependencies.spec_get(c) == AccessMode::Write
                        && own.last_accessing@.len() == 0
                        ==> (own.last_writing matches Some(w)
                            ==> has_change(r@, w, c, AccessMode::Write)))
                    &&& (system_dependencies.spec_get(c) == AccessMode::Read
                        ==> (own.last_writing matches Some(w)
                            ==> has_change(r@, w, c, AccessMode::Read)))
                }
            },
    {
        let mut out: Vec<(usize, SystemGraphEdge)> = Vec::new();
        let n = system_dependencies.len();
        let mut i: usize = 0;
        while i < n
            invariant
                self.spec_ownerships().wf(),
                forall|i2: int| 0 <= i2 < self.spec_ownerships().spec_len()
                    ==> ownership_nodes_ok(
                        (#[trigger] self.spec_ownerships().entries()[i2]).1,
                        node as int,
                    ),
                system_dependencies.wf(),
                n == system_dependencies.spec_len(),
                i <= n,
                forall|i2: int| 0 <= i2 < out@.len() ==> {
                    &&& 1 <= (#[trigger] out@[i2]).0 < node
                    &&& forall|j: int| 0 <= j < out@[i2].1.changes@.len()
                        ==> self.spec_ownerships().spec_contains(
                            (#[trigger] out@[i2].1.changes@[j]).component.spec_index(),
                        )
                },
                forall|i1: int, i2: int|
                    0 <= i1 < out@.len() && 0 <= i2 < out@.len() && i1 != i2
                        ==> (#[trigger] out@[i1]).0 != (#[trigger] out@[i2]).0,
                forall|i2: int| 0 <= i2 < out@.len()
                    ==> (#[trigger] out@[i2]).1.changes@.len() >= 1,
                forall|pred: usize, c: int, m: AccessMode|
                    #[trigger] has_change(out@, pred, c, m) ==> {
                        &&& system_dependencies.spec_contains(c)
                        &&& system_dependencies.spec_get(c) == m
                        &&& self.spec_ownerships().spec_contains(c)
                        &&& 1 <= pred < node
                        &&& (m == AccessMode::Write
                            && self.spec_ownerships().spec_get(c).last_accessing@
                                .len() > 0
                            ==> self.spec_ownerships().spec_get(c).last_accessing@
                                .contains(pred))
                        &&& (m == AccessMode::Write
                            && self.spec_ownerships().spec_get(c).last_accessing@
                                .len() == 0
                            ==> self.spec_ownerships().spec_get(c).last_writing
                                == Some(pred))
                        &&& (m == AccessMode::Read
                            ==> self.spec_ownerships().spec_get(c).last_writing
                                == Some(pred))
                    },
                forall|jj: int| 0 <= jj < i as int ==> {
                    let c = #[trigger] system_dependencies.key_seq()[jj];
                    self.spec_ownerships().spec_contains(c) ==> {
                        let own = self.spec_ownerships().spec_get(c);
                        &&& (system_dependencies.spec_get(c) == AccessMode::Write
                            && own.last_accessing@.len() > 0
                            ==> forall|k: int| 0 <= k < own.last_accessing@.len()
                                ==> has_change(
                                    out@,
                                    #[trigger] own.last_accessing@[k],
                                    c,
                                    AccessMode::Write,
                                ))
                        &&& (system_dependencies.spec_get(c) == AccessMode::Write
                            && own.last_accessing@.len() == 0
                            ==> (own.last_writing matches Some(w)
                                ==> has_change(out@, w, c, AccessMode::Write)))
                        &&& (system_dependencies.spec_get(c) == AccessMode::Read
                            ==> (own.last_writing matches Some(w)
                                ==> has_change(out@, w, c, AccessMode::Read)))
                    }
                },
            decreases n - i,
        {
            let component = system_dependencies.key_at(i);
            let access = *system_dependencies.value_at(i);
            let ghost c = component.spec_index();
            proof {
                system_dependencies.lemma_pos_unique(i as int);
                assert(system_dependencies.spec_get(c) == access);
            }
            match self.current_dependencies.get(&component) {
                None => {},
                Some(ownership) => {
                    proof {
                        self.current_dependencies.lemma_pos_valid(c);
                        let p = self.current_dependencies.pos_of(c);
                        self.current_dependencies.lemma_pos_unique(p);
                        assert(self.spec_ownerships().entries()[p]
                            == self.spec_ownerships().spec_at(c));
                        assert(ownership_nodes_ok(*ownership, node as int));
                        assert(*ownership == self.spec_ownerships().spec_get(c));
                    }
                    match access {
                        AccessMode::Write => {
                            if ownership.last_accessing.len() > 0 {
                                let readers = ownership.last_accessing.len();
                                let mut k: usize = 0;
                                while k < readers
                                    invariant
                                        self.spec_ownerships().wf(),
                                        system_dependencies.wf(),
                                        n == system_dependencies.spec_len(),
                                        0 <= i < n,
                                        readers == ownership.last_accessing@.len(),
                                        k <= readers,
                                        ownership_nodes_ok(*ownership, node as int),
                                        self.spec_ownerships().spec_contains(c),
                                        *ownership == self.spec_ownerships()
                                            .spec_get(c),
                                        c == system_dependencies.key_seq()[i as int],
                                        component.spec_index() == c,
                                        system_dependencies.spec_contains(c),
                                        system_dependencies.spec_get(c)
                                            == AccessMode::Write,
                                        forall|i2: int| 0 <= i2 < out@.len() ==> {
                                            &&& 1 <= (#[trigger] out@[i2]).0 < node
                                            &&& forall|j: int|
                                                0 <= j < out@[i2].1.changes@.len()
                                                    ==> self.spec_ownerships()
                                                        .spec_contains(
                                                        (#[trigger] out@[i2].1
                                                            .changes@[j]).component
                                                            .spec_index(),
                                                    )
                                        },
                                        forall|i1: int, i2: int|
                                            0 <= i1 < out@.len() && 0 <= i2 < out@.len()
                                                && i1 != i2
                                                ==> (#[trigger] out@[i1]).0
                                                    != (#[trigger] out@[i2]).0,
                                        forall|i2: int| 0 <= i2 < out@.len()
                                            ==> (#[trigger] out@[i2]).1.changes@.len()
                                                >= 1,
                                        forall|pred: usize, c2: int, m: AccessMode|
                                            #[trigger] has_change(out@, pred, c2, m)
                                                ==> {
                                                &&& system_dependencies.spec_contains(
                                                    c2)
                                                &&& system_dependencies.spec_get(c2)
                                                    == m
                                                &&& self.spec_ownerships()
                                                    .spec_contains(c2)
                                                &&& 1 <= pred < node
                                                &&& (m == AccessMode::Write
                                                    && self.spec_ownerships()
                                                        .spec_get(c2)
                                                        .last_accessing@.len() > 0
                                                    ==> self.spec_ownerships()
                                                        .spec_get(c2)
                                                        .last_accessing@
                                                        .contains(pred))
                                                &&& (m == AccessMode::Write
                                                    && self.spec_ownerships()
                                                        .spec_get(c2)
                                                        .last_accessing@.len() == 0
                                                    ==> self.spec_ownerships()
                                                        .spec_get(c2).last_writing
                                                        == Some(pred))
                                                &&& (m == AccessMode::Read
                                                    ==> self.spec_ownerships()
                                                        .spec_get(c2).last_writing
                                                        == Some(pred))
                                            },
                                        forall|jj: int| 0 <= jj < i as int ==> {
                                            let c2 = #[trigger] system_dependencies
                                                .key_seq()[jj];
                                            self.spec_ownerships().spec_contains(c2)
                                                ==> {
                                                let own = self.spec_ownerships()
                                                    .spec_get(c2);
                                                &&& (system_dependencies.spec_get(c2)
                                                    == AccessMode::Write
                                                    && own.last_accessing@.len() > 0
                                                    ==> forall|k2: int|
                                                        0 <= k2 < own.last_accessing@
                                                            .len()
                                                            ==> has_change(
                                                            out@,
                                                            #[trigger] own
                                                                .last_accessing@[k2],
                                                            c2,
                                                            AccessMode::Write,
                                                        ))
                                                &&& (system_dependencies.spec_get(c2)
                                                    == AccessMode::Write
                                                    && own.last_accessing@.len() == 0
                                                    ==> (own.last_writing
                                                        matches Some(w)
                                                        ==> has_change(
                                                        out@,
                                                        w,
                                                        c2,
                                                        AccessMode::Write,
                                                    )))
                                                &&& (system_dependencies.spec_get(c2)
                                                    == AccessMode::Read
                                                    ==> (own.last_writing
                                                        matches Some(w)
                                                        ==> has_change(
                                                        out@,
                                                        w,
                                                        c2,
                                                        AccessMode::Read,
                                                    )))
                                            }
                                        },
                                        forall|k2: int| 0 <= k2 < k as int
                                            ==> has_change(
                                                out@,
                                                #[trigger] ownership
                                                    .last_accessing@[k2],
                                                c,
                                                AccessMode::Write,
                                            ),
                                    decreases readers - k,
                                {
                                    let reader = ownership.last_accessing[k];
                                    proof {
                                        assert(ownership.last_accessing@
                                            .contains(reader));
                                    }
                                    Self::push_change(
                                        &mut out,
                                        reader,
                                        component,
                                        AccessMode::Write,
                                        Ghost(*self),
                                        Ghost(node as int),
                                    );
                                    k = k + 1;
                                }
                            } else {
                                match ownership.last_writing {
                                    Some(writer) => {
                                        Self::push_change(
                                            &mut out,
                                            writer,
                                            component,
                                            AccessMode::Write,
                                            Ghost(*self),
                                            Ghost(node as int),
                                        );
                                    },
                                    None => {},
                                }
                            }
                        },
                        AccessMode::Read => {
                            match ownership.last_writing {
                                Some(writer) => {
                                    Self::push_change(
                                        &mut out,
                                        writer,
                                        component,
                                        AccessMode::Read,
                                        Ghost(*self),
                                        Ghost(node as int),
                                    );
                                },
                                None => {},
                            }
                        },
                    }
                },
            }
            i = i + 1;
        }
        out
    }

    /// Records that the new system must wait for `owner` with the given
    /// transition, merging with an already recorded edge to `owner`.
    fn push_change(
        out: &mut Vec<(usize, SystemGraphEdge)>,
        owner: usize,
        component: ComponentId,
        mode: AccessMode,
        Ghost(sched): Ghost<GraphScheduler>,
        Ghost(bound): Ghost<int>,
    )
        requires
            1 <= owner < bound,
            sched.spec_ownerships().spec_contains(component.spec_index()),
            forall|i: int| 0 <= i < old(out)@.len() ==> {
                &&& 1 <= (#[trigger] old(out)@[i]).0 < bound
                &&& forall|j: int| 0 <= j < old(out)@[i].1.changes@.len()
                    ==> sched.spec_ownerships().spec_contains(
                        (#[trigger] old(out)@[i].1.changes@[j]).component.spec_index(),
                    )
            },
            forall|i1: int, i2: int|
                0 <= i1 < old(out)@.len() && 0 <= i2 < old(out)@.len() && i1 != i2
                    ==> (#[trigger] old(out)@[i1]).0 != (#[trigger] old(out)@[i2]).0,
            forall|i: int| 0 <= i < old(out)@.len()
                ==> (#[trigger] old(out)@[i]).1.changes@.len() >= 1,
        ensures
            forall|i: int| 0 <= i < final(out)@.len()
                ==> (#[trigger] final(out)@[i]).1.changes@.len() >= 1,
            forall|i: int| 0 <= i < final(out)@.len() ==> {
                &&& 1 <= (#[trigger] final(out)@[i]).0 < bound
                &&& forall|j: int| 0 <= j < final(out)@[i].1.changes@.len()
                    ==> sched.spec_ownerships().spec_contains(
                        (#[trigger] final(out)@[i].1.changes@[j]).component.spec_index(),
                    )
            },
            forall|i1: int, i2: int|
                0 <= i1 < final(out)@.len() && 0 <= i2 < final(out)@.len() && i1 != i2
                    ==> (#[trigger] final(out)@[i1]).0 != (#[trigger] final(out)@[i2]).0,
            final(out)@.len() >= 1,
            forall|pred: usize, c: int, m: AccessMode|
                #[trigger] has_change(final(out)@, pred, c, m)
                    <==> has_change(old(out)@, pred, c, m)
                        || (pred == owner && c == component.spec_index() && m == mode),
    {
        let n = out.len();
        let mut i: usize = 0;
        while i < n
            invariant
                n == out@.len(),
                i <= n,
                out@ == old(out)@,
                forall|i2: int| 0 <= i2 < out@.len()
                    ==> (#[trigger] out@[i2]).1.changes@.len() >= 1,
                1 <= owner < bound,
                sched.spec_ownerships().spec_contains(component.spec_index()),
                forall|i2: int| 0 <= i2 < out@.len() ==> {
                    &&& 1 <= (#[trigger] out@[i2]).0 < bound
                    &&& forall|j: int| 0 <= j < out@[i2].1.changes@.len()
                        ==> sched.spec_ownerships().spec_contains(
                            (#[trigger] out@[i2].1.changes@[j]).component.spec_index(),
                        )
                },
                forall|i1: int, i2: int|
                    0 <= i1 < out@.len() && 0 <= i2 < out@.len() && i1 != i2
                        ==> (#[trigger] out@[i1]).0 != (#[trigger] out@[i2]).0,
                forall|i2: int| 0 <= i2 < i as int
                    ==> (#[trigger] out@[i2]).0 != owner,
            decreases n - i,
        {
            if out[i].0 == owner {
                let ghost before = out@;
                let entry = &mut out[i];
                entry.1.changes.push(SystemGraphChange {
                    component,
                    new_access_mode: mode,
                });
                proof {
                    assert forall|i2: int| 0 <= i2 < out@.len() implies {
                        &&& 1 <= (#[trigger] out@[i2]).0 < bound
                        &&& forall|j: int| 0 <= j < out@[i2].1.changes@.len()
                            ==> sched.spec_ownerships().spec_contains(
                                (#[trigger] out@[i2].1.changes@[j]).component
                                    .spec_index(),
                            )
                    } by {
                        if i2 != i as int {
                            assert(out@[i2] == before[i2]);
                        } else {
                            assert(out@[i2].0 == before[i2].0);
                            assert forall|j: int| 0 <= j < out@[i2].1.changes@.len()
                                implies sched.spec_ownerships().spec_contains(
                                    (#[trigger] out@[i2].1.changes@[j]).component
                                        .spec_index(),
                                ) by {
                                if j < before[i2].1.changes@.len() {
                                    assert(out@[i2].1.changes@[j]
                                        == before[i2].1.changes@[j]);
                                }
                            }
                        }
                    }
                    assert forall|i1: int, i2: int|
                        0 <= i1 < out@.len() && 0 <= i2 < out@.len() && i1 != i2
                        implies (#[trigger] out@[i1]).0 != (#[trigger] out@[i2]).0 by {
                        assert(out@[i1].0 == before[i1].0);
                        assert(out@[i2].0 == before[i2].0);
                    }
                    assert forall|pred: usize, c: int, m: AccessMode|
                        #[trigger] has_change(out@, pred, c, m)
                        implies has_change(before, pred, c, m)
                            || (pred == owner && c == component.spec_index()
                                && m == mode) by {
                        let (i2, j2) = choose|i2: int, j2: int|
                            0 <= i2 < out@.len() && 0 <= j2 < out@[i2].1.changes@.len()
                                && (#[trigger] out@[i2].1.changes@[j2]).component
                                    .spec_index() == c
                                && out@[i2].1.changes@[j2].new_access_mode == m
                                && out@[i2].0 == pred;
                        if i2 == i as int && j2 == before[i2].1.changes@.len() {
                        } else {
                            if i2 == i as int {
                                assert(out@[i2].1.changes@[j2]
                                    == before[i2].1.changes@[j2]);
                                assert(out@[i2].0 == before[i2].0);
                            } else {
                                assert(out@[i2] == before[i2]);
                            }
                            assert(has_change(before, pred, c, m));
                        }
                    }
                    assert forall|pred: usize, c: int, m: AccessMode|
                        has_change(before, pred, c, m)
                            || (pred == owner && c == component.spec_index()
                                && m == mode)
                        implies #[trigger] has_change(out@, pred, c, m) by {
                        if has_change(before, pred, c, m) {
                            let (i2, j2) = choose|i2: int, j2: int|
                                0 <= i2 < before.len()
                                    && 0 <= j2 < before[i2].1.changes@.len()
                                    && (#[trigger] before[i2].1.changes@[j2])
                                        .component.spec_index() == c
                                    && before[i2].1.changes@[j2].new_access_mode == m
                                    && before[i2].0 == pred;
                            if i2 == i as int {
                                assert(out@[i2].1.changes@[j2]
                                    == before[i2].1.changes@[j2]);
                            } else {
                                assert(out@[i2] == before[i2]);
                            }
                            assert(out@[i2].1.changes@[j2].component.spec_index() == c
                                && out@[i2].1.changes@[j2].new_access_mode == m
                                && out@[i2].0 == pred);
                        } else {
                            let j2 = out@[i as int].1.changes@.len() - 1;
                            assert(out@[i as int].1.changes@[j2]
                                == SystemGraphChange {
                                component,
                                new_access_mode: mode,
                            });
                        }
                    }
                }
                return ;
            }
            i = i + 1;
        }
        let ghost before = out@;
        let mut changes: Vec<SystemGraphChange> = Vec::new();
        changes.push(SystemGraphChange { component, new_access_mode: mode });
        out.push((owner, SystemGraphEdge { changes }));
        proof {
            assert forall|pred: usize, c: int, m: AccessMode|
                #[trigger] has_change(out@, pred, c, m)
                implies has_change(before, pred, c, m)
                    || (pred == owner && c == component.spec_index() && m == mode) by {
                let (i2, j2) = choose|i2: int, j2: int|
                    0 <= i2 < out@.len() && 0 <= j2 < out@[i2].1.changes@.len()
                        && (#[trigger] out@[i2].1.changes@[j2]).component
                            .spec_index() == c
                        && out@[i2].1.changes@[j2].new_access_mode == m
                        && out@[i2].0 == pred;
                if i2 < before.len() {
                    assert(out@[i2] == before[i2]);
                    assert(has_change(before, pred, c, m));
                }
            }
            assert forall|pred: usize, c: int, m: AccessMode|
                has_change(before, pred, c, m)
                    || (pred == owner && c == component.spec_index() && m == mode)
                implies #[trigger] has_change(out@, pred, c, m) by {
                if has_change(before, pred, c, m) {
                    let (i2, j2) = choose|i2: int, j2: int|
                        0 <= i2 < before.len() && 0 <= j2 < before[i2].1.changes@.len()
                            && (#[trigger] before[i2].1.changes@[j2]).component
                                .spec_index() == c
                            && before[i2].1.changes@[j2].new_access_mode == m
                            && before[i2].0 == pred;
                    assert(out@[i2] == before[i2]);
                    assert(out@[i2].1.changes@[j2].component.spec_index() == c
                        && out@[i2].1.changes@[j2].new_access_mode == m
                        && out@[i2].0 == pred);
                } else {
                    let i2 = out@.len() - 1;
                    assert(out@[i2].1.changes@[0]
                        == SystemGraphChange { component, new_access_mode: mode });
                    assert(out@[i2].0 == owner);
                }
            }
            assert forall|i1: int, i2: int|
                0 <= i1 < out@.len() && 0 <= i2 < out@.len() && i1 != i2
                implies (#[trigger] out@[i1]).0 != (#[trigger] out@[i2]).0 by {
                if i1 < before.len() && i2 < before.len() {
                    assert(out@[i1] == before[i1]);
                    assert(out@[i2] == before[i2]);
                } else if i1 < before.len() {
                    assert(out@[i1] == before[i1]);
                    assert(out@[i2].0 == owner);
                } else {
                    assert(out@[i1].0 == owner);
                    assert(out@[i2] == before[i2]);
                }
            }
        }
    }

    /// Adds the computed dependency edges of a new system: one edge from
    /// each recorded owner it must wait for.
    fn place_system_dependencies(
        &mut self,
        node_dependencies: Vec<(usize, SystemGraphEdge)>,
        node: usize,
    )
        requires
            old(self).spec_root() == 0,
            node >= 1,
            (node as int) + 1 == old(self).spec_n(),
            node_dependencies@.len() >= 1,
            forall|i: int| 0 <= i < node_dependencies@.len()
                ==> 1 <= (#[trigger] node_dependencies@[i]).0 < node,
            forall|e: (usize, usize)| #[trigger] old(self).spec_edges().contains(e)
                ==> e.0 < e.1 < node,
        ensures
            final(self).spec_root() == 0,
            final(self).spec_lb() == old(self).spec_lb(),
            final(self).spec_n() == old(self).spec_n(),
            final(self).systems == old(self).systems,
            final(self).spec_ownerships() == old(self).spec_ownerships(),
            forall|e: (usize, usize)| old(self).spec_edges().contains(e)
                ==> #[trigger] final(self).spec_edges().contains(e),
            forall|e: (usize, usize)| #[trigger] final(self).spec_edges().contains(e)
                ==> old(self).spec_edges().contains(e) || (e.1 == node && e.0 < node),
            node_has_in_edge(final(self).spec_edges(), node),
            forall|i: int| 0 <= i < node_dependencies@.len()
                ==> #[trigger] final(self).spec_edges().contains((
                    node_dependencies@[i].0,
                    node,
                )),
            forall|e: (usize, usize)| #[trigger] final(self).spec_edges().contains(e)
                    && !old(self).spec_edges().contains(e)
                ==> exists|i: int| 0 <= i < node_dependencies@.len()
                    && e == (#[trigger] node_dependencies@[i].0, node),
    {
        let ghost pre = *self;
        let ghost nd = node_dependencies@;
        let n = node_dependencies.len();
        let mut i: usize = 0;
        while i < n
            invariant
                nd == node_dependencies@,
                n == nd.len(),
                n >= 1,
                i <= n,
                node >= 1,
                (node as int) + 1 == self.spec_n(),
                self.spec_n() == pre.spec_n(),
                self.systems == pre.systems,
                self.root_node_idx == pre.root_node_idx,
                self.last_barrier_idx == pre.last_barrier_idx,
                self.current_dependencies == pre.current_dependencies,
                forall|i2: int| 0 <= i2 < nd.len()
                    ==> 1 <= (#[trigger] nd[i2]).0 < node,
                forall|e: (usize, usize)| pre.spec_edges().contains(e)
                    ==> #[trigger] self.spec_edges().contains(e),
                forall|e: (usize, usize)| #[trigger] self.spec_edges().contains(e)
                    ==> pre.spec_edges().contains(e) || (e.1 == node && e.0 < node),
                forall|i2: int| 0 <= i2 < i as int
                    ==> #[trigger] self.spec_edges().contains((nd[i2].0, node)),
                forall|e: (usize, usize)| #[trigger] self.spec_edges().contains(e)
                        && !pre.spec_edges().contains(e)
                    ==> exists|i2: int| 0 <= i2 < nd.len()
                        && e == (#[trigger] nd[i2].0, node),
                i > 0 ==> node_has_in_edge(self.spec_edges(), node),
            decreases n - i,
        {
            let owner = node_dependencies[i].0;
            let ghost before_edge = *self;
            graph_add_edge(&mut self.graph, owner, node, 0);
            proof {
                assert(self.spec_edges().contains((owner, node)));
                assert(node_has_in_edge(self.spec_edges(), node));
                assert forall|e: (usize, usize)| pre.spec_edges().contains(e)
                    implies #[trigger] self.spec_edges().contains(e) by {
                    assert(before_edge.spec_edges().contains(e));
                }
                assert forall|e: (usize, usize)| #[trigger] self.spec_edges().contains(e)
                    implies pre.spec_edges().contains(e) || (e.1 == node && e.0 < node)
                    by {
                    if e != (owner, node) {
                        assert(before_edge.spec_edges().contains(e));
                    }
                }
                assert forall|i2: int| 0 <= i2 < i as int + 1
                    implies #[trigger] self.spec_edges().contains((nd[i2].0, node))
                    by {
                    if i2 < i as int {
                        assert(before_edge.spec_edges().contains((nd[i2].0, node)));
                    }
                }
                assert forall|e: (usize, usize)|
                    #[trigger] self.spec_edges().contains(e)
                        && !pre.spec_edges().contains(e)
                    implies exists|i2: int| 0 <= i2 < nd.len()
                        && e == (#[trigger] nd[i2].0, node) by {
                    if e == (owner, node) {
                        assert(e == (nd[i as int].0, node));
                    } else {
                        assert(before_edge.spec_edges().contains(e));
                    }
                }
            }
            i = i + 1;
        }
    }

    /// Records the new system as the latest owner of every component it
    /// mentions: a write captures the component (its readers are cleared
    /// and the new node becomes the last writer), a read joins the
    /// recorded readers, and a component seen for the first time gets a
    /// fresh record.
    fn update_ownerships(
        &mut self,
        system_dependencies: &SparseSet<ComponentId, AccessMode>,
        node: usize,
    )
        requires
            node >= 1,
            (node as int) < old(self).spec_n(),
            system_dependencies.wf(),
            forall|j: int| 0 <= j < system_dependencies.spec_len()
                ==> 0 <= #[trigger] system_dependencies.key_seq()[j] < usize::MAX,
            old(self).spec_ownerships().wf(),
            forall|i: int| 0 <= i < old(self).spec_ownerships().spec_len()
                ==> ownership_nodes_ok(
                    (#[trigger] old(self).spec_ownerships().entries()[i]).1,
                    node as int,
                ),
        ensures
            final(self).spec_root() == old(self).spec_root(),
            final(self).spec_lb() == old(self).spec_lb(),
            final(self).spec_n() == old(self).spec_n(),
            final(self).systems == old(self).systems,
            final(self).spec_graph() == old(self).spec_graph(),
            final(self).spec_ownerships().wf(),
            forall|i: int| 0 <= i < final(self).spec_ownerships().spec_len()
                ==> ownership_nodes_ok(
                    (#[trigger] final(self).spec_ownerships().entries()[i]).1,
                    node as int + 1,
                ),
            forall|c: int| #[trigger] final(self).spec_ownerships().spec_contains(c)
                <==> old(self).spec_ownerships().spec_contains(c)
                    || system_dependencies.spec_contains(c),
            forall|c: int| #[trigger] system_dependencies.spec_contains(c) ==> {
                let own = final(self).spec_ownerships().spec_get(c);
                &&& own.access_mode == system_dependencies.spec_get(c)
                &&& (system_dependencies.spec_get(c) == AccessMode::Write
                    ==> own.last_writing == Some(node)
                        && own.last_accessing@.len() == 0)
                &&& (system_dependencies.spec_get(c) == AccessMode::Read
                        && old(self).spec_ownerships().spec_contains(c)
                    ==> own.last_writing
                        == old(self).spec_ownerships().spec_get(c).last_writing
                        && (forall|v: usize| #[trigger] own.last_accessing@.contains(v)
                            <==> old(self).spec_ownerships().spec_get(c)
                                .last_accessing@.contains(v) || v == node))
                &&& (system_dependencies.spec_get(c) == AccessMode::Read
                        && !old(self).spec_ownerships().spec_contains(c)
                    ==> own.last_writing is None
                        && own.last_accessing@ =~= seq![node])
            },
            forall|c: int| old(self).spec_ownerships().spec_contains(c)
                    && !system_dependencies.spec_contains(c)
                ==> #[trigger] final(self).spec_ownerships().spec_get(c)
                    == old(self).spec_ownerships().spec_get(c),
    {
        let ghost pre = *self;
        let n = system_dependencies.len();
        let mut i: usize = 0;
        while i < n
            invariant
                n == system_dependencies.spec_len(),
                system_dependencies.wf(),
                forall|j: int| 0 <= j < system_dependencies.spec_len()
                    ==> 0 <= #[trigger] system_dependencies.key_seq()[j] < usize::MAX,
                i <= n,
                node >= 1,
                self.spec_n() == pre.spec_n(),
                self.systems == pre.systems,
                self.root_node_idx == pre.root_node_idx,
                self.last_barrier_idx == pre.last_barrier_idx,
                self.graph == pre.graph,
                self.current_dependencies.wf(),
                forall|i2: int| 0 <= i2 < self.spec_ownerships().spec_len()
                    ==> ownership_nodes_ok(
                        (#[trigger] self.spec_ownerships().entries()[i2]).1,
                        node as int + 1,
                    ),
                forall|c: int| #[trigger] self.spec_ownerships().spec_contains(c)
                    <==> pre.spec_ownerships().spec_contains(c)
                        || system_dependencies.key_seq().take(i as int).contains(c),
                forall|c: int|
                    #[trigger] system_dependencies.key_seq().take(i as int)
                        .contains(c) ==> {
                        let own = self.spec_ownerships().spec_get(c);
                        &&& own.access_mode == system_dependencies.spec_get(c)
                        &&& (system_dependencies.spec_get(c) == AccessMode::Write
                            ==> own.last_writing == Some(node)
                                && own.last_accessing@.len() == 0)
                        &&& (system_dependencies.spec_get(c) == AccessMode::Read
                                && pre.spec_ownerships().spec_contains(c)
                            ==> own.last_writing
                                == pre.spec_ownerships().spec_get(c).last_writing
                                && (forall|v: usize|
                                    #[trigger] own.last_accessing@.contains(v)
                                    <==> pre.spec_ownerships().spec_get(c)
                                        .last_accessing@.contains(v) || v == node))
                        &&& (system_dependencies.spec_get(c) == AccessMode::Read
                                && !pre.spec_ownerships().spec_contains(c)
                            ==> own.last_writing is None
                                && own.last_accessing@ =~= seq![node])
                    },
                forall|c: int| pre.spec_ownerships().spec_contains(c)
                        && !system_dependencies.key_seq().take(i as int).contains(c)
                    ==> #[trigger] self.spec_ownerships().spec_get(c)
                        == pre.spec_ownerships().spec_get(c),
            decreases n - i,
        {
            let component = system_dependencies.key_at(i);
            let access = *system_dependencies.value_at(i);
            let ghost c = component.spec_index();
            proof {
                system_dependencies.lemma_pos_unique(i as int);
                assert(system_dependencies.spec_get(c) == access);
            }
            let ghost snap = *self;
            let ghost mut new_own: GraphResourceOwnership =
                vstd::pervasive::arbitrary();
            match access {
                AccessMode::Write => {
                    let own = GraphResourceOwnership {
                        access_mode: AccessMode::Write,
                        last_writing: Some(node),
                        last_accessing: Vec::new(),
                    };
                    proof {
                        new_own = own;
                    }
                    self.current_dependencies.insert(component, own);
                },
                AccessMode::Read => {
                    let has = self.current_dependencies.contains(&component);
                    if has {
                        let dep = self.current_dependencies.get_mut(component);
                        dep.last_accessing.push(node);
                        dep.access_mode = AccessMode::Read;
                    } else {
                        let mut last_accessing: Vec<usize> = Vec::new();
                        last_accessing.push(node);
                        let own = GraphResourceOwnership {
                            access_mode: AccessMode::Read,
                            last_writing: None,
                            last_accessing,
                        };
                        proof {
                            new_own = own;
                        }
                        self.current_dependencies.insert(component, own);
                    }
                },
            }
            proof {
                let had = snap.spec_ownerships().spec_contains(c);
                if had {
                    snap.spec_ownerships().lemma_pos_valid(c);
                }
                let pz = snap.current_dependencies.pos_of(c);
                // the touched record and the node bound of every record
                if access == AccessMode::Read && had {
                    let e = self.current_dependencies.entries()[pz];
                    assert(e.0.spec_index() == c);
                    SparseSet::lemma_update_at(
                        snap.current_dependencies,
                        self.current_dependencies,
                        c,
                        e,
                    );
                    assert(self.current_dependencies.spec_get(c) == e.1);
                    assert(self.spec_ownerships().spec_get(c).last_accessing@
                        == snap.spec_ownerships().spec_get(c).last_accessing@
                            .push(node));
                    assert(self.spec_ownerships().spec_get(c).last_writing
                        == snap.spec_ownerships().spec_get(c).last_writing);
                } else {
                    assert(self.spec_ownerships().spec_get(c) == new_own);
                }
                assert forall|i2: int| 0 <= i2 < self.spec_ownerships().spec_len()
                    implies ownership_nodes_ok(
                        (#[trigger] self.spec_ownerships().entries()[i2]).1,
                        node as int + 1,
                    ) by {
                    if had && i2 == pz {
                        let own2 = self.spec_ownerships().entries()[i2].1;
                        let old_own = snap.spec_ownerships().entries()[i2].1;
                        assert(ownership_nodes_ok(old_own, node as int + 1));
                        if access == AccessMode::Read {
                            assert forall|j2: int|
                                0 <= j2 < own2.last_accessing@.len()
                                implies 1 <= #[trigger] own2.last_accessing@[j2]
                                    < node as int + 1 by {
                                if j2 < old_own.last_accessing@.len() {
                                    assert(own2.last_accessing@[j2]
                                        == old_own.last_accessing@[j2]);
                                }
                            }
                        }
                    } else if !had && i2 == snap.spec_ownerships().spec_len() {
                        assert(self.spec_ownerships().entries()[i2].1 == new_own);
                    } else {
                        assert(self.spec_ownerships().entries()[i2]
                            == snap.spec_ownerships().entries()[i2]);
                        assert(ownership_nodes_ok(
                            snap.spec_ownerships().entries()[i2].1,
                            node as int + 1,
                        ));
                    }
                }
                // the tracked set and the untouched records
                assert forall|c2: int|
                    #[trigger] self.spec_ownerships().spec_contains(c2)
                    implies pre.spec_ownerships().spec_contains(c2)
                        || system_dependencies.key_seq().take(i as int + 1)
                            .contains(c2) by {
                    if c2 == c {
                        assert(system_dependencies.key_seq().take(
                            i as int + 1)[i as int] == c);
                    } else {
                        assert(snap.spec_ownerships().spec_contains(c2));
                        if system_dependencies.key_seq().take(i as int).contains(c2) {
                            let jx = choose|jx: int| 0 <= jx < i as int
                                && #[trigger] system_dependencies.key_seq().take(
                                i as int)[jx] == c2;
                            assert(system_dependencies.key_seq().take(
                                i as int + 1)[jx] == c2);
                        }
                    }
                }
                assert forall|c2: int|
                    pre.spec_ownerships().spec_contains(c2)
                        || system_dependencies.key_seq().take(i as int + 1)
                            .contains(c2)
                    implies #[trigger] self.spec_ownerships().spec_contains(c2) by {
                    if c2 == c {
                        assert(self.spec_ownerships().spec_contains(c));
                    } else if system_dependencies.key_seq().take(i as int + 1)
                        .contains(c2) {
                        let jx = choose|jx: int| 0 <= jx < i as int + 1
                            && #[trigger] system_dependencies.key_seq().take(
                            i as int + 1)[jx] == c2;
                        assert(jx < i as int);
                        assert(system_dependencies.key_seq().take(i as int)[jx]
                            == c2);
                        assert(snap.spec_ownerships().spec_contains(c2));
                    } else {
                        assert(snap.spec_ownerships().spec_contains(c2));
                    }
                }
                assert forall|c2: int|
                    pre.spec_ownerships().spec_contains(c2)
                        && !system_dependencies.key_seq().take(i as int + 1)
                            .contains(c2)
                    implies #[trigger] self.spec_ownerships().spec_get(c2)
                        == pre.spec_ownerships().spec_get(c2) by {
                    assert(c2 != c) by {
                        assert(system_dependencies.key_seq().take(
                            i as int + 1)[i as int] == c);
                    }
                    assert(!system_dependencies.key_seq().take(i as int)
                        .contains(c2)) by {
                        if system_dependencies.key_seq().take(i as int)
                            .contains(c2) {
                            let jx = choose|jx: int| 0 <= jx < i as int
                                && #[trigger] system_dependencies.key_seq().take(
                                i as int)[jx] == c2;
                            assert(system_dependencies.key_seq().take(
                                i as int + 1)[jx] == c2);
                        }
                    }
                    assert(snap.spec_ownerships().spec_contains(c2));
                    assert(self.spec_ownerships().spec_get(c2)
                        == snap.spec_ownerships().spec_get(c2));
                }
                // the already handled components keep their new records
                assert forall|c2: int|
                    #[trigger] system_dependencies.key_seq().take(i as int + 1)
                        .contains(c2)
                    implies ({
                        let own2 = self.spec_ownerships().spec_get(c2);
                        &&& own2.access_mode == system_dependencies.spec_get(c2)
                        &&& (system_dependencies.spec_get(c2) == AccessMode::Write
                            ==> own2.last_writing == Some(node)
                                && own2.last_accessing@.len() == 0)
                        &&& (system_dependencies.spec_get(c2) == AccessMode::Read
                                && pre.spec_ownerships().spec_contains(c2)
                            ==> own2.last_writing
                                == pre.spec_ownerships().spec_get(c2).last_writing
                                && (forall|v: usize|
                                    #[trigger] own2.last_accessing@.contains(v)
                                    <==> pre.spec_ownerships().spec_get(c2)
                                        .last_accessing@.contains(v) || v == node))
                        &&& (system_dependencies.spec_get(c2) == AccessMode::Read
                                && !pre.spec_ownerships().spec_contains(c2)
                            ==> own2.last_writing is None
                                && own2.last_accessing@ =~= seq![node])
                    }) by {
                    if c2 != c {
                        let jx = choose|jx: int| 0 <= jx < i as int + 1
                            && #[trigger] system_dependencies.key_seq().take(
                            i as int + 1)[jx] == c2;
                        assert(jx < i as int);
                        assert(system_dependencies.key_seq().take(i as int)[jx]
                            == c2);
                        assert(self.spec_ownerships().spec_get(c2)
                            == snap.spec_ownerships().spec_get(c2)) by {
                            assert(snap.spec_ownerships().spec_contains(c2));
                        }
                    } else {
                        assert(!system_dependencies.key_seq().take(i as int)
                            .contains(c)) by {
                            if system_dependencies.key_seq().take(i as int)
                                .contains(c) {
                                let jx = choose|jx: int| 0 <= jx < i as int
                                    && #[trigger] system_dependencies.key_seq()
                                        .take(i as int)[jx] == c;
                                assert(system_dependencies.key_seq()[jx] == c);
                                system_dependencies.lemma_keys_distinct();
                            }
                        }
                        if pre.spec_ownerships().spec_contains(c) {
                            assert(snap.spec_ownerships().spec_get(c)
                                == pre.spec_ownerships().spec_get(c));
                        }
                        assert(had == pre.spec_ownerships().spec_contains(c));
                        if access == AccessMode::Read && had {
                            let acc = self.spec_ownerships().spec_get(c)
                                .last_accessing@;
                            let old_acc = pre.spec_ownerships().spec_get(c)
                                .last_accessing@;
                            assert(snap.spec_ownerships().spec_get(c)
                                == pre.spec_ownerships().spec_get(c));
                            assert(acc == old_acc.push(node));
                            assert forall|v: usize| #[trigger] acc.contains(v)
                                implies old_acc.contains(v) || v == node by {
                                let vj = choose|vj: int| 0 <= vj < acc.len()
                                    && acc[vj] == v;
                                if vj < old_acc.len() {
                                    assert(old_acc[vj] == v);
                                }
                            }
                            assert forall|v: usize| old_acc.contains(v) || v == node
                                implies #[trigger] acc.contains(v) by {
                                if v == node {
                                    assert(acc[acc.len() - 1] == node);
                                } else {
                                    let vj = choose|vj: int| 0 <= vj < old_acc.len()
                                        && old_acc[vj] == v;
                                    assert(acc[vj] == v);
                                }
                            }
                        }
                    }
                }
            }
            i = i + 1;
        }
        proof {
            assert(system_dependencies.key_seq().take(n as int)
                =~= system_dependencies.key_seq());
        }
    }

    /// Produces the execution plan by topological layering: the depth of a
    /// system node is one past the deepest system it waits for, and group
    /// `g` holds exactly the nodes of depth `g + 1`. Every edge crosses
    /// strictly forward over groups, so the systems of one group have no
    /// dependency between any two of them. With no systems, the plan is
    /// empty.
    #[verifier::rlimit(50)]
    pub fn compute_schedule(&self) -> (r: Schedules)
        requires
            self.wf(),
        ensures
            exists|depth: Seq<int>| #[trigger] layering_ok(
                self.spec_edges(),
                self.spec_n(),
                depth,
                r.spec_groups(),
            ),
            forall|g: int| 0 <= g < r.spec_groups().len()
                ==> (#[trigger] r.spec_groups()[g]).len() > 0,
            self.spec_systems().len() == 0 ==> r.spec_groups().len() == 0,
    {
        let n = graph_node_count(&self.graph);
        let mut depth: Vec<usize> = Vec::new();
        depth.push(0);
        let mut node: usize = 1;
        while node < n
            invariant
                self.wf(),
                n == self.spec_n(),
                1 <= node <= n,
                depth@.len() == node,
                depth@[0] == 0,
                forall|i: int| 1 <= i < node as int ==> 1 <= #[trigger] depth@[i] <= i,
                forall|e: (usize, usize)| #[trigger] self.spec_edges().contains(e)
                    && (e.1 as int) < node as int
                    ==> depth@[e.0 as int] < depth@[e.1 as int],
                forall|i: usize| 1 <= i < node
                    ==> #[trigger] depth@[i as int] >= 1 && exists|p: usize|
                        #[trigger] self.spec_edges().contains((p, i))
                        && depth@[i as int] == depth@[p as int] + 1,
            decreases n - node,
        {
            let parents = graph_parents(&self.graph, node);
            let mut d: usize = 0;
            let mut best: usize = 0;
            let mut found = false;
            let m = parents.len();
            let mut k: usize = 0;
            proof {
                assert(node_has_in_edge(self.spec_edges(), node));
                let p = choose|p: usize|
                    #[trigger] self.spec_edges().contains((p, node));
                assert(parents@.contains(p));
            }
            while k < m
                invariant
                    self.wf(),
                    n == self.spec_n(),
                    1 <= node < n,
                    depth@.len() == node,
                    forall|i: int| 1 <= i < node as int
                        ==> 1 <= #[trigger] depth@[i] <= i,
                    depth@[0] == 0,
                    m == parents@.len(),
                    k <= m,
                    forall|s: usize| #[trigger] parents@.contains(s)
                        <==> self.spec_edges().contains((s, node)),
                    found ==> {
                        &&& self.spec_edges().contains((best, node))
                        &&& (best as int) < node as int
                        &&& d == depth@[best as int] + 1
                    },
                    found == false ==> k == 0,
                    forall|k2: int| 0 <= k2 < k as int
                        ==> depth@[(#[trigger] parents@[k2]) as int] + 1 <= d,
                decreases m - k,
            {
                let p = parents[k];
                proof {
                    assert(parents@.contains(parents@[k as int]));
                    assert(self.spec_edges().contains((p, node)));
                    assert((p as int) < node as int);
                }
                let candidate = depth[p] + 1;
                if found == false || candidate > d {
                    d = candidate;
                    best = p;
                    found = true;
                }
                k = k + 1;
            }
            proof {
                if found == false {
                    let p = choose|p: usize|
                        #[trigger] self.spec_edges().contains((p, node));
                    assert(parents@.contains(p));
                    let k2 = choose|k2: int|
                        0 <= k2 < parents@.len() && parents@[k2] == p;
                    assert(false);
                }
            }
            let ghost depth0 = depth@;
            depth.push(d);
            proof {
                assert(depth@[node as int] == d);
                assert(self.spec_edges().contains((best, node)));
                assert(depth@[node as int] == depth@[best as int] + 1);
                assert forall|i2: usize| 1 <= i2 < node + 1
                    implies #[trigger] depth@[i2 as int] >= 1 && exists|p: usize|
                        #[trigger] self.spec_edges().contains((p, i2))
                        && depth@[i2 as int] == depth@[p as int] + 1 by {
                    if i2 < node {
                        assert(depth0[i2 as int] >= 1);
                        let p = choose|p: usize|
                            #[trigger] self.spec_edges().contains((p, i2))
                                && depth0[i2 as int] == depth0[p as int] + 1;
                        assert((p as int) < i2 as int);
                        assert(depth@[i2 as int] == depth0[i2 as int]);
                        assert(depth@[p as int] == depth0[p as int]);
                        assert(self.spec_edges().contains((p, i2))
                            && depth@[i2 as int] == depth@[p as int] + 1);
                    } else {
                        assert(i2 == node);
                        assert(self.spec_edges().contains((best, node))
                            && depth@[node as int] == depth@[best as int] + 1);
                    }
                }
                assert forall|e: (usize, usize)|
                    #[trigger] self.spec_edges().contains(e)
                        && (e.1 as int) < node as int + 1
                    implies depth@[e.0 as int] < depth@[e.1 as int] by {
                    if e.1 as int == node as int {
                        assert(parents@.contains(e.0));
                        let k2 = choose|k2: int|
                            0 <= k2 < parents@.len() && parents@[k2] == e.0;
                        assert(depth@[e.0 as int] + 1 <= d);
                    }
                }
            }
            node = node + 1;
        }
        let ghost dseq = Seq::new(n as nat, |i: int| depth@[i] as int);
        proof {
            assert(depth_ok(self.spec_edges(), self.spec_n(), dseq)) by {
                assert forall|e: (usize, usize)|
                    #[trigger] self.spec_edges().contains(e)
                    implies dseq[e.0 as int] < dseq[e.1 as int] by {
                    assert(e.1 < n);
                    assert(depth@[e.0 as int] < depth@[e.1 as int]);
                }
                assert forall|i3: int| 1 <= i3 < n
                    implies #[trigger] dseq[i3] >= 1 && exists|p: usize|
                        #[trigger] self.spec_edges().contains((p, i3 as usize))
                        && dseq[i3] == dseq[p as int] + 1 by {
                    let iu = i3 as usize;
                    assert(depth@[iu as int] >= 1);
                    let p = choose|p: usize|
                        #[trigger] self.spec_edges().contains((p, iu))
                        && depth@[iu as int] == depth@[p as int] + 1;
                    assert(self.spec_edges().contains((p, i3 as usize)));
                    assert(dseq[i3] == dseq[p as int] + 1);
                }
            }
        }
        let mut maxd: usize = 0;
        let mut i: usize = 1;
        while i < n
            invariant
                self.wf(),
                n == self.spec_n(),
                depth@.len() == n,
                dseq.len() == n,
                forall|i3: int| 0 <= i3 < n ==> #[trigger] dseq[i3] == depth@[i3],
                depth_ok(self.spec_edges(), self.spec_n(), dseq),
                1 <= i <= n || n < 1,
                forall|i2: int| 1 <= i2 < i as int
                    ==> #[trigger] depth@[i2] <= maxd as int,
                maxd == 0 || exists|i2: int|
                    1 <= i2 < i as int && #[trigger] depth@[i2] == maxd as int,
                forall|i2: int| 1 <= i2 < n ==> 1 <= #[trigger] depth@[i2] <= i2,
            decreases n - i,
        {
            if depth[i] > maxd {
                maxd = depth[i];
            }
            i = i + 1;
        }
        let mut groups_vec: Vec<Schedule> = Vec::new();
        let mut g: usize = 1;
        while g <= maxd
            invariant
                self.wf(),
                n == self.spec_n(),
                depth@.len() == n,
                dseq.len() == n,
                forall|i3: int| 0 <= i3 < n ==> #[trigger] dseq[i3] == depth@[i3],
                depth_ok(self.spec_edges(), self.spec_n(), dseq),
                maxd == 0 || exists|i2: int|
                    1 <= i2 < n && #[trigger] depth@[i2] == maxd as int,
                forall|k2: int| 0 <= k2 < groups_vec@.len()
                    ==> (#[trigger] groups_vec@[k2]).jobs@.len() > 0,
                1 <= g <= maxd + 1,
                maxd < n,
                forall|i2: int| 1 <= i2 < n ==> 1 <= #[trigger] depth@[i2] <= i2,
                forall|i2: int| 1 <= i2 < n
                    ==> #[trigger] depth@[i2] <= maxd as int,
                groups_vec@.len() == g - 1,
                forall|k2: int, j: int|
                    0 <= k2 < groups_vec@.len()
                        && 0 <= j < groups_vec@[k2].jobs@.len() ==> {
                        let x = (#[trigger] groups_vec@[k2].jobs@[j]) as int;
                        &&& 1 <= x < n
                        &&& depth@[x] == k2 + 1
                    },
                forall|k2: int, j1: int, j2: int|
                    0 <= k2 < groups_vec@.len()
                        && 0 <= j1 < j2 < groups_vec@[k2].jobs@.len()
                        ==> (#[trigger] groups_vec@[k2].jobs@[j1])
                            < (#[trigger] groups_vec@[k2].jobs@[j2]),
                forall|k2: int, x: usize|
                    0 <= k2 < groups_vec@.len() && 1 <= x < n
                        && depth@[x as int] == k2 + 1
                        ==> #[trigger] groups_vec@[k2].jobs@.contains(x),
            decreases maxd + 1 - g,
        {
            let mut jobs: Vec<usize> = Vec::new();
            let mut i2: usize = 1;
            while i2 < n
                invariant
                    n == self.spec_n(),
                    depth@.len() == n,
                    1 <= i2 <= n || n < 1,
                    1 <= g,
                    forall|j: int| 0 <= j < jobs@.len() ==> {
                        let x = (#[trigger] jobs@[j]) as int;
                        &&& 1 <= x < i2 as int
                        &&& depth@[x] == g as int
                    },
                    forall|j1: int, j2: int| 0 <= j1 < j2 < jobs@.len()
                        ==> (#[trigger] jobs@[j1]) < (#[trigger] jobs@[j2]),
                    forall|x: usize| 1 <= x < i2 && depth@[x as int] == g as int
                        ==> #[trigger] jobs@.contains(x),
                decreases n - i2,
            {
                if depth[i2] == g {
                    let ghost before = jobs@;
                    jobs.push(i2);
                    proof {
                        assert forall|j1: int, j2: int|
                            0 <= j1 < j2 < jobs@.len()
                            implies (#[trigger] jobs@[j1]) < (#[trigger] jobs@[j2]) by {
                            if j2 < before.len() {
                                assert(jobs@[j1] == before[j1]);
                                assert(jobs@[j2] == before[j2]);
                            } else {
                                assert(jobs@[j2] == i2);
                                assert(jobs@[j1] == before[j1]);
                            }
                        }
                        assert forall|x: usize|
                            1 <= x < i2 + 1 && depth@[x as int] == g as int
                            implies #[trigger] jobs@.contains(x) by {
                            if x < i2 {
                                assert(before.contains(x));
                                let jx = choose|jx: int|
                                    0 <= jx < before.len() && before[jx] == x;
                                assert(jobs@[jx] == x);
                            } else {
                                assert(jobs@[jobs@.len() - 1] == x);
                            }
                        }
                    }
                }
                i2 = i2 + 1;
            }
            proof {
                // this depth level is inhabited: walk down from the
                // deepest node
                let im = choose|im: int|
                    1 <= im < n && #[trigger] depth@[im] == maxd as int;
                assert(dseq[im] == maxd as int);
                lemma_level_inhabited(
                    self.spec_edges(),
                    self.spec_n(),
                    dseq,
                    im,
                    g as int,
                );
                let j = choose|j: int| 1 <= j < n && #[trigger] dseq[j] == g as int;
                let ju = j as usize;
                assert(depth@[ju as int] == g as int);
                assert(jobs@.contains(ju));
                assert(jobs@.len() > 0);
            }
            groups_vec.push(Schedule { jobs });
            g = g + 1;
        }
        let r = Schedules { groups: groups_vec };
        proof {
            assert forall|g2: int| 0 <= g2 < r.spec_groups().len()
                implies (#[trigger] r.spec_groups()[g2]).len() > 0 by {
                assert(r.spec_groups()[g2] == groups_vec@[g2].jobs@);
            }
            assert(layering_ok(self.spec_edges(), self.spec_n(), dseq, r.spec_groups()))
                by {
                assert forall|g2: int, j: int|
                    0 <= g2 < r.spec_groups().len()
                        && 0 <= j < r.spec_groups()[g2].len() implies {
                    let nd = (#[trigger] r.spec_groups()[g2][j]) as int;
                    &&& 1 <= nd < self.spec_n()
                    &&& dseq[nd] == g2 + 1
                } by {
                    assert(r.spec_groups()[g2] == groups_vec@[g2].jobs@);
                }
                assert forall|i3: int| 1 <= i3 < self.spec_n()
                    implies 0 <= #[trigger] dseq[i3] - 1 < r.spec_groups().len()
                        && r.spec_groups()[dseq[i3] - 1].contains(i3 as usize) by {
                    assert(1 <= depth@[i3] <= maxd as int);
                    assert(groups_vec@[depth@[i3] - 1].jobs@.contains(i3 as usize));
                    assert(r.spec_groups()[dseq[i3] - 1] == groups_vec@[dseq[i3] - 1].jobs@);
                }
                assert forall|g2: int, j1: int, j2: int|
                    0 <= g2 < r.spec_groups().len()
                        && 0 <= j1 < r.spec_groups()[g2].len()
                        && 0 <= j2 < r.spec_groups()[g2].len() && j1 != j2
                    implies (#[trigger] r.spec_groups()[g2][j1])
                        != (#[trigger] r.spec_groups()[g2][j2]) by {
                    assert(r.spec_groups()[g2] == groups_vec@[g2].jobs@);
                    if j1 < j2 {
                        assert(groups_vec@[g2].jobs@[j1] < groups_vec@[g2].jobs@[j2]);
                    } else {
                        assert(groups_vec@[g2].jobs@[j2] < groups_vec@[g2].jobs@[j1]);
                    }
                }
            }
            if self.spec_systems().len() == 0 {
                assert(maxd == 0);
                assert(r.spec_groups().len() == 0);
            }
        }
        r
    }

    /// Under a depth labelling, a barrier runs strictly later than every
    /// node inserted before it.
    pub proof fn lemma_barrier_depth(
        edges: Set<(usize, usize)>,
        n: int,
        depth: Seq<int>,
        x: usize,
        m: usize,
    )
        requires
            depth_ok(edges, n, depth),
            forall|e: (usize, usize)| #[trigger] edges.contains(e) ==> e.0 < e.1 < n,
            barrier_ok(edges, x),
            (x as int) < n,
            m < x,
        ensures
            depth[m as int] < depth[x as int],
        decreases x - m,
    {
        if edges.contains((m, x)) {
            assert(depth[m as int] < depth[x as int]);
        } else {
            let t = choose|t: usize| m < t < x && #[trigger] edges.contains((m, t));
            assert(depth[m as int] < depth[t as int]);
            Self::lemma_barrier_depth(edges, n, depth, x, t);
        }
    }

    /// A system with an exclusive parameter runs alone: no other system
    /// is ever placed in its execution group. Everything inserted before
    /// the barrier waits for it through the leaves it collected;
    /// everything inserted after it is wired to recorded owners the
    /// barrier reaches, or to the latest barrier itself.
    pub proof fn lemma_exclusive_alone(
        self,
        depth: Seq<int>,
        groups: Seq<Seq<usize>>,
        x: usize,
        g: int,
        j1: int,
        j2: int,
    )
        requires
            self.wf(),
            self.serialized(),
            layering_ok(self.spec_edges(), self.spec_n(), depth, groups),
            1 <= x < self.spec_n(),
            self.spec_systems()[x as int - 1].exclusive,
            0 <= g < groups.len(),
            0 <= j1 < groups[g].len(),
            groups[g][j1] == x,
            0 <= j2 < groups[g].len(),
        ensures
            j2 == j1,
    {
        let m = groups[g][j2];
        assert(1 <= m < self.spec_n());
        assert(depth[m as int] == g + 1);
        assert(depth[x as int] == g + 1);
        assert forall|e: (usize, usize)| #[trigger] self.spec_edges().contains(e)
            implies e.0 < e.1 < self.spec_n() by {}
        if m < x {
            assert(barrier_ok(self.spec_edges(), x));
            Self::lemma_barrier_depth(
                self.spec_edges(),
                self.spec_n(),
                depth,
                x,
                m,
            );
        } else if m > x {
            assert(reaches(self.spec_edges(), x, m));
            lemma_reaches_depth(
                self.spec_edges(),
                self.spec_n(),
                depth,
                x,
                m,
                m as nat,
            );
        }
        assert(m == x);
        if j1 != j2 {
            assert(groups[g][j1] != groups[g][j2]);
        }
    }

    /// After a barrier was placed, the serialization invariant holds
    /// again: every earlier node reaches the barrier, which now owns every
    /// tracked component.
    proof fn lemma_serialized_after_exclusive(
        self,
        pre: Self,
        placed: Self,
        node: usize,
        meta: SystemNodeMeta,
    )
        requires
            pre.serialized(),
            pre.wf(),
            meta.exclusive,
            node as int == pre.spec_n(),
            self.spec_n() == pre.spec_n() + 1,
            self.spec_systems() =~= pre.spec_systems().push(meta),
            self.spec_edges() == placed.spec_edges(),
            self.spec_ownerships() == placed.spec_ownerships(),
            forall|e: (usize, usize)| pre.spec_edges().contains(e)
                ==> #[trigger] placed.spec_edges().contains(e),
            forall|e: (usize, usize)| #[trigger] placed.spec_edges().contains(e)
                ==> pre.spec_edges().contains(e) || (e.1 == node && e.0 < node),
            barrier_ok(placed.spec_edges(), node),
            placed.spec_ownerships().key_seq() =~= pre.spec_ownerships().key_seq(),
            forall|c: int| #[trigger] pre.spec_ownerships().spec_contains(c)
                ==> placed.spec_ownerships().spec_get(c).last_writing == Some(node)
                    && placed.spec_ownerships().spec_get(c).last_accessing@.len() == 0,
        ensures
            self.serialized(),
    {
        Self::lemma_system_extended(pre, self, node, meta);
        let edges0 = pre.spec_edges();
        let edges1 = self.spec_edges();
        assert forall|e: (usize, usize)| #[trigger] edges1.contains(e)
            implies e.0 < e.1 by {
            if pre.spec_edges().contains(e) {
            }
        }
        assert forall|c: int|
            !(#[trigger] self.spec_ownerships().spec_contains(c))
            implies forall|m: usize| !(#[trigger] self.accessor_of(m, c)) by {
            assert(!pre.spec_ownerships().spec_contains(c));
            assert forall|m: usize| !(#[trigger] self.accessor_of(m, c)) by {
                if self.accessor_of(m, c) {
                    if m < node {
                        assert(pre.accessor_of(m, c));
                    } else {
                        assert(m == node);
                        assert(meta.exclusive);
                    }
                }
            }
        }
        assert forall|c: int| #[trigger] self.spec_ownerships().spec_contains(c)
            implies self.record_serialized(c) by {
            assert(pre.spec_ownerships().spec_contains(c));
            let own = self.spec_ownerships().spec_get(c);
            assert(own.last_writing == Some(node));
            assert(own.last_accessing@.len() == 0);
            assert forall|m: usize| #[trigger] self.accessor_of(m, c)
                implies reaches(edges1, m, node) by {
                if m < node {
                    lemma_barrier_reached(edges1, node, m);
                } else {
                    assert(m == node);
                    assert(meta.exclusive);
                    assert(false);
                }
            }
            assert forall|m: usize| #[trigger] self.writer_of(m, c)
                implies reaches(edges1, m, node) by {
                assert(self.accessor_of(m, c));
                assert(reaches(edges1, m, node));
            }
        }
        assert forall|a: usize, b: usize, c: int|
            1 <= a < b < self.spec_n()
                && !self.spec_systems()[a as int - 1].exclusive
                && !self.spec_systems()[b as int - 1].exclusive
                && #[trigger] conflicts_on(
                self.deps_of(a as int),
                self.deps_of(b as int),
                c,
            ) implies reaches(edges1, a, b) by {
            assert(b != node);
            assert(b < node);
            assert(pre.spec_systems()[a as int - 1]
                == self.spec_systems()[a as int - 1]);
            assert(pre.spec_systems()[b as int - 1]
                == self.spec_systems()[b as int - 1]);
            assert(conflicts_on(pre.deps_of(a as int), pre.deps_of(b as int), c));
            assert(reaches(edges0, a, b));
            lemma_reaches_monotone(edges0, edges1, a, b, b as nat);
        }
        // every node inserted after a barrier stays ordered after it, and
        // the new barrier comes after everything
        assert forall|x: usize, m: usize|
            1 <= x < m < self.spec_n()
                && self.spec_systems()[x as int - 1].exclusive
            implies #[trigger] reaches(edges1, x, m) by {
            assert(x < node);
            assert(pre.spec_systems()[x as int - 1].exclusive);
            if m < node {
                assert(reaches(edges0, x, m));
                lemma_reaches_monotone(edges0, edges1, x, m, m as nat);
            } else {
                assert(m == node);
                lemma_barrier_reached(edges1, node, x);
            }
        }
        // the barrier owns every tracked component and reaches itself
        assert forall|x: usize, c: int|
            1 <= x < self.spec_n()
                && self.spec_systems()[x as int - 1].exclusive
                && self.spec_ownerships().spec_contains(c)
            implies #[trigger] self.record_reached_from(x, c) by {
            assert(pre.spec_ownerships().spec_contains(c));
            let own = self.spec_ownerships().spec_get(c);
            assert(own.last_writing == Some(node));
            assert(own.last_accessing@.len() == 0);
            if x < node {
                lemma_barrier_reached(edges1, node, x);
            } else {
                assert(x == node);
            }
        }
    }

    /// After a non-exclusive system was wired to the latest owners of its
    /// components and recorded as an owner itself, the serialization
    /// invariant holds again: every earlier accessor of a component the
    /// new system writes, and every earlier writer of a component it
    /// reads, now reaches the new node.
    proof fn lemma_serialized_after_insert(
        self,
        pre: Self,
        placed: Self,
        node: usize,
        meta: SystemNodeMeta,
        nd: Seq<(usize, SystemGraphEdge)>,
    )
        requires
            pre.serialized(),
            pre.wf(),
            !meta.exclusive,
            meta.dependencies.wf(),
            node as int == pre.spec_n(),
            self.spec_n() == pre.spec_n() + 1,
            self.spec_systems() =~= pre.spec_systems().push(meta),
            self.spec_edges() == placed.spec_edges(),
            self.spec_ownerships() == placed.spec_ownerships(),
            // what the computation of the dependency list guarantees
            forall|pred: usize, c: int, m: AccessMode|
                #[trigger] has_change(nd, pred, c, m) ==> {
                    &&& meta.dependencies.spec_contains(c)
                    &&& meta.dependencies.spec_get(c) == m
                    &&& pre.spec_ownerships().spec_contains(c)
                    &&& 1 <= pred < node
                    &&& (pre.spec_ownerships().spec_get(c).last_writing == Some(pred)
                        || pre.spec_ownerships().spec_get(c).last_accessing@
                            .contains(pred))
                },
            forall|jj: int| 0 <= jj < meta.dependencies.spec_len() ==> {
                let c = #[trigger] meta.dependencies.key_seq()[jj];
                pre.spec_ownerships().spec_contains(c) ==> {
                    let own = pre.spec_ownerships().spec_get(c);
                    &&& (meta.dependencies.spec_get(c) == AccessMode::Write
                        && own.last_accessing@.len() > 0
                        ==> forall|k: int| 0 <= k < own.last_accessing@.len()
                            ==> has_change(
                                nd,
                                #[trigger] own.last_accessing@[k],
                                c,
                                AccessMode::Write,
                            ))
                    &&& (meta.dependencies.spec_get(c) == AccessMode::Write
                        && own.last_accessing@.len() == 0
                        ==> (own.last_writing matches Some(w)
                            ==> has_change(nd, w, c, AccessMode::Write)))
                    &&& (meta.dependencies.spec_get(c) == AccessMode::Read
                        ==> (own.last_writing matches Some(w)
                            ==> has_change(nd, w, c, AccessMode::Read)))
                }
            },
            // what the edge placement guarantees
            forall|e: (usize, usize)| pre.spec_edges().contains(e)
                ==> #[trigger] placed.spec_edges().contains(e),
            forall|e: (usize, usize)| #[trigger] placed.spec_edges().contains(e)
                ==> pre.spec_edges().contains(e) || (e.1 == node && e.0 < node),
            forall|i: int| 0 <= i < nd.len()
                ==> #[trigger] placed.spec_edges().contains((nd[i].0, node)),
            forall|i: int| 0 <= i < nd.len()
                ==> (#[trigger] nd[i]).1.changes@.len() >= 1,
            nd.len() == 0 ==> placed.spec_edges().contains((pre.spec_lb(), node)),
            // what the ownership update guarantees
            forall|c: int| #[trigger] placed.spec_ownerships().spec_contains(c)
                <==> pre.spec_ownerships().spec_contains(c)
                    || meta.dependencies.spec_contains(c),
            forall|c: int| #[trigger] meta.dependencies.spec_contains(c) ==> {
                let own = placed.spec_ownerships().spec_get(c);
                &&& (meta.dependencies.spec_get(c) == AccessMode::Write
                    ==> own.last_writing == Some(node)
                        && own.last_accessing@.len() == 0)
                &&& (meta.dependencies.spec_get(c) == AccessMode::Read
                        && pre.spec_ownerships().spec_contains(c)
                    ==> own.last_writing
                        == pre.spec_ownerships().spec_get(c).last_writing
                        && (forall|v: usize| #[trigger] own.last_accessing@.contains(v)
                            <==> pre.spec_ownerships().spec_get(c)
                                .last_accessing@.contains(v) || v == node))
                &&& (meta.dependencies.spec_get(c) == AccessMode::Read
                        && !pre.spec_ownerships().spec_contains(c)
                    ==> own.last_writing is None
                        && own.last_accessing@ =~= seq![node])
            },
            forall|c: int| pre.spec_ownerships().spec_contains(c)
                    && !meta.dependencies.spec_contains(c)
                ==> #[trigger] placed.spec_ownerships().spec_get(c)
                    == pre.spec_ownerships().spec_get(c),
        ensures
            self.serialized(),
    {
        Self::lemma_system_extended(pre, self, node, meta);
        let edges0 = pre.spec_edges();
        let edges1 = self.spec_edges();
        let deps = meta.dependencies;
        // a recorded transition becomes an edge into the new node
        assert forall|pred: usize, c: int, m: AccessMode|
            #[trigger] has_change(nd, pred, c, m)
            implies edges1.contains((pred, node)) by {
            let (i2, j2) = choose|i2: int, j2: int|
                0 <= i2 < nd.len() && 0 <= j2 < nd[i2].1.changes@.len()
                    && (#[trigger] nd[i2].1.changes@[j2]).component.spec_index() == c
                    && nd[i2].1.changes@[j2].new_access_mode == m
                    && nd[i2].0 == pred;
            assert(placed.spec_edges().contains((nd[i2].0, node)));
        }
        // a component the new system writes: every earlier accessor
        // reaches the new node through the recorded readers or writer
        assert forall|c: int, m: usize|
            deps.spec_contains(c) && deps.spec_get(c) == AccessMode::Write
                && #[trigger] pre.accessor_of(m, c)
            implies reaches(edges1, m, node) by {
            assert(pre.spec_ownerships().spec_contains(c));
            let own = pre.spec_ownerships().spec_get(c);
            assert(pre.record_serialized(c));
            deps.lemma_pos_valid(c);
            let jj = deps.pos_of(c);
            assert(deps.key_seq()[jj] == c);
            if own.last_accessing@.len() > 0 {
                assert(pre.reaches_some_reader(m, own));
                let j = choose|j: int| 0 <= j < own.last_accessing@.len()
                    && reaches(edges0, m, #[trigger] own.last_accessing@[j]);
                let r = own.last_accessing@[j];
                assert(has_change(nd, r, c, AccessMode::Write));
                assert(edges1.contains((r, node)));
                lemma_reaches_monotone(edges0, edges1, m, r, r as nat);
                lemma_reaches_edge(edges1, r, node);
                lemma_reaches_trans(edges1, m, r, node);
            } else {
                assert(own.last_writing is Some);
                let w = own.last_writing->Some_0;
                assert(reaches(edges0, m, w));
                assert(has_change(nd, w, c, AccessMode::Write));
                assert(edges1.contains((w, node)));
                lemma_reaches_monotone(edges0, edges1, m, w, w as nat);
                lemma_reaches_edge(edges1, w, node);
                lemma_reaches_trans(edges1, m, w, node);
            }
        }
        // a component the new system reads: every earlier writer reaches
        // the new node through the recorded last writer
        assert forall|c: int, m: usize|
            deps.spec_contains(c) && deps.spec_get(c) == AccessMode::Read
                && #[trigger] pre.writer_of(m, c)
            implies reaches(edges1, m, node) by {
            assert(pre.spec_ownerships().spec_contains(c)) by {
                if !pre.spec_ownerships().spec_contains(c) {
                    assert(!pre.accessor_of(m, c));
                }
            }
            let own = pre.spec_ownerships().spec_get(c);
            assert(pre.record_serialized(c));
            deps.lemma_pos_valid(c);
            let jj = deps.pos_of(c);
            assert(deps.key_seq()[jj] == c);
            assert(own.last_writing is Some);
            let w = own.last_writing->Some_0;
            assert(reaches(edges0, m, w));
            assert(has_change(nd, w, c, AccessMode::Read));
            assert(edges1.contains((w, node)));
            lemma_reaches_monotone(edges0, edges1, m, w, w as nat);
            lemma_reaches_edge(edges1, w, node);
            lemma_reaches_trans(edges1, m, w, node);
        }
        // the components never seen stay without accessors
        assert forall|c: int|
            !(#[trigger] self.spec_ownerships().spec_contains(c))
            implies forall|m: usize| !(#[trigger] self.accessor_of(m, c)) by {
            assert(!pre.spec_ownerships().spec_contains(c));
            assert(!deps.spec_contains(c));
            assert forall|m: usize| !(#[trigger] self.accessor_of(m, c)) by {
                if self.accessor_of(m, c) {
                    if m < node {
                        assert(pre.accessor_of(m, c));
                    } else {
                        assert(m == node);
                        assert(deps.spec_contains(c));
                    }
                }
            }
        }
        // every tracked component's record covers its accessors again
        assert forall|c: int| #[trigger] self.spec_ownerships().spec_contains(c)
            implies self.record_serialized(c) by {
            let own1 = self.spec_ownerships().spec_get(c);
            if deps.spec_contains(c) && deps.spec_get(c) == AccessMode::Write {
                assert(own1.last_writing == Some(node));
                assert(own1.last_accessing@.len() == 0);
                assert forall|m: usize| #[trigger] self.accessor_of(m, c)
                    implies reaches(edges1, m, node) by {
                    if m < node {
                        assert(pre.accessor_of(m, c));
                    } else {
                        assert(m == node);
                    }
                }
                assert forall|m: usize| #[trigger] self.writer_of(m, c)
                    implies reaches(edges1, m, node) by {
                    assert(self.accessor_of(m, c));
                }
            } else if deps.spec_contains(c) {
                assert(deps.spec_get(c) == AccessMode::Read);
                if pre.spec_ownerships().spec_contains(c) {
                    let own0 = pre.spec_ownerships().spec_get(c);
                    assert(pre.record_serialized(c));
                    assert(own1.last_writing == own0.last_writing);
                    assert(own1.last_accessing@.contains(node));
                    let nj = choose|nj: int| 0 <= nj < own1.last_accessing@.len()
                        && own1.last_accessing@[nj] == node;
                    assert(own1.last_accessing@.len() > 0);
                    assert forall|m: usize| self.accessor_of(m, c)
                        implies #[trigger] self.reaches_some_reader(m, own1) by {
                        if m == node {
                            assert(reaches(edges1, node, own1.last_accessing@[nj]));
                        } else {
                            assert(m < node);
                            assert(pre.accessor_of(m, c));
                            if own0.last_accessing@.len() > 0 {
                                assert(pre.reaches_some_reader(m, own0));
                                let j = choose|j: int|
                                    0 <= j < own0.last_accessing@.len()
                                        && reaches(
                                        edges0,
                                        m,
                                        #[trigger] own0.last_accessing@[j],
                                    );
                                let r = own0.last_accessing@[j];
                                assert(own0.last_accessing@.contains(r));
                                assert(own1.last_accessing@.contains(r));
                                let j1 = choose|j1: int|
                                    0 <= j1 < own1.last_accessing@.len()
                                        && own1.last_accessing@[j1] == r;
                                lemma_reaches_monotone(edges0, edges1, m, r, r as nat);
                                assert(reaches(edges1, m, own1.last_accessing@[j1]));
                            } else {
                                assert(own0.last_writing is Some);
                                let w = own0.last_writing->Some_0;
                                assert(reaches(edges0, m, w));
                                deps.lemma_pos_valid(c);
                                let jj = deps.pos_of(c);
                                assert(deps.key_seq()[jj] == c);
                                assert(has_change(nd, w, c, AccessMode::Read));
                                assert(edges1.contains((w, node)));
                                lemma_reaches_monotone(edges0, edges1, m, w, w as nat);
                                lemma_reaches_edge(edges1, w, node);
                                lemma_reaches_trans(edges1, m, w, node);
                                assert(reaches(edges1, m, own1.last_accessing@[nj]));
                            }
                        }
                    }
                    if own1.last_writing is Some {
                        let w = own1.last_writing->Some_0;
                        assert forall|m: usize| #[trigger] self.writer_of(m, c)
                            implies reaches(edges1, m, w) by {
                            if m == node {
                                assert(deps.spec_get(c) == AccessMode::Write);
                                assert(false);
                            } else {
                                assert(m < node);
                                assert(pre.writer_of(m, c));
                                assert(reaches(edges0, m, w));
                                lemma_reaches_monotone(edges0, edges1, m, w, w as nat);
                            }
                        }
                    } else {
                        assert forall|m: usize| !(#[trigger] self.writer_of(m, c))
                            by {
                            if self.writer_of(m, c) {
                                if m == node {
                                    assert(deps.spec_get(c) == AccessMode::Write);
                                } else {
                                    assert(pre.writer_of(m, c));
                                }
                            }
                        }
                    }
                } else {
                    // first sight of the component, through a read
                    assert(own1.last_writing is None);
                    assert(own1.last_accessing@ =~= seq![node]);
                    assert(own1.last_accessing@.len() == 1);
                    assert forall|m: usize| self.accessor_of(m, c)
                        implies #[trigger] self.reaches_some_reader(m, own1) by {
                        if m < node {
                            assert(pre.accessor_of(m, c));
                            assert(false);
                        }
                        assert(m == node);
                        assert(own1.last_accessing@[0] == node);
                        assert(reaches(edges1, node, own1.last_accessing@[0]));
                    }
                    assert forall|m: usize| !(#[trigger] self.writer_of(m, c)) by {
                        if self.writer_of(m, c) {
                            if m == node {
                                assert(deps.spec_get(c) == AccessMode::Write);
                            } else {
                                assert(pre.accessor_of(m, c));
                            }
                        }
                    }
                }
            } else {
                assert(pre.spec_ownerships().spec_contains(c));
                assert(own1 == pre.spec_ownerships().spec_get(c));
                let own0 = pre.spec_ownerships().spec_get(c);
                assert(pre.record_serialized(c));
                assert forall|m: usize| #[trigger] self.accessor_of(m, c)
                    implies m < node && pre.accessor_of(m, c) by {
                    if m == node {
                        assert(deps.spec_contains(c));
                    }
                }
                if own0.last_accessing@.len() > 0 {
                    assert forall|m: usize| self.accessor_of(m, c)
                        implies #[trigger] self.reaches_some_reader(m, own1) by {
                        assert(pre.accessor_of(m, c));
                        assert(pre.reaches_some_reader(m, own0));
                        let j = choose|j: int| 0 <= j < own0.last_accessing@.len()
                            && reaches(edges0, m, #[trigger] own0.last_accessing@[j]);
                        lemma_reaches_monotone(
                            edges0,
                            edges1,
                            m,
                            own0.last_accessing@[j],
                            own0.last_accessing@[j] as nat,
                        );
                        assert(reaches(edges1, m, own1.last_accessing@[j]));
                    }
                }
                if own0.last_accessing@.len() == 0 {
                    if own0.last_writing is Some {
                        let w = own0.last_writing->Some_0;
                        assert forall|m: usize| #[trigger] self.accessor_of(m, c)
                            implies reaches(edges1, m, w) by {
                            assert(pre.accessor_of(m, c));
                            assert(reaches(edges0, m, w));
                            lemma_reaches_monotone(edges0, edges1, m, w, w as nat);
                        }
                    }
                }
                if own0.last_writing is Some {
                    let w = own0.last_writing->Some_0;
                    assert forall|m: usize| #[trigger] self.writer_of(m, c)
                        implies reaches(edges1, m, w) by {
                        assert(pre.writer_of(m, c));
                        assert(reaches(edges0, m, w));
                        lemma_reaches_monotone(edges0, edges1, m, w, w as nat);
                    }
                } else {
                    assert forall|m: usize| !(#[trigger] self.writer_of(m, c)) by {
                        if self.writer_of(m, c) {
                            assert(pre.writer_of(m, c));
                        }
                    }
                }
            }
        }
        // conflicting non-exclusive systems stay connected
        assert forall|a: usize, b: usize, c: int|
            1 <= a < b < self.spec_n()
                && !self.spec_systems()[a as int - 1].exclusive
                && !self.spec_systems()[b as int - 1].exclusive
                && #[trigger] conflicts_on(
                self.deps_of(a as int),
                self.deps_of(b as int),
                c,
            ) implies reaches(edges1, a, b) by {
            if b == node {
                assert(self.deps_of(b as int) == deps);
                assert(deps.spec_contains(c));
                assert(self.accessor_of(a, c));
                assert(pre.accessor_of(a, c));
                if deps.spec_get(c) == AccessMode::Write {
                    assert(reaches(edges1, a, node));
                } else {
                    assert(deps.spec_get(c) == AccessMode::Read);
                    assert(self.deps_of(a as int).spec_get(c) == AccessMode::Write);
                    assert(pre.writer_of(a, c));
                    assert(reaches(edges1, a, node));
                }
            } else {
                assert(pre.spec_systems()[a as int - 1]
                    == self.spec_systems()[a as int - 1]);
                assert(pre.spec_systems()[b as int - 1]
                    == self.spec_systems()[b as int - 1]);
                assert(conflicts_on(pre.deps_of(a as int), pre.deps_of(b as int), c));
                assert(reaches(edges0, a, b));
                lemma_reaches_monotone(edges0, edges1, a, b, b as nat);
            }
        }
        // every node inserted after a barrier stays ordered after it: the
        // new node is wired to record owners the barrier reaches, or to
        // the latest barrier itself
        assert forall|x: usize, m: usize|
            1 <= x < m < self.spec_n()
                && self.spec_systems()[x as int - 1].exclusive
            implies #[trigger] reaches(edges1, x, m) by {
            assert(x < node);
            assert(pre.spec_systems()[x as int - 1].exclusive);
            if m < node {
                assert(reaches(edges0, x, m));
                lemma_reaches_monotone(edges0, edges1, x, m, m as nat);
            } else {
                assert(m == node);
                if nd.len() == 0 {
                    let lb = pre.spec_lb();
                    assert(edges1.contains((lb, node)));
                    assert(x as int <= lb as int);
                    if x == lb {
                    } else {
                        assert(1 <= x < lb);
                        assert((lb as int) < pre.spec_n());
                        assert(reaches(edges0, x, lb));
                        lemma_reaches_monotone(edges0, edges1, x, lb, lb as nat);
                    }
                    lemma_reaches_edge(edges1, lb, node);
                    lemma_reaches_trans(edges1, x, lb, node);
                } else {
                    let s0 = nd[0].0;
                    assert(nd[0].1.changes@.len() >= 1);
                    let ch = nd[0].1.changes@[0];
                    let c0 = ch.component.spec_index();
                    let m0 = ch.new_access_mode;
                    assert(has_change(nd, s0, c0, m0)) by {
                        assert(nd[0].1.changes@[0].component.spec_index() == c0);
                    }
                    assert(pre.spec_ownerships().spec_contains(c0));
                    let own0 = pre.spec_ownerships().spec_get(c0);
                    assert(pre.record_reached_from(x, c0));
                    if own0.last_writing == Some(s0) {
                        assert(reaches(edges0, x, s0));
                    } else {
                        assert(own0.last_accessing@.contains(s0));
                        let j = choose|j: int|
                            0 <= j < own0.last_accessing@.len()
                                && own0.last_accessing@[j] == s0;
                        assert(reaches(edges0, x, own0.last_accessing@[j]));
                    }
                    lemma_reaches_monotone(edges0, edges1, x, s0, s0 as nat);
                    assert(edges1.contains((s0, node)));
                    lemma_reaches_edge(edges1, s0, node);
                    lemma_reaches_trans(edges1, x, s0, node);
                }
            }
        }
        // a barrier reaches every recorded owner
        assert forall|x: usize, c: int|
            1 <= x < self.spec_n()
                && self.spec_systems()[x as int - 1].exclusive
                && self.spec_ownerships().spec_contains(c)
            implies #[trigger] self.record_reached_from(x, c) by {
            if x == node {
                assert(self.spec_systems()[node as int - 1] == meta);
                assert(false);
            }
            assert(x < node);
            assert(pre.spec_systems()[x as int - 1].exclusive);
            assert(reaches(edges1, x, node));
            let own1 = self.spec_ownerships().spec_get(c);
            if deps.spec_contains(c) && deps.spec_get(c) == AccessMode::Write {
                assert(own1.last_writing == Some(node));
                assert(own1.last_accessing@.len() == 0);
            } else if deps.spec_contains(c) {
                assert(deps.spec_get(c) == AccessMode::Read);
                if pre.spec_ownerships().spec_contains(c) {
                    let own0 = pre.spec_ownerships().spec_get(c);
                    assert(pre.record_reached_from(x, c));
                    assert(own1.last_writing == own0.last_writing);
                    if own1.last_writing is Some {
                        let w = own1.last_writing->Some_0;
                        assert(reaches(edges0, x, w));
                        lemma_reaches_monotone(edges0, edges1, x, w, w as nat);
                    }
                    assert forall|j: int| 0 <= j < own1.last_accessing@.len()
                        implies reaches(
                            edges1,
                            x,
                            #[trigger] own1.last_accessing@[j],
                        ) by {
                        let v = own1.last_accessing@[j];
                        assert(own1.last_accessing@.contains(v));
                        if v == node {
                        } else {
                            assert(own0.last_accessing@.contains(v));
                            let j0 = choose|j0: int|
                                0 <= j0 < own0.last_accessing@.len()
                                    && own0.last_accessing@[j0] == v;
                            assert(reaches(edges0, x, own0.last_accessing@[j0]));
                            lemma_reaches_monotone(edges0, edges1, x, v, v as nat);
                        }
                    }
                } else {
                    assert(own1.last_writing is None);
                    assert(own1.last_accessing@ =~= seq![node]);
                    assert forall|j: int| 0 <= j < own1.last_accessing@.len()
                        implies reaches(
                            edges1,
                            x,
                            #[trigger] own1.last_accessing@[j],
                        ) by {
                        assert(own1.last_accessing@[j] == node);
                    }
                }
            } else {
                assert(pre.spec_ownerships().spec_contains(c));
                assert(own1 == pre.spec_ownerships().spec_get(c));
                let own0 = pre.spec_ownerships().spec_get(c);
                assert(pre.record_reached_from(x, c));
                if own1.last_writing is Some {
                    let w = own1.last_writing->Some_0;
                    assert(reaches(edges0, x, w));
                    lemma_reaches_monotone(edges0, edges1, x, w, w as nat);
                }
                assert forall|j: int| 0 <= j < own1.last_accessing@.len()
                    implies reaches(edges1, x, #[trigger] own1.last_accessing@[j])
                    by {
                    assert(reaches(edges0, x, own0.last_accessing@[j]));
                    lemma_reaches_monotone(
                        edges0,
                        edges1,
                        x,
                        own0.last_accessing@[j],
                        own0.last_accessing@[j] as nat,
                    );
                }
            }
        }
    }

    /// Two non-exclusive systems whose dependency maps conflict on a
    /// component — both mention it and at least one writes it — are never
    /// placed in the same execution group: the graph carries a dependency
    /// path between them, and every path crosses strictly forward over
    /// the groups.
    pub proof fn lemma_conflicting_systems_in_different_groups(
        self,
        depth: Seq<int>,
        groups: Seq<Seq<usize>>,
        a: usize,
        b: usize,
        c: int,
        g: int,
        j1: int,
        j2: int,
    )
        requires
            self.wf(),
            self.serialized(),
            layering_ok(self.spec_edges(), self.spec_n(), depth, groups),
            1 <= a < self.spec_n(),
            1 <= b < self.spec_n(),
            a != b,
            !self.spec_systems()[a as int - 1].exclusive,
            !self.spec_systems()[b as int - 1].exclusive,
            conflicts_on(self.deps_of(a as int), self.deps_of(b as int), c),
            0 <= g < groups.len(),
            0 <= j1 < groups[g].len(),
            groups[g][j1] == a,
            0 <= j2 < groups[g].len(),
        ensures
            groups[g][j2] != b,
    {
        if groups[g][j2] == b {
            assert(self.serialized());
            assert(depth[a as int] == g + 1);
            assert(depth[b as int] == g + 1);
            assert forall|e: (usize, usize)| #[trigger] self.spec_edges().contains(e)
                implies e.0 < e.1 < self.spec_n() by {}
            if a < b {
                assert(reaches(self.spec_edges(), a, b));
                lemma_reaches_depth(
                    self.spec_edges(),
                    self.spec_n(),
                    depth,
                    a,
                    b,
                    b as nat,
                );
            } else {
                assert(conflicts_on(self.deps_of(b as int), self.deps_of(a as int), c));
                assert(reaches(self.spec_edges(), b, a));
                lemma_reaches_depth(
                    self.spec_edges(),
                    self.spec_n(),
                    depth,
                    b,
                    a,
                    a as nat,
                );
            }
        }
    }
}

} // verus!
