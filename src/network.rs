use vstd::prelude::*;

use crate::graph::{Graph, NodeIndex};
use crate::graph_model::{
    count_to, lemma_add_edge_count, lemma_add_node_count, lemma_count_to_prepend, GraphModel,
};

verus! {

/// A change of topology requested by an agent during a logic tick. Requests are
/// collected over the whole sweep and applied after it.
#[derive(Debug, Clone, Copy, PartialEq, Eq, Structural)]
pub enum NetworkEvent {
    /// Remove one relation from the first agent to the second.
    RemoveRelation(NodeIndex, NodeIndex),
}

/// The model after one topology request.
pub open spec fn apply_event<A, R>(m: GraphModel<A, R>, e: NetworkEvent) -> GraphModel<A, R> {
    match e {
        NetworkEvent::RemoveRelation(a, b) => m.remove_edge(a.0 as nat, b.0 as nat),
    }
}

/// The model after the requests of `evs`, in order.
pub open spec fn apply_events<A, R>(m: GraphModel<A, R>, evs: Seq<NetworkEvent>) -> GraphModel<
    A,
    R,
>
    decreases evs.len(),
{
    if evs.len() == 0 {
        m
    } else {
        apply_event(apply_events(m, evs.drop_last()), evs.last())
    }
}

/// Number of `true` entries in `s`.
pub open spec fn count_true(s: Seq<bool>) -> nat
    decreases s.len(),
{
    if s.len() == 0 {
        0
    } else {
        count_true(s.drop_last()) + if s.last() { 1nat } else { 0nat }
    }
}

/// Number of `true` entries over all rows of `rows`.
pub open spec fn count_true_rows(rows: Seq<Seq<bool>>) -> nat
    decreases rows.len(),
{
    if rows.len() == 0 {
        0
    } else {
        count_true_rows(rows.drop_last()) + count_true(rows.last())
    }
}

/// Row `i` of a pair table over `n` agents decides the pairs `(i, j)` for `i < j < n`,
/// entry `j - i - 1` deciding the pair `(i, j)`.
pub open spec fn is_pair_table(rows: Seq<Seq<bool>>, n: nat) -> bool {
    &&& rows.len() == n
    &&& forall|i: int| 0 <= i < n ==> (#[trigger] rows[i]).len() == n - 1 - i
}

/// The rows of a table of decisions, as sequences.
pub open spec fn rows_of(links: Seq<Vec<bool>>) -> Seq<Seq<bool>> {
    links.map_values(|row: Vec<bool>| row@)
}

/// Whether a relaxation that has run `step` physics ticks, on a population that still
/// moves faster than its threshold, runs one more tick: never once `max_iterations`
/// ticks have run.
pub fn relax_continues(step: usize, max_iterations: usize, moving: bool) -> (r: bool)
    ensures
        r == (moving && step < max_iterations),
{
    moving && step < max_iterations
}

/// A full table of `n` agents where every pair is decided the same way holds no `true`
/// entry, or one for each of the `n * (n - 1) / 2` pairs.
pub proof fn lemma_uniform_pair_table(rows: Seq<Seq<bool>>, n: nat, v: bool)
    requires
        is_pair_table(rows, n),
        forall|i: int, j: int| 0 <= i < n && 0 <= j < rows[i].len() ==> rows[i][j] == v,
    ensures
        v ==> 2 * count_true_rows(rows) == n * (n - 1),
        !v ==> count_true_rows(rows) == 0,
{
    lemma_uniform_rows(rows, n, n, v);
    assert(rows.take(n as int) =~= rows);
    assert(n * (2 * n - n - 1) == n * (n - 1)) by (nonlinear_arith);
}

proof fn lemma_uniform_row(s: Seq<bool>, v: bool)
    requires
        forall|j: int| 0 <= j < s.len() ==> s[j] == v,
    ensures
        count_true(s) == if v { s.len() } else { 0 },
    decreases s.len(),
{
    if s.len() > 0 {
        lemma_uniform_row(s.drop_last(), v);
    }
}

proof fn lemma_uniform_rows(rows: Seq<Seq<bool>>, n: nat, m: nat, v: bool)
    requires
        m <= rows.len(),
        is_pair_table(rows, n),
        forall|i: int, j: int| 0 <= i < n && 0 <= j < rows[i].len() ==> rows[i][j] == v,
    ensures
        v ==> 2 * count_true_rows(rows.take(m as int)) == m * (2 * n - m - 1),
        !v ==> count_true_rows(rows.take(m as int)) == 0,
    decreases m,
{
    if m > 0 {
        lemma_uniform_rows(rows, n, (m - 1) as nat, v);
        assert(rows.take(m as int).drop_last() =~= rows.take(m - 1));
        lemma_uniform_row(rows[m - 1], v);
        if v {
            let prev = count_true_rows(rows.take(m - 1));
            assert(2 * (prev + (n - 1 - (m - 1))) == m * (2 * n - m - 1)) by (nonlinear_arith)
                requires
                    2 * prev == (m - 1) * (2 * n - (m - 1) - 1),
                    m <= n,
            ;
        }
    }
    if m == rows.len() {
        assert(rows.take(m as int) =~= rows);
    }
}

/// The neighbors of node `idx`, each with its payload, in adjacency order.
pub open spec fn snapshot_of<A, R>(m: GraphModel<A, R>, idx: nat) -> Seq<(NodeIndex, A)> {
    m.adj[idx as int].map_values(|e: (nat, R)| (NodeIndex(e.0 as usize), m.payload(e.0)))
}

/// The requests of all results, in order.
pub open spec fn all_events<A>(res: Seq<(A, Vec<NetworkEvent>)>) -> Seq<NetworkEvent>
    decreases res.len(),
{
    if res.len() == 0 {
        Seq::empty()
    } else {
        all_events(res.drop_last()) + res.last().1@
    }
}

/// Topology requests leave the nodes alone, and their effect on the edges depends on the
/// edges and on which nodes are live, not on payloads.
pub proof fn lemma_apply_events_shape<A, R>(m1: GraphModel<A, R>, m2: GraphModel<A, R>, evs: Seq<NetworkEvent>)
    requires
        m1.adj == m2.adj,
        m1.nodes.len() == m2.nodes.len(),
        forall|i: nat| #[trigger] m1.live(i) == m2.live(i),
    ensures
        apply_events(m1, evs).nodes == m1.nodes,
        apply_events(m1, evs).adj == apply_events(m2, evs).adj,
    decreases evs.len(),
{
    if evs.len() > 0 {
        lemma_apply_events_shape(m1, m2, evs.drop_last());
        let done1 = apply_events(m1, evs.drop_last());
        let done2 = apply_events(m2, evs.drop_last());
        assert forall|i: nat| #[trigger] done1.live(i) == done2.live(i) by {
            assert(done1.live(i) == m1.live(i));
            lemma_apply_events_shape(m2, m2, evs.drop_last());
            assert(done2.live(i) == m2.live(i));
        }
    }
}

/// Whether a pair table decides that agents `p` and `q` are related (either order).
pub open spec fn decided(rows: Seq<Seq<bool>>, p: int, q: int) -> bool {
    if p < q {
        rows[p][q - p - 1]
    } else if q < p {
        rows[q][p - q - 1]
    } else {
        false
    }
}

/// Whether the pair `{p, q}` of distinct agents comes before `(i, j)` in the order in
/// which pairs are visited: by smaller agent, then by larger.
pub open spec fn pair_done(i: int, j: int, p: int, q: int) -> bool {
    let lo = if p < q { p } else { q };
    let hi = if p < q { q } else { p };
    p != q && (lo < i || (lo == i && hi < j))
}

/// Each agent of `ag` has one edge to each agent it is decided to be related to, among
/// the pairs visited before `(i, j)`, and none to any other agent.
pub open spec fn counted<A, R>(m: GraphModel<A, R>, ag: Seq<NodeIndex>, rows: Seq<Seq<bool>>, i: int, j: int) -> bool {
    forall|p: int, q: int|
        0 <= p < ag.len() && 0 <= q < ag.len() ==> #[trigger] count_to(m.adj[ag[p].0 as int], ag[q].0 as nat)
            == if decided(rows, p, q) && pair_done(i, j, p, q) { 1nat } else { 0nat }
}

/// Edge `k` of agent `p` leads to an agent that `p` is decided to be related to, in a
/// pair visited before `(i, j)`.
pub open spec fn leads_to_decided<A, R>(m: GraphModel<A, R>, ag: Seq<NodeIndex>, rows: Seq<Seq<bool>>, i: int, j: int, p: int, k: int) -> bool {
    exists|q: int|
        0 <= q < ag.len() && m.adj[ag[p].0 as int][k].0 == ag[q].0 as nat && #[trigger] decided(rows, p, q)
            && pair_done(i, j, p, q)
}

/// Every edge of an agent of `ag` carries `rel` and leads to an agent it is decided to
/// be related to, among the pairs visited before `(i, j)`.
pub open spec fn only_decided<A, R>(m: GraphModel<A, R>, ag: Seq<NodeIndex>, rows: Seq<Seq<bool>>, i: int, j: int, rel: R) -> bool {
    forall|p: int, k: int|
        #![trigger m.adj[ag[p].0 as int][k]]
        0 <= p < ag.len() && 0 <= k < m.adj[ag[p].0 as int].len() ==> {
            &&& m.adj[ag[p].0 as int][k].1 == rel
            &&& leads_to_decided(m, ag, rows, i, j, p, k)
        }
}

/// A pair visited before `(i, j)` is also visited before `(i, j + 1)`.
proof fn lemma_only_decided_later<A, R>(m: GraphModel<A, R>, ag: Seq<NodeIndex>, rows: Seq<Seq<bool>>, i: int, j: int, rel: R)
    requires
        only_decided(m, ag, rows, i, j, rel),
    ensures
        only_decided(m, ag, rows, i, j + 1, rel),
{
    assert forall|p: int, k: int|
        #![trigger m.adj[ag[p].0 as int][k]]
        0 <= p < ag.len() && 0 <= k < m.adj[ag[p].0 as int].len() implies {
            &&& m.adj[ag[p].0 as int][k].1 == rel
            &&& leads_to_decided(m, ag, rows, i, j + 1, p, k)
        } by {
        assert(m.adj[ag[p].0 as int][k].1 == rel);
        assert(leads_to_decided(m, ag, rows, i, j, p, k));
        let q = choose|q: int|
            0 <= q < ag.len() && m.adj[ag[p].0 as int][k].0 == ag[q].0 as nat && #[trigger] decided(rows, p, q)
                && pair_done(i, j, p, q);
        assert(pair_done(i, j + 1, p, q));
    }
}

/// Visiting a decided pair `(i, j)` adds one edge each way: the counts.
proof fn lemma_link_counted<A, R>(m0: GraphModel<A, R>, ag: Seq<NodeIndex>, rows: Seq<Seq<bool>>, i: int, j: int, rel: R)
    requires
        0 <= i < j < ag.len(),
        m0.nodes.len() == m0.adj.len(),
        forall|p: int| 0 <= p < ag.len() ==> m0.live(#[trigger] ag[p].0 as nat),
        forall|p: int, q: int| 0 <= p < q < ag.len() ==> ag[p] != ag[q],
        counted(m0, ag, rows, i, j),
        only_decided(m0, ag, rows, i, j, rel),
        decided(rows, i, j),
    ensures
        counted(m0.add_edge(ag[i].0 as nat, ag[j].0 as nat, rel).add_edge(ag[j].0 as nat, ag[i].0 as nat, rel), ag, rows, i, j + 1),
{
    let a = ag[i].0 as nat;
    let b = ag[j].0 as nat;
    assert(m0.live(a) && m0.live(b));
    assert(ag[i] != ag[j]);
    assert forall|p: int, q: int| 0 <= p < ag.len() && 0 <= q < ag.len() && !(p == i && q == j) && !(p == j && q == i)
        implies pair_done(i, j + 1, p, q) == pair_done(i, j, p, q) by {}
    let m1 = m0.add_edge(a, b, rel);
    let m2 = m1.add_edge(b, a, rel);
    assert(m1.live(a) && m1.live(b));
    assert(m2.adj[a as int] == seq![(b, rel)] + m0.adj[a as int]);
    assert(m2.adj[b as int] == seq![(a, rel)] + m0.adj[b as int]);
    assert forall|p: int, q: int|
        0 <= p < ag.len() && 0 <= q < ag.len() implies #[trigger] count_to(m2.adj[ag[p].0 as int], ag[q].0 as nat)
        == if decided(rows, p, q) && pair_done(i, j + 1, p, q) { 1nat } else { 0nat } by {
        assert(count_to(m0.adj[ag[p].0 as int], ag[q].0 as nat) == if decided(rows, p, q) && pair_done(i, j, p, q) { 1nat } else { 0nat });
        if q != i && q != j {
            assert(ag[q] != ag[i]);
            assert(ag[q] != ag[j]);
        }
        if p != i && p != j {
            assert(ag[p] != ag[i]);
            assert(ag[p] != ag[j]);
            assert(m2.adj[ag[p].0 as int] == m0.adj[ag[p].0 as int]);
        } else if p == i {
            lemma_count_to_prepend((b, rel), m0.adj[a as int], ag[q].0 as nat);
        } else {
            lemma_count_to_prepend((a, rel), m0.adj[b as int], ag[q].0 as nat);
        }
    }
}

/// Visiting a decided pair `(i, j)` adds one edge each way: where the edges lead.
proof fn lemma_link_only<A, R>(m0: GraphModel<A, R>, ag: Seq<NodeIndex>, rows: Seq<Seq<bool>>, i: int, j: int, rel: R)
    requires
        0 <= i < j < ag.len(),
        m0.nodes.len() == m0.adj.len(),
        forall|p: int| 0 <= p < ag.len() ==> m0.live(#[trigger] ag[p].0 as nat),
        forall|p: int, q: int| 0 <= p < q < ag.len() ==> ag[p] != ag[q],
        counted(m0, ag, rows, i, j),
        only_decided(m0, ag, rows, i, j, rel),
        decided(rows, i, j),
    ensures
        only_decided(m0.add_edge(ag[i].0 as nat, ag[j].0 as nat, rel).add_edge(ag[j].0 as nat, ag[i].0 as nat, rel), ag, rows, i, j + 1, rel),
{
    let a = ag[i].0 as nat;
    let b = ag[j].0 as nat;
    assert(m0.live(a) && m0.live(b));
    assert(ag[i] != ag[j]);
    assert forall|p: int, q: int| 0 <= p < ag.len() && 0 <= q < ag.len() && !(p == i && q == j) && !(p == j && q == i)
        implies pair_done(i, j + 1, p, q) == pair_done(i, j, p, q) by {}
    let m1 = m0.add_edge(a, b, rel);
    let m2 = m1.add_edge(b, a, rel);
    assert(m1.live(a) && m1.live(b));
    assert(m2.adj[a as int] == seq![(b, rel)] + m0.adj[a as int]);
    assert(m2.adj[b as int] == seq![(a, rel)] + m0.adj[b as int]);
    assert forall|p: int, k: int|
        #![trigger m2.adj[ag[p].0 as int][k]]
        0 <= p < ag.len() && 0 <= k < m2.adj[ag[p].0 as int].len() implies {
            &&& m2.adj[ag[p].0 as int][k].1 == rel
            &&& leads_to_decided(m2, ag, rows, i, j + 1, p, k)
        } by {
        let x = ag[p].0 as int;
        if p != i && p != j {
            assert(ag[p] != ag[i]);
            assert(ag[p] != ag[j]);
            assert(m2.adj[x] == m0.adj[x]);
            assert(m0.adj[ag[p].0 as int][k].1 == rel);
            assert(leads_to_decided(m0, ag, rows, i, j, p, k));
            let q = choose|q: int|
                0 <= q < ag.len() && m0.adj[x][k].0 == ag[q].0 as nat && #[trigger] decided(rows, p, q) && pair_done(i, j, p, q);
            assert(pair_done(i, j + 1, p, q));
        } else if k == 0 {
            if p == i {
                assert(m2.adj[x][k].0 == ag[j].0 as nat && decided(rows, p, j) && pair_done(i, j + 1, p, j));
            } else {
                assert(m2.adj[x][k].0 == ag[i].0 as nat && decided(rows, p, i) && pair_done(i, j + 1, p, i));
            }
        } else {
            assert(m2.adj[x][k] == m0.adj[x][k - 1]);
            assert(m0.adj[ag[p].0 as int][k - 1].1 == rel);
            assert(leads_to_decided(m0, ag, rows, i, j, p, k - 1));
            let q = choose|q: int|
                0 <= q < ag.len() && m0.adj[x][k - 1].0 == ag[q].0 as nat && #[trigger] decided(rows, p, q) && pair_done(i, j, p, q);
            assert(pair_done(i, j + 1, p, q));
        }
    }
    assert(only_decided(m2, ag, rows, i, j + 1, rel));
    assert(m2 == m0.add_edge(ag[i].0 as nat, ag[j].0 as nat, rel).add_edge(ag[j].0 as nat, ag[i].0 as nat, rel));
}

/// At the end of row `i`, the pairs visited are those before row `i + 1`.
proof fn lemma_row_done<A, R>(m: GraphModel<A, R>, ag: Seq<NodeIndex>, rows: Seq<Seq<bool>>, i: int, rel: R)
    requires
        0 <= i,
        counted(m, ag, rows, i, ag.len() as int),
        only_decided(m, ag, rows, i, ag.len() as int, rel),
    ensures
        counted(m, ag, rows, i + 1, i + 2),
        only_decided(m, ag, rows, i + 1, i + 2, rel),
{
    let n = ag.len() as int;
    assert forall|p: int, q: int| 0 <= p < n && 0 <= q < n implies pair_done(i, n, p, q) == pair_done(i + 1, i + 2, p, q) by {}
    assert forall|p: int, q: int|
        0 <= p < ag.len() && 0 <= q < ag.len() implies #[trigger] count_to(m.adj[ag[p].0 as int], ag[q].0 as nat)
        == if decided(rows, p, q) && pair_done(i + 1, i + 2, p, q) { 1nat } else { 0nat } by {
        assert(count_to(m.adj[ag[p].0 as int], ag[q].0 as nat) == if decided(rows, p, q) && pair_done(i, n, p, q) { 1nat } else { 0nat });
    }
    assert forall|p: int, k: int|
        #![trigger m.adj[ag[p].0 as int][k]]
        0 <= p < ag.len() && 0 <= k < m.adj[ag[p].0 as int].len() implies {
            &&& m.adj[ag[p].0 as int][k].1 == rel
            &&& leads_to_decided(m, ag, rows, i + 1, i + 2, p, k)
        } by {
        assert(m.adj[ag[p].0 as int][k].1 == rel);
        assert(leads_to_decided(m, ag, rows, i, n, p, k));
        let q = choose|q: int|
            0 <= q < ag.len() && m.adj[ag[p].0 as int][k].0 == ag[q].0 as nat && #[trigger] decided(rows, p, q)
                && pair_done(i, n, p, q);
        assert(pair_done(i + 1, i + 2, p, q));
    }
    assert(only_decided(m, ag, rows, i + 1, i + 2, rel));
}

/// Once every row is visited, each pair is related exactly as decided.
proof fn lemma_all_done<A, R>(m: GraphModel<A, R>, ag: Seq<NodeIndex>, rows: Seq<Seq<bool>>, rel: R)
    requires
        counted(m, ag, rows, ag.len() as int, ag.len() as int + 1),
        only_decided(m, ag, rows, ag.len() as int, ag.len() as int + 1, rel),
    ensures
        forall|p: int, q: int|
            0 <= p < ag.len() && 0 <= q < ag.len() ==> #[trigger] count_to(m.adj[ag[p].0 as int], ag[q].0 as nat)
                == if decided(rows, p, q) { 1nat } else { 0nat },
        forall|p: int, k: int|
            #![trigger m.adj[ag[p].0 as int][k]]
            0 <= p < ag.len() && 0 <= k < m.adj[ag[p].0 as int].len() ==> m.adj[ag[p].0 as int][k].1 == rel
                && exists|q: int|
                0 <= q < ag.len() && m.adj[ag[p].0 as int][k].0 == ag[q].0 as nat && #[trigger] decided(rows, p, q),
{
    let n = ag.len() as int;
    assert forall|p: int, q: int|
        0 <= p < ag.len() && 0 <= q < ag.len() implies #[trigger] count_to(m.adj[ag[p].0 as int], ag[q].0 as nat)
        == if decided(rows, p, q) { 1nat } else { 0nat } by {
        assert(count_to(m.adj[ag[p].0 as int], ag[q].0 as nat) == if decided(rows, p, q) && pair_done(n, n + 1, p, q) { 1nat } else { 0nat });
    }
    assert forall|p: int, k: int|
        #![trigger m.adj[ag[p].0 as int][k]]
        0 <= p < ag.len() && 0 <= k < m.adj[ag[p].0 as int].len() implies m.adj[ag[p].0 as int][k].1 == rel
            && exists|q: int|
            0 <= q < ag.len() && m.adj[ag[p].0 as int][k].0 == ag[q].0 as nat && #[trigger] decided(rows, p, q) by {
        assert(m.adj[ag[p].0 as int][k].1 == rel);
        assert(leads_to_decided(m, ag, rows, n, n + 1, p, k));
    }
}

/// Passing over an undecided pair `(i, j)` changes nothing.
proof fn lemma_link_skip<A, R>(m0: GraphModel<A, R>, ag: Seq<NodeIndex>, rows: Seq<Seq<bool>>, i: int, j: int, rel: R)
    requires
        0 <= i < j < ag.len(),
        m0.nodes.len() == m0.adj.len(),
        forall|p: int| 0 <= p < ag.len() ==> m0.live(#[trigger] ag[p].0 as nat),
        forall|p: int, q: int| 0 <= p < q < ag.len() ==> ag[p] != ag[q],
        counted(m0, ag, rows, i, j),
        only_decided(m0, ag, rows, i, j, rel),
        !decided(rows, i, j),
    ensures
        counted(m0, ag, rows, i, j + 1),
        only_decided(m0, ag, rows, i, j + 1, rel),
{
    assert forall|p: int, q: int|
        0 <= p < ag.len() && 0 <= q < ag.len() implies #[trigger] count_to(m0.adj[ag[p].0 as int], ag[q].0 as nat)
        == if decided(rows, p, q) && pair_done(i, j + 1, p, q) { 1nat } else { 0nat } by {
        assert(count_to(m0.adj[ag[p].0 as int], ag[q].0 as nat) == if decided(rows, p, q) && pair_done(i, j, p, q) { 1nat } else { 0nat });
    }
    lemma_only_decided_later(m0, ag, rows, i, j, rel);
}

/// The agents and relations that a relaxing or ticking network works on.
///
/// Each agent is a live node of the graph; a relation is a directed edge. The graph
/// holds no nodes but the agents.
pub struct Network<A, R> {
    graph: Graph<A, R>,
    nodes: Vec<NodeIndex>,
}

impl<A, R> Network<A, R> {
    /// The graph of agents and relations.
    pub closed spec fn model(&self) -> GraphModel<A, R> {
        self.graph@
    }

    /// The handles of the agents, in order of insertion.
    pub closed spec fn agents(&self) -> Seq<NodeIndex> {
        self.nodes@
    }

    /// Every agent is a distinct live node, and there are no other nodes.
    pub closed spec fn wf(&self) -> bool {
        &&& self.graph.wf()
        &&& forall|i: int| 0 <= i < self.nodes@.len() ==> self.graph@.live(#[trigger] self.nodes@[i].0 as nat)
        &&& forall|i: int, j: int| 0 <= i < j < self.nodes@.len() ==> self.nodes@[i] != self.nodes@[j]
        &&& self.graph@.node_count() == self.nodes@.len()
    }

    pub fn new() -> (r: Network<A, R>)
        ensures
            r.wf(),
            r.agents().len() == 0,
            r.model().edge_count() == 0,
    {
        let graph = Graph::new();
        proof {
            assert(graph@.nodes =~= Seq::empty());
            assert(graph@.adj =~= Seq::empty());
        }
        Network { graph, nodes: Vec::new() }
    }

    /// Adds an agent with no relations and returns its handle.
    pub fn add_agent(&mut self, agent: A) -> (r: NodeIndex)
        requires
            old(self).wf(),
        ensures
            final(self).wf(),
            final(self).model().valid(),
            final(self).agents() == old(self).agents().push(r),
            final(self).model() == old(self).model().add_node_at(r.0 as nat, agent),
            !old(self).model().live(r.0 as nat),
            old(self).model().can_add_at(r.0 as nat),
            final(self).model().edge_count() == old(self).model().edge_count(),
            final(self).model().adj[r.0 as int].len() == 0,
            forall|x: nat|
                !final(self).model().has_edge(r.0 as nat, x) && !#[trigger] final(self).model().has_edge(
                    x,
                    r.0 as nat,
                ),
    {
        proof {
            self.graph.lemma_view_valid();
        }
        let ghost m = self.graph@;
        let r = self.graph.add_node(agent);
        proof {
            lemma_add_node_count(m, r.0 as nat, agent);
            self.graph.lemma_view_valid();
            if r.0 == m.nodes.len() {
                crate::graph_model::lemma_total_len_push(m.adj, Seq::<(nat, R)>::empty());
            } else {
                crate::graph_model::lemma_total_len_update(m.adj, r.0 as int, Seq::<(nat, R)>::empty());
            }
            let m1 = self.graph@;
            assert forall|x: nat| !m1.has_edge(r.0 as nat, x) && !#[trigger] m1.has_edge(x, r.0 as nat) by {
                if m1.has_edge(x, r.0 as nat) {
                    let k = choose|k: int| 0 <= k < m1.adj[x as int].len() && (#[trigger] m1.adj[x as int][k]).0 == r.0;
                    assert(x != r.0);
                    assert(m1.adj[x as int] == m.adj[x as int]);
                    assert(m.live(m.adj[x as int][k].0));
                }
            }
        }
        self.nodes.push(r);
        r
    }

    /// A well-formed network has a valid model, and each of its agents is a live node.
    pub proof fn lemma_model_valid(&self)
        requires
            self.wf(),
        ensures
            self.model().valid(),
            forall|k: int| 0 <= k < self.agents().len() ==> self.model().live(#[trigger] self.agents()[k].0 as nat),
    {
        self.graph.lemma_view_valid();
    }

    /// Adds a relation from `src` to `dst`; nothing happens unless both are agents.
    pub fn add_relation(&mut self, src: NodeIndex, dst: NodeIndex, relation: R)
        requires
            old(self).wf(),
        ensures
            final(self).wf(),
            final(self).agents() == old(self).agents(),
            final(self).model() == old(self).model().add_edge(src.0 as nat, dst.0 as nat, relation),
            final(self).model().valid(),
    {
        self.graph.add_edge(src, dst, relation);
        proof {
            self.graph.lemma_view_valid();
        }
    }

    /// Number of agents.
    pub fn num_agents(&self) -> (r: usize)
        requires
            self.wf(),
        ensures
            r == self.agents().len(),
            r == self.model().node_count(),
    {
        self.nodes.len()
    }

    /// Number of directed relations.
    pub fn num_relations(&self) -> (r: usize)
        requires
            self.wf(),
        ensures
            r == self.model().edge_count(),
    {
        self.graph.num_edges()
    }

    /// The handle of agent number `i`, in order of insertion.
    pub fn agent_at(&self, i: usize) -> (r: NodeIndex)
        requires
            self.wf(),
            i < self.agents().len(),
        ensures
            r == self.agents()[i as int],
            self.model().live(r.0 as nat),
    {
        self.nodes[i]
    }

    /// The payload of agent `idx`, to read.
    pub fn agent(&self, idx: NodeIndex) -> (r: &A)
        requires
            self.wf(),
            self.model().live(idx.0 as nat),
        ensures
            *r == self.model().payload(idx.0 as nat),
    {
        self.graph.node_payload_ref(idx)
    }

    /// The payload of agent `idx`, to change in place.
    pub fn agent_mut(&mut self, idx: NodeIndex) -> (r: &mut A)
        requires
            old(self).wf(),
            old(self).model().live(idx.0 as nat),
        ensures
            *r == old(self).model().payload(idx.0 as nat),
            final(self).wf(),
            final(self).agents() == old(self).agents(),
            final(self).model().nodes == old(self).model().nodes.update(idx.0 as int, Some(*final(r))),
            final(self).model().adj == old(self).model().adj,
    {
        proof {
            Self::lemma_payload_frame(self, idx.0 as int);
        }
        self.graph.node_payload(idx)
    }

    /// Changing an agent's payload keeps the network well formed.
    proof fn lemma_payload_frame(n0: &Self, i: int)
        requires
            n0.wf(),
            0 <= i,
            n0.model().live(i as nat),
        ensures
            forall|n: Self|
                n.nodes@ == n0.nodes@ && n.graph.wf() && n.graph@.adj == n0.graph@.adj
                    && n.graph@.nodes.len() == n0.graph@.nodes.len() && n.graph@.nodes[i] is Some
                    && (forall|j: int| 0 <= j < n0.graph@.nodes.len() && j != i ==> n.graph@.nodes[j]
                    == n0.graph@.nodes[j]) ==> #[trigger] n.wf(),
    {
        assert forall|n: Self|
            n.nodes@ == n0.nodes@ && n.graph.wf() && n.graph@.adj == n0.graph@.adj
                && n.graph@.nodes.len() == n0.graph@.nodes.len() && n.graph@.nodes[i] is Some
                && (forall|j: int| 0 <= j < n0.graph@.nodes.len() && j != i ==> n.graph@.nodes[j]
                == n0.graph@.nodes[j]) implies #[trigger] n.wf() by {
            let v = n.graph@.nodes[i];
            assert(n.graph@.nodes =~= n0.graph@.nodes.update(i, v));
            crate::graph_model::lemma_count_live_update(n0.graph@.nodes, i, v);
            assert forall|k: int| 0 <= k < n.nodes@.len() implies n.graph@.live(#[trigger] n.nodes@[k].0 as nat) by {
                assert(n0.graph@.live(n0.nodes@[k].0 as nat));
            }
        }
    }

    /// The agents that agent `idx` has relations to, most recent relation first.
    pub fn neighbors(&self, idx: NodeIndex) -> (r: Vec<NodeIndex>)
        requires
            self.wf(),
            self.model().live(idx.0 as nat),
        ensures
            r@.len() == self.model().adj[idx.0 as int].len(),
            forall|k: int| 0 <= k < r@.len() ==> r@[k].0 == self.model().adj[idx.0 as int][k].0,
    {
        self.graph.neighbors(idx)
    }

    /// A network of `agents`, in order, with a relation each way, both carrying
    /// `relation`, between agents `i < j` whose entry `links[i][j - i - 1]` is `true`.
    pub fn build(agents: Vec<A>, links: &Vec<Vec<bool>>, relation: R) -> (r: Network<A, R>)
        where
            R: Copy,
        requires
            is_pair_table(rows_of(links@), agents@.len()),
        ensures
            r.wf(),
            r.agents().len() == agents@.len(),
            forall|k: int|
                0 <= k < agents@.len() ==> r.model().payload(#[trigger] r.agents()[k].0 as nat)
                    == agents@[k],
            r.model().edge_count() == 2 * count_true_rows(rows_of(links@)),
            r.model().valid(),
            forall|p: int, q: int|
                0 <= p < agents@.len() && 0 <= q < agents@.len() ==> #[trigger] count_to(
                    r.model().adj[r.agents()[p].0 as int],
                    r.agents()[q].0 as nat,
                ) == if decided(rows_of(links@), p, q) { 1nat } else { 0nat },
            forall|p: int, k: int|
                #![trigger r.model().adj[r.agents()[p].0 as int][k]]
                0 <= p < agents@.len() && 0 <= k < r.model().adj[r.agents()[p].0 as int].len()
                    ==> r.model().adj[r.agents()[p].0 as int][k].1 == relation && exists|q: int|
                    0 <= q < agents@.len() && r.model().adj[r.agents()[p].0 as int][k].0 == r.agents()[q].0 as nat
                        && #[trigger] decided(rows_of(links@), p, q),
    {
        let ghost orig = agents@;
        let ghost rows = rows_of(links@);
        let n = agents.len();
        let mut agents = agents;
        let mut net: Network<A, R> = Network::new();
        let mut i: usize = 0;
        while i < n
            invariant
                net.wf(),
                n == orig.len(),
                0 <= i <= n,
                agents@ == orig.subrange(i as int, n as int),
                net.agents().len() == i,
                net.model().edge_count() == 0,
                forall|k: int| 0 <= k < i ==> net.model().payload(#[trigger] net.agents()[k].0 as nat) == orig[k],
                forall|k: int| 0 <= k < i ==> net.model().adj[(#[trigger] net.agents()[k]).0 as int].len() == 0,
            decreases n - i,
        {
            let ghost before = net;
            let a = agents.remove(0);
            let idx = net.add_agent(a);
            proof {
                before.graph.lemma_view_valid();
                assert(!before.model().live(idx.0 as nat));
                assert(net.model() == before.model().add_node_at(idx.0 as nat, a));
                let bm = before.model();
                assert forall|k: int| 0 <= k < i + 1 implies net.model().payload(
                    #[trigger] net.agents()[k].0 as nat,
                ) == orig[k] by {
                    if k < i {
                        let x = before.agents()[k].0 as nat;
                        assert(before.model().live(x));
                        assert(net.agents()[k] == before.agents()[k]);
                        assert(x != idx.0);
                        if idx.0 == bm.nodes.len() {
                            assert(net.model().nodes == bm.nodes.push(Some(a)));
                            assert(net.model().nodes[x as int] == bm.nodes[x as int]);
                        } else {
                            assert(net.model().nodes == bm.nodes.update(idx.0 as int, Some(a)));
                            assert(net.model().nodes[x as int] == bm.nodes[x as int]);
                        }
                    } else {
                        assert(net.agents()[k] == idx);
                        assert(orig.subrange(i as int, n as int)[0] == orig[k]);
                        assert(orig[k] == a);
                        if idx.0 == bm.nodes.len() {
                            assert(net.model().nodes == bm.nodes.push(Some(a)));
                            assert(net.model().nodes[idx.0 as int] == Some(a));
                        } else {
                            assert(net.model().nodes == bm.nodes.update(idx.0 as int, Some(a)));
                            assert(net.model().nodes[idx.0 as int] == Some(a));
                        }
                    }
                }
                assert(agents@ =~= orig.subrange(i + 1, n as int));
                assert forall|k: int| 0 <= k < i + 1 implies net.model().adj[(#[trigger] net.agents()[k]).0 as int].len() == 0 by {
                    if k < i {
                        assert(net.agents()[k] == before.agents()[k]);
                        assert(before.model().live(before.agents()[k].0 as nat));
                        assert(before.agents()[k].0 != idx.0);
                    }
                }
                if idx.0 == bm.nodes.len() {
                    assert(net.model().adj == bm.adj.push(Seq::empty()));
                    crate::graph_model::lemma_total_len_push(bm.adj, Seq::<(nat, R)>::empty());
                } else {
                    assert(net.model().adj == bm.adj.update(idx.0 as int, Seq::empty()));
                    assert(bm.adj[idx.0 as int].len() == 0);
                    crate::graph_model::lemma_total_len_update(bm.adj, idx.0 as int, Seq::<(nat, R)>::empty());
                }
            }
            i = i + 1;
        }
        let ghost placed = net.agents();
        proof {
            assert forall|p: int, q: int|
                0 <= p < placed.len() && 0 <= q < placed.len() implies #[trigger] count_to(net.model().adj[placed[p].0 as int], placed[q].0 as nat)
                == if decided(rows, p, q) && pair_done(0, 1, p, q) { 1nat } else { 0nat } by {
                assert(net.model().adj[placed[p].0 as int].len() == 0);
            }
            assert forall|p: int, k: int|
                #![trigger net.model().adj[placed[p].0 as int][k]]
                0 <= p < placed.len() && 0 <= k < net.model().adj[placed[p].0 as int].len() implies {
                    &&& net.model().adj[placed[p].0 as int][k].1 == relation
                    &&& leads_to_decided(net.model(), placed, rows, 0, 1, p, k)
                } by {
                assert(net.model().adj[placed[p].0 as int].len() == 0);
            }
            assert(counted(net.model(), placed, rows, 0, 1));
            assert(only_decided(net.model(), placed, rows, 0, 1, relation));
        }
        let mut i: usize = 0;
        while i < n
            invariant
                net.wf(),
                n == orig.len(),
                links@.len() == n,
                rows == rows_of(links@),
                is_pair_table(rows, n as nat),
                0 <= i <= n,
                net.agents() == placed,
                placed.len() == n,
                forall|k: int| 0 <= k < n ==> net.model().payload(#[trigger] placed[k].0 as nat) == orig[k],
                net.model().edge_count() == 2 * count_true_rows(rows.take(i as int)),
                counted(net.model(), placed, rows, i as int, i + 1),
                only_decided(net.model(), placed, rows, i as int, i + 1, relation),
            decreases n - i,
        {
            let mut j: usize = i + 1;
            proof {
                assert(rows[i as int] == links@[i as int]@);
            }
            while j < n
                invariant
                    net.wf(),
                    n == orig.len(),
                    links@.len() == n,
                    rows == rows_of(links@),
                    is_pair_table(rows, n as nat),
                    0 <= i < n,
                    i + 1 <= j <= n,
                    net.agents() == placed,
                    placed.len() == n,
                    forall|k: int| 0 <= k < n ==> net.model().payload(#[trigger] placed[k].0 as nat) == orig[k],
                    net.model().edge_count() == 2 * (count_true_rows(rows.take(i as int)) + count_true(
                        rows[i as int].take(j - i - 1),
                    )),
                    counted(net.model(), placed, rows, i as int, j as int),
                    only_decided(net.model(), placed, rows, i as int, j as int, relation),
                decreases n - j,
            {
                proof {
                    assert(rows[i as int] == links@[i as int]@);
                    assert(rows[i as int].take(j - i) .drop_last() =~= rows[i as int].take(j - i - 1));
                }
                proof {
                    net.graph.lemma_view_valid();
                    assert forall|p: int| 0 <= p < placed.len() implies net.model().live(#[trigger] placed[p].0 as nat) by {}
                    assert forall|p: int, q: int| 0 <= p < q < placed.len() implies placed[p] != placed[q] by {}
                    assert(decided(rows, i as int, j as int) == links@[i as int]@[j - i - 1]);
                    if !decided(rows, i as int, j as int) {
                        lemma_link_skip(net.model(), placed, rows, i as int, j as int, relation);
                    }
                }
                if links[i][j - i - 1] {
                    let a = net.nodes[i];
                    let b = net.nodes[j];
                    let ghost m0 = net.model();
                    proof {
                        lemma_link_counted(m0, placed, rows, i as int, j as int, relation);
                        lemma_link_only(m0, placed, rows, i as int, j as int, relation);
                        net.graph.lemma_view_valid();
                        assert(net.model().live(placed[i as int].0 as nat));
                        assert(net.model().live(placed[j as int].0 as nat));
                        lemma_add_edge_count(m0, a.0 as nat, b.0 as nat, relation);
                        lemma_add_edge_count(m0.add_edge(a.0 as nat, b.0 as nat, relation), b.0 as nat, a.0 as nat, relation);
                    }
                    net.add_relation(a, b, relation);
                    net.add_relation(b, a, relation);
                }
                j = j + 1;
            }
            proof {
                assert(rows[i as int].take(n - i - 1) =~= rows[i as int]);
                assert(rows.take(i + 1).drop_last() =~= rows.take(i as int));
                lemma_row_done(net.model(), placed, rows, i as int, relation);
            }
            i = i + 1;
        }
        proof {
            assert(rows.take(n as int) =~= rows);
            lemma_all_done(net.model(), placed, rows, relation);
            net.graph.lemma_view_valid();
        }
        net
    }

    /// Applies the topology requests of `events`, in order.
    pub fn apply_events(&mut self, events: &Vec<NetworkEvent>)
        requires
            old(self).wf(),
        ensures
            final(self).wf(),
            final(self).agents() == old(self).agents(),
            final(self).model() == apply_events(old(self).model(), events@),
    {
        let ghost m = self.model();
        let mut i: usize = 0;
        while i < events.len()
            invariant
                self.wf(),
                self.agents() == old(self).agents(),
                m == old(self).model(),
                0 <= i <= events@.len(),
                self.model() == apply_events(m, events@.take(i as int)),
            decreases events@.len() - i,
        {
            match events[i] {
                NetworkEvent::RemoveRelation(a, b) => {
                    self.graph.remove_edge(a, b);
                },
            }
            proof {
                assert(events@.take(i + 1).drop_last() =~= events@.take(i as int));
            }
            i = i + 1;
        }
        proof {
            assert(events@.take(events@.len() as int) =~= events@);
        }
    }

    /// `out` is a result of `update` on agent number `k`: its handle, its payload and
    /// the snapshot of its neighbors.
    pub open spec fn result_ok<F>(&self, update: F, k: int, out: (A, Vec<NetworkEvent>)) -> bool
        where
            F: Fn(NodeIndex, A, Vec<(NodeIndex, A)>) -> (A, Vec<NetworkEvent>),
    {
        exists|v: Vec<(NodeIndex, A)>|
            v@ == snapshot_of(self.model(), self.agents()[k].0 as nat) && #[trigger] call_ensures(
                update,
                (self.agents()[k], self.model().payload(self.agents()[k].0 as nat), v),
                out,
            )
    }

    /// `res` holds, for each agent in order, a result of `update` on the agent's handle,
    /// its payload and the snapshot of its neighbors.
    pub open spec fn swept<F>(&self, update: F, res: Seq<(A, Vec<NetworkEvent>)>) -> bool
        where
            F: Fn(NodeIndex, A, Vec<(NodeIndex, A)>) -> (A, Vec<NetworkEvent>),
    {
        &&& res.len() == self.agents().len()
        &&& forall|k: int| 0 <= k < res.len() ==> self.result_ok(update, k, #[trigger] res[k])
    }

    /// `new` is `old` with agent `k`'s payload set to `res[k].0` and then all requests
    /// of `res` applied, in order.
    pub open spec fn committed(old: &Self, res: Seq<(A, Vec<NetworkEvent>)>, new: &Self) -> bool {
        &&& new.wf()
        &&& new.agents() == old.agents()
        &&& new.model().nodes.len() == old.model().nodes.len()
        &&& forall|i: nat| #[trigger] new.model().live(i) == old.model().live(i)
        &&& forall|k: int|
            0 <= k < old.agents().len() ==> new.model().payload(#[trigger] old.agents()[k].0 as nat)
                == res[k].0
        &&& new.model().adj == apply_events(old.model(), all_events(res)).adj
    }

    /// The neighbors of agent `idx`, each with a copy of its payload.
    pub fn snapshot(&self, idx: NodeIndex) -> (r: Vec<(NodeIndex, A)>)
        where
            A: Copy,
        requires
            self.wf(),
            self.model().live(idx.0 as nat),
        ensures
            r@ == snapshot_of(self.model(), idx.0 as nat),
    {
        let nbrs = self.graph.neighbors(idx);
        proof {
            self.graph.lemma_view_valid();
        }
        let mut r: Vec<(NodeIndex, A)> = Vec::new();
        let mut k: usize = 0;
        while k < nbrs.len()
            invariant
                self.wf(),
                self.model().live(idx.0 as nat),
                self.model().valid(),
                nbrs@.len() == self.model().adj[idx.0 as int].len(),
                forall|j: int| 0 <= j < nbrs@.len() ==> nbrs@[j].0 == self.model().adj[idx.0 as int][j].0,
                0 <= k <= nbrs@.len(),
                r@ =~= snapshot_of(self.model(), idx.0 as nat).take(k as int),
            decreases nbrs@.len() - k,
        {
            let j = nbrs[k];
            proof {
                assert(self.model().live(self.model().adj[idx.0 as int][k as int].0));
            }
            let a = *self.graph.node_payload_ref(j);
            r.push((j, a));
            k = k + 1;
        }
        r
    }

    /// Runs `update` on every agent against the state before the sweep: the agent's
    /// handle, a copy of its payload, and a snapshot of its neighbors. Nothing is
    /// changed; the results come back in agent order.
    pub fn logic_sweep<F>(&self, update: &F) -> (r: Vec<(A, Vec<NetworkEvent>)>)
        where
            A: Copy,
            F: Fn(NodeIndex, A, Vec<(NodeIndex, A)>) -> (A, Vec<NetworkEvent>),
        requires
            self.wf(),
            forall|i: NodeIndex, a: A, v: Vec<(NodeIndex, A)>| call_requires(*update, (i, a, v)),
        ensures
            self.swept(*update, r@),
    {
        let n = self.nodes.len();
        let mut r: Vec<(A, Vec<NetworkEvent>)> = Vec::new();
        let mut k: usize = 0;
        while k < n
            invariant
                self.wf(),
                n == self.agents().len(),
                forall|i: NodeIndex, a: A, v: Vec<(NodeIndex, A)>| call_requires(*update, (i, a, v)),
                0 <= k <= n,
                r@.len() == k,
                forall|j: int| 0 <= j < k ==> self.result_ok(*update, j, #[trigger] r@[j]),
            decreases n - k,
        {
            let idx = self.nodes[k];
            let me = *self.graph.node_payload_ref(idx);
            let snap = self.snapshot(idx);
            let ghost snap_v = snap;
            let ghost r0 = r@;
            let out = update(idx, me, snap);
            proof {
                assert(call_ensures(*update, (idx, me, snap_v), out));
            }
            r.push(out);
            proof {
                assert(r@[k as int] == out);
                assert(snap_v@ == snapshot_of(self.model(), self.agents()[k as int].0 as nat));
                assert forall|j: int| 0 <= j < k + 1 implies self.result_ok(*update, j, #[trigger] r@[j]) by {
                    if j < k {
                        assert(r@[j] == r0[j]);
                    } else {
                        assert(self.model().payload(self.agents()[j].0 as nat) == me);
                        assert(snap_v@ == snapshot_of(self.model(), self.agents()[j].0 as nat)
                            && call_ensures(*update, (self.agents()[j], self.model().payload(self.agents()[j].0 as nat), snap_v), r@[j]));
                    }
                }
            }
            k = k + 1;
        }
        r
    }

    /// Sets agent `k`'s payload to `res[k].0`, then applies all requests of `res`, in
    /// agent order.
    pub fn logic_commit(&mut self, res: Vec<(A, Vec<NetworkEvent>)>)
        requires
            old(self).wf(),
            res@.len() == old(self).agents().len(),
        ensures
            Self::committed(old(self), res@, final(self)),
    {
        let ghost old_net = *self;
        let ghost all = res@;
        let n = res.len();
        // requests, in agent order
        let mut events: Vec<NetworkEvent> = Vec::new();
        let mut k: usize = 0;
        while k < n
            invariant
                n == res@.len(),
                all == res@,
                0 <= k <= n,
                events@ == all_events(all.take(k as int)),
            decreases n - k,
        {
            let evs = &res[k].1;
            let mut j: usize = 0;
            while j < evs.len()
                invariant
                    n == res@.len(),
                    all == res@,
                    0 <= k < n,
                    evs@ == all[k as int].1@,
                    0 <= j <= evs@.len(),
                    events@ == all_events(all.take(k as int)) + evs@.take(j as int),
                decreases evs@.len() - j,
            {
                events.push(evs[j]);
                proof {
                    assert(evs@.take(j + 1) =~= evs@.take(j as int).push(evs@[j as int]));
                }
                j = j + 1;
            }
            proof {
                assert(all.take(k + 1).drop_last() =~= all.take(k as int));
                assert(evs@.take(j as int) =~= evs@);
            }
            k = k + 1;
        }
        proof {
            assert(all.take(n as int) =~= all);
        }
        // payloads, from the last agent down
        let mut res = res;
        while res.len() > 0
            invariant
                self.wf(),
                self.agents() == old_net.agents(),
                n == old_net.agents().len(),
                all.len() == n,
                res@.len() <= n,
                res@ == all.take(res@.len() as int),
                self.model().adj == old_net.model().adj,
                self.model().nodes.len() == old_net.model().nodes.len(),
                forall|i: nat| #[trigger] self.model().live(i) == old_net.model().live(i),
                forall|j: int|
                    res@.len() <= j < n ==> self.model().payload(#[trigger] old_net.agents()[j].0 as nat)
                        == all[j].0,
            decreases res@.len(),
        {
            let ghost rb = res@;
            let last = res.pop().unwrap();
            let k = res.len();
            proof {
                assert(last == rb[k as int]);
                assert(rb[k as int] == all[k as int]);
                assert(res@ =~= rb.take(k as int));
            }
            let (a, _) = last;
            let idx = self.nodes[k];
            let ghost before = self.model();
            proof {
                assert(all[k as int].0 == a);
                assert(self.model().live(idx.0 as nat));
            }
            *self.agent_mut(idx) = a;
            proof {
                assert(res@ =~= all.take(k as int));
                assert forall|i: nat| #[trigger] self.model().live(i) == old_net.model().live(i) by {
                    assert(before.live(i) == old_net.model().live(i));
                }
                assert forall|j: int|
                    k <= j < n implies self.model().payload(#[trigger] old_net.agents()[j].0 as nat)
                    == all[j].0 by {
                    if j > k {
                        assert(old_net.agents()[j] != old_net.agents()[k as int]);
                    }
                }
            }
        }
        let ghost written = self.model();
        self.apply_events(&events);
        proof {
            lemma_apply_events_shape(written, old_net.model(), events@);
            assert forall|i: nat| #[trigger] self.model().live(i) == old_net.model().live(i) by {
                assert(written.live(i) == old_net.model().live(i));
            }
        }
    }

    /// One logic tick: every agent's new payload is computed by `update` from the state
    /// before the tick, then all payloads are written and the requested topology changes
    /// applied. Returns nothing; what holds is stated over the sweep's results.
    pub fn logic_tick<F>(&mut self, update: &F)
        where
            A: Copy,
            F: Fn(NodeIndex, A, Vec<(NodeIndex, A)>) -> (A, Vec<NetworkEvent>),
        requires
            old(self).wf(),
            forall|i: NodeIndex, a: A, v: Vec<(NodeIndex, A)>| call_requires(*update, (i, a, v)),
        ensures
            exists|res: Seq<(A, Vec<NetworkEvent>)>|
                #[trigger] old(self).swept(*update, res) && Self::committed(old(self), res, final(self)),
    {
        let res = self.logic_sweep(update);
        let ghost r = res@;
        let ghost before = *self;
        self.logic_commit(res);
        proof {
            assert(before.swept(*update, r) && Self::committed(&before, r, self));
        }
    }

    /// One appearance tick: every agent's payload is replaced by `look` of it. The
    /// relations are left alone.
    pub fn look_tick<F>(&mut self, look: &F)
        where
            A: Copy,
            F: Fn(A) -> A,
        requires
            old(self).wf(),
            forall|a: A| call_requires(*look, (a,)),
        ensures
            final(self).wf(),
            final(self).agents() == old(self).agents(),
            final(self).model().adj == old(self).model().adj,
            final(self).model().nodes.len() == old(self).model().nodes.len(),
            forall|i: nat| #[trigger] final(self).model().live(i) == old(self).model().live(i),
            forall|k: int|
                0 <= k < old(self).agents().len() ==> call_ensures(
                    *look,
                    (old(self).model().payload(old(self).agents()[k].0 as nat),),
                    final(self).model().payload(#[trigger] old(self).agents()[k].0 as nat),
                ),
    {
        let ghost m0 = self.model();
        let ghost ag = self.agents();
        let n = self.nodes.len();
        let mut k: usize = 0;
        while k < n
            invariant
                self.wf(),
                forall|a: A| call_requires(*look, (a,)),
                self.agents() == ag,
                n == ag.len(),
                0 <= k <= n,
                self.model().adj == m0.adj,
                self.model().nodes.len() == m0.nodes.len(),
                forall|i: nat| #[trigger] self.model().live(i) == m0.live(i),
                forall|j: int|
                    0 <= j < k ==> call_ensures(
                        *look,
                        (m0.payload(ag[j].0 as nat),),
                        self.model().payload(#[trigger] ag[j].0 as nat),
                    ),
                forall|j: int| k <= j < n ==> self.model().payload(#[trigger] ag[j].0 as nat) == m0.payload(ag[j].0 as nat),
            decreases n - k,
        {
            let idx = self.nodes[k];
            let ghost before = self.model();
            proof {
                assert(self.model().live(idx.0 as nat));
            }
            let a = *self.agent(idx);
            let b = look(a);
            *self.agent_mut(idx) = b;
            proof {
                assert forall|i: nat| #[trigger] self.model().live(i) == m0.live(i) by {
                    assert(before.live(i) == m0.live(i));
                }
                assert forall|j: int| 0 <= j < n && j != k implies self.model().payload(#[trigger] ag[j].0 as nat)
                    == before.payload(ag[j].0 as nat) by {
                    assert(ag[j] != ag[k as int]);
                }
            }
            k = k + 1;
        }
    }
}

} // verus!
