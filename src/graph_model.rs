use vstd::prelude::*;

verus! {

/// The abstract state of a graph.
///
/// `nodes[i]` is `Some(payload)` when slot `i` holds a live node and `None` when the
/// slot is free. `adj[i]` lists the outgoing edges of slot `i` as (target slot, payload)
/// pairs, most recently added first; a free slot has no outgoing edges.
pub struct GraphModel<T, S> {
    pub nodes: Seq<Option<T>>,
    pub adj: Seq<Seq<(nat, S)>>,
}

/// Number of `Some` entries in `s`.
pub open spec fn count_live<T>(s: Seq<Option<T>>) -> nat
    decreases s.len(),
{
    if s.len() == 0 {
        0
    } else {
        count_live(s.drop_last()) + if s.last() is Some { 1nat } else { 0nat }
    }
}

/// Sum of the lengths of the sequences in `ss`.
pub open spec fn total_len<A>(ss: Seq<Seq<A>>) -> nat
    decreases ss.len(),
{
    if ss.len() == 0 {
        0
    } else {
        total_len(ss.drop_last()) + ss.last().len()
    }
}

/// Position of the first edge of `s` that targets `b`, or `s.len()` if there is none.
pub open spec fn find_target<S>(s: Seq<(nat, S)>, b: nat) -> int
    decreases s.len(),
{
    if s.len() == 0 {
        0
    } else if s[0].0 == b {
        0
    } else {
        1 + find_target(s.drop_first(), b)
    }
}

/// `s` without the edges that target `b`, order kept.
pub open spec fn drop_target<S>(s: Seq<(nat, S)>, b: nat) -> Seq<(nat, S)>
    decreases s.len(),
{
    if s.len() == 0 {
        s
    } else if s[0].0 == b {
        drop_target(s.drop_first(), b)
    } else {
        seq![s[0]] + drop_target(s.drop_first(), b)
    }
}

/// The payloads of the live slots from slot `i` on, in ascending slot order.
pub open spec fn live_from<T>(nodes: Seq<Option<T>>, i: int) -> Seq<T>
    decreases nodes.len() - i,
{
    if i < 0 || i >= nodes.len() {
        Seq::empty()
    } else if nodes[i] is Some {
        seq![nodes[i]->Some_0] + live_from(nodes, i + 1)
    } else {
        live_from(nodes, i + 1)
    }
}

impl<T, S> GraphModel<T, S> {
    /// Both sequences cover the same slots, and a free slot has no outgoing edges.
    pub open spec fn valid(self) -> bool {
        &&& self.nodes.len() == self.adj.len()
        &&& forall|i: int| 0 <= i < self.nodes.len() && self.nodes[i] is None ==> self.adj[i].len() == 0
        &&& forall|i: int, k: int|
            #![trigger self.adj[i][k]]
            0 <= i < self.adj.len() && 0 <= k < self.adj[i].len() ==> self.live(self.adj[i][k].0)
    }

    pub open spec fn live(self, i: nat) -> bool {
        i < self.nodes.len() && self.nodes[i as int] is Some
    }

    /// The payload of a live slot.
    pub open spec fn payload(self, i: nat) -> T {
        self.nodes[i as int]->Some_0
    }

    pub open spec fn node_count(self) -> nat {
        count_live(self.nodes)
    }

    pub open spec fn edge_count(self) -> nat {
        total_len(self.adj)
    }

    /// Both endpoints are live and an edge of `a` targets `b`.
    pub open spec fn has_edge(self, a: nat, b: nat) -> bool {
        &&& self.live(a)
        &&& self.live(b)
        &&& exists|k: int| 0 <= k < self.adj[a as int].len() && (#[trigger] self.adj[a as int][k]).0 == b
    }

    /// A slot that `add_node` may fill: a free slot, or the next slot past the end.
    pub open spec fn can_add_at(self, i: nat) -> bool {
        i == self.nodes.len() || (i < self.nodes.len() && self.nodes[i as int] is None)
    }

    /// Some slot below the end is free.
    pub open spec fn has_free_slot(self) -> bool {
        exists|i: int| 0 <= i < self.nodes.len() && self.nodes[i] is None
    }

    /// A live node with `payload` and no outgoing edges placed in slot `i`.
    pub open spec fn add_node_at(self, i: nat, payload: T) -> GraphModel<T, S> {
        if i == self.nodes.len() {
            GraphModel { nodes: self.nodes.push(Some(payload)), adj: self.adj.push(Seq::empty()) }
        } else {
            GraphModel {
                nodes: self.nodes.update(i as int, Some(payload)),
                adj: self.adj.update(i as int, Seq::empty()),
            }
        }
    }

    /// Slot `x` freed, with its outgoing edges and every edge that targets it.
    pub open spec fn remove_node(self, x: nat) -> GraphModel<T, S> {
        if !self.live(x) {
            self
        } else {
            GraphModel {
                nodes: self.nodes.update(x as int, None),
                adj: Seq::new(
                    self.adj.len(),
                    |i: int|
                        if i == x {
                            Seq::empty()
                        } else {
                            drop_target(self.adj[i], x)
                        },
                ),
            }
        }
    }

    /// A new edge from `a` to `b` at the head of `a`'s list; nothing when an endpoint is not live.
    pub open spec fn add_edge(self, a: nat, b: nat, payload: S) -> GraphModel<T, S> {
        if self.live(a) && self.live(b) {
            GraphModel {
                nodes: self.nodes,
                adj: self.adj.update(a as int, seq![(b, payload)] + self.adj[a as int]),
            }
        } else {
            self
        }
    }

    /// The first edge of `a` that targets `b` taken out; nothing when there is none.
    pub open spec fn remove_edge(self, a: nat, b: nat) -> GraphModel<T, S> {
        if self.live(a) && find_target(self.adj[a as int], b) < self.adj[a as int].len() {
            GraphModel {
                nodes: self.nodes,
                adj: self.adj.update(
                    a as int,
                    self.adj[a as int].remove(find_target(self.adj[a as int], b)),
                ),
            }
        } else {
            self
        }
    }

    /// The payloads of the live nodes, in ascending slot order.
    pub open spec fn live_payloads(self) -> Seq<T> {
        live_from(self.nodes, 0)
    }
}

pub proof fn lemma_count_live_bound<T>(s: Seq<Option<T>>)
    ensures
        count_live(s) <= s.len(),
        (exists|i: int| 0 <= i < s.len() && s[i] is None) ==> count_live(s) < s.len(),
    decreases s.len(),
{
    if s.len() > 0 {
        lemma_count_live_bound(s.drop_last());
        if exists|i: int| 0 <= i < s.len() && s[i] is None {
            let i = choose|i: int| 0 <= i < s.len() && s[i] is None;
            if i < s.len() - 1 {
                assert(s.drop_last()[i] is None);
            }
        }
    }
}

pub proof fn lemma_count_live_push<T>(s: Seq<Option<T>>, v: Option<T>)
    ensures
        count_live(s.push(v)) == count_live(s) + if v is Some { 1nat } else { 0nat },
{
    assert(s.push(v).drop_last() =~= s);
}

pub proof fn lemma_count_live_update<T>(s: Seq<Option<T>>, i: int, v: Option<T>)
    requires
        0 <= i < s.len(),
    ensures
        count_live(s.update(i, v)) + (if s[i] is Some { 1nat } else { 0nat })
            == count_live(s) + (if v is Some { 1nat } else { 0nat }),
    decreases s.len(),
{
    if i == s.len() - 1 {
        assert(s.update(i, v).drop_last() =~= s.drop_last());
    } else {
        assert(s.update(i, v).drop_last() =~= s.drop_last().update(i, v));
        lemma_count_live_update(s.drop_last(), i, v);
    }
}

pub proof fn lemma_total_len_push<A>(ss: Seq<Seq<A>>, x: Seq<A>)
    ensures
        total_len(ss.push(x)) == total_len(ss) + x.len(),
{
    assert(ss.push(x).drop_last() =~= ss);
}

pub proof fn lemma_total_len_update<A>(ss: Seq<Seq<A>>, i: int, x: Seq<A>)
    requires
        0 <= i < ss.len(),
    ensures
        total_len(ss.update(i, x)) + ss[i].len() == total_len(ss) + x.len(),
    decreases ss.len(),
{
    if i == ss.len() - 1 {
        assert(ss.update(i, x).drop_last() =~= ss.drop_last());
    } else {
        assert(ss.update(i, x).drop_last() =~= ss.drop_last().update(i, x));
        lemma_total_len_update(ss.drop_last(), i, x);
    }
}

pub proof fn lemma_total_len_ge<A>(ss: Seq<Seq<A>>, i: int)
    requires
        0 <= i < ss.len(),
    ensures
        ss[i].len() <= total_len(ss),
    decreases ss.len(),
{
    if i < ss.len() - 1 {
        lemma_total_len_ge(ss.drop_last(), i);
    }
}

pub proof fn lemma_find_target<S>(s: Seq<(nat, S)>, b: nat)
    ensures
        0 <= find_target(s, b) <= s.len(),
        forall|j: int| 0 <= j < find_target(s, b) ==> s[j].0 != b,
        find_target(s, b) < s.len() ==> s[find_target(s, b)].0 == b,
    decreases s.len(),
{
    if s.len() > 0 && s[0].0 != b {
        lemma_find_target(s.drop_first(), b);
        assert forall|j: int| 0 <= j < find_target(s, b) implies s[j].0 != b by {
            if j > 0 {
                assert(s[j] == s.drop_first()[j - 1]);
            }
        }
    }
}

/// The first position at which `b` is targeted is `k` when no earlier edge targets it.
pub proof fn lemma_find_target_at<S>(s: Seq<(nat, S)>, b: nat, k: int)
    requires
        0 <= k <= s.len(),
        forall|j: int| 0 <= j < k ==> s[j].0 != b,
        k < s.len() ==> s[k].0 == b,
    ensures
        find_target(s, b) == k,
    decreases s.len(),
{
    if s.len() > 0 && k > 0 {
        assert(s[0].0 != b);
        assert forall|j: int| 0 <= j < k - 1 implies s.drop_first()[j].0 != b by {
            assert(s.drop_first()[j] == s[j + 1]);
        }
        lemma_find_target_at(s.drop_first(), b, k - 1);
    }
}

/// Taking out the first edge to `b` leaves the same edges once all edges to `b` are dropped.
pub proof fn lemma_drop_target_remove<S>(s: Seq<(nat, S)>, b: nat)
    requires
        find_target(s, b) < s.len(),
    ensures
        drop_target(s.remove(find_target(s, b)), b) == drop_target(s, b),
    decreases s.len(),
{
    let k = find_target(s, b);
    lemma_find_target(s, b);
    if s[0].0 == b {
        assert(s.remove(0) =~= s.drop_first());
    } else {
        let t = s.remove(k);
        lemma_drop_target_remove(s.drop_first(), b);
        assert(t[0] == s[0]);
        assert(t.drop_first() =~= s.drop_first().remove(k - 1));
    }
}

/// With no edge to `b`, dropping the edges to `b` changes nothing.
pub proof fn lemma_drop_target_absent<S>(s: Seq<(nat, S)>, b: nat)
    requires
        find_target(s, b) == s.len(),
    ensures
        drop_target(s, b) == s,
    decreases s.len(),
{
    if s.len() > 0 {
        lemma_drop_target_absent(s.drop_first(), b);
        assert(seq![s[0]] + s.drop_first() =~= s);
    }
}

/// What is left after dropping the edges to `b` is a part of `s` that never targets `b`.
pub proof fn lemma_drop_target_members<S>(s: Seq<(nat, S)>, b: nat)
    ensures
        drop_target(s, b).len() <= s.len(),
        forall|k: int|
            0 <= k < drop_target(s, b).len() ==> (#[trigger] drop_target(s, b)[k]).0 != b
                && exists|j: int| 0 <= j < s.len() && s[j] == drop_target(s, b)[k],
    decreases s.len(),
{
    if s.len() > 0 {
        let r = drop_target(s.drop_first(), b);
        lemma_drop_target_members(s.drop_first(), b);
        assert forall|k: int| 0 <= k < drop_target(s, b).len() implies (#[trigger] drop_target(
            s,
            b,
        )[k]).0 != b && exists|j: int| 0 <= j < s.len() && s[j] == drop_target(s, b)[k] by {
            if s[0].0 == b {
                let j = choose|j: int| 0 <= j < s.drop_first().len() && s.drop_first()[j] == r[k];
                assert(s[j + 1] == r[k]);
            } else if k == 0 {
                assert(s[0] == drop_target(s, b)[0]);
            } else {
                assert(drop_target(s, b)[k] == r[k - 1]);
                let j = choose|j: int|
                    0 <= j < s.drop_first().len() && s.drop_first()[j] == r[k - 1];
                assert(s[j + 1] == r[k - 1]);
            }
        }
    }
}


/// Adding an edge keeps a model valid.
pub proof fn lemma_add_edge_valid<T, S>(g: GraphModel<T, S>, a: nat, b: nat, p: S)
    requires
        g.valid(),
    ensures
        g.add_edge(a, b, p).valid(),
{
    let g1 = g.add_edge(a, b, p);
    if g.live(a) && g.live(b) {
        assert forall|i: int, k: int|
            #![trigger g1.adj[i][k]]
            0 <= i < g1.adj.len() && 0 <= k < g1.adj[i].len() implies g1.live(g1.adj[i][k].0) by {
            if i == a && k > 0 {
                assert(g1.adj[i][k] == g.adj[i][k - 1]);
            }
        }
    }
}

/// Removing a node keeps a model valid.
pub proof fn lemma_remove_node_valid<T, S>(g: GraphModel<T, S>, x: nat)
    requires
        g.valid(),
    ensures
        g.remove_node(x).valid(),
{
    let g1 = g.remove_node(x);
    if g.live(x) {
        assert forall|i: int, k: int|
            #![trigger g1.adj[i][k]]
            0 <= i < g1.adj.len() && 0 <= k < g1.adj[i].len() implies g1.live(g1.adj[i][k].0) by {
            lemma_drop_target_members(g.adj[i], x);
            let j = choose|j: int| 0 <= j < g.adj[i].len() && g.adj[i][j] == drop_target(g.adj[i], x)[k];
            assert(g.live(g.adj[i][j].0));
        }
        assert forall|i: int| 0 <= i < g1.nodes.len() && g1.nodes[i] is None implies g1.adj[i].len() == 0 by {
            if i != x {
                assert(g.adj[i].len() == 0);
                assert(drop_target(g.adj[i], x).len() == 0);
            }
        }
    }
}

/// Adding a node keeps the count of live nodes one higher.
pub proof fn lemma_add_node_count<T, S>(g: GraphModel<T, S>, i: nat, p: T)
    requires
        g.valid(),
        g.can_add_at(i),
    ensures
        g.add_node_at(i, p).node_count() == g.node_count() + 1,
{
    if i == g.nodes.len() {
        lemma_count_live_push(g.nodes, Some(p));
    } else {
        lemma_count_live_update(g.nodes, i as int, Some(p));
    }
}

/// An edge into a node, removed with it, does not reappear when its slot is reused:
/// after adding `a -> b`, removing `b`, and placing a new node `c` in any slot that
/// `add_node` may fill, `a` has no edge to `c`.
pub proof fn lemma_reused_slot_has_no_stale_edge<T, S>(
    g: GraphModel<T, S>,
    a: nat,
    b: nat,
    p: S,
    c: nat,
    t: T,
)
    requires
        g.valid(),
        g.add_edge(a, b, p).remove_node(b).can_add_at(c),
    ensures
        !g.add_edge(a, b, p).remove_node(b).add_node_at(c, t).has_edge(a, c),
{
    let g1 = g.add_edge(a, b, p);
    let g2 = g1.remove_node(b);
    let g3 = g2.add_node_at(c, t);
    lemma_add_edge_valid(g, a, b, p);
    lemma_remove_node_valid(g1, b);
    if g3.has_edge(a, c) {
        let k = choose|k: int| 0 <= k < g3.adj[a as int].len() && (#[trigger] g3.adj[a as int][k]).0 == c;
        assert(a != c);
        assert(g3.adj[a as int] == g2.adj[a as int]);
        assert(g2.live(g2.adj[a as int][k].0));
    }
}

/// Two parallel edges count twice; taking one out leaves the other in place.
pub proof fn lemma_parallel_edges<T, S>(g: GraphModel<T, S>, a: nat, b: nat, p: S, q: S)
    requires
        g.valid(),
        g.live(a),
        g.live(b),
    ensures
        g.add_edge(a, b, p).add_edge(a, b, q).edge_count() == g.edge_count() + 2,
        g.add_edge(a, b, p).add_edge(a, b, q).remove_edge(a, b).edge_count() == g.edge_count() + 1,
        g.add_edge(a, b, p).add_edge(a, b, q).remove_edge(a, b).has_edge(a, b),
{
    let g1 = g.add_edge(a, b, p);
    let g2 = g1.add_edge(a, b, q);
    let g3 = g2.remove_edge(a, b);
    lemma_total_len_update(g.adj, a as int, g1.adj[a as int]);
    lemma_total_len_update(g1.adj, a as int, g2.adj[a as int]);
    assert(find_target(g2.adj[a as int], b) == 0);
    lemma_total_len_update(g2.adj, a as int, g3.adj[a as int]);
    assert(g3.adj[a as int][0] == g2.adj[a as int][1]);
}

/// Removing an edge that does not exist changes nothing.
pub proof fn lemma_remove_absent_edge<T, S>(g: GraphModel<T, S>, a: nat, b: nat)
    requires
        g.valid(),
        !g.has_edge(a, b),
    ensures
        g.remove_edge(a, b) == g,
{
    if g.live(a) {
        lemma_find_target(g.adj[a as int], b);
        let k = find_target(g.adj[a as int], b);
        if k < g.adj[a as int].len() {
            assert(g.live(g.adj[a as int][k].0));
            assert(g.has_edge(a, b));
        }
    }
}

/// A removed node has no edge in either direction, whatever its incoming edge slots hold.
pub proof fn lemma_removed_node_isolated<T, S>(g: GraphModel<T, S>, a: nat, x: nat)
    ensures
        !g.remove_node(a).has_edge(a, x),
        !g.remove_node(a).has_edge(x, a),
{
}

/// An edge between two live nodes adds one to the edge count.
pub proof fn lemma_add_edge_count<T, S>(g: GraphModel<T, S>, a: nat, b: nat, p: S)
    requires
        g.live(a),
        g.live(b),
        g.nodes.len() == g.adj.len(),
    ensures
        g.add_edge(a, b, p).edge_count() == g.edge_count() + 1,
        g.add_edge(a, b, p).nodes == g.nodes,
        g.add_edge(a, b, p).adj.len() == g.adj.len(),
{
    lemma_total_len_update(g.adj, a as int, seq![(b, p)] + g.adj[a as int]);
}

/// Number of edges of `s` that target `b`.
pub open spec fn count_to<S>(s: Seq<(nat, S)>, b: nat) -> nat
    decreases s.len(),
{
    if s.len() == 0 {
        0
    } else {
        (if s[0].0 == b { 1nat } else { 0nat }) + count_to(s.drop_first(), b)
    }
}

/// An edge put in front adds one to the count of its target.
pub proof fn lemma_count_to_prepend<S>(e: (nat, S), s: Seq<(nat, S)>, b: nat)
    ensures
        count_to(seq![e] + s, b) == count_to(s, b) + if e.0 == b { 1nat } else { 0nat },
{
    assert((seq![e] + s).drop_first() =~= s);
}

/// Some edge of `s` targets `b` exactly when the count of edges to `b` is positive.
pub proof fn lemma_count_to_has<S>(s: Seq<(nat, S)>, b: nat)
    ensures
        (count_to(s, b) > 0) == (exists|k: int| 0 <= k < s.len() && (#[trigger] s[k]).0 == b),
    decreases s.len(),
{
    if s.len() > 0 {
        lemma_count_to_has(s.drop_first(), b);
        if exists|k: int| 0 <= k < s.len() && (#[trigger] s[k]).0 == b {
            let k = choose|k: int| 0 <= k < s.len() && (#[trigger] s[k]).0 == b;
            if k > 0 {
                assert(s.drop_first()[k - 1] == s[k]);
            }
        }
        if exists|k: int| 0 <= k < s.drop_first().len() && (#[trigger] s.drop_first()[k]).0 == b {
            let k = choose|k: int| 0 <= k < s.drop_first().len() && (#[trigger] s.drop_first()[k]).0 == b;
            assert(s[k + 1] == s.drop_first()[k]);
        }
    }
}

/// Between live nodes, an edge exists exactly when the count of edges to the target is
/// positive.
pub proof fn lemma_has_edge_count<T, S>(g: GraphModel<T, S>, a: nat, b: nat)
    requires
        g.live(a),
        g.live(b),
    ensures
        g.has_edge(a, b) == (count_to(g.adj[a as int], b) > 0),
{
    lemma_count_to_has(g.adj[a as int], b);
}

} // verus!
