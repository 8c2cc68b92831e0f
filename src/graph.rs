use vstd::prelude::*;

use crate::graph_model::{
    count_live, find_target, lemma_count_live_bound, lemma_count_live_push,
    lemma_count_live_update, lemma_drop_target_absent, lemma_drop_target_members,
    lemma_drop_target_remove, drop_target,
    lemma_find_target, lemma_find_target_at, lemma_total_len_ge, lemma_total_len_push, lemma_total_len_update,
    live_from, total_len, GraphModel,
};

verus! {

/// Handle of a node slot.
#[derive(Debug, Clone, Copy, PartialEq, Eq, Structural, Hash)]
pub struct NodeIndex(pub usize);

/// Handle of an edge slot.
#[derive(Debug, Clone, Copy, PartialEq, Eq, Structural, Hash)]
pub struct EdgeIndex(pub usize);

/// A node slot: the head of its outgoing adjacency list and its payload.
#[derive(Debug)]
pub struct Node<T> {
    free: bool,
    first: Option<EdgeIndex>,
    payload: T,
}

impl<T> Node<T> {
    fn new(payload: T) -> (r: Node<T>)
        ensures
            !r.free,
            r.first is None,
            r.payload == payload,
    {
        Node { free: false, first: None, payload }
    }
}

/// An edge slot: its target, the next edge of the same source, and its payload.
#[derive(Debug)]
pub struct Edge<S> {
    target: NodeIndex,
    next: Option<EdgeIndex>,
    payload: S,
}

impl<S> Edge<S> {
    fn new(target: NodeIndex, next: Option<EdgeIndex>, payload: S) -> (r: Edge<S>)
        ensures
            r.target == target,
            r.next == next,
            r.payload == payload,
    {
        Edge { target, next, payload }
    }
}

/// A directed multigraph kept in two arenas of slots, one for nodes and one for edges.
///
/// Freed slots are recorded in free lists and reused by later insertions. Each node
/// owns a singly linked list of its outgoing edges, threaded through the edge arena.
pub struct Graph<T, S> {
    nodes: Vec<Node<T>>,
    edges: Vec<Edge<S>>,
    nodes_free: Vec<NodeIndex>,
    edges_free: Vec<EdgeIndex>,
    /// For each node slot, the edge slots of its adjacency list, head first.
    lists: Ghost<Seq<Seq<usize>>>,
}

/// The handle of the first element of a list, if any.
pub open spec fn list_head(l: Seq<usize>) -> Option<EdgeIndex> {
    if l.len() == 0 {
        None
    } else {
        Some(EdgeIndex(l[0]))
    }
}

/// The handle that follows position `k` of a list, if any.
pub open spec fn list_next(l: Seq<usize>, k: int) -> Option<EdgeIndex> {
    if k + 1 < l.len() {
        Some(EdgeIndex(l[k + 1]))
    } else {
        None
    }
}

impl<T, S> View for Graph<T, S> {
    type V = GraphModel<T, S>;

    closed spec fn view(&self) -> GraphModel<T, S> {
        GraphModel {
            nodes: self.nodes@.map_values(
                |n: Node<T>|
                    if n.free {
                        None
                    } else {
                        Some(n.payload)
                    },
            ),
            adj: self.lists@.map_values(
                |l: Seq<usize>|
                    l.map_values(
                        |e: usize| (self.edges@[e as int].target.0 as nat, self.edges@[e as int].payload),
                    ),
            ),
        }
    }
}

impl<T, S> Graph<T, S> {
    /// The free lists hold each free slot once, every adjacency list is linked in order
    /// through live edge slots, no edge slot is used twice, and every edge targets a
    /// live node.
    pub closed spec fn wf(&self) -> bool {
        &&& self.nodes@.len() == self.lists@.len()
        &&& self.wf_nodes_free()
        &&& self.wf_edges_free()
        &&& self.wf_lists()
        &&& self.wf_disjoint()
    }

    /// Each free node slot is listed once, and the live ones are counted by the rest.
    closed spec fn wf_nodes_free(&self) -> bool {
        let nf = self.nodes_free@;
        &&& forall|f: int|
            0 <= f < nf.len() ==> (#[trigger] nf[f]).0 < self.nodes@.len()
                && self.nodes@[nf[f].0 as int].free
        &&& forall|f: int, g: int| 0 <= f < g < nf.len() ==> nf[f] != nf[g]
        &&& nf.len() + count_live(self@.nodes) == self.nodes@.len()
    }

    /// Each free edge slot is listed once, and the edges in lists are counted by the rest.
    closed spec fn wf_edges_free(&self) -> bool {
        let ef = self.edges_free@;
        &&& forall|f: int| 0 <= f < ef.len() ==> (#[trigger] ef[f]).0 < self.edges@.len()
        &&& forall|f: int, g: int| 0 <= f < g < ef.len() ==> ef[f] != ef[g]
        &&& ef.len() + total_len(self@.adj) == self.edges@.len()
    }

    /// Each live node's list starts at its `first` and is linked in order; each edge in
    /// a list targets a live node; a free node has an empty list.
    closed spec fn wf_lists(&self) -> bool {
        let l = self.lists@;
        &&& forall|i: int| 0 <= i < l.len() && self.nodes@[i].free ==> (#[trigger] l[i]).len() == 0
        &&& forall|i: int|
            0 <= i < l.len() && !self.nodes@[i].free ==> (#[trigger] self.nodes@[i]).first
                == list_head(l[i])
        &&& forall|i: int, k: int|
            #![trigger l[i][k]]
            0 <= i < l.len() && 0 <= k < l[i].len() ==> l[i][k] < self.edges@.len()
        &&& forall|i: int, k: int|
            #![trigger self.edges@[l[i][k] as int]]
            0 <= i < l.len() && 0 <= k < l[i].len() ==> {
                &&& self.edges@[l[i][k] as int].next == list_next(l[i], k)
                &&& self.edges@[l[i][k] as int].target.0 < self.nodes@.len()
                &&& !self.nodes@[self.edges@[l[i][k] as int].target.0 as int].free
            }
    }

    /// No edge slot stands in two places of the lists, nor in a list and the free list.
    closed spec fn wf_disjoint(&self) -> bool {
        let l = self.lists@;
        let ef = self.edges_free@;
        &&& forall|i1: int, k1: int, i2: int, k2: int|
            #![trigger l[i1][k1], l[i2][k2]]
            0 <= i1 < l.len() && 0 <= k1 < l[i1].len() && 0 <= i2 < l.len() && 0 <= k2
                < l[i2].len() && (i1 != i2 || k1 != k2) ==> l[i1][k1] != l[i2][k2]
        &&& forall|i: int, k: int, f: int|
            #![trigger l[i][k], ef[f]]
            0 <= i < l.len() && 0 <= k < l[i].len() && 0 <= f < ef.len() ==> ef[f].0 != l[i][k]
    }

    /// A well-formed graph has a valid model.
    pub proof fn lemma_view_valid(&self)
        requires
            self.wf(),
        ensures
            self@.valid(),
    {
        let m = self@;
        let l = self.lists@;
        assert forall|i: int, k: int|
            #![trigger m.adj[i][k]]
            0 <= i < m.adj.len() && 0 <= k < m.adj[i].len() implies m.live(m.adj[i][k].0) by {
            assert(l[i][k] < self.edges@.len());
            assert(!self.nodes@[self.edges@[l[i][k] as int].target.0 as int].free);
        }
        assert forall|i: int| 0 <= i < m.nodes.len() && m.nodes[i] is None implies m.adj[i].len()
            == 0 by {
            assert(l[i].len() == 0);
        }
    }

    pub fn new() -> (r: Graph<T, S>)
        ensures
            r.wf(),
            r@.nodes.len() == 0,
            r@.adj.len() == 0,
    {
        let r = Graph {
            nodes: Vec::new(),
            edges: Vec::new(),
            nodes_free: Vec::new(),
            edges_free: Vec::new(),
            lists: Ghost(Seq::empty()),
        };
        assert(r@.nodes =~= Seq::empty());
        assert(r@.adj =~= Seq::empty());
        r
    }

    /// Places a new node with `payload` in a free slot when there is one, else in a new
    /// slot at the end, and returns its handle.
    pub fn add_node(&mut self, payload: T) -> (r: NodeIndex)
        requires
            old(self).wf(),
        ensures
            final(self).wf(),
            old(self)@.can_add_at(r.0 as nat),
            old(self)@.has_free_slot() ==> r.0 < old(self)@.nodes.len(),
            final(self)@ == old(self)@.add_node_at(r.0 as nat, payload),
    {
        let ghost m = self@;
        proof {
            lemma_count_live_bound(m.nodes);
        }
        if self.nodes_free.len() == 0 {
            let index = self.nodes.len();
            self.nodes.push(Node::new(payload));
            self.lists = Ghost(self.lists@.push(Seq::empty()));
            let ghost l = self.lists@;
            proof {
                assert(self@.nodes =~= m.nodes.push(Some(payload)));
                assert(self@.adj =~= m.adj.push(Seq::empty())) by {
                    assert forall|i: int| 0 <= i < self@.adj.len() implies self@.adj[i] =~= m.adj.push(Seq::empty())[i] by {
                        if i < m.adj.len() {
                            assert(l[i] == old(self).lists@[i]);
                        }
                    }
                }
                lemma_count_live_push(m.nodes, Some(payload));
                lemma_total_len_push(m.adj, Seq::<(nat, S)>::empty());
                assert forall|i: int, k: int|
                    #![trigger self.edges@[l[i][k] as int]]
                    0 <= i < l.len() && 0 <= k < l[i].len() implies {
                        &&& self.edges@[l[i][k] as int].next == list_next(l[i], k)
                        &&& self.edges@[l[i][k] as int].target.0 < self.nodes@.len()
                        &&& !self.nodes@[self.edges@[l[i][k] as int].target.0 as int].free
                    } by {
                    assert(i < l.len() - 1);
                    assert(l[i] == old(self).lists@[i]);
                }
            }
            NodeIndex(index)
        } else {
            let idx = self.nodes_free.pop().unwrap();
            let ghost nf = old(self).nodes_free@;
            proof {
                assert(nf[nf.len() - 1] == idx);
            }
            self.nodes.set(idx.0, Node::new(payload));
            let ghost l = self.lists@;
            proof {
                assert(self@.nodes =~= m.nodes.update(idx.0 as int, Some(payload)));
                assert(l[idx.0 as int].len() == 0);
                assert(self@.adj =~= m.adj) by {
                    assert forall|i: int| 0 <= i < m.adj.len() implies self@.adj[i] =~= m.adj[i] by {
                    }
                }
                assert(m.adj[idx.0 as int] =~= Seq::empty());
                assert(m.adj.update(idx.0 as int, Seq::empty()) =~= m.adj);
                lemma_count_live_update(m.nodes, idx.0 as int, Some(payload));
                assert forall|f: int, g: int|
                    0 <= f < g < self.nodes_free@.len() implies self.nodes_free@[f]
                    != self.nodes_free@[g] by {
                    assert(self.nodes_free@[f] == nf[f]);
                    assert(self.nodes_free@[g] == nf[g]);
                }
                assert forall|f: int|
                    0 <= f < self.nodes_free@.len() implies (#[trigger] self.nodes_free@[f]).0
                    < self.nodes@.len() && self.nodes@[self.nodes_free@[f].0 as int].free by {
                    assert(self.nodes_free@[f] == nf[f]);
                    assert(nf[f] != nf[nf.len() - 1]);
                }
                assert forall|i: int, k: int|
                    #![trigger self.edges@[l[i][k] as int]]
                    0 <= i < l.len() && 0 <= k < l[i].len() implies {
                        &&& self.edges@[l[i][k] as int].next == list_next(l[i], k)
                        &&& self.edges@[l[i][k] as int].target.0 < self.nodes@.len()
                        &&& !self.nodes@[self.edges@[l[i][k] as int].target.0 as int].free
                    } by {
                    assert(old(self).nodes@[self.edges@[l[i][k] as int].target.0 as int].free == false);
                }
            }
            idx
        }
    }

    /// Adds an edge from `source` to `target` at the head of `source`'s adjacency list,
    /// in a free edge slot when there is one. Parallel edges are kept apart. Nothing
    /// happens when either endpoint is not a live node.
    pub fn add_edge(&mut self, source: NodeIndex, target: NodeIndex, payload: S)
        requires
            old(self).wf(),
        ensures
            final(self).wf(),
            final(self)@ == old(self)@.add_edge(source.0 as nat, target.0 as nat, payload),
    {
        if source.0 >= self.nodes.len() || target.0 >= self.nodes.len() || self.nodes[source.0].free
            || self.nodes[target.0].free {
            return;
        }
        let ghost m = self@;
        let ghost l0 = self.lists@;
        let ghost ef0 = self.edges_free@;
        let ghost edges0 = self.edges@;
        let src = source.0;
        let first = self.nodes[src].first;
        let e: usize;
        if self.edges_free.len() == 0 {
            e = self.edges.len();
            self.edges.push(Edge::new(target, first, payload));
        } else {
            let idx = self.edges_free.pop().unwrap();
            proof {
                assert(ef0[ef0.len() - 1] == idx);
                assert(idx.0 < edges0.len());
            }
            e = idx.0;
            self.edges.set(e, Edge::new(target, first, payload));
        }
        self.nodes[src].first = Some(EdgeIndex(e));
        self.lists = Ghost(l0.update(src as int, seq![e] + l0[src as int]));
        let ghost l = self.lists@;
        proof {
            // `e` is in no list before the call
            assert forall|i: int, k: int| 0 <= i < l0.len() && 0 <= k < l0[i].len() implies l0[i][k]
                != e by {
                if ef0.len() > 0 {
                    assert(ef0[ef0.len() - 1].0 != l0[i][k]);
                }
            }
            assert forall|i: int, k: int|
                0 <= i < l0.len() && 0 <= k < l0[i].len() implies self.edges@[l0[i][k] as int]
                == edges0[l0[i][k] as int] by {
                assert(l0[i][k] < edges0.len());
            }
            assert(self@.nodes =~= m.nodes);
            let new_adj = seq![(target.0 as nat, payload)] + m.adj[src as int];
            assert(self@.adj =~= m.adj.update(src as int, new_adj)) by {
                assert forall|i: int| 0 <= i < self@.adj.len() implies self@.adj[i] =~= m.adj.update(
                    src as int,
                    new_adj,
                )[i] by {
                    if i == src {
                        assert forall|k: int| 0 <= k < l[i].len() implies self@.adj[i][k] == new_adj[k] by {
                            if k > 0 {
                                assert(l[i][k] == l0[i][k - 1]);
                            }
                        }
                    } else {
                        assert(l[i] == l0[i]);
                    }
                }
            }
            lemma_total_len_update(m.adj, src as int, new_adj);
            // free edge list
            assert forall|f: int| 0 <= f < self.edges_free@.len() implies (#[trigger] self.edges_free@[f]).0
                < self.edges@.len() && self.edges_free@[f] == ef0[f] && ef0[f].0 != e by {
            }
            assert forall|f: int, g: int|
                0 <= f < g < self.edges_free@.len() implies self.edges_free@[f] != self.edges_free@[g] by {
                assert(self.edges_free@[f] == ef0[f]);
                assert(self.edges_free@[g] == ef0[g]);
            }
            // lists
            assert forall|i: int, k: int|
                #![trigger l[i][k]]
                0 <= i < l.len() && 0 <= k < l[i].len() implies l[i][k] < self.edges@.len() by {
                if i == src && k > 0 {
                    assert(l[i][k] == l0[i][k - 1]);
                } else if i != src {
                    assert(l[i][k] == l0[i][k]);
                }
            }
            assert forall|i: int, k: int|
                #![trigger self.edges@[l[i][k] as int]]
                0 <= i < l.len() && 0 <= k < l[i].len() implies {
                    &&& self.edges@[l[i][k] as int].next == list_next(l[i], k)
                    &&& self.edges@[l[i][k] as int].target.0 < self.nodes@.len()
                    &&& !self.nodes@[self.edges@[l[i][k] as int].target.0 as int].free
                } by {
                if i == src {
                    if k > 0 {
                        assert(l[i][k] == l0[i][k - 1]);
                        assert(edges0[l0[i][k - 1] as int].next == list_next(l0[i], k - 1));
                    }
                } else {
                    assert(l[i] == l0[i]);
                    assert(edges0[l0[i][k] as int].next == list_next(l0[i], k));
                }
            }
            assert forall|i1: int, k1: int, i2: int, k2: int|
                #![trigger l[i1][k1], l[i2][k2]]
                0 <= i1 < l.len() && 0 <= k1 < l[i1].len() && 0 <= i2 < l.len() && 0 <= k2
                    < l[i2].len() && (i1 != i2 || k1 != k2) implies l[i1][k1] != l[i2][k2] by {
                if i1 == src && k1 > 0 {
                    assert(l[i1][k1] == l0[i1][k1 - 1]);
                }
                if i2 == src && k2 > 0 {
                    assert(l[i2][k2] == l0[i2][k2 - 1]);
                }
                if i1 != src {
                    assert(l[i1][k1] == l0[i1][k1]);
                }
                if i2 != src {
                    assert(l[i2][k2] == l0[i2][k2]);
                }
            }
            assert forall|i: int, k: int, f: int|
                #![trigger l[i][k], self.edges_free@[f]]
                0 <= i < l.len() && 0 <= k < l[i].len() && 0 <= f < self.edges_free@.len()
                    implies self.edges_free@[f].0 != l[i][k] by {
                assert(self.edges_free@[f] == ef0[f]);
                if i == src && k > 0 {
                    assert(l[i][k] == l0[i][k - 1]);
                } else if i != src {
                    assert(l[i][k] == l0[i][k]);
                }
            }
            assert forall|i: int|
                0 <= i < l.len() && !self.nodes@[i].free implies (#[trigger] self.nodes@[i]).first
                == list_head(l[i]) by {
                if i != src {
                    assert(l[i] == l0[i]);
                }
            }
        }
    }

    /// Finds the first edge of live node `src` that targets `dst`: its position in the
    /// adjacency list, its slot, and the slot before it.
    fn find_edge_to(&self, src: usize, dst: usize) -> (r: Option<(usize, usize, Option<usize>)>)
        requires
            self.wf(),
            self@.live(src as nat),
        ensures
            ({
                let ls = self.lists@[src as int];
                let ft = find_target(self@.adj[src as int], dst as nat);
                match r {
                    None => ft == ls.len(),
                    Some((k, e, prev)) => {
                        &&& k == ft
                        &&& k < ls.len()
                        &&& e == ls[k as int]
                        &&& prev == (if k > 0 {
                            Some(ls[k - 1])
                        } else {
                            None::<usize>
                        })
                    },
                }
            }),
    {
        let ghost m = self@;
        let ghost ls = self.lists@[src as int];
        let mut prev: Option<usize> = None;
        let mut cur: Option<EdgeIndex> = self.nodes[src].first;
        let mut k: usize = 0;
        proof {
            lemma_total_len_ge(m.adj, src as int);
        }
        loop
            invariant
                self.wf(),
                self@ == m,
                ls.len() <= self.edges.len(),
                m.live(src as nat),
                ls == self.lists@[src as int],
                0 <= k <= ls.len(),
                cur == (if k < ls.len() {
                    Some(EdgeIndex(ls[k as int]))
                } else {
                    None::<EdgeIndex>
                }),
                prev == (if k > 0 {
                    Some(ls[k - 1])
                } else {
                    None::<usize>
                }),
                forall|j: int| 0 <= j < k ==> m.adj[src as int][j].0 != dst,
            decreases ls.len() - k,
        {
            match cur {
                None => {
                    proof {
                        lemma_find_target_at(m.adj[src as int], dst as nat, k as int);
                    }
                    return None;
                },
                Some(e) => {
                    proof {
                        assert(ls[k as int] < self.edges@.len());
                        assert(self.edges@[ls[k as int] as int].next == list_next(ls, k as int));
                    }
                    if self.edges[e.0].target.0 == dst {
                        proof {
                            lemma_find_target_at(m.adj[src as int], dst as nat, k as int);
                        }
                        return Some((k, e.0, prev));
                    }
                    prev = Some(e.0);
                    cur = self.edges[e.0].next;
                    k = k + 1;
                },
            }
        }
    }

    /// Takes the first edge of live node `src` that targets `dst` out of its adjacency
    /// list and frees its slot; reports whether there was one.
    fn unlink_first_to(&mut self, src: usize, dst: usize) -> (found: bool)
        requires
            old(self).wf(),
            old(self)@.live(src as nat),
        ensures
            final(self).wf(),
            final(self)@ == old(self)@.remove_edge(src as nat, dst as nat),
            found == (find_target(old(self)@.adj[src as int], dst as nat) < old(self)@.adj[
                src as int].len()),
    {
        let ghost m = self@;
        let ghost l0 = self.lists@;
        let ghost ef0 = self.edges_free@;
        let ghost edges0 = self.edges@;
        let ghost ls = l0[src as int];
        let (kk, e, prev) = match self.find_edge_to(src, dst) {
            None => {
                return false;
            },
            Some(found) => found,
        };
        let ghost k = kk as int;
        let next = self.edges[e].next;
        proof {
            assert(self.edges@[ls[k] as int].next == list_next(ls, k));
        }
        match prev {
            None => {
                self.nodes[src].first = next;
            },
            Some(p) => {
                proof {
                    assert(p < edges0.len());
                }
                self.edges[p].next = next;
            },
        }
        let ghost g0 = *old(self);
        self.edges_free.push(EdgeIndex(e));
        self.lists = Ghost(l0.update(src as int, ls.remove(k)));
        proof {
            if k > 0 {
                assert(self.edges@ =~= edges0.update(
                    ls[k - 1] as int,
                    Edge { next, ..edges0[ls[k - 1] as int] },
                ));
                assert(self.nodes@ =~= g0.nodes@);
            } else {
                assert(self.edges@ =~= edges0);
                assert(self.nodes@ =~= g0.nodes@.update(
                    src as int,
                    Node { first: next, ..g0.nodes@[src as int] },
                ));
            }
            Self::lemma_unlinked(&g0, &*self, src as int, k);
        }
        true
    }

    /// `g` is `g0` with position `k` of `src`'s list unlinked and its slot freed.
    spec fn unlinked_from(g0: &Self, g: &Self, src: int, k: int) -> bool {
        let ls = g0.lists@[src];
        let e = ls[k];
        let next = g0.edges@[e as int].next;
        &&& g.lists@ == g0.lists@.update(src, ls.remove(k))
        &&& g.edges_free@ == g0.edges_free@.push(EdgeIndex(e))
        &&& g.nodes_free@ == g0.nodes_free@
        &&& k > 0 ==> g.edges@ == g0.edges@.update(
            ls[k - 1] as int,
            Edge { next, ..g0.edges@[ls[k - 1] as int] },
        )
        &&& k > 0 ==> g.nodes@ == g0.nodes@
        &&& k == 0 ==> g.edges@ == g0.edges@
        &&& k == 0 ==> g.nodes@ == g0.nodes@.update(
            src,
            Node { first: next, ..g0.nodes@[src] },
        )
    }

    /// The state after unlinking position `k` of `src`'s list is well formed and models
    /// the removal of that edge.
    proof fn lemma_unlinked(g0: &Self, g: &Self, src: int, k: int)
        requires
            g0.wf(),
            0 <= src,
            g0@.live(src as nat),
            0 <= k < g0.lists@[src].len(),
            Self::unlinked_from(g0, g, src, k),
        ensures
            g.wf(),
            g@.nodes == g0@.nodes,
            g@.adj == g0@.adj.update(src, g0@.adj[src].remove(k)),
    {
        Self::lemma_unlinked_view(g0, g, src, k);
        Self::lemma_unlinked_free(g0, g, src, k);
        Self::lemma_unlinked_lists(g0, g, src, k);
        Self::lemma_unlinked_disjoint(g0, g, src, k);
    }

    /// The model after unlinking: the same nodes, one edge fewer in `src`'s list.
    proof fn lemma_unlinked_view(g0: &Self, g: &Self, src: int, k: int)
        requires
            g0.wf(),
            0 <= src,
            g0@.live(src as nat),
            0 <= k < g0.lists@[src].len(),
            Self::unlinked_from(g0, g, src, k),
        ensures
            g@.nodes == g0@.nodes,
            g@.adj == g0@.adj.update(src, g0@.adj[src].remove(k)),
    {
        let m = g0@;
        let l0 = g0.lists@;
        let ls = l0[src];
        let ef0 = g0.edges_free@;
        let edges0 = g0.edges@;
        let l = g.lists@;
        assert(0 <= src < l0.len());
        let new_adj = m.adj[src as int].remove(k);
        assert forall|i: int| 0 <= i < m.nodes.len() implies g@.nodes[i] == m.nodes[i] by {
            if k == 0 && i == src {
                assert(g.nodes@[i].free == g0.nodes@[i].free);
                assert(g.nodes@[i].payload == g0.nodes@[i].payload);
            }
        }
        assert(g@.nodes =~= m.nodes);
        // only the predecessor's link changed, and it lies in `src`'s list
        assert forall|i: int, j: int|
            #![trigger g.edges@[l0[i][j] as int]]
            0 <= i < l0.len() && 0 <= j < l0[i].len() && !(i == src && j == k - 1)
                implies g.edges@[l0[i][j] as int] == edges0[l0[i][j] as int] by {
            if k > 0 {
                assert(l0[src as int][k - 1] != l0[i][j]);
            }
        }
        assert(g@.adj =~= m.adj.update(src as int, new_adj)) by {
            assert forall|i: int| 0 <= i < g@.adj.len() implies g@.adj[i] =~= m.adj.update(
                src as int,
                new_adj,
            )[i] by {
                if i == src {
                    assert forall|j: int| 0 <= j < l[i].len() implies g@.adj[i][j] == new_adj[j] by {
                        if j < k {
                            assert(l[i][j] == ls[j]);
                        } else {
                            assert(l[i][j] == ls[j + 1]);
                        }
                    }
                } else {
                    assert(l[i] == l0[i]);
                }
            }
        }
        lemma_total_len_update(m.adj, src as int, new_adj);
    }

    /// The free lists stay well formed after unlinking.
    proof fn lemma_unlinked_free(g0: &Self, g: &Self, src: int, k: int)
        requires
            g0.wf(),
            0 <= src,
            g0@.live(src as nat),
            0 <= k < g0.lists@[src].len(),
            Self::unlinked_from(g0, g, src, k),
        ensures
            g.wf_nodes_free(),
            g.wf_edges_free(),
    {
        let m = g0@;
        let l0 = g0.lists@;
        let ls = l0[src];
        let ef0 = g0.edges_free@;
        let edges0 = g0.edges@;
        let l = g.lists@;
        assert(0 <= src < l0.len());
        let new_adj = m.adj[src as int].remove(k);
        Self::lemma_unlinked_view(g0, g, src, k);
        lemma_total_len_update(m.adj, src as int, new_adj);
        assert(g@.nodes =~= m.nodes);
        // free edge list
        assert forall|f: int| 0 <= f < g.edges_free@.len() implies (#[trigger] g.edges_free@[f]).0
            < g.edges@.len() by {
            if f < ef0.len() {
                assert(g.edges_free@[f] == ef0[f]);
            }
        }
        assert forall|f: int, h: int|
            0 <= f < h < g.edges_free@.len() implies g.edges_free@[f] != g.edges_free@[h] by {
            assert(g.edges_free@[f] == ef0[f]);
            if h < ef0.len() {
                assert(g.edges_free@[h] == ef0[h]);
            } else {
                assert(ef0[f].0 != l0[src as int][k]);
            }
        }
    }

    /// The adjacency lists stay linked after unlinking.
    proof fn lemma_unlinked_lists(g0: &Self, g: &Self, src: int, k: int)
        requires
            g0.wf(),
            0 <= src,
            g0@.live(src as nat),
            0 <= k < g0.lists@[src].len(),
            Self::unlinked_from(g0, g, src, k),
        ensures
            g.wf_lists(),
    {
        let m = g0@;
        let l0 = g0.lists@;
        let ls = l0[src];
        let ef0 = g0.edges_free@;
        let edges0 = g0.edges@;
        let l = g.lists@;
        assert(0 <= src < l0.len());
        let new_adj = m.adj[src as int].remove(k);
        // only the predecessor's link changed, and it lies in `src`'s list
        assert forall|i: int, j: int|
            #![trigger g.edges@[l0[i][j] as int]]
            0 <= i < l0.len() && 0 <= j < l0[i].len() && !(i == src && j == k - 1)
                implies g.edges@[l0[i][j] as int] == edges0[l0[i][j] as int] by {
            if k > 0 {
                assert(l0[src as int][k - 1] != l0[i][j]);
            }
        }
        // lists
        assert forall|i: int, j: int|
            #![trigger l[i][j]]
            0 <= i < l.len() && 0 <= j < l[i].len() implies l[i][j] < g.edges@.len() by {
            if i == src && j >= k {
                assert(l[i][j] == l0[i][j + 1]);
            } else {
                assert(l[i][j] == l0[i][j]);
            }
        }
        assert forall|i: int, j: int|
            #![trigger g.edges@[l[i][j] as int]]
            0 <= i < l.len() && 0 <= j < l[i].len() implies {
                &&& g.edges@[l[i][j] as int].next == list_next(l[i], j)
                &&& g.edges@[l[i][j] as int].target.0 < g.nodes@.len()
                &&& !g.nodes@[g.edges@[l[i][j] as int].target.0 as int].free
            } by {
            if i == src {
                if j < k - 1 {
                    assert(l[i][j] == l0[i][j]);
                    assert(edges0[l0[i][j] as int].next == list_next(l0[i], j));
                } else if j == k - 1 {
                    assert(l[i][j] == l0[i][j]);
                    assert(edges0[l0[i][j] as int].target == g.edges@[l[i][j] as int].target);
                } else {
                    assert(l[i][j] == l0[i][j + 1]);
                    assert(edges0[l0[i][j + 1] as int].next == list_next(l0[i], j + 1));
                }
            } else {
                assert(l[i] == l0[i]);
                assert(edges0[l0[i][j] as int].next == list_next(l0[i], j));
            }
        }
        assert forall|i: int|
            0 <= i < l.len() && !g.nodes@[i].free implies (#[trigger] g.nodes@[i]).first
            == list_head(l[i]) by {
            if i != src {
                assert(l[i] == l0[i]);
            } else if k > 0 {
                assert(l[i][0] == l0[i][0]);
            }
        }
        }

    /// Edge slots stay apart after unlinking.
    proof fn lemma_unlinked_disjoint(g0: &Self, g: &Self, src: int, k: int)
        requires
            g0.wf(),
            0 <= src,
            g0@.live(src as nat),
            0 <= k < g0.lists@[src].len(),
            Self::unlinked_from(g0, g, src, k),
        ensures
            g.wf_disjoint(),
    {
        let m = g0@;
        let l0 = g0.lists@;
        let ls = l0[src];
        let ef0 = g0.edges_free@;
        let edges0 = g0.edges@;
        let l = g.lists@;
        assert(0 <= src < l0.len());
        let new_adj = m.adj[src as int].remove(k);
        assert forall|i1: int, k1: int, i2: int, k2: int|
            #![trigger l[i1][k1], l[i2][k2]]
            0 <= i1 < l.len() && 0 <= k1 < l[i1].len() && 0 <= i2 < l.len() && 0 <= k2
                < l[i2].len() && (i1 != i2 || k1 != k2) implies l[i1][k1] != l[i2][k2] by {
            let a1 = if i1 == src && k1 >= k { k1 + 1 } else { k1 };
            let a2 = if i2 == src && k2 >= k { k2 + 1 } else { k2 };
            assert(l[i1][k1] == l0[i1][a1]);
            assert(l[i2][k2] == l0[i2][a2]);
        }
        assert forall|i: int, j: int, f: int|
            #![trigger l[i][j], g.edges_free@[f]]
            0 <= i < l.len() && 0 <= j < l[i].len() && 0 <= f < g.edges_free@.len()
                implies g.edges_free@[f].0 != l[i][j] by {
            let a = if i == src && j >= k { j + 1 } else { j };
            assert(l[i][j] == l0[i][a]);
            if f < ef0.len() {
                assert(g.edges_free@[f] == ef0[f]);
            } else {
                assert(l0[src as int][k] != l0[i][a]);
            }
        }
    }

    /// Takes the first edge from `source` to `target` out of `source`'s adjacency list.
    /// Nothing happens when `source` is not a live node or no such edge exists.
    pub fn remove_edge(&mut self, source: NodeIndex, target: NodeIndex)
        requires
            old(self).wf(),
        ensures
            final(self).wf(),
            final(self)@ == old(self)@.remove_edge(source.0 as nat, target.0 as nat),
    {
        if source.0 >= self.nodes.len() || self.nodes[source.0].free {
            return;
        }
        self.unlink_first_to(source.0, target.0);
    }

    /// Whether both endpoints are live nodes and an edge leads from `source` to `target`.
    pub fn contains_edge(&self, source: NodeIndex, target: NodeIndex) -> (r: bool)
        requires
            self.wf(),
        ensures
            r == self@.has_edge(source.0 as nat, target.0 as nat),
    {
        if source.0 >= self.nodes.len() || target.0 >= self.nodes.len() || self.nodes[source.0].free
            || self.nodes[target.0].free {
            return false;
        }
        let ghost ls = self.lists@[source.0 as int];
        let ghost adj = self@.adj[source.0 as int];
        let mut cur: Option<EdgeIndex> = self.nodes[source.0].first;
        let ghost mut k: int = 0;
        while cur.is_some()
            invariant
                self.wf(),
                source.0 < self.nodes@.len(),
                ls == self.lists@[source.0 as int],
                adj == self@.adj[source.0 as int],
                0 <= k <= ls.len(),
                cur == (if k < ls.len() {
                    Some(EdgeIndex(ls[k]))
                } else {
                    None::<EdgeIndex>
                }),
                forall|j: int| 0 <= j < k ==> adj[j].0 != target.0,
            decreases ls.len() - k,
        {
            let e = cur.unwrap().0;
            proof {
                assert(ls[k] < self.edges@.len());
                assert(self.edges@[ls[k] as int].next == list_next(ls, k));
            }
            if self.edges[e].target.0 == target.0 {
                proof {
                    assert(adj[k].0 == target.0);
                }
                return true;
            }
            cur = self.edges[e].next;
            proof {
                k = k + 1;
            }
        }
        false
    }

    /// Takes every edge of live node `n` that targets `x` out of `n`'s list.
    fn unlink_all_to(&mut self, n: usize, x: usize)
        requires
            old(self).wf(),
            old(self)@.live(n as nat),
        ensures
            final(self).wf(),
            final(self)@.nodes == old(self)@.nodes,
            final(self)@.adj == old(self)@.adj.update(
                n as int,
                drop_target(old(self)@.adj[n as int], x as nat),
            ),
    {
        let ghost m = self@;
        loop
            invariant_except_break
                self.wf(),
                m.live(n as nat),
                self@.nodes == m.nodes,
                self@.adj.len() == m.adj.len(),
                forall|i: int| 0 <= i < m.adj.len() && i != n ==> self@.adj[i] == m.adj[i],
                drop_target(self@.adj[n as int], x as nat) == drop_target(m.adj[n as int], x as nat),
            ensures
                self.wf(),
                self@.nodes == m.nodes,
                self@.adj == m.adj.update(n as int, drop_target(m.adj[n as int], x as nat)),
            decreases self@.adj[n as int].len(),
        {
            let ghost before = self@;
            proof {
                lemma_find_target(before.adj[n as int], x as nat);
            }
            if !self.unlink_first_to(n, x) {
                proof {
                    lemma_drop_target_absent(before.adj[n as int], x as nat);
                    assert(self@.adj =~= m.adj.update(
                        n as int,
                        drop_target(m.adj[n as int], x as nat),
                    ));
                }
                break;
            }
            proof {
                lemma_drop_target_remove(before.adj[n as int], x as nat);
            }
        }
    }

    /// `g` is `g0` with live node `x` freed along with the edge slots of its list.
    spec fn freed_from(g0: &Self, g: &Self, x: int) -> bool {
        let lx = g0.lists@[x];
        &&& g.lists@ == g0.lists@.update(x, Seq::empty())
        &&& g.edges_free@ == g0.edges_free@ + Seq::new(lx.len(), |j: int| EdgeIndex(lx[j]))
        &&& g.edges@ == g0.edges@
        &&& g.nodes@ == g0.nodes@.update(x, Node { free: true, ..g0.nodes@[x] })
        &&& g.nodes_free@ == g0.nodes_free@.push(NodeIndex(x as usize))
    }

    /// Freeing a live node that no other node's edges target keeps the graph well formed.
    proof fn lemma_freed(g0: &Self, g: &Self, x: int)
        requires
            g0.wf(),
            0 <= x < g0.nodes.len(),
            g0@.live(x as nat),
            forall|i: int, k: int|
                0 <= i < g0@.adj.len() && i != x && 0 <= k < g0@.adj[i].len() ==> (
                #[trigger] g0@.adj[i][k]).0 != x,
            Self::freed_from(g0, g, x),
        ensures
            g.wf(),
            g@.nodes == g0@.nodes.update(x, None),
            g@.adj == g0@.adj.update(x, Seq::empty()),
    {
        let m = g0@;
        let l0 = g0.lists@;
        let lx = l0[x];
        let ef0 = g0.edges_free@;
        let nf0 = g0.nodes_free@;
        let l = g.lists@;
        let ef = g.edges_free@;
        let nf = g.nodes_free@;
        assert(x < l0.len());
        assert(!g0.nodes@[x].free);
        assert(g@.nodes =~= m.nodes.update(x, None));
        assert(g@.adj =~= m.adj.update(x, Seq::empty())) by {
            assert forall|i: int| 0 <= i < l.len() implies g@.adj[i] =~= m.adj.update(x, Seq::empty())[i] by {
                if i != x {
                    assert(l[i] == l0[i]);
                }
            }
        }
        lemma_count_live_update(m.nodes, x, None);
        lemma_total_len_update(m.adj, x, Seq::empty());
        // free node list
        assert forall|f: int| 0 <= f < nf.len() implies (#[trigger] nf[f]).0 < g.nodes@.len()
            && g.nodes@[nf[f].0 as int].free by {
            if f < nf0.len() {
                assert(nf[f] == nf0[f]);
                assert(g0.nodes@[nf0[f].0 as int].free);
                assert(nf0[f].0 != x);
            } else {
                assert(nf[f].0 == x);
            }
        }
        assert forall|f: int, h: int| 0 <= f < h < nf.len() implies nf[f] != nf[h] by {
            assert(nf[f] == nf0[f]);
            if h < nf0.len() {
                assert(nf[h] == nf0[h]);
            } else {
                assert(g0.nodes@[nf0[f].0 as int].free);
                assert(nf[h].0 == x);
            }
        }
        // free edge list
        assert forall|f: int| 0 <= f < ef.len() implies (#[trigger] ef[f]).0 < g.edges@.len() by {
            if f < ef0.len() {
                assert(ef[f] == ef0[f]);
            } else {
                assert(ef[f].0 == lx[f - ef0.len()]);
                assert(l0[x][f - ef0.len()] < g0.edges@.len());
            }
        }
        assert forall|f: int, h: int| 0 <= f < h < ef.len() implies ef[f] != ef[h] by {
            if h < ef0.len() {
                assert(ef[f] == ef0[f]);
                assert(ef[h] == ef0[h]);
            } else if f < ef0.len() {
                assert(ef[f] == ef0[f]);
                assert(ef[h].0 == l0[x][h - ef0.len()]);
            } else {
                assert(ef[f].0 == l0[x][f - ef0.len()]);
                assert(ef[h].0 == l0[x][h - ef0.len()]);
            }
        }
        // lists
        assert forall|i: int| 0 <= i < l.len() && g.nodes@[i].free implies (#[trigger] l[i]).len() == 0 by {
            if i != x {
                assert(l[i] == l0[i]);
            }
        }
        assert forall|i: int|
            0 <= i < l.len() && !g.nodes@[i].free implies (#[trigger] g.nodes@[i]).first == list_head(
            l[i],
        ) by {
            assert(l[i] == l0[i]);
        }
        assert forall|i: int, k: int|
            #![trigger l[i][k]]
            0 <= i < l.len() && 0 <= k < l[i].len() implies l[i][k] < g.edges@.len() by {
            assert(l[i] == l0[i]);
        }
        assert forall|i: int, k: int|
            #![trigger g.edges@[l[i][k] as int]]
            0 <= i < l.len() && 0 <= k < l[i].len() implies {
                &&& g.edges@[l[i][k] as int].next == list_next(l[i], k)
                &&& g.edges@[l[i][k] as int].target.0 < g.nodes@.len()
                &&& !g.nodes@[g.edges@[l[i][k] as int].target.0 as int].free
            } by {
            assert(l[i] == l0[i]);
            assert(g0.edges@[l0[i][k] as int].next == list_next(l0[i], k));
            assert(m.adj[i][k].0 != x);
        }
        // disjointness
        assert forall|i1: int, k1: int, i2: int, k2: int|
            #![trigger l[i1][k1], l[i2][k2]]
            0 <= i1 < l.len() && 0 <= k1 < l[i1].len() && 0 <= i2 < l.len() && 0 <= k2 < l[i2].len()
                && (i1 != i2 || k1 != k2) implies l[i1][k1] != l[i2][k2] by {
            assert(l[i1] == l0[i1]);
            assert(l[i2] == l0[i2]);
        }
        assert forall|i: int, k: int, f: int|
            #![trigger l[i][k], ef[f]]
            0 <= i < l.len() && 0 <= k < l[i].len() && 0 <= f < ef.len() implies ef[f].0 != l[i][k] by {
            assert(l[i] == l0[i]);
            if f < ef0.len() {
                assert(ef[f] == ef0[f]);
            } else {
                assert(ef[f].0 == l0[x][f - ef0.len()]);
            }
        }
    }

    /// Frees node `node` with every edge that leaves it or targets it. Nothing happens
    /// when `node` is not a live node.
    pub fn remove_node(&mut self, node: NodeIndex)
        requires
            old(self).wf(),
        ensures
            final(self).wf(),
            final(self)@ == old(self)@.remove_node(node.0 as nat),
            forall|y: nat|
                !final(self)@.has_edge(node.0 as nat, y) && !#[trigger] final(self)@.has_edge(
                    y,
                    node.0 as nat,
                ),
    {
        let x = node.0;
        if x >= self.nodes.len() || self.nodes[x].free {
            return;
        }
        let ghost m = self@;
        // edges of other nodes that target `x`
        let mut n: usize = 0;
        while n < self.nodes.len()
            invariant
                self.wf(),
                m.live(x as nat),
                self@.nodes == m.nodes,
                self@.adj.len() == m.adj.len(),
                self.nodes@.len() == m.nodes.len(),
                0 <= n <= m.nodes.len(),
                forall|i: int|
                    0 <= i < n && i != x ==> self@.adj[i] == drop_target(m.adj[i], x as nat),
                forall|i: int| n <= i < m.adj.len() || i == x ==> self@.adj[i] == m.adj[i],
            decreases m.nodes.len() - n,
        {
            proof {
                self.lemma_view_valid();
            }
            if n != x && !self.nodes[n].free {
                self.unlink_all_to(n, x);
            } else if n != x {
                proof {
                    assert(self@.adj[n as int].len() == 0);
                    assert(drop_target(m.adj[n as int], x as nat) =~= m.adj[n as int]);
                }
            }
            n = n + 1;
        }
        // `x`'s own edges
        let ghost g0 = *self;
        let ghost lx = self.lists@[x as int];
        proof {
            assert forall|i: int, k: int|
                0 <= i < g0@.adj.len() && i != x && 0 <= k < g0@.adj[i].len() implies (
                #[trigger] g0@.adj[i][k]).0 != x by {
                lemma_drop_target_members(m.adj[i], x as nat);
            }
            lemma_total_len_ge(g0@.adj, x as int);
        }
        let mut cur: Option<EdgeIndex> = self.nodes[x].first;
        let mut k: usize = 0;
        while cur.is_some()
            invariant
                g0.wf(),
                g0@.live(x as nat),
                lx == g0.lists@[x as int],
                lx.len() <= g0.edges.len(),
                self.edges@ == g0.edges@,
                self.nodes@ == g0.nodes@,
                self.nodes_free@ == g0.nodes_free@,
                self.lists@ == g0.lists@,
                0 <= k <= lx.len(),
                self.edges_free@ == g0.edges_free@ + Seq::new(k as nat, |j: int| EdgeIndex(lx[j])),
                cur == (if k < lx.len() {
                    Some(EdgeIndex(lx[k as int]))
                } else {
                    None::<EdgeIndex>
                }),
            decreases lx.len() - k,
        {
            let e = cur.unwrap();
            proof {
                assert(lx[k as int] < g0.edges@.len());
                assert(g0.edges@[lx[k as int] as int].next == list_next(lx, k as int));
            }
            self.edges_free.push(e);
            cur = self.edges[e.0].next;
            k = k + 1;
            proof {
                assert(self.edges_free@ =~= g0.edges_free@ + Seq::new(k as nat, |j: int| EdgeIndex(lx[j])));
            }
        }
        self.nodes[x].free = true;
        self.nodes_free.push(NodeIndex(x));
        self.lists = Ghost(self.lists@.update(x as int, Seq::empty()));
        proof {
            assert(self.nodes@ =~= g0.nodes@.update(x as int, Node { free: true, ..g0.nodes@[x as int] }));
            Self::lemma_freed(&g0, &*self, x as int);
            assert(self@.adj =~= m.remove_node(x as nat).adj);
        }
    }

    /// Changing the payload of a live node keeps the graph well formed.
    proof fn lemma_node_payload_frame(g0: &Self, i: int)
        requires
            g0.wf(),
            0 <= i,
            g0@.live(i as nat),
        ensures
            forall|g: Self|
                g.nodes@.len() == g0.nodes@.len() && (forall|j: int|
                    0 <= j < g0.nodes@.len() && j != i ==> g.nodes@[j] == g0.nodes@[j])
                    && g.nodes@[i].free == g0.nodes@[i].free && g.nodes@[i].first
                    == g0.nodes@[i].first && g.edges@ == g0.edges@ && g.lists@ == g0.lists@
                    && g.nodes_free@ == g0.nodes_free@ && g.edges_free@ == g0.edges_free@
                    ==> #[trigger] g.wf(),
    {
        assert forall|g: Self|
            g.nodes@.len() == g0.nodes@.len() && (forall|j: int|
                0 <= j < g0.nodes@.len() && j != i ==> g.nodes@[j] == g0.nodes@[j])
                && g.nodes@[i].free == g0.nodes@[i].free && g.nodes@[i].first == g0.nodes@[i].first
                && g.edges@ == g0.edges@ && g.lists@ == g0.lists@ && g.nodes_free@
                == g0.nodes_free@ && g.edges_free@ == g0.edges_free@ implies #[trigger] g.wf() by {
            let p = g.nodes@[i].payload;
            assert(g@.nodes =~= g0@.nodes.update(i, Some(p)));
            assert(g@.adj =~= g0@.adj) by {
                assert forall|j: int| 0 <= j < g0@.adj.len() implies g@.adj[j] =~= g0@.adj[j] by {}
            }
            lemma_count_live_update(g0@.nodes, i, Some(p));
            let l = g.lists@;
            assert forall|j: int| 0 <= j < l.len() && g.nodes@[j].free implies (#[trigger] l[j]).len() == 0 by {
                assert(g0.nodes@[j].free);
            }
            assert forall|j: int|
                0 <= j < l.len() && !g.nodes@[j].free implies (#[trigger] g.nodes@[j]).first == list_head(
                l[j],
            ) by {
                assert(!g0.nodes@[j].free);
            }
            assert forall|j: int, k: int|
                #![trigger g.edges@[l[j][k] as int]]
                0 <= j < l.len() && 0 <= k < l[j].len() implies {
                    &&& g.edges@[l[j][k] as int].next == list_next(l[j], k)
                    &&& g.edges@[l[j][k] as int].target.0 < g.nodes@.len()
                    &&& !g.nodes@[g.edges@[l[j][k] as int].target.0 as int].free
                } by {
                assert(!g0.nodes@[g0.edges@[l[j][k] as int].target.0 as int].free);
            }
            assert forall|f: int| 0 <= f < g.nodes_free@.len() implies (#[trigger] g.nodes_free@[f]).0
                < g.nodes@.len() && g.nodes@[g.nodes_free@[f].0 as int].free by {
                assert(g0.nodes@[g0.nodes_free@[f].0 as int].free);
            }
        }
    }

    /// The payload of live node `node`, to read or change in place.
    pub fn node_payload(&mut self, node: NodeIndex) -> (r: &mut T)
        requires
            old(self).wf(),
            old(self)@.live(node.0 as nat),
        ensures
            *r == old(self)@.payload(node.0 as nat),
            final(self).wf(),
            final(self)@.nodes == old(self)@.nodes.update(node.0 as int, Some(*final(r))),
            final(self)@.adj == old(self)@.adj,
    {
        proof {
            Self::lemma_node_payload_frame(self, node.0 as int);
        }
        &mut self.nodes[node.0].payload
    }

    /// Changing the payload of the edge at position `k` of `src`'s list keeps the graph
    /// well formed and changes that one payload in the model.
    proof fn lemma_edge_payload_frame(g0: &Self, src: int, k: int)
        requires
            g0.wf(),
            0 <= src < g0.lists@.len(),
            0 <= k < g0.lists@[src].len(),
        ensures
            forall|g: Self|
                Self::edge_payload_changed(g0, &g, g0.lists@[src][k] as int) ==> {
                    &&& #[trigger] g.wf()
                    &&& g@.nodes == g0@.nodes
                    &&& g@.adj == g0@.adj.update(
                        src,
                        g0@.adj[src].update(k, (g0@.adj[src][k].0, g.edges@[g0.lists@[src][k] as int].payload)),
                    )
                },
    {
        let e = g0.lists@[src][k] as int;
        assert(e < g0.edges@.len());
        assert forall|g: Self| Self::edge_payload_changed(g0, &g, e) implies {
            &&& #[trigger] g.wf()
            &&& g@.nodes == g0@.nodes
            &&& g@.adj == g0@.adj.update(
                src,
                g0@.adj[src].update(k, (g0@.adj[src][k].0, g.edges@[e].payload)),
            )
        } by {
            let l = g.lists@;
            assert(g@.nodes =~= g0@.nodes);
            assert forall|j: int| 0 <= j < l.len() implies #[trigger] g@.adj[j].len() == g0@.adj[j].len() by {}
            assert forall|j: int, i: int|
                #![trigger g.edges@[l[j][i] as int]]
                0 <= j < l.len() && 0 <= i < l[j].len() implies {
                    &&& g.edges@[l[j][i] as int].next == list_next(l[j], i)
                    &&& g.edges@[l[j][i] as int].target.0 < g.nodes@.len()
                    &&& !g.nodes@[g.edges@[l[j][i] as int].target.0 as int].free
                } by {
                assert(g0.edges@[l[j][i] as int].next == list_next(l[j], i));
            }
            Self::lemma_total_len_same_shape(g0@.adj, g@.adj);
            let upd = g0@.adj.update(src, g0@.adj[src].update(k, (g0@.adj[src][k].0, g.edges@[e].payload)));
            assert(g@.adj =~= upd) by {
                assert forall|j: int| 0 <= j < l.len() implies g@.adj[j] =~= upd[j] by {
                    assert forall|i: int| 0 <= i < l[j].len() implies g@.adj[j][i] == upd[j][i] by {
                        if j != src || i != k {
                            assert(l[j][i] != l[src][k]);
                        }
                    }
                }
            }
        }
    }

    /// `g` is `g0` with only the payload of edge slot `e` changed.
    spec fn edge_payload_changed(g0: &Self, g: &Self, e: int) -> bool {
        &&& g.edges@.len() == g0.edges@.len()
        &&& forall|j: int| 0 <= j < g0.edges@.len() && j != e ==> g.edges@[j] == g0.edges@[j]
        &&& g.edges@[e].next == g0.edges@[e].next
        &&& g.edges@[e].target == g0.edges@[e].target
        &&& g.nodes@ == g0.nodes@
        &&& g.lists@ == g0.lists@
        &&& g.nodes_free@ == g0.nodes_free@
        &&& g.edges_free@ == g0.edges_free@
    }

    proof fn lemma_total_len_same_shape(a: Seq<Seq<(nat, S)>>, b: Seq<Seq<(nat, S)>>)
        requires
            a.len() == b.len(),
            forall|j: int| 0 <= j < a.len() ==> #[trigger] a[j].len() == b[j].len(),
        ensures
            total_len(a) == total_len(b),
        decreases a.len(),
    {
        if a.len() > 0 {
            Self::lemma_total_len_same_shape(a.drop_last(), b.drop_last());
        }
    }

    /// The payload of the first edge from `source` to `target`, to read or change in
    /// place; `None` when there is no such edge or an endpoint is not a live node.
    pub fn edge_payload(&mut self, source: NodeIndex, target: NodeIndex) -> (r: Option<&mut S>)
        requires
            old(self).wf(),
        ensures
            r is Some == old(self)@.has_edge(source.0 as nat, target.0 as nat),
            r is None ==> *final(self) == *old(self),
            final(self).wf(),
            ({
                let adj = old(self)@.adj[source.0 as int];
                let k = find_target(adj, target.0 as nat);
                r matches Some(p) ==> {
                    &&& *p == adj[k].1
                    &&& final(self)@.nodes == old(self)@.nodes
                    &&& final(self)@.adj == old(self)@.adj.update(
                        source.0 as int,
                        adj.update(k, (target.0 as nat, *final(p))),
                    )
                }
            }),
    {
        if source.0 >= self.nodes.len() || target.0 >= self.nodes.len() || self.nodes[source.0].free
            || self.nodes[target.0].free {
            return None;
        }
        let ghost m = self@;
        proof {
            lemma_find_target(m.adj[source.0 as int], target.0 as nat);
        }
        match self.find_edge_to(source.0, target.0) {
            None => None,
            Some((k, e, _)) => {
                proof {
                    Self::lemma_edge_payload_frame(self, source.0 as int, k as int);
                }
                Some(&mut self.edges[e].payload)
            },
        }
    }

    /// A fresh pass over the payloads of the live nodes, in ascending slot order.
    pub fn nodes_iter<'a>(&'a self) -> (r: NodeIterator<'a, T, S>)
        requires
            self.wf(),
        ensures
            r.wf(),
            r.remaining() == self@.live_payloads(),
    {
        NodeIterator { graph: self, cur_idx: 0 }
    }

    /// The payload of live node `node`, to read.
    pub fn node_payload_ref(&self, node: NodeIndex) -> (r: &T)
        requires
            self.wf(),
            self@.live(node.0 as nat),
        ensures
            *r == self@.payload(node.0 as nat),
    {
        &self.nodes[node.0].payload
    }

    /// The targets of the outgoing edges of live node `node`, most recently added first.
    pub fn neighbors(&self, node: NodeIndex) -> (r: Vec<NodeIndex>)
        requires
            self.wf(),
            self@.live(node.0 as nat),
        ensures
            r@.len() == self@.adj[node.0 as int].len(),
            forall|k: int| 0 <= k < r@.len() ==> r@[k].0 == self@.adj[node.0 as int][k].0,
    {
        let ghost ls = self.lists@[node.0 as int];
        let ghost adj = self@.adj[node.0 as int];
        let mut r: Vec<NodeIndex> = Vec::new();
        let mut cur: Option<EdgeIndex> = self.nodes[node.0].first;
        let ghost mut k: int = 0;
        while cur.is_some()
            invariant
                self.wf(),
                node.0 < self.nodes@.len(),
                ls == self.lists@[node.0 as int],
                adj == self@.adj[node.0 as int],
                0 <= k <= ls.len(),
                r@.len() == k,
                forall|j: int| 0 <= j < k ==> r@[j].0 == adj[j].0,
                cur == (if k < ls.len() {
                    Some(EdgeIndex(ls[k]))
                } else {
                    None::<EdgeIndex>
                }),
            decreases ls.len() - k,
        {
            let e = cur.unwrap().0;
            proof {
                assert(ls[k] < self.edges@.len());
                assert(self.edges@[ls[k] as int].next == list_next(ls, k));
            }
            r.push(self.edges[e].target);
            cur = self.edges[e].next;
            proof {
                k = k + 1;
            }
        }
        r
    }

    /// Number of live nodes.
    pub fn num_nodes(&self) -> (r: usize)
        requires
            self.wf(),
        ensures
            r == self@.node_count(),
    {
        self.nodes.len() - self.nodes_free.len()
    }

    /// Number of edges held in adjacency lists.
    pub fn num_edges(&self) -> (r: usize)
        requires
            self.wf(),
        ensures
            r == self@.edge_count(),
    {
        self.edges.len() - self.edges_free.len()
    }
}

/// A pass over the payloads of the live nodes of a graph, in ascending slot order.
pub struct NodeIterator<'a, T, S> {
    graph: &'a Graph<T, S>,
    cur_idx: usize,
}

impl<'a, T, S> NodeIterator<'a, T, S> {
    pub closed spec fn wf(&self) -> bool {
        self.graph.wf()
    }

    /// The payloads that the pass has yet to yield.
    pub closed spec fn remaining(&self) -> Seq<T> {
        live_from(self.graph@.nodes, self.cur_idx as int)
    }

    /// Yields the next live payload, skipping free slots; `None` once the pass is over.
    pub fn next(&mut self) -> (r: Option<&'a T>)
        requires
            old(self).wf(),
        ensures
            final(self).wf(),
            match r {
                None => old(self).remaining().len() == 0 && final(self).remaining().len() == 0,
                Some(v) => {
                    &&& old(self).remaining().len() > 0
                    &&& *v == old(self).remaining()[0]
                    &&& final(self).remaining() == old(self).remaining().drop_first()
                },
            },
    {
        let ghost rem = self.remaining();
        let ghost m = self.graph@;
        let mut r: Option<&'a T> = None;
        while self.cur_idx < self.graph.nodes.len()
            invariant_except_break
                self.wf(),
                self.graph@ == m,
                self.remaining() == rem,
                r is None,
            ensures
                self.wf(),
                self.graph@ == m,
                match r {
                    None => rem.len() == 0 && self.remaining().len() == 0,
                    Some(v) => {
                        &&& rem.len() > 0
                        &&& *v == rem[0]
                        &&& self.remaining() == rem.drop_first()
                    },
                },
            decreases self.graph.nodes@.len() - self.cur_idx,
        {
            let i = self.cur_idx;
            self.cur_idx = i + 1;
            if !self.graph.nodes[i].free {
                let v = &self.graph.nodes[i].payload;
                proof {
                    assert(m.nodes[i as int] == Some(*v));
                    assert(rem == seq![*v] + live_from(m.nodes, i + 1));
                    assert(rem.drop_first() =~= live_from(m.nodes, i + 1));
                }
                r = Some(v);
                break;
            }
        }
        r
    }

    /// Collects what the pass has yet to yield.
    pub fn to_vec(self) -> (r: Vec<&'a T>)
        requires
            self.wf(),
        ensures
            r@.len() == self.remaining().len(),
            forall|i: int| 0 <= i < r@.len() ==> *r@[i] == self.remaining()[i],
    {
        let ghost all = self.remaining();
        let mut it = self;
        let mut r: Vec<&'a T> = Vec::new();
        let mut done = false;
        while !done
            invariant
                it.wf(),
                r@.len() + it.remaining().len() == all.len(),
                forall|i: int| 0 <= i < r@.len() ==> *r@[i] == all[i],
                it.remaining() =~= all.subrange(r@.len() as int, all.len() as int),
                done ==> it.remaining().len() == 0,
            decreases it.remaining().len() + if done { 0int } else { 1int },
        {
            match it.next() {
                None => {
                    done = true;
                },
                Some(v) => {
                    r.push(v);
                },
            }
        }
        r
    }
}

} // verus!
