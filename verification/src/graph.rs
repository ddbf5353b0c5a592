//! A small directed graph: nodes in an arena, edges as adjacency lists.
//! The host's navigation layer builds route graphs with it.

use vstd::prelude::*;

verus! {

/// A directed graph over nodes of any payload type. Node handles are the
/// arena indices handed out by [`Graph::add_node`].
pub struct Graph<T> {
    nodes: Vec<T>,
    adj: Vec<Vec<usize>>,
    num_edges: usize,
}

/// The edge pairs of one source node, in insertion order.
pub open spec fn spec_row_pairs<T>(nodes: Seq<T>, row: Seq<usize>, from: int) -> Seq<(T, T)> {
    row.map_values(|t: usize| (nodes[from], nodes[t as int]))
}

/// All edge pairs from source `from` on, grouped by source, in insertion
/// order within each group.
pub open spec fn spec_edge_pairs<T>(nodes: Seq<T>, adj: Seq<Seq<usize>>, from: int) -> Seq<(T, T)>
    decreases adj.len() - from
        when 0 <= from <= adj.len()
{
    if from == adj.len() {
        Seq::empty()
    } else {
        spec_row_pairs(nodes, adj[from], from) + spec_edge_pairs(nodes, adj, from + 1)
    }
}

/// A sequence of adjacency rows padded with empty rows to length `n` at
/// least, so an edge can be recorded under a source that has no row yet.
pub open spec fn padded(adj: Seq<Seq<usize>>, n: int) -> Seq<Seq<usize>> {
    if n <= adj.len() {
        adj
    } else {
        adj + Seq::new((n - adj.len()) as nat, |i: int| Seq::<usize>::empty())
    }
}

impl<T> Graph<T> {
    /// Whether every recorded edge joins two real nodes: every source with
    /// an edge and every target lies below the node count. Edges may be
    /// added before their endpoints exist; only listing them requires this.
    pub open spec fn edges_ok(&self) -> bool {
        &&& (forall|i: int|
            0 <= i < self.adj_view().len() && (#[trigger] self.adj_view()[i]).len() > 0 ==> i
                < self.nodes_view().len())
        &&& (forall|i: int, j: int|
            0 <= i < self.adj_view().len() && 0 <= j < self.adj_view()[i].len()
                ==> (#[trigger] self.adj_view()[i][j]) < self.nodes_view().len())
    }

    /// The node payloads, by index.
    pub closed spec fn nodes_view(&self) -> Seq<T> {
        self.nodes@
    }

    /// The adjacency lists, by source index.
    pub closed spec fn adj_view(&self) -> Seq<Seq<usize>> {
        self.adj@.map_values(|row: Vec<usize>| row@)
    }

    /// How many edges were added.
    pub closed spec fn edge_count(&self) -> nat {
        self.num_edges as nat
    }

    /// The node at an index, if there is one.
    pub fn get(&self, index: usize) -> (r: Option<&T>)
        ensures
            match r {
                Some(node) => index < self.nodes_view().len() && *node == self.nodes_view()[
                    index as int
                ],
                None => index >= self.nodes_view().len(),
            },
    {
        if index < self.nodes.len() {
            Some(&self.nodes[index])
        } else {
            None
        }
    }

    /// Adds a node and hands back its index.
    pub fn add_node(&mut self, data: T) -> (r: usize)
        ensures
            r == old(self).nodes_view().len(),
            final(self).nodes_view() == old(self).nodes_view().push(data),
            final(self).adj_view() == old(self).adj_view(),
            final(self).edge_count() == old(self).edge_count(),
    {
        let index = self.nodes.len();
        self.nodes.push(data);
        index
    }

    /// Records a directed edge under its source, growing the adjacency rows
    /// on demand; the endpoints need not exist yet, only listing the edges
    /// does ([`Graph::edges`]).
    pub fn add_edge(&mut self, from: usize, to: usize)
        requires
            old(self).edge_count() < usize::MAX,
        ensures
            final(self).nodes_view() == old(self).nodes_view(),
            final(self).adj_view() == padded(old(self).adj_view(), from as int + 1).update(
                from as int,
                padded(old(self).adj_view(), from as int + 1)[from as int].push(to),
            ),
            final(self).edge_count() == old(self).edge_count() + 1,
    {
        let ghost orig = self.adj@.map_values(|row: Vec<usize>| row@);
        while self.adj.len() <= from
            invariant
                self.nodes@ == old(self).nodes@,
                self.num_edges == old(self).num_edges,
                self.adj@.map_values(|row: Vec<usize>| row@) == padded(
                    orig,
                    self.adj@.len() as int,
                ),
                self.adj@.len() <= from + 1 || self.adj@.len() == orig.len(),
            decreases from + 1 - self.adj@.len(),
        {
            let ghost before = self.adj@.map_values(|row: Vec<usize>| row@);
            self.adj.push(Vec::new());
            proof {
                assert(self.adj@.map_values(|row: Vec<usize>| row@) =~= before.push(
                    Seq::<usize>::empty(),
                ));
                assert(before.push(Seq::<usize>::empty()) =~= padded(
                    orig,
                    self.adj@.len() as int,
                ));
            }
        }
        proof {
            assert(self.adj@.map_values(|row: Vec<usize>| row@) =~= padded(
                orig,
                from as int + 1,
            ));
        }
        self.adj[from].push(to);
        self.num_edges = self.num_edges + 1;
        proof {
            assert(self.adj@.map_values(|row: Vec<usize>| row@) =~= padded(
                orig,
                from as int + 1,
            ).update(from as int, padded(orig, from as int + 1)[from as int].push(to)));
        }
    }

    /// How many nodes the graph holds.
    pub fn num_nodes(&self) -> (r: usize)
        ensures
            r == self.nodes_view().len(),
    {
        self.nodes.len()
    }

    /// How many edges the graph holds.
    pub fn num_edges(&self) -> (r: usize)
        ensures
            r == self.edge_count(),
    {
        self.num_edges
    }

    /// The node payloads in index order.
    pub fn nodes_iter(&self) -> (r: &Vec<T>)
        ensures
            r@ == self.nodes_view(),
    {
        &self.nodes
    }

    /// The successors of a node: its adjacency list, if it has any edge.
    pub fn succ(&self, node: usize) -> (r: Option<&Vec<usize>>)
        ensures
            match r {
                Some(row) => node < self.adj_view().len() && row@ == self.adj_view()[node as int]
                    && row@.len() > 0,
                None => node >= self.adj_view().len() || self.adj_view()[node as int].len() == 0,
            },
    {
        if node < self.adj.len() && self.adj[node].len() > 0 {
            Some(&self.adj[node])
        } else {
            None
        }
    }

    /// Every edge as a pair of node payloads, grouped by source node in
    /// index order, in insertion order within a group.
    pub fn edges(&self) -> (r: Vec<(&T, &T)>)
        requires
            self.edges_ok(),
        ensures
            r@.len() == spec_edge_pairs(self.nodes_view(), self.adj_view(), 0).len(),
            forall|i: int|
                0 <= i < r@.len() ==> (*(#[trigger] r@[i]).0, *r@[i].1) == spec_edge_pairs(
                    self.nodes_view(),
                    self.adj_view(),
                    0,
                )[i],
    {
        let ghost nodes = self.nodes_view();
        let ghost adj = self.adj_view();
        let ghost whole = spec_edge_pairs(nodes, adj, 0);
        let mut acc: Vec<(&T, &T)> = Vec::new();
        let n = self.adj.len();
        let mut from: usize = 0;
        proof {
            lemma_edge_pairs_decompose(nodes, adj, 0);
        }
        while from < n
            invariant
                self.edges_ok(),
                nodes == self.nodes_view(),
                adj == self.adj_view(),
                whole == spec_edge_pairs(nodes, adj, 0),
                n == adj.len(),
                from <= n,
                acc@.len() + spec_edge_pairs(nodes, adj, from as int).len() == whole.len(),
                forall|i: int|
                    0 <= i < acc@.len() ==> (*(#[trigger] acc@[i]).0, *acc@[i].1) == whole[i],
                forall|i: int|
                    0 <= i < spec_edge_pairs(nodes, adj, from as int).len()
                        ==> #[trigger] spec_edge_pairs(nodes, adj, from as int)[i] == whole[
                        acc@.len() + i
                    ],
            decreases n - from,
        {
            let row_len = self.adj[from].len();
            let ghost row = adj[from as int];
            let mut j: usize = 0;
            let ghost base = acc@.len() as int;
            proof {
                assert(spec_edge_pairs(nodes, adj, from as int) == spec_row_pairs(
                    nodes,
                    row,
                    from as int,
                ) + spec_edge_pairs(nodes, adj, from + 1));
                assert forall|i: int|
                    0 <= i < spec_row_pairs(nodes, row, from as int).len() implies #[trigger] spec_row_pairs(
                    nodes,
                    row,
                    from as int,
                )[i] == whole[base + i] by {
                    assert(spec_edge_pairs(nodes, adj, from as int)[i] == spec_row_pairs(
                        nodes,
                        row,
                        from as int,
                    )[i]);
                }
                assert forall|i: int|
                    0 <= i < spec_edge_pairs(nodes, adj, from as int + 1).len() implies #[trigger] spec_edge_pairs(
                    nodes,
                    adj,
                    from as int + 1,
                )[i] == whole[base + spec_row_pairs(nodes, row, from as int).len() + i] by {
                    assert(spec_edge_pairs(nodes, adj, from as int)[spec_row_pairs(
                        nodes,
                        row,
                        from as int,
                    ).len() + i] == spec_edge_pairs(nodes, adj, from as int + 1)[i]);
                }
            }
            while j < row_len
                invariant
                    self.edges_ok(),
                    nodes == self.nodes_view(),
                    adj == self.adj_view(),
                    whole == spec_edge_pairs(nodes, adj, 0),
                    from < adj.len(),
                    row.len() > 0 ==> (from as int) < nodes.len(),
                    row == adj[from as int],
                    row_len == row.len(),
                    j <= row_len,
                    base + spec_row_pairs(nodes, row, from as int).len() + spec_edge_pairs(
                        nodes,
                        adj,
                        from as int + 1,
                    ).len() == whole.len(),
                    acc@.len() == base + j,
                    forall|i: int|
                        0 <= i < acc@.len() ==> (*(#[trigger] acc@[i]).0, *acc@[i].1) == whole[i],
                    forall|i: int|
                        0 <= i < spec_row_pairs(nodes, row, from as int).len()
                            ==> #[trigger] spec_row_pairs(nodes, row, from as int)[i] == whole[base
                            + i],
                    forall|i: int|
                        0 <= i < spec_edge_pairs(nodes, adj, from as int + 1).len()
                            ==> #[trigger] spec_edge_pairs(nodes, adj, from as int + 1)[i] == whole[
                            base + spec_row_pairs(nodes, row, from as int).len() + i
                        ],
                decreases row_len - j,
            {
                let to = self.adj[from][j];
                proof {
                    assert(to == row[j as int]);
                    assert((to as int) < nodes.len());
                    assert(spec_row_pairs(nodes, row, from as int)[j as int] == (
                        nodes[from as int],
                        nodes[to as int],
                    ));
                }
                acc.push((&self.nodes[from], &self.nodes[to]));
                j = j + 1;
            }
            proof {
                lemma_edge_pairs_decompose(nodes, adj, from as int + 1);
            }
            from = from + 1;
        }
        proof {
            assert(spec_edge_pairs(nodes, adj, n as int) =~= Seq::<(T, T)>::empty());
        }
        acc
    }
}

/// Unfolds one step of [`spec_edge_pairs`], so a loop can peel a source
/// node's group off the front.
proof fn lemma_edge_pairs_decompose<T>(nodes: Seq<T>, adj: Seq<Seq<usize>>, from: int)
    requires
        0 <= from <= adj.len(),
    ensures
        from < adj.len() ==> spec_edge_pairs(nodes, adj, from) == spec_row_pairs(
            nodes,
            adj[from],
            from,
        ) + spec_edge_pairs(nodes, adj, from + 1),
        from == adj.len() ==> spec_edge_pairs(nodes, adj, from) == Seq::<(T, T)>::empty(),
{
}

impl<T> Default for Graph<T> {
    fn default() -> (r: Self)
        ensures
            r.edges_ok(),
            r.nodes_view() == Seq::<T>::empty(),
            r.adj_view() == Seq::<Seq<usize>>::empty(),
            r.edge_count() == 0,
    {
        let r = Graph { nodes: Vec::new(), adj: Vec::new(), num_edges: 0 };
        proof {
            assert(r.adj_view() =~= Seq::<Seq<usize>>::empty());
        }
        r
    }
}

} // verus!
