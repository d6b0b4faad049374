//! Shortest paths on a small graph held as an adjacency matrix.
//!
//! The search repeatedly takes the reached, not yet finalized node of
//! least distance, finalizes it and tries every edge out of it; the path
//! it returns is a lightest walk between the two nodes.
pub mod dijkstra;
pub mod node_order;

use vstd::prelude::*;
use vstd::std_specs::cmp::PartialEqSpec;
pub use self::dijkstra::PathData;
use self::dijkstra::{
    NodeData, DistanceData, dist, run, initial_data, run_fits, next_candidate, expand, step_fits,
    finalized_count, relaxed, finalize, best_candidate_upto, lemma_best_candidate,
    lemma_expand_count, lemma_expand_invariant, lemma_count_bounded, lemma_initial_invariant,
    search_invariant, chain_ends, chain_upto, path_back, lemma_path_back, walk_from_to, walk_weight,
    reachable, lemma_search_is_shortest, lemma_search_reaches_reachable, lemma_chain_last,
};

verus! {

/// A graph of `N` `Node`s represented with an adjacency matrix.
#[derive(Debug, Clone)]
pub struct Graph<Node, const N: usize> {
    adjacencies: Vec<Vec<usize>>,
    nodes: [Node; N],
}

/// The types of errors a graph can have.
#[derive(Debug, Clone, Copy, Hash, PartialEq, Eq, Structural)]
pub enum GraphError {
    FromNodeNotFound,
    DestNodeNotFound,
}

/// The first index at or after `k` whose node equals `node`.
pub open spec fn index_from<Node: PartialEq>(nodes: Seq<Node>, node: Node, k: int) -> Option<int>
    decreases nodes.len() - k,
{
    if k < 0 || k >= nodes.len() {
        None
    } else if node.eq_spec(&nodes[k]) {
        Some(k)
    } else {
        index_from(nodes, node, k + 1)
    }
}

/// The first index whose node equals `node`, if there is one.
pub open spec fn index_of<Node: PartialEq>(nodes: Seq<Node>, node: Node) -> Option<int> {
    index_from(nodes, node, 0)
}

pub proof fn lemma_index_from<Node: PartialEq>(nodes: Seq<Node>, node: Node, k: int)
    requires
        0 <= k,
    ensures
        index_from(nodes, node, k) matches Some(i) ==> {
            &&& k <= i < nodes.len()
            &&& node.eq_spec(&nodes[i])
            &&& forall|j: int| k <= j < i ==> !node.eq_spec(&nodes[j])
        },
        index_from(nodes, node, k) is None ==> forall|j: int|
            k <= j < nodes.len() ==> !node.eq_spec(&nodes[j]),
    decreases nodes.len() - k,
{
    if k < nodes.len() && !node.eq_spec(&nodes[k]) {
        lemma_index_from(nodes, node, k + 1);
    }
}

/// Node `v` occurs among the first `k` neighbour pairs.
pub open spec fn listed(pairs: Seq<(usize, usize)>, k: int, v: int) -> bool {
    exists|j: int| 0 <= j < k && pairs[j].0 == v
}

/// No sum that a search from `from` computes overflows, where both `from`
/// and `dest` are among `nodes`.
pub open spec fn search_fits<Node: PartialEq>(
    adj: Seq<Seq<usize>>,
    nodes: Seq<Node>,
    from: Node,
    dest: Node,
) -> bool {
    (index_of(nodes, from), index_of(nodes, dest)) matches (Some(f), Some(_)) ==> run_fits(
        initial_data(nodes.len(), f),
        adj,
    )
}

/// `path` holds, in order, the nodes at the indices of `chain`.
pub open spec fn path_follows<Node>(path: Seq<&Node>, nodes: Seq<Node>, chain: Seq<int>) -> bool {
    &&& path.len() == chain.len()
    &&& forall|k: int| 0 <= k < path.len() ==> *path[k] == nodes[chain[k]]
}

/// What a search from node index `from` leaves in its records.
pub open spec fn search_records(adj: Seq<Seq<usize>>, n: nat, from: int) -> Seq<NodeData> {
    run(initial_data(n, from), adj)
}

/// Whether a search from `from` to `dest` that left `data` behind yields
/// `result`.
pub open spec fn path_result<Node>(
    result: Option<PathData<&Node>>,
    nodes: Seq<Node>,
    data: Seq<NodeData>,
    from: int,
    dest: int,
    n: int,
) -> bool {
    match data[dest].distance_data {
        None => result is None,
        Some(d) => result matches Some(p) && p.distance == d.distance && path_follows(
            p.path@,
            nodes,
            path_back(data, from, n, dest),
        ),
    }
}

/// `chain` is a walk from `from` to `to` of weight `distance`, and no walk
/// between the two weighs less.
pub open spec fn is_lightest_walk(
    adj: Seq<Seq<usize>>,
    n: int,
    from: int,
    to: int,
    chain: Seq<int>,
    distance: int,
) -> bool {
    &&& walk_from_to(adj, n, chain, from, to)
    &&& walk_weight(adj, chain) == distance
    &&& forall|walk: Seq<int>|
        #[trigger] walk_from_to(adj, n, walk, from, to) ==> distance <= walk_weight(adj, walk)
}

impl<Node, const N: usize> Graph<Node, N> {
    /// The matrix has `N` rows of `N` weights.
    pub closed spec fn well_formed(&self) -> bool {
        &&& self.adjacencies@.len() == N
        &&& forall|i: int| 0 <= i < N ==> (#[trigger] self.adjacencies@[i])@.len() == N
    }

    /// The weight of the edge from node index `i` to node index `j`;
    /// zero where there is none.
    pub closed spec fn edge(&self, i: int, j: int) -> usize {
        self.adjacencies@[i]@[j]
    }

    /// The adjacency matrix, row by row.
    pub closed spec fn adjacency(&self) -> Seq<Seq<usize>> {
        Seq::new(N as nat, |i: int| Seq::new(N as nat, |j: int| self.edge(i, j)))
    }

    /// The nodes, in the order of their indices.
    pub closed spec fn node_list(&self) -> Seq<Node> {
        self.nodes@
    }

    pub proof fn lemma_adjacency(&self, i: int, j: int)
        requires
            0 <= i < N,
            0 <= j < N,
        ensures
            self.adjacency()[i][j] == self.edge(i, j),
            self.adjacency().len() == N,
            self.adjacency()[i].len() == N,
            self.node_list().len() == N,
    {
    }
}

impl<Node: Clone + Eq, const N: usize> Graph<Node, N> {
    /// Creates a graph with the given nodes and no edges.
    pub fn with_nodes(nodes: [Node; N]) -> (g: Self)
        ensures
            g.well_formed(),
            g.node_list() == nodes@,
            forall|i: int, j: int| 0 <= i < N && 0 <= j < N ==> g.edge(i, j) == 0,
    {
        let mut adjacencies: Vec<Vec<usize>> = Vec::new();
        let mut i: usize = 0;
        while i < N
            invariant
                i <= N,
                adjacencies@.len() == i,
                forall|r: int|
                    0 <= r < i ==> (#[trigger] adjacencies@[r])@ == Seq::new(N as nat, |c: int| 0usize),
            decreases N - i,
        {
            let mut row: Vec<usize> = Vec::new();
            let mut j: usize = 0;
            while j < N
                invariant
                    j <= N,
                    row@ == Seq::new(j as nat, |c: int| 0usize),
                decreases N - j,
            {
                row.push(0);
                j += 1;
            }
            adjacencies.push(row);
            i += 1;
        }
        Graph { adjacencies, nodes }
    }

    /// Gets the internal index of the node in the graph if present.
    /// This index is the index used for the adjacency matrix.
    pub fn get_node_index(&self, node: &Node) -> (index: Option<usize>)
        requires
            Node::obeys_eq_spec(),
        ensures
            match index_of(self.node_list(), *node) {
                Some(i) => 0 <= i < N && index == Some(i as usize),
                None => index is None,
            },
    {
        proof {
            lemma_index_from(self.node_list(), *node, 0);
        }
        let mut i: usize = 0;
        while i < N
            invariant
                i <= N,
                Node::obeys_eq_spec(),
                index_of(self.node_list(), *node) == index_from(self.node_list(), *node, i as int),
                self.node_list() == self.nodes@,
                self.nodes@.len() == N,
            decreases N - i,
        {
            if *node == self.nodes[i] {
                return Some(i);
            }
            i += 1;
        }
        None
    }

    /// Gets the node from its index if the index is in bounds (`index < N`).
    pub fn get_node(&self, index: usize) -> (node: Option<&Node>)
        ensures
            index < N ==> (node matches Some(n) && *n == self.node_list()[index as int]),
            index >= N ==> node is None,
    {
        if index < N {
            Some(&self.nodes[index])
        } else {
            None
        }
    }

    /// Gets the edge between `from` and `dest` if both are indices
    /// within bounds. `Some(0)` is returned if the nodes do not have an edge
    /// but are both valid node indices.
    pub fn get_edge(&self, from: usize, dest: usize) -> (weight: Option<usize>)
        requires
            self.well_formed(),
        ensures
            from < N && dest < N ==> weight == Some(self.edge(from as int, dest as int)),
            !(from < N && dest < N) ==> weight is None,
    {
        if from < self.adjacencies.len() && dest < self.adjacencies[from].len() {
            Some(self.adjacencies[from][dest])
        } else {
            None
        }
    }

    /// Gets a mutable reference to the edge between `from` and `dest`
    /// if present.
    pub fn get_edge_mut(&mut self, from: usize, dest: usize) -> (weight: Option<&mut usize>)
        requires
            old(self).well_formed(),
        ensures
            from < N && dest < N ==> (weight matches Some(w) && *w == old(self).edge(
                from as int,
                dest as int,
            ) && final(self).well_formed() && final(self).node_list() == old(self).node_list()
                && forall|i: int, j: int|
                0 <= i < N && 0 <= j < N ==> #[trigger] final(self).edge(i, j) == if i == from && j
                    == dest {
                    *final(w)
                } else {
                    old(self).edge(i, j)
                }),
            !(from < N && dest < N) ==> weight is None && *final(self) == *old(self),
    {
        if from < N && dest < N {
            Some(&mut self.adjacencies[from][dest])
        } else {
            None
        }
    }

    /// Sets the edge between `from` and `dest` with the specified weight,
    /// returning if there was any accessing error.
    pub fn set_edge(&mut self, from: &Node, dest: &Node, weight: usize) -> (result: Result<
        (),
        GraphError,
    >)
        requires
            old(self).well_formed(),
            Node::obeys_eq_spec(),
        ensures
            final(self).well_formed(),
            final(self).node_list() == old(self).node_list(),
            match (index_of(old(self).node_list(), *from), index_of(old(self).node_list(), *dest)) {
                (None, _) => result == Err::<(), GraphError>(GraphError::FromNodeNotFound)
                    && *final(self) == *old(self),
                (Some(_), None) => result == Err::<(), GraphError>(GraphError::DestNodeNotFound)
                    && *final(self) == *old(self),
                (Some(i), Some(j)) => result == Ok::<(), GraphError>(()) && forall|a: int, b: int|
                    0 <= a < N && 0 <= b < N ==> #[trigger] final(self).edge(a, b) == if a == i
                        && b == j {
                        weight
                    } else {
                        old(self).edge(a, b)
                    },
            },
    {
        let from = match self.get_node_index(from) {
            Some(index) => index,
            None => return Err(GraphError::FromNodeNotFound),
        };
        let dest = match self.get_node_index(dest) {
            Some(index) => index,
            None => return Err(GraphError::DestNodeNotFound),
        };
        let edge = self.get_edge_mut(from, dest).unwrap();
        *edge = weight;
        Ok(())
    }

    /// Sets the edges between `from` and `dest`, and `dest` and `from`
    /// with the specified weight, returning if there was any accessing error.
    pub fn set_edge_symmetric(&mut self, from: &Node, dest: &Node, weight: usize) -> (result:
        Result<(), GraphError>)
        requires
            old(self).well_formed(),
            Node::obeys_eq_spec(),
        ensures
            final(self).well_formed(),
            final(self).node_list() == old(self).node_list(),
            match (index_of(old(self).node_list(), *from), index_of(old(self).node_list(), *dest)) {
                (None, _) => result == Err::<(), GraphError>(GraphError::FromNodeNotFound)
                    && *final(self) == *old(self),
                (Some(_), None) => result == Err::<(), GraphError>(GraphError::DestNodeNotFound)
                    && *final(self) == *old(self),
                (Some(i), Some(j)) => result == Ok::<(), GraphError>(()) && forall|a: int, b: int|
                    0 <= a < N && 0 <= b < N ==> #[trigger] final(self).edge(a, b) == if (a == i
                        && b == j) || (a == j && b == i) {
                        weight
                    } else {
                        old(self).edge(a, b)
                    },
            },
    {
        self.set_edge(from, dest, weight)?;
        self.set_edge(dest, from, weight)?;
        Ok(())
    }

    /// Returns all the neighbor-weight pairs of `node`, in order of the
    /// neighbors' indices.
    pub fn neighbors(&self, node: usize) -> (pairs: Vec<(usize, usize)>)
        requires
            self.well_formed(),
        ensures
            node >= N ==> pairs@.len() == 0,
            node < N ==> {
                &&& forall|k: int|
                    0 <= k < pairs@.len() ==> {
                        &&& (#[trigger] pairs@[k]).0 < N
                        &&& pairs@[k].1 == self.edge(node as int, pairs@[k].0 as int)
                        &&& pairs@[k].1 != 0
                    }
                &&& forall|k: int, l: int|
                    0 <= k < l < pairs@.len() ==> (#[trigger] pairs@[k]).0 < (#[trigger] pairs@[l]).0
                &&& forall|v: int|
                    0 <= v < N && #[trigger] self.edge(node as int, v) != 0 ==> exists|k: int|
                        0 <= k < pairs@.len() && (#[trigger] pairs@[k]).0 == v
            },
    {
        let mut pairs: Vec<(usize, usize)> = Vec::new();
        let mut n: usize = 0;
        while n < N
            invariant
                n <= N,
                self.well_formed(),
                node >= N ==> pairs@.len() == 0,
                forall|k: int|
                    0 <= k < pairs@.len() ==> {
                        &&& (#[trigger] pairs@[k]).0 < n
                        &&& pairs@[k].1 == self.edge(node as int, pairs@[k].0 as int)
                        &&& pairs@[k].1 != 0
                    },
                forall|k: int, l: int|
                    0 <= k < l < pairs@.len() ==> (#[trigger] pairs@[k]).0 < (#[trigger] pairs@[l]).0,
                node < N ==> forall|v: int|
                    0 <= v < n && #[trigger] self.edge(node as int, v) != 0 ==> exists|k: int|
                        0 <= k < pairs@.len() && (#[trigger] pairs@[k]).0 == v,
            decreases N - n,
        {
            let ghost before = pairs@;
            if let Some(edge) = self.get_edge(node, n) {
                if edge != 0 {
                    pairs.push((n, edge));
                    assert(pairs@[pairs@.len() - 1].0 == n);
                }
            }
            assert forall|v: int|
                node < N && 0 <= v < n && #[trigger] self.edge(node as int, v) != 0 implies exists|k: int|
                    0 <= k < pairs@.len() && (#[trigger] pairs@[k]).0 == v by {
                let k = choose|k: int| 0 <= k < before.len() && (#[trigger] before[k]).0 == v;
                assert(pairs@[k] == before[k]);
            }
            n += 1;
        }
        pairs
    }

    /// Builds a path of nodes from `from` to `dest`
    /// using the completed node data from Dijkstra's algorithm.
    pub fn build_path(&self, from: usize, dest: usize, node_data: &[NodeData]) -> (path: Option<
        PathData<&Node>,
    >)
        requires
            dest < node_data@.len(),
            node_data@[dest as int].distance_data is Some ==> exists|k: nat|
                #[trigger] chain_ends(node_data@, from as int, N as int, dest as int, k),
        ensures
            path_result(path, self.node_list(), node_data@, from as int, dest as int, N as int),
    {
        let ghost data = node_data@;
        if let Some(distance) = node_data[dest].distance() {
            let ghost k0 = choose|k: nat| #[trigger] chain_ends(data, from as int, N as int, dest as int, k);
            let ghost mut k = k0;
            let mut current = dest;
            let mut indices: Vec<usize> = Vec::new();
            indices.push(dest);
            loop
                invariant
                    node_data@ == data,
                    chain_ends(data, from as int, N as int, current as int, k),
                    indices@.len() >= 1,
                    indices@.last() == current,
                    forall|m: int| 0 <= m < indices@.len() ==> #[trigger] indices@[m] < N,
                    chain_upto(data, from as int, dest as int, k0) == chain_upto(
                        data,
                        from as int,
                        current as int,
                        k,
                    ).drop_last() + indices@.map_values(|x: usize| x as int).reverse(),
                ensures
                    indices@.len() >= 1,
                    forall|m: int| 0 <= m < indices@.len() ==> #[trigger] indices@[m] < N,
                    chain_upto(data, from as int, dest as int, k0) == indices@.map_values(
                        |x: usize| x as int,
                    ).reverse(),
                decreases k,
            {
                match node_data[current].predecessor() {
                    None => {
                        assert(chain_upto(data, from as int, current as int, k) == seq![
                            current as int,
                        ]);
                        assert(chain_upto(data, from as int, dest as int, k0) =~= indices@.map_values(
                            |x: usize| x as int,
                        ).reverse());
                        break;
                    },
                    Some(predecessor) => {
                        if current == from {
                            assert(chain_upto(data, from as int, current as int, k) == seq![
                                current as int,
                            ]);
                            assert(chain_upto(data, from as int, dest as int, k0)
                                =~= indices@.map_values(|x: usize| x as int).reverse());
                            break;
                        }
                        let ghost old_indices = indices@;
                        let ghost prev = chain_upto(data, from as int, predecessor as int, (k - 1) as nat);
                        indices.push(predecessor);
                        assert(chain_upto(data, from as int, current as int, k) == prev.push(
                            current as int,
                        ));
                        assert(indices@.map_values(|x: usize| x as int).reverse() =~= seq![
                            predecessor as int,
                        ] + old_indices.map_values(|x: usize| x as int).reverse());
                        assert(prev.drop_last().push(predecessor as int) =~= prev) by {
                            assert(prev.last() == predecessor as int) by {
                                lemma_chain_last(data, from as int, predecessor as int, (k - 1) as nat);
                            }
                        }
                        assert(chain_upto(data, from as int, dest as int, k0) =~= prev.drop_last()
                            + indices@.map_values(|x: usize| x as int).reverse());
                        proof {
                            k = (k - 1) as nat;
                        }
                        current = predecessor;
                    },
                }
            }
            proof {
                lemma_path_back(data, from as int, N as int, dest as int, k0);
            }
            let ghost chain = path_back(data, from as int, N as int, dest as int);
            let mut path: Vec<&Node> = Vec::new();
            let mut m = indices.len();
            while m > 0
                invariant
                    m <= indices@.len(),
                    path@.len() == indices@.len() - m,
                    chain == indices@.map_values(|x: usize| x as int).reverse(),
                    forall|j: int| 0 <= j < indices@.len() ==> #[trigger] indices@[j] < N,
                    forall|j: int|
                        0 <= j < path@.len() ==> *path@[j] == self.node_list()[chain[j]],
                decreases m,
            {
                m -= 1;
                path.push(self.get_node(indices[m]).unwrap());
            }
            Some(PathData { path, distance })
        } else {
            None
        }
    }

    /// Finds the shortest path from `from` to `dest` if both nodes exist
    /// using Dijkstra's algorithm.
    pub fn shortest_path(&self, from: &Node, dest: &Node) -> (result: Result<
        Option<PathData<&Node>>,
        GraphError,
    >)
        requires
            self.well_formed(),
            Node::obeys_eq_spec(),
            search_fits(self.adjacency(), self.node_list(), *from, *dest),
        ensures
            match (index_of(self.node_list(), *from), index_of(self.node_list(), *dest)) {
                (None, _) => result == Err::<Option<PathData<&Node>>, GraphError>(
                    GraphError::FromNodeNotFound,
                ),
                (Some(_), None) => result == Err::<Option<PathData<&Node>>, GraphError>(
                    GraphError::DestNodeNotFound,
                ),
                (Some(f), Some(d)) => result matches Ok(path) && {
                    let data = search_records(self.adjacency(), N as nat, f);
                    &&& path_result(path, self.node_list(), data, f, d, N as int)
                    &&& (path is Some <==> reachable(self.adjacency(), N as int, f, d))
                    &&& path matches Some(p) ==> is_lightest_walk(
                        self.adjacency(),
                        N as int,
                        f,
                        d,
                        path_back(data, f, N as int, d),
                        p.distance as int,
                    )
                },
            },
    {
        let from = match self.get_node_index(from) {
            Some(index) => index,
            None => return Err(GraphError::FromNodeNotFound),
        };
        let dest = match self.get_node_index(dest) {
            Some(index) => index,
            None => return Err(GraphError::DestNodeNotFound),
        };
        let ghost adj = self.adjacency();
        let ghost init = initial_data(N as nat, from as int);

        let mut node_data: Vec<NodeData> = Vec::new();
        let mut i: usize = 0;
        while i < N
            invariant
                i <= N,
                node_data@.len() == i,
                forall|j: int|
                    0 <= j < i ==> (#[trigger] node_data@[j]).distance_data is None
                        && !node_data@[j].is_finalized,
            decreases N - i,
        {
            node_data.push(NodeData::default());
            i += 1;
        }
        node_data.set(
            from,
            NodeData {
                distance_data: Some(DistanceData { predecessor: from, distance: 0 }),
                is_finalized: false,
            },
        );
        assert(node_data@ =~= init);
        proof {
            lemma_initial_invariant(N as nat, from as int, adj);
        }

        loop
            invariant
                self.well_formed(),
                adj == self.adjacency(),
                from < N,
                node_data@.len() == N,
                run(node_data@, adj) == run(init, adj),
                run_fits(node_data@, adj),
                search_invariant(node_data@, adj, from as int),
            ensures
                node_data@.len() == N,
                node_data@ == run(init, adj),
            decreases N - finalized_count(node_data@),
        {
            let ghost before = node_data@;
            proof {
                lemma_best_candidate(before, before.len() as int);
                lemma_count_bounded(before);
            }
            match Self::next_node(&node_data) {
                None => break,
                Some(node_index) => {
                    proof {
                        lemma_expand_count(before, adj, node_index as int);
                        lemma_expand_invariant(before, adj, from as int, node_index as int);
                    }
                    let current_data = node_data[node_index];
                    node_data.set(
                        node_index,
                        NodeData { distance_data: current_data.distance_data, is_finalized: true },
                    );
                    let ghost fin = node_data@;
                    assert(fin == finalize(before, node_index as int));
                    let current_distance = current_data.distance().unwrap();
                    let neighbors = self.neighbors(node_index);
                    let mut k: usize = 0;
                    while k < neighbors.len()
                        invariant
                            self.well_formed(),
                            adj == self.adjacency(),
                            node_index < N,
                            k <= neighbors@.len(),
                            node_data@.len() == N,
                            fin.len() == N,
                            before.len() == N,
                            current_distance == dist(before[node_index as int]),
                            step_fits(before, adj, node_index as int),
                            forall|m: int|
                                0 <= m < neighbors@.len() ==> {
                                    &&& (#[trigger] neighbors@[m]).0 < N
                                    &&& neighbors@[m].1 == self.edge(
                                        node_index as int,
                                        neighbors@[m].0 as int,
                                    )
                                    &&& neighbors@[m].1 != 0
                                },
                            forall|m: int, l: int|
                                0 <= m < l < neighbors@.len() ==> (#[trigger] neighbors@[m]).0
                                    < (#[trigger] neighbors@[l]).0,
                            forall|v: int|
                                0 <= v < N ==> #[trigger] node_data@[v] == if listed(
                                    neighbors@,
                                    k as int,
                                    v,
                                ) {
                                    relaxed(fin[v], adj[node_index as int][v], node_index as int, current_distance as int)
                                } else {
                                    fin[v]
                                },
                        decreases neighbors@.len() - k,
                    {
                        let (neighbor, weight) = neighbors[k];
                        proof {
                            self.lemma_adjacency(node_index as int, neighbor as int);
                            assert(adj[node_index as int][neighbor as int] != 0);
                            assert(adj[node_index as int][neighbor as int] == weight);
                            assert(!listed(neighbors@, k as int, neighbor as int));
                        }
                        let new_distance = current_distance + weight;
                        let old_distance = node_data[neighbor].distance();
                        let shorter = match old_distance {
                            None => true,
                            Some(old) => new_distance < old,
                        };
                        if shorter {
                            let finalized = node_data[neighbor].is_finalized;
                            node_data.set(
                                neighbor,
                                NodeData {
                                    distance_data: Some(
                                        DistanceData { predecessor: node_index, distance: new_distance },
                                    ),
                                    is_finalized: finalized,
                                },
                            );
                        }
                        proof {
                            assert forall|v: int|
                                0 <= v < N && v != neighbor implies listed(neighbors@, k + 1, v)
                                    == listed(neighbors@, k as int, v) by {
                                if listed(neighbors@, k + 1, v) {
                                    let j = choose|j: int| 0 <= j < k + 1 && neighbors@[j].0 == v;
                                    assert(j != k);
                                }
                            }
                            assert(listed(neighbors@, k + 1, neighbor as int)) by {
                                assert(neighbors@[k as int].0 == neighbor);
                            }
                        }
                        k += 1;
                    }
                    proof {
                        assert forall|v: int| 0 <= v < N implies #[trigger] node_data@[v] == expand(
                            before,
                            adj,
                            node_index as int,
                        )[v] by {
                            self.lemma_adjacency(node_index as int, v);
                            if adj[node_index as int][v] != 0 {
                                let m = choose|m: int|
                                    0 <= m < neighbors@.len() && (#[trigger] neighbors@[m]).0 == v;
                                assert(listed(neighbors@, neighbors@.len() as int, v));
                            }
                        }
                        assert(node_data@ =~= expand(before, adj, node_index as int));
                    }
                },
            }
        }
        proof {
            lemma_search_reaches_reachable(adj, N as nat, from as int, dest as int);
            if node_data@[dest as int].distance_data is Some {
                lemma_search_is_shortest(adj, N as nat, from as int, dest as int);
            }
        }
        Ok(self.build_path(from, dest, node_data.as_slice()))
    }

    /// The reached, not yet finalized node of least distance, the lowest
    /// index among equals, if any.
    fn next_node(node_data: &Vec<NodeData>) -> (next: Option<usize>)
        ensures
            match next_candidate(node_data@) {
                Some(u) => next == Some(u as usize),
                None => next is None,
            },
    {
        let mut best: Option<usize> = None;
        let mut i: usize = 0;
        while i < node_data.len()
            invariant
                i <= node_data@.len(),
                match best_candidate_upto(node_data@, i as int) {
                    Some(b) => best == Some(b as usize),
                    None => best is None,
                },
            decreases node_data@.len() - i,
        {
            proof {
                lemma_best_candidate(node_data@, i as int);
            }
            let visiting = node_data[i];
            if !visiting.is_finalized && visiting.distance_data.is_some() {
                match best {
                    None => {
                        best = Some(i);
                    },
                    Some(b) => {
                        let visiting_distance = visiting.distance().unwrap();
                        let best_distance = node_data[b].distance().unwrap();
                        if visiting_distance < best_distance {
                            best = Some(i);
                        }
                    },
                }
            }
            i += 1;
        }
        best
    }
}

} // verus!
