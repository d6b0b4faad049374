//! The records kept about each node while the search runs, and the
//! mathematical model of the search itself.
use vstd::prelude::*;

verus! {

/// A struct representing a path on a graph of `Node`s.
#[derive(Debug, Clone, PartialEq, Eq)]
pub struct PathData<Node> {
    pub path: Vec<Node>,
    pub distance: usize,
}

/// Holds the predecessor of this node in the shortest path to a
/// starting node, and the distance to that node.
#[derive(Debug, Clone, Copy, PartialEq, Eq, Hash)]
pub struct DistanceData {
    pub predecessor: usize,
    pub distance: usize,
}

/// The data about node when performing Dijkstra's algorithm.
/// The data includes the optional `DistanceData`, and whether or not
/// the current node has its distance finalized.
#[derive(Debug, Clone, Copy, PartialEq, Eq, Hash)]
pub struct NodeData {
    pub distance_data: Option<DistanceData>,
    pub is_finalized: bool,
}

impl Default for NodeData {
    fn default() -> (data: Self)
        ensures
            data.distance_data is None,
            !data.is_finalized,
    {
        NodeData { distance_data: None, is_finalized: false }
    }
}

impl NodeData {
    /// Gets the distance from the start node, if one is present.
    pub fn distance(&self) -> (d: Option<usize>)
        ensures
            d == (match self.distance_data {
                Some(data) => Some(data.distance),
                None => None::<usize>,
            }),
    {
        match self.distance_data {
            Some(data) => Some(data.distance),
            None => None,
        }
    }

    /// Gets the previous node from this one in the shortest path
    /// found so far, if a path exists.
    pub fn predecessor(&self) -> (p: Option<usize>)
        ensures
            p == (match self.distance_data {
                Some(data) => Some(data.predecessor),
                None => None::<usize>,
            }),
    {
        match self.distance_data {
            Some(data) => Some(data.predecessor),
            None => None,
        }
    }
}

/// The distance recorded for a node that has been reached.
pub open spec fn dist(data: NodeData) -> int {
    data.distance_data.unwrap().distance as int
}

/// The predecessor recorded for a node that has been reached.
pub open spec fn pred(data: NodeData) -> int {
    data.distance_data.unwrap().predecessor as int
}

/// A node that has been reached but whose neighbours have not been
/// looked at yet.
pub open spec fn is_candidate(data: Seq<NodeData>, i: int) -> bool {
    !data[i].is_finalized && data[i].distance_data is Some
}

/// Among the candidates below index `n`, the one of least recorded
/// distance; the lowest index among candidates of equal distance.
pub open spec fn best_candidate_upto(data: Seq<NodeData>, n: int) -> Option<int>
    decreases n,
{
    if n <= 0 {
        None
    } else {
        let best = best_candidate_upto(data, n - 1);
        if !is_candidate(data, n - 1) {
            best
        } else {
            match best {
                None => Some(n - 1),
                Some(b) => if dist(data[n - 1]) < dist(data[b]) {
                    Some(n - 1)
                } else {
                    Some(b)
                },
            }
        }
    }
}

/// The node that the search looks at next: the candidate of least
/// recorded distance, the lowest index among equals.
pub open spec fn next_candidate(data: Seq<NodeData>) -> Option<int> {
    best_candidate_upto(data, data.len() as int)
}

/// The record of node `v` after the edge of weight `weight` from `u`,
/// which lies at distance `d`, has been tried.
pub open spec fn relaxed(data: NodeData, weight: usize, u: int, d: int) -> NodeData {
    if weight != 0 && (data.distance_data is None || d + weight < dist(data)) {
        NodeData {
            distance_data: Some(DistanceData { predecessor: u as usize, distance: (d + weight) as usize }),
            is_finalized: data.is_finalized,
        }
    } else {
        data
    }
}

/// The records with node `u` marked finalized.
pub open spec fn finalize(data: Seq<NodeData>, u: int) -> Seq<NodeData> {
    data.update(u, NodeData { distance_data: data[u].distance_data, is_finalized: true })
}

/// One round of the search: node `u` is finalized and every edge out of
/// it is tried.
pub open spec fn expand(data: Seq<NodeData>, adj: Seq<Seq<usize>>, u: int) -> Seq<NodeData> {
    let fin = finalize(data, u);
    Seq::new(data.len(), |v: int| relaxed(fin[v], adj[u][v], u, dist(data[u])))
}

/// How many nodes are finalized.
pub open spec fn finalized_count(data: Seq<NodeData>) -> nat
    decreases data.len(),
{
    if data.len() == 0 {
        0
    } else {
        finalized_count(data.drop_last()) + if data.last().is_finalized {
            1nat
        } else {
            0nat
        }
    }
}

/// The records at the start of a search from node `from` among `n` nodes.
pub open spec fn initial_data(n: nat, from: int) -> Seq<NodeData> {
    Seq::new(
        n,
        |i: int|
            if i == from {
                NodeData {
                    distance_data: Some(DistanceData { predecessor: from as usize, distance: 0 }),
                    is_finalized: false,
                }
            } else {
                NodeData { distance_data: None, is_finalized: false }
            },
    )
}

pub proof fn lemma_count_bounded(data: Seq<NodeData>)
    ensures
        finalized_count(data) <= data.len(),
    decreases data.len(),
{
    if data.len() > 0 {
        lemma_count_bounded(data.drop_last());
    }
}

pub proof fn lemma_count_same_flags(a: Seq<NodeData>, b: Seq<NodeData>)
    requires
        a.len() == b.len(),
        forall|i: int| 0 <= i < a.len() ==> a[i].is_finalized == b[i].is_finalized,
    ensures
        finalized_count(a) == finalized_count(b),
    decreases a.len(),
{
    if a.len() > 0 {
        lemma_count_same_flags(a.drop_last(), b.drop_last());
    }
}

pub proof fn lemma_count_finalize(data: Seq<NodeData>, u: int)
    requires
        0 <= u < data.len(),
        !data[u].is_finalized,
    ensures
        finalized_count(finalize(data, u)) == finalized_count(data) + 1,
    decreases data.len(),
{
    let fin = finalize(data, u);
    if u == data.len() - 1 {
        lemma_count_same_flags(data.drop_last(), fin.drop_last());
    } else {
        assert(fin.drop_last() =~= finalize(data.drop_last(), u));
        lemma_count_finalize(data.drop_last(), u);
    }
}

pub proof fn lemma_best_candidate(data: Seq<NodeData>, n: int)
    requires
        0 <= n <= data.len(),
    ensures
        best_candidate_upto(data, n) matches Some(u) ==> {
            &&& 0 <= u < n
            &&& is_candidate(data, u)
            &&& forall|j: int|
                0 <= j < n && is_candidate(data, j) ==> dist(data[u]) <= #[trigger] dist(data[j])
        },
        best_candidate_upto(data, n) is None ==> forall|j: int|
            0 <= j < n ==> !#[trigger] is_candidate(data, j),
    decreases n,
{
    if n > 0 {
        lemma_best_candidate(data, n - 1);
    }
}

/// A round of the search finalizes exactly one more node.
pub proof fn lemma_expand_count(data: Seq<NodeData>, adj: Seq<Seq<usize>>, u: int)
    requires
        0 <= u < data.len(),
        !data[u].is_finalized,
    ensures
        expand(data, adj, u).len() == data.len(),
        finalized_count(expand(data, adj, u)) == finalized_count(data) + 1,
        finalized_count(expand(data, adj, u)) <= data.len(),
{
    let e = expand(data, adj, u);
    lemma_count_finalize(data, u);
    lemma_count_same_flags(e, finalize(data, u));
    lemma_count_bounded(e);
}

/// The records once no candidate is left, each round taking the
/// candidate of least distance.
pub open spec fn run(data: Seq<NodeData>, adj: Seq<Seq<usize>>) -> Seq<NodeData>
    decreases data.len() - finalized_count(data),
{
    match next_candidate(data) {
        None => data,
        Some(u) => {
            proof {
                lemma_best_candidate(data, data.len() as int);
                lemma_expand_count(data, adj, u);
            }
            run(expand(data, adj, u), adj)
        },
    }
}

/// Every sum of a distance and a weight that the round at `u` computes
/// fits in a `usize`.
pub open spec fn step_fits(data: Seq<NodeData>, adj: Seq<Seq<usize>>, u: int) -> bool {
    forall|v: int|
        0 <= v < data.len() && #[trigger] adj[u][v] != 0 ==> dist(data[u]) + adj[u][v] <= usize::MAX
}

/// No round of the search from `data` on computes a sum beyond `usize::MAX`.
pub open spec fn run_fits(data: Seq<NodeData>, adj: Seq<Seq<usize>>) -> bool
    decreases data.len() - finalized_count(data),
{
    match next_candidate(data) {
        None => true,
        Some(u) => {
            proof {
                lemma_best_candidate(data, data.len() as int);
                lemma_expand_count(data, adj, u);
            }
            step_fits(data, adj, u) && run_fits(expand(data, adj, u), adj)
        },
    }
}


/// Consecutive nodes `walk[i]` and `walk[i + 1]` are joined by an edge.
pub open spec fn walk_step(adj: Seq<Seq<usize>>, walk: Seq<int>, i: int) -> bool {
    adj[walk[i]][walk[i + 1]] != 0
}

/// `walk` is a nonempty sequence of node indices below `n` in which each
/// node has an edge to the next.
pub open spec fn is_walk(adj: Seq<Seq<usize>>, n: int, walk: Seq<int>) -> bool {
    &&& walk.len() >= 1
    &&& forall|i: int| 0 <= i < walk.len() ==> 0 <= #[trigger] walk[i] < n
    &&& forall|i: int| 0 <= i < walk.len() - 1 ==> #[trigger] walk_step(adj, walk, i)
}

/// `walk` is a walk along edges from `from` to `to`.
pub open spec fn walk_from_to(adj: Seq<Seq<usize>>, n: int, walk: Seq<int>, from: int, to: int) -> bool {
    &&& is_walk(adj, n, walk)
    &&& walk[0] == from
    &&& walk.last() == to
}

/// The total weight of the edges along a walk.
pub open spec fn walk_weight(adj: Seq<Seq<usize>>, walk: Seq<int>) -> int
    decreases walk.len(),
{
    if walk.len() <= 1 {
        0
    } else {
        walk_weight(adj, walk.drop_last()) + adj[walk[walk.len() - 2]][walk.last()]
    }
}

/// Node `to` can be reached from node `from` along edges.
pub open spec fn reachable(adj: Seq<Seq<usize>>, n: int, from: int, to: int) -> bool {
    exists|walk: Seq<int>| #[trigger] walk_from_to(adj, n, walk, from, to)
}

/// Following predecessors from `v` for at most `k` steps stays among the
/// first `n` records and stops: at `from`, or at a node with no record.
pub open spec fn chain_ends(data: Seq<NodeData>, from: int, n: int, v: int, k: nat) -> bool
    decreases k,
{
    &&& 0 <= v < data.len()
    &&& v < n
    &&& (data[v].distance_data is None || v == from || (k > 0 && chain_ends(
        data,
        from,
        n,
        pred(data[v]),
        (k - 1) as nat,
    )))
}

/// The nodes met by following predecessors from `v` for at most `k`
/// steps, in the order from the last one met to `v`.
pub open spec fn chain_upto(data: Seq<NodeData>, from: int, v: int, k: nat) -> Seq<int>
    decreases k,
{
    if k > 0 && v != from && data[v].distance_data is Some {
        chain_upto(data, from, pred(data[v]), (k - 1) as nat).push(v)
    } else {
        seq![v]
    }
}

/// The path that following predecessors back from `v` yields, where that
/// ends.
pub open spec fn path_back(data: Seq<NodeData>, from: int, n: int, v: int) -> Seq<int> {
    chain_upto(data, from, v, choose|k: nat| #[trigger] chain_ends(data, from, n, v, k))
}

pub proof fn lemma_chain_more_steps(data: Seq<NodeData>, from: int, n: int, v: int, k: nat, k2: nat)
    requires
        chain_ends(data, from, n, v, k),
        k <= k2,
    ensures
        chain_ends(data, from, n, v, k2),
        chain_upto(data, from, v, k) == chain_upto(data, from, v, k2),
    decreases k,
{
    if k > 0 && v != from && data[v].distance_data is Some {
        lemma_chain_more_steps(data, from, n, pred(data[v]), (k - 1) as nat, (k2 - 1) as nat);
    }
}

pub proof fn lemma_chain_last(data: Seq<NodeData>, from: int, v: int, k: nat)
    ensures
        chain_upto(data, from, v, k).len() >= 1,
        chain_upto(data, from, v, k).last() == v,
{
}

/// Node `c[i + 1]` is recorded, is not `from`, and has `c[i]` as its
/// predecessor.
pub open spec fn links_back(data: Seq<NodeData>, from: int, c: Seq<int>, i: int) -> bool {
    &&& data[c[i + 1]].distance_data is Some
    &&& pred(data[c[i + 1]]) == c[i]
    &&& c[i + 1] != from
}

/// Where following predecessors back from `v` ends, `path_back` lists the
/// nodes met, in order from the last one met to `v`: it starts at `from`
/// or at a node with no record, every later node is recorded with the node
/// before it as its predecessor and is not `from`, and all are below `n`.
pub proof fn lemma_path_back_follows_predecessors(
    data: Seq<NodeData>,
    from: int,
    n: int,
    v: int,
    k: nat,
)
    requires
        chain_ends(data, from, n, v, k),
    ensures
        path_back(data, from, n, v).len() >= 1,
        path_back(data, from, n, v).last() == v,
        path_back(data, from, n, v)[0] == from || data[path_back(data, from, n, v)[0]].distance_data
            is None,
        forall|i: int|
            0 <= i < path_back(data, from, n, v).len() ==> 0 <= #[trigger] path_back(
                data,
                from,
                n,
                v,
            )[i] < n && path_back(data, from, n, v)[i] < data.len(),
        forall|i: int|
            0 <= i < path_back(data, from, n, v).len() - 1 ==> #[trigger] links_back(
                data,
                from,
                path_back(data, from, n, v),
                i,
            ),
{
    lemma_path_back(data, from, n, v, k);
    lemma_chain_follows(data, from, n, v, k);
}

proof fn lemma_chain_follows(data: Seq<NodeData>, from: int, n: int, v: int, k: nat)
    requires
        chain_ends(data, from, n, v, k),
    ensures
        chain_upto(data, from, v, k).len() >= 1,
        chain_upto(data, from, v, k).last() == v,
        chain_upto(data, from, v, k)[0] == from || data[chain_upto(data, from, v, k)[0]].distance_data
            is None,
        forall|i: int|
            0 <= i < chain_upto(data, from, v, k).len() ==> 0 <= #[trigger] chain_upto(
                data,
                from,
                v,
                k,
            )[i] < n && chain_upto(data, from, v, k)[i] < data.len(),
        forall|i: int|
            0 <= i < chain_upto(data, from, v, k).len() - 1 ==> #[trigger] links_back(
                data,
                from,
                chain_upto(data, from, v, k),
                i,
            ),
    decreases k,
{
    if k > 0 && v != from && data[v].distance_data is Some {
        let p = pred(data[v]);
        lemma_chain_follows(data, from, n, p, (k - 1) as nat);
        let c0 = chain_upto(data, from, p, (k - 1) as nat);
        let c = chain_upto(data, from, v, k);
        assert(c == c0.push(v));
        assert forall|i: int| 0 <= i < c.len() - 1 implies #[trigger] links_back(data, from, c, i) by {
            if i < c.len() - 2 {
                assert(links_back(data, from, c0, i));
                assert(c[i + 1] == c0[i + 1]);
                assert(c[i] == c0[i]);
            } else {
                assert(c[i] == c0.last());
            }
        }
        assert forall|i: int| 0 <= i < c.len() implies 0 <= #[trigger] c[i] < n && c[i] < data.len() by {
            if i < c.len() - 1 {
                assert(c[i] == c0[i]);
            }
        }
    }
}

pub proof fn lemma_path_back(data: Seq<NodeData>, from: int, n: int, v: int, k: nat)
    requires
        chain_ends(data, from, n, v, k),
    ensures
        path_back(data, from, n, v) == chain_upto(data, from, v, k),
{
    let k0 = choose|k: nat| #[trigger] chain_ends(data, from, n, v, k);
    if k0 <= k {
        lemma_chain_more_steps(data, from, n, v, k0, k);
    } else {
        lemma_chain_more_steps(data, from, n, v, k, k0);
    }
}

/// The record of reached node `v` came along an edge from a finalized
/// predecessor: its distance is the predecessor's plus that edge.
pub open spec fn pred_ok(data: Seq<NodeData>, adj: Seq<Seq<usize>>, v: int) -> bool {
    let p = pred(data[v]);
    &&& 0 <= p < data.len()
    &&& data[p].distance_data is Some
    &&& data[p].is_finalized
    &&& adj[p][v] != 0
    &&& dist(data[v]) == dist(data[p]) + adj[p][v]
}

/// No walk from `from` to node `a` weighs less than `a`'s distance.
pub open spec fn settled(data: Seq<NodeData>, adj: Seq<Seq<usize>>, from: int, a: int) -> bool {
    forall|walk: Seq<int>|
        #[trigger] walk_from_to(adj, data.len() as int, walk, from, a) ==> dist(data[a])
            <= walk_weight(adj, walk)
}

/// What holds of the records of a search from `from` between rounds.
pub open spec fn search_invariant(data: Seq<NodeData>, adj: Seq<Seq<usize>>, from: int) -> bool {
    &&& data.len() <= usize::MAX
    &&& 0 <= from < data.len()
    &&& data[from].distance_data == Some(DistanceData { predecessor: from as usize, distance: 0 })
    &&& forall|v: int|
        0 <= v < data.len() && (#[trigger] data[v]).is_finalized ==> data[v].distance_data is Some
    &&& forall|v: int|
        0 <= v < data.len() && v != from && (#[trigger] data[v]).distance_data is Some ==> pred_ok(
            data,
            adj,
            v,
        )
    &&& forall|a: int, b: int|
        #![trigger data[a], is_candidate(data, b)]
        0 <= a < data.len() && 0 <= b < data.len() && data[a].is_finalized && is_candidate(data, b)
            ==> dist(data[a]) <= dist(data[b])
    &&& forall|a: int, b: int|
        0 <= a < data.len() && 0 <= b < data.len() && data[a].is_finalized && #[trigger] adj[a][b]
            != 0 ==> data[b].distance_data is Some && dist(data[b]) <= dist(data[a]) + adj[a][b]
    &&& forall|a: int|
        0 <= a < data.len() && (#[trigger] data[a]).is_finalized ==> settled(data, adj, from, a)
}

pub proof fn lemma_weight_nonnegative(adj: Seq<Seq<usize>>, walk: Seq<int>)
    ensures
        walk_weight(adj, walk) >= 0,
    decreases walk.len(),
{
    if walk.len() > 1 {
        lemma_weight_nonnegative(adj, walk.drop_last());
    }
}

/// A walk without its last node is a walk.
pub proof fn lemma_walk_prefix(adj: Seq<Seq<usize>>, n: int, walk: Seq<int>)
    requires
        is_walk(adj, n, walk),
        walk.len() >= 2,
    ensures
        is_walk(adj, n, walk.drop_last()),
        walk_step(adj, walk, walk.len() - 2),
        walk_weight(adj, walk) == walk_weight(adj, walk.drop_last()) + adj[walk[walk.len()
            - 2]][walk.last()],
{
    let q = walk.drop_last();
    assert forall|i: int| 0 <= i < q.len() - 1 implies #[trigger] walk_step(adj, q, i) by {
        assert(walk_step(adj, walk, i));
    }
    assert(walk_step(adj, walk, walk.len() - 2));
}

/// A walk with one more node, joined to its last one by an edge, is a
/// walk.
pub proof fn lemma_walk_extend(adj: Seq<Seq<usize>>, n: int, walk: Seq<int>, v: int)
    requires
        is_walk(adj, n, walk),
        0 <= v < n,
        adj[walk.last()][v] != 0,
    ensures
        is_walk(adj, n, walk.push(v)),
        walk_weight(adj, walk.push(v)) == walk_weight(adj, walk) + adj[walk.last()][v],
{
    let w = walk.push(v);
    assert forall|i: int| 0 <= i < w.len() - 1 implies #[trigger] walk_step(adj, w, i) by {
        if i < walk.len() - 1 {
            assert(walk_step(adj, walk, i));
        }
    }
    assert(w.drop_last() =~= walk);
}

pub proof fn lemma_initial_invariant(n: nat, from: int, adj: Seq<Seq<usize>>)
    requires
        0 <= from < n <= usize::MAX,
    ensures
        search_invariant(initial_data(n, from), adj, from),
{
}

/// The candidate of least distance lies no further than the weight of any
/// walk from the start to a node not finalized yet.
proof fn lemma_walk_bound(
    data: Seq<NodeData>,
    adj: Seq<Seq<usize>>,
    from: int,
    u: int,
    walk: Seq<int>,
)
    requires
        search_invariant(data, adj, from),
        0 <= u < data.len(),
        forall|j: int|
            0 <= j < data.len() && is_candidate(data, j) ==> dist(data[u]) <= #[trigger] dist(
                data[j],
            ),
        is_walk(adj, data.len() as int, walk),
        walk[0] == from,
        !data[walk.last()].is_finalized,
    ensures
        dist(data[u]) <= walk_weight(adj, walk),
    decreases walk.len(),
{
    let n = data.len() as int;
    let x = walk.last();
    if walk.len() == 1 {
        assert(is_candidate(data, from));
        assert(dist(data[u]) <= dist(data[from]));
    } else {
        lemma_walk_prefix(adj, n, walk);
        let q = walk.drop_last();
        let y = q.last();
        assert(y == walk[walk.len() - 2]);
        assert(0 <= x < n && 0 <= y < n);
        lemma_weight_nonnegative(adj, q);
        if !data[y].is_finalized {
            lemma_walk_bound(data, adj, from, u, q);
        } else {
            assert(adj[y][x] != 0);
            assert(data[x].distance_data is Some && dist(data[x]) <= dist(data[y]) + adj[y][x]);
            assert(settled(data, adj, from, y));
            assert(walk_from_to(adj, n, q, from, y));
            assert(is_candidate(data, x));
            assert(dist(data[u]) <= dist(data[x]));
        }
    }
}

/// A round of the search at the candidate of least distance keeps the
/// invariant.
pub proof fn lemma_expand_invariant(data: Seq<NodeData>, adj: Seq<Seq<usize>>, from: int, u: int)
    requires
        search_invariant(data, adj, from),
        next_candidate(data) == Some(u),
        step_fits(data, adj, u),
    ensures
        search_invariant(expand(data, adj, u), adj, from),
{
    lemma_best_candidate(data, data.len() as int);
    let n = data.len() as int;
    let e = expand(data, adj, u);
    let fin = finalize(data, u);
    let d = dist(data[u]);
    assert forall|x: int| 0 <= x < n implies {
        &&& (#[trigger] e[x]).is_finalized == (data[x].is_finalized || x == u)
        &&& (data[x].is_finalized || x == u) ==> e[x].distance_data == data[x].distance_data
        &&& data[x].distance_data is Some ==> e[x].distance_data is Some && dist(e[x]) <= dist(
            data[x],
        )
        &&& e[x].distance_data != data[x].distance_data ==> {
            &&& adj[u][x] != 0
            &&& d + adj[u][x] <= usize::MAX
            &&& e[x].distance_data == Some(
                DistanceData { predecessor: u as usize, distance: (d + adj[u][x]) as usize },
            )
            &&& (data[x].distance_data is None || d + adj[u][x] < dist(data[x]))
        }
        &&& e[x].distance_data == data[x].distance_data ==> (adj[u][x] != 0 ==> data[x].distance_data
            is Some && dist(data[x]) <= d + adj[u][x])
    } by {
        assert(e[x] == relaxed(fin[x], adj[u][x], u, d));
        if data[x].is_finalized {
            assert(dist(data[x]) <= d);
        }
    }
    assert(e[from].distance_data == data[from].distance_data);
    assert forall|v: int| 0 <= v < n && v != from && (#[trigger] e[v]).distance_data is Some implies pred_ok(
        e,
        adj,
        v,
    ) by {
        assert(e[u].distance_data == data[u].distance_data);
        if e[v].distance_data == data[v].distance_data {
            assert(pred_ok(data, adj, v));
            let p = pred(data[v]);
            assert(e[p].distance_data == data[p].distance_data);
        }
    }
    assert forall|a: int, b: int|
        #![trigger e[a], is_candidate(e, b)]
        0 <= a < n && 0 <= b < n && e[a].is_finalized && is_candidate(e, b) implies dist(e[a])
        <= dist(e[b]) by {
        assert(e[a].distance_data == data[a].distance_data);
        if a != u {
            assert(is_candidate(data, u));
        }
        if e[b].distance_data == data[b].distance_data {
            assert(is_candidate(data, b));
            assert(dist(data[u]) <= dist(data[b]));
        }
    }
    assert forall|a: int, b: int|
        0 <= a < n && 0 <= b < n && e[a].is_finalized && #[trigger] adj[a][b] != 0 implies e[b].distance_data
        is Some && dist(e[b]) <= dist(e[a]) + adj[a][b] by {
        assert(e[a].distance_data == data[a].distance_data);
        assert(e[b] == e[b]);
        assert(data[a] == data[a]);
    }
    assert forall|a: int| 0 <= a < n && (#[trigger] e[a]).is_finalized implies settled(
        e,
        adj,
        from,
        a,
    ) by {
        assert(e[a].distance_data == data[a].distance_data);
        assert forall|walk: Seq<int>| #[trigger]
            walk_from_to(adj, n, walk, from, a) implies dist(e[a]) <= walk_weight(adj, walk) by {
            if a == u {
                lemma_walk_bound(data, adj, from, u, walk);
            } else {
                assert(data[a] == data[a]);
                assert(settled(data, adj, from, a));
            }
        }
    }
}

/// The whole search keeps the invariant and ends with no candidate left.
pub proof fn lemma_run_invariant(data: Seq<NodeData>, adj: Seq<Seq<usize>>, from: int)
    requires
        search_invariant(data, adj, from),
        run_fits(data, adj),
    ensures
        search_invariant(run(data, adj), adj, from),
        run(data, adj).len() == data.len(),
        next_candidate(run(data, adj)) is None,
    decreases data.len() - finalized_count(data),
{
    lemma_best_candidate(data, data.len() as int);
    match next_candidate(data) {
        None => {},
        Some(u) => {
            lemma_expand_count(data, adj, u);
            lemma_expand_invariant(data, adj, from, u);
            lemma_run_invariant(expand(data, adj, u), adj, from);
        },
    }
}

/// Between rounds, the chain of predecessors of a reached node ends at
/// the start within as many steps as its distance, and is a walk whose
/// weight is that distance.
pub proof fn lemma_search_chain(data: Seq<NodeData>, adj: Seq<Seq<usize>>, from: int, v: int)
    requires
        search_invariant(data, adj, from),
        0 <= v < data.len(),
        data[v].distance_data is Some,
    ensures
        chain_ends(data, from, data.len() as int, v, dist(data[v]) as nat),
        walk_from_to(adj, data.len() as int, chain_upto(data, from, v, dist(data[v]) as nat), from, v),
        walk_weight(adj, chain_upto(data, from, v, dist(data[v]) as nat)) == dist(data[v]),
    decreases dist(data[v]),
{
    let n = data.len() as int;
    let k = dist(data[v]) as nat;
    if v == from {
        let c = chain_upto(data, from, v, k);
        assert(c == seq![v]);
        assert(is_walk(adj, n, c));
    } else {
        assert(pred_ok(data, adj, v));
        let p = pred(data[v]);
        lemma_search_chain(data, adj, from, p);
        lemma_chain_more_steps(data, from, n, p, dist(data[p]) as nat, (k - 1) as nat);
        let c = chain_upto(data, from, p, (k - 1) as nat);
        assert(chain_upto(data, from, v, k) == c.push(v));
        lemma_walk_extend(adj, n, c, v);
    }
}

proof fn lemma_walk_reached(data: Seq<NodeData>, adj: Seq<Seq<usize>>, from: int, walk: Seq<int>, k: int)
    requires
        search_invariant(data, adj, from),
        next_candidate(data) is None,
        is_walk(adj, data.len() as int, walk),
        walk[0] == from,
        0 <= k < walk.len(),
    ensures
        data[walk[k]].distance_data is Some,
    decreases k,
{
    lemma_best_candidate(data, data.len() as int);
    if k > 0 {
        lemma_walk_reached(data, adj, from, walk, k - 1);
        assert(walk_step(adj, walk, k - 1));
        assert(!is_candidate(data, walk[k - 1]));
        assert(data[walk[k - 1]].is_finalized);
    }
}

/// What a finished search from `from` among `n` nodes satisfies.
pub proof fn lemma_search_finished(adj: Seq<Seq<usize>>, n: nat, from: int)
    requires
        0 <= from < n <= usize::MAX,
        run_fits(initial_data(n, from), adj),
    ensures
        search_invariant(run(initial_data(n, from), adj), adj, from),
        run(initial_data(n, from), adj).len() == n,
        next_candidate(run(initial_data(n, from), adj)) is None,
{
    lemma_initial_invariant(n, from, adj);
    lemma_run_invariant(initial_data(n, from), adj, from);
}

/// The search from `from` reaches exactly the nodes that can be reached
/// from `from` along edges.
pub proof fn lemma_search_reaches_reachable(adj: Seq<Seq<usize>>, n: nat, from: int, to: int)
    requires
        0 <= from < n <= usize::MAX,
        0 <= to < n,
        run_fits(initial_data(n, from), adj),
    ensures
        run(initial_data(n, from), adj)[to].distance_data is Some <==> reachable(
            adj,
            n as int,
            from,
            to,
        ),
{
    let data = run(initial_data(n, from), adj);
    lemma_search_finished(adj, n, from);
    if data[to].distance_data is Some {
        lemma_search_chain(data, adj, from, to);
        let walk = chain_upto(data, from, to, dist(data[to]) as nat);
        assert(walk_from_to(adj, n as int, walk, from, to));
    }
    if reachable(adj, n as int, from, to) {
        let walk = choose|walk: Seq<int>| #[trigger] walk_from_to(adj, n as int, walk, from, to);
        lemma_walk_reached(data, adj, from, walk, walk.len() - 1);
    }
}

/// The path a search finds to a reached node is a walk along edges from
/// the start to that node whose weight is the distance found, and no walk
/// between the two weighs less.
pub proof fn lemma_search_is_shortest(adj: Seq<Seq<usize>>, n: nat, from: int, to: int)
    requires
        0 <= from < n <= usize::MAX,
        0 <= to < n,
        run_fits(initial_data(n, from), adj),
        run(initial_data(n, from), adj)[to].distance_data is Some,
    ensures
        chain_ends(run(initial_data(n, from), adj), from, n as int, to, dist(run(initial_data(n, from), adj)[to]) as nat),
        walk_from_to(adj, n as int, path_back(run(initial_data(n, from), adj), from, n as int, to), from, to),
        walk_weight(adj, path_back(run(initial_data(n, from), adj), from, n as int, to)) == dist(
            run(initial_data(n, from), adj)[to],
        ),
        forall|walk: Seq<int>|
            #[trigger] walk_from_to(adj, n as int, walk, from, to) ==> dist(
                run(initial_data(n, from), adj)[to],
            ) <= walk_weight(adj, walk),
{
    let data = run(initial_data(n, from), adj);
    lemma_search_finished(adj, n, from);
    lemma_search_chain(data, adj, from, to);
    lemma_path_back(data, from, n as int, to, dist(data[to]) as nat);
    lemma_best_candidate(data, data.len() as int);
    assert(!is_candidate(data, to));
    assert(data[to] == data[to]);
    assert(settled(data, adj, from, to));
}

/// A search that ends where it starts finds the start itself at
/// distance zero.
pub proof fn lemma_search_to_start(adj: Seq<Seq<usize>>, n: nat, from: int)
    requires
        0 <= from < n <= usize::MAX,
        run_fits(initial_data(n, from), adj),
    ensures
        run(initial_data(n, from), adj)[from].distance_data == Some(
            DistanceData { predecessor: from as usize, distance: 0 },
        ),
        path_back(run(initial_data(n, from), adj), from, n as int, from) == seq![from],
{
    let data = run(initial_data(n, from), adj);
    lemma_search_finished(adj, n, from);
    lemma_path_back(data, from, n as int, from, 0);
}

/// Where every weight is at most `bound` and `n * bound` fits in a
/// `usize`, no sum a search computes overflows.
pub proof fn lemma_bounded_weights_fit(adj: Seq<Seq<usize>>, n: nat, from: int, bound: nat)
    requires
        0 <= from < n <= usize::MAX,
        forall|i: int, j: int| 0 <= i < n && 0 <= j < n ==> #[trigger] adj[i][j] <= bound,
        n * bound <= usize::MAX,
    ensures
        run_fits(initial_data(n, from), adj),
{
    lemma_bounded_run_fits(initial_data(n, from), adj, bound);
}

proof fn lemma_bounded_run_fits(data: Seq<NodeData>, adj: Seq<Seq<usize>>, bound: nat)
    requires
        forall|i: int, j: int|
            0 <= i < data.len() && 0 <= j < data.len() ==> #[trigger] adj[i][j] <= bound,
        data.len() * bound <= usize::MAX,
        forall|v: int|
            0 <= v < data.len() && (#[trigger] data[v]).distance_data is Some ==> dist(data[v])
                <= finalized_count(data) * bound,
    ensures
        run_fits(data, adj),
    decreases data.len() - finalized_count(data),
{
    lemma_best_candidate(data, data.len() as int);
    match next_candidate(data) {
        None => {},
        Some(u) => {
            let c = finalized_count(data);
            let n = data.len();
            lemma_expand_count(data, adj, u);
            assert(c + 1 <= n);
            assert((c + 1) * bound <= n * bound) by (nonlinear_arith)
                requires
                    c + 1 <= n,
            ;
            assert((c + 1) * bound == c * bound + bound) by (nonlinear_arith);
            assert(c * bound <= (c + 1) * bound) by (nonlinear_arith);
            let d = dist(data[u]);
            assert(step_fits(data, adj, u));
            let e = expand(data, adj, u);
            let fin = finalize(data, u);
            assert forall|v: int|
                0 <= v < e.len() && (#[trigger] e[v]).distance_data is Some implies dist(e[v])
                <= finalized_count(e) * bound by {
                assert(e[v] == relaxed(fin[v], adj[u][v], u, d));
                assert(adj[u][v] <= bound);
            }
            lemma_bounded_run_fits(e, adj, bound);
        },
    }
}

} // verus!
