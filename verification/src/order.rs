//! Evaluation order: which node comes before which.
//!
//! The sorting itself is `petgraph`'s. This module hands it numbered nodes and states what
//! its answer means for the graph.
use petgraph::graph::{DiGraph, Graph as Network, NodeIndex};
use vstd::prelude::*;

verus! {

// --- The outside graph ---------------------------------------------------------------------

/// `Graph` of petgraph.
#[verifier::external_type_specification]
#[verifier::external_body]
#[verifier::reject_recursive_types(N)]
#[verifier::reject_recursive_types(E)]
#[verifier::reject_recursive_types(Ty)]
#[verifier::reject_recursive_types(Ix)]
pub struct OutsideGraph<N, E, Ty, Ix>(Network<N, E, Ty, Ix>);

/// `Directed` of petgraph, which marks the graphs whose edges have a direction.
#[verifier::external_type_specification]
#[verifier::external_body]
pub struct OutsideDirected(petgraph::Directed);

/// A directed graph of petgraph over numbered nodes.
pub type Dag = DiGraph<(), (), usize>;

/// How many nodes a graph has. They are numbered from 0.
pub uninterp spec fn dag_size(g: Dag) -> nat;

/// The edges of a graph, as pairs of node numbers, in the order they were added.
pub uninterp spec fn dag_edges(g: Dag) -> Seq<(int, int)>;

/// What [`petgraph::algo::toposort`] answers for a graph of that many nodes with those
/// edges: every node in order, or a node on a cycle.
pub uninterp spec fn toposorted(size: nat, edges: Seq<(int, int)>) -> Result<Seq<int>, int>;

/// A walk along edges.
pub open spec fn is_walk(edges: Seq<(int, int)>, walk: Seq<int>) -> bool {
    forall|i: int| 0 <= i < walk.len() - 1 ==> edges.contains((#[trigger] walk[i], walk[i + 1]))
}

/// Whether a node lies on a cycle.
pub open spec fn on_cycle(edges: Seq<(int, int)>, v: int) -> bool {
    exists|walk: Seq<int>|
        walk.len() >= 2 && walk[0] == v && walk.last() == v && #[trigger] is_walk(edges, walk)
}

/// Whether a list has every node once, each before its successors.
pub open spec fn is_order(size: nat, edges: Seq<(int, int)>, order: Seq<int>) -> bool {
    &&& order.len() == size
    &&& order.no_duplicates()
    &&& forall|v: int| #[trigger] order.contains(v) <==> 0 <= v < size
    &&& forall|e: int|
        0 <= e < edges.len() ==> order.index_of((#[trigger] edges[e]).0) < order.index_of(edges[e].1)
}

/// Node numbers as they were handed over.
pub open spec fn numbers(v: Seq<usize>) -> Seq<int> {
    v.map_values(|x: usize| x as int)
}

/// `Graph::with_capacity` of petgraph, with nothing reserved: an empty graph.
#[verifier::external_body]
fn empty_dag() -> (g: Dag)
    ensures
        dag_size(g) == 0,
        dag_edges(g) == Seq::<(int, int)>::empty(),
{
    DiGraph::with_capacity(0, 0)
}

/// `Graph::add_node` of petgraph: one more node, numbered next; the edges stay.
#[verifier::external_body]
fn add_node(g: &mut Dag)
    requires
        dag_size(*old(g)) < usize::MAX,
    ensures
        dag_size(*final(g)) == dag_size(*old(g)) + 1,
        dag_edges(*final(g)) == dag_edges(*old(g)),
{
    g.add_node(());
}

/// `Graph::add_edge` of petgraph: one more edge, between nodes that exist.
#[verifier::external_body]
fn add_edge(g: &mut Dag, a: usize, b: usize)
    requires
        a < dag_size(*old(g)),
        b < dag_size(*old(g)),
        dag_edges(*old(g)).len() < usize::MAX,
    ensures
        dag_size(*final(g)) == dag_size(*old(g)),
        dag_edges(*final(g)) == dag_edges(*old(g)).push((a as int, b as int)),
{
    g.add_edge(NodeIndex::new(a), NodeIndex::new(b), ());
}

/// [`petgraph::algo::toposort`]: every node before its successors, or a node that
/// participates in a cycle; self loops are cycles.
#[verifier::external_body]
fn toposort(g: &Dag) -> (r: Result<Vec<usize>, usize>)
    ensures
        match r {
            Ok(v) => toposorted(dag_size(*g), dag_edges(*g)) == Ok::<Seq<int>, int>(numbers(v@)),
            Err(x) => toposorted(dag_size(*g), dag_edges(*g)) == Err::<Seq<int>, int>(x as int),
        },
        r matches Ok(v) ==> is_order(dag_size(*g), dag_edges(*g), numbers(v@)),
        r matches Err(x) ==> x < dag_size(*g) && on_cycle(dag_edges(*g), x as int),
{
    match petgraph::algo::toposort(g, None) {
        Ok(order) => Ok(order.into_iter().map(|ix| ix.index()).collect()),
        Err(cycle) => Err(cycle.node_id().index()),
    }
}

// --- Sorting ---------------------------------------------------------------------------------

/// What pairs of numbers say.
pub open spec fn pairs(v: Seq<(usize, usize)>) -> Seq<(int, int)> {
    v.map_values(|p: (usize, usize)| (p.0 as int, p.1 as int))
}

/// Orders numbered nodes so that every edge points forward, or names a node on a cycle.
pub fn sort(size: usize, edges: &Vec<(usize, usize)>) -> (r: Result<Vec<usize>, usize>)
    requires
        forall|i: int| 0 <= i < edges@.len() ==> (#[trigger] edges@[i]).0 < size && edges@[i].1 < size,
    ensures
        match r {
            Ok(v) => toposorted(size as nat, pairs(edges@)) == Ok::<Seq<int>, int>(numbers(v@))
                && is_order(size as nat, pairs(edges@), numbers(v@)),
            Err(x) => toposorted(size as nat, pairs(edges@)) == Err::<Seq<int>, int>(x as int)
                && x < size && on_cycle(pairs(edges@), x as int),
        },
{
    let mut g = empty_dag();
    for i in 0..size
        invariant
            dag_size(g) == i,
            dag_edges(g) == Seq::<(int, int)>::empty(),
    {
        add_node(&mut g);
    }
    let m: usize = edges.len();
    assert(pairs(edges@).take(0) =~= Seq::empty());
    for i in 0..m
        invariant
            m == edges@.len(),
            dag_size(g) == size,
            dag_edges(g) == pairs(edges@).take(i as int),
            forall|k: int|
                0 <= k < edges@.len() ==> (#[trigger] edges@[k]).0 < size && edges@[k].1 < size,
    {
        add_edge(&mut g, edges[i].0, edges[i].1);
        assert(dag_edges(g) =~= pairs(edges@).take(i + 1));
    }
    assert(pairs(edges@).take(m as int) =~= pairs(edges@));
    toposort(&g)
}

proof fn lemma_walk_ascends(edges: Seq<(int, int)>, size: nat, order: Seq<int>, walk: Seq<int>, k: int)
    requires
        is_order(size, edges, order),
        is_walk(edges, walk),
        0 <= k < walk.len(),
    ensures
        k > 0 ==> order.index_of(walk[0]) < order.index_of(walk[k]),
    decreases k,
{
    if k > 0 {
        lemma_walk_ascends(edges, size, order, walk, k - 1);
        assert(edges.contains((walk[k - 1], walk[k - 1 + 1])));
        let e = choose|e: int| 0 <= e < edges.len() && edges[e] == (walk[k - 1], walk[k]);
        assert(order.index_of(edges[e].0) < order.index_of(edges[e].1));
    }
}

/// What has an order has no cycle.
pub proof fn ordered_is_acyclic(size: nat, edges: Seq<(int, int)>, order: Seq<int>, v: int)
    requires
        is_order(size, edges, order),
    ensures
        !on_cycle(edges, v),
{
    if on_cycle(edges, v) {
        let walk = choose|walk: Seq<int>|
            walk.len() >= 2 && walk[0] == v && walk.last() == v && #[trigger] is_walk(edges, walk);
        lemma_walk_ascends(edges, size, order, walk, walk.len() - 1);
    }
}

} // verus!
