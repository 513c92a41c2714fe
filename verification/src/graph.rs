//! Trusted interface to `daggy`'s stable DAG, the edge store that backs the
//! event causality graph. Node weights are header ids; edges carry no data
//! and run parent -> child.

use vstd::multiset::Multiset;
use vstd::prelude::*;

use daggy::Walker;

verus! {

/// The edge store held by an ECG state: header ids as node weights, unit
/// edge weights, `u32` indices. `StableDag`'s `IndexType` bound keeps the
/// type itself from being declared to the verifier, so the graph lives in
/// a private field of an opaque struct instead.
#[verifier::external_body]
#[derive(Debug)]
pub struct EdgeGraph {
    inner: daggy::stable_dag::StableDag<u64, (), u32>,
}

impl Clone for EdgeGraph {
    /// Relies on `StableDag`'s derived `Clone`: the copy holds the same
    /// nodes and edges.
    #[verifier::external_body]
    fn clone(&self) -> (r: Self)
        ensures
            dag_weights(r) == dag_weights(*self),
            dag_edges(r) == dag_edges(*self),
    {
        EdgeGraph { inner: self.inner.clone() }
    }
}

/// The node weights a graph holds, by node index.
pub uninterp spec fn dag_weights(g: EdgeGraph) -> Map<usize, u64>;

/// The edges a graph holds, as (source index, target index) pairs.
pub uninterp spec fn dag_edges(g: EdgeGraph) -> Multiset<(usize, usize)>;

/// A nonempty sequence of node indices whose consecutive pairs are all edges.
pub open spec fn is_edge_path(es: Multiset<(usize, usize)>, p: Seq<usize>) -> bool {
    forall|i: int| 0 <= i < p.len() - 1 ==> es.contains((#[trigger] p[i], p[i + 1]))
}

/// Node `b` can be reached from node `a` along zero or more edges.
pub open spec fn dag_reaches(es: Multiset<(usize, usize)>, a: usize, b: usize) -> bool {
    exists|p: Seq<usize>|
        p.len() >= 1 && p.first() == a && p.last() == b && is_edge_path(es, p)
}

/// An empty weight map: no node indices are in use.
pub open spec fn no_weights(m: Map<usize, u64>) -> bool {
    m =~= Map::empty()
}

/// An empty edge multiset.
pub open spec fn no_edges(es: Multiset<(usize, usize)>) -> bool {
    es =~= Multiset::empty()
}

/// Relies on `StableDag::new`: makes an empty graph.
#[verifier::external_body]
pub fn dag_new() -> (g: EdgeGraph)
    ensures
        no_weights(dag_weights(g)),
        no_edges(dag_edges(g)),
{
    EdgeGraph { inner: daggy::stable_dag::StableDag::new() }
}

/// Relies on `StableDag::add_node`: stores a weight at a fresh index and
/// returns that index; edges are untouched.
#[verifier::external_body]
pub fn dag_add_node(g: &mut EdgeGraph, w: u64) -> (i: usize)
    requires
        dag_weights(*old(g)).dom().finite(),
        dag_weights(*old(g)).dom().len() < 0xffff_ffff,
    ensures
        !dag_weights(*old(g)).dom().contains(i),
        dag_weights(*final(g)) == dag_weights(*old(g)).insert(i, w),
        dag_edges(*final(g)) == dag_edges(*old(g)),
{
    g.inner.add_node(w).index()
}

/// Relies on `StableDag::add_edge`: adds the edge `a -> b` and returns true,
/// unless `a` is already reachable from `b` (the edge would close a cycle),
/// in which case it returns false and leaves the graph unchanged.
#[verifier::external_body]
pub fn dag_add_edge(g: &mut EdgeGraph, a: usize, b: usize) -> (ok: bool)
    requires
        dag_weights(*old(g)).dom().contains(a),
        dag_weights(*old(g)).dom().contains(b),
        dag_edges(*old(g)).len() < 0xffff_ffff,
    ensures
        ok <==> !dag_reaches(dag_edges(*old(g)), b, a),
        ok ==> dag_edges(*final(g)) == dag_edges(*old(g)).insert((a, b)),
        !ok ==> dag_edges(*final(g)) == dag_edges(*old(g)),
        dag_weights(*final(g)) == dag_weights(*old(g)),
{
    g.inner.add_edge(daggy::NodeIndex::new(a), daggy::NodeIndex::new(b), ()).is_ok()
}

/// Relies on `StableDag::children` and `Walker::walk_next`: walks the
/// outgoing edges of node `i`, yielding each target index once per edge.
#[verifier::external_body]
pub fn dag_children(g: &EdgeGraph, i: usize) -> (r: Vec<usize>)
    requires
        dag_weights(*g).dom().contains(i),
    ensures
        forall|j: usize| #[trigger] r@.to_multiset().count(j) == dag_edges(*g).count((i, j)),
{
    let mut out: Vec<usize> = Vec::new();
    let mut walk = g.inner.children(daggy::NodeIndex::new(i));
    while let Some((_e, n)) = walk.walk_next(&g.inner) {
        out.push(n.index());
    }
    out
}

/// Relies on `StableDag::node_weight`: looks up the weight stored at `i`.
/// `NodeIndex::new` narrows the index to u32, so only indices that name
/// a node (all of which fit) may be passed.
#[verifier::external_body]
pub fn dag_node_weight(g: &EdgeGraph, i: usize) -> (r: Option<u64>)
    requires
        dag_weights(*g).dom().contains(i),
    ensures
        r == Some(dag_weights(*g)[i]),
{
    g.inner.node_weight(daggy::NodeIndex::new(i)).copied()
}

/// A node with no outgoing edges reaches nothing but itself.
pub proof fn lemma_unreachable_without_outgoing(
    es: Multiset<(usize, usize)>,
    b: usize,
    a: usize,
)
    requires
        forall|x: usize| #[trigger] es.count((b, x)) == 0,
        a != b,
    ensures
        !dag_reaches(es, b, a),
{
    if dag_reaches(es, b, a) {
        let p = choose|p: Seq<usize>|
            p.len() >= 1 && p.first() == b && p.last() == a && is_edge_path(es, p);
        if p.len() == 1 {
            assert(p.first() == p.last());
        } else {
            assert(es.contains((p[0], p[1])));
            assert(es.count((p[0], p[1])) == 0);
        }
        assert(false);
    }
}

} // verus!
