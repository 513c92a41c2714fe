//! The event causality graph: a per-store DAG of headers, each naming its
//! parents. Nodes are appended, never removed; inserts refuse a header
//! whose parents are not all present, so the graph is acyclic by
//! construction.

use vstd::multiset::Multiset;
use vstd::prelude::*;

use crate::graph::{
    dag_add_edge, dag_add_node, dag_children, dag_edges, dag_new, dag_node_weight, dag_weights,
    lemma_unreachable_without_outgoing, EdgeGraph,
};
use crate::vecset::{set_insert, set_remove, vec_no_dup};

verus! {

/// Interface of ECG headers: a header names its parents (an empty list
/// means it hangs off the synthetic root) and can be checked against the
/// id it is claimed to have.
pub trait ECGHeader {
    type HeaderId;

    fn get_parent_ids(&self) -> &Vec<Self::HeaderId>;

    fn validate_header(&self, header_id: Self::HeaderId) -> bool;
}

/// One batch of operations' metadata: its own id and its parents' ids.
/// The id stands for a content hash, so it is a function of the header's
/// contents; `validate_header` checks the claimed id against it.
#[derive(Clone, Debug)]
pub struct Header {
    pub header_id: u64,
    pub parent_ids: Vec<u64>,
}

/// The mathematical value of a header.
pub ghost struct SpecHeader {
    pub id: u64,
    pub parents: Seq<u64>,
}

impl View for Header {
    type V = SpecHeader;

    open spec fn view(&self) -> SpecHeader {
        SpecHeader { id: self.header_id, parents: self.parent_ids@ }
    }
}

impl ECGHeader for Header {
    type HeaderId = u64;

    fn get_parent_ids(&self) -> &Vec<u64> {
        &self.parent_ids
    }

    fn validate_header(&self, header_id: u64) -> bool {
        self.header_id == header_id
    }
}

/// What the state records per node.
#[derive(Clone, Debug)]
struct NodeInfo {
    /// The index of this node in the dependency graph.
    graph_index: usize,
    /// The (minimum) depth of this node in the dependency graph.
    depth: u64,
    /// The header this node is storing.
    header: Header,
}

/// The mathematical value of one node: its header and its depth.
pub ghost struct SpecNode {
    pub depth: u64,
    pub header: SpecHeader,
}

/// A store's event causality graph.
#[derive(Clone, Debug)]
pub struct State {
    /// The edge store, holding one node per header and one edge per
    /// parent -> child pair.
    dependency_graph: EdgeGraph,
    /// Nodes at the top of the DAG that depend on the initial state.
    root_nodes: Vec<u64>,
    /// The nodes in insertion order; every node's parents stand earlier.
    node_info: Vec<NodeInfo>,
    /// Tips of the ECG (ids of the headers without children).
    tips: Vec<u64>,
    /// How many edges the edge store holds.
    edge_total: u64,
}

impl View for State {
    type V = Seq<SpecNode>;

    closed spec fn view(&self) -> Seq<SpecNode> {
        self.node_info@.map_values(
            |n: NodeInfo| SpecNode { depth: n.depth, header: n.header@ },
        )
    }
}

impl State {
    /// The header ids, in insertion order.
    pub open spec fn ids(self) -> Seq<u64> {
        self@.map_values(|n: SpecNode| n.header.id)
    }

    /// Whether a header with this id is present.
    pub open spec fn has_node(self, h: u64) -> bool {
        exists|i: int| 0 <= i < self@.len() && (#[trigger] self@[i]).header.id == h
    }

    /// The position of the node with this id (well defined when ids are
    /// unique and the node is present).
    pub open spec fn idx_of(self, h: u64) -> int {
        choose|i: int| 0 <= i < self@.len() && (#[trigger] self@[i]).header.id == h
    }

    /// The node with this id.
    pub open spec fn node_of(self, h: u64) -> SpecNode {
        self@[self.idx_of(h)]
    }

    /// The depth of the node with this id.
    pub open spec fn depth_of(self, h: u64) -> u64 {
        self.node_of(h).depth
    }

    /// The parent ids of the node with this id.
    pub open spec fn parents_of(self, h: u64) -> Seq<u64> {
        self.node_of(h).header.parents
    }

    /// Whether node `c` is present and lists `p` among its parents.
    pub open spec fn is_child_of(self, c: u64, p: u64) -> bool {
        self.has_node(c) && self.parents_of(c).contains(p)
    }

    /// The children of node `h`.
    pub open spec fn children_of(self, h: u64) -> Set<u64> {
        Set::new(|c: u64| self.is_child_of(c, h))
    }

    /// Whether node `h` has no children.
    pub open spec fn childless(self, h: u64) -> bool {
        forall|c: u64| !self.is_child_of(c, h)
    }

    /// The ids the `tips` field holds.
    pub closed spec fn tip_seq(self) -> Seq<u64> {
        self.tips@
    }

    /// The ids the `root_nodes` field holds.
    pub closed spec fn root_seq(self) -> Seq<u64> {
        self.root_nodes@
    }

    /// The least depth among the nodes named in `ps` (0 for an empty
    /// list).
    pub open spec fn min_parent_depth(self, ps: Seq<u64>) -> u64
        decreases ps.len(),
    {
        if ps.len() == 0 {
            0
        } else if ps.len() == 1 {
            self.depth_of(ps[0])
        } else {
            let m = self.min_parent_depth(ps.drop_last());
            if self.depth_of(ps.last()) < m {
                self.depth_of(ps.last())
            } else {
                m
            }
        }
    }

    /// The depth a header would get: 1 when root-attached, else one more
    /// than the least depth of its parents.
    pub open spec fn new_depth(self, header: SpecHeader) -> int {
        if header.parents.len() == 0 {
            1
        } else {
            1 + self.min_parent_depth(header.parents)
        }
    }

    /// No two nodes share an id.
    pub open spec fn ids_unique(self) -> bool {
        forall|i: int, j: int|
            0 <= i < j < self@.len() ==> (#[trigger] self@[i]).header.id != (
            #[trigger] self@[j]).header.id
    }

    /// Every node's parents stand earlier in insertion order.
    pub open spec fn parents_closed(self) -> bool {
        forall|i: int, k: int|
            0 <= i < self@.len() && 0 <= k < self@[i].header.parents.len() ==> exists|j: int|
                0 <= j < i && (#[trigger] self@[j]).header.id == (#[trigger] self@[i].header.parents[k])
    }

    /// Every node's depth follows the depth rule, and is at most one more
    /// than the node's position.
    pub open spec fn depths_ok(self) -> bool {
        &&& forall|i: int|
            0 <= i < self@.len() ==> (#[trigger] self@[i]).depth == self.new_depth(
                self@[i].header,
            )
        &&& forall|i: int| 0 <= i < self@.len() ==> (#[trigger] self@[i]).depth <= i + 1
    }

    /// View-level invariants: ids are unique, every node's parents are
    /// distinct and stand earlier in insertion order, and depths follow
    /// the depth rule.
    pub open spec fn abs_ok(self) -> bool {
        &&& self.ids_unique()
        &&& forall|i: int|
            0 <= i < self@.len() ==> (#[trigger] self@[i]).header.parents.no_duplicates()
        &&& self.parents_closed()
        &&& self.depths_ok()
    }

    /// Representation invariants: the root and tip vectors hold exactly
    /// the root-attached and childless nodes, and the edge store mirrors
    /// the parent lists.
    pub closed spec fn rep_ok(self) -> bool {
        &&& self.root_nodes@.no_duplicates()
        &&& forall|h: u64|
            self.root_nodes@.contains(h) <==> (self.has_node(h) && self.parents_of(h).len()
                == 0)
        &&& self.tips@.no_duplicates()
        &&& forall|h: u64| self.tips@.contains(h) <==> (self.has_node(h) && self.childless(h))
        &&& self.graph_ok()
    }

    /// The edge store mirrors the nodes: the weight at each node's graph
    /// index is its id, indices are in bijection with nodes, and the
    /// edge multiset holds exactly one (parent index, child index) pair
    /// for each parent entry of each node.
    pub closed spec fn graph_ok(self) -> bool {
        &&& dag_weights(self.dependency_graph).dom().finite()
        &&& dag_weights(self.dependency_graph).dom().len() == self@.len()
        &&& forall|i: int|
            0 <= i < self@.len() ==> dag_weights(self.dependency_graph).dom().contains(
                (#[trigger] self.node_info@[i]).graph_index,
            )
        &&& forall|i: int|
            0 <= i < self@.len() ==> dag_weights(self.dependency_graph)[(
            #[trigger] self.node_info@[i]).graph_index] == self.node_info@[i].header.header_id
        &&& forall|i: int, j: int|
            0 <= i < j < self@.len() ==> (#[trigger] self.node_info@[i]).graph_index != (
            #[trigger] self.node_info@[j]).graph_index
        &&& forall|x: usize|
            dag_weights(self.dependency_graph).dom().contains(x) ==> exists|i: int|
                0 <= i < self@.len() && (#[trigger] self.node_info@[i]).graph_index == x
        &&& forall|a: usize, b: usize|
            #[trigger] dag_edges(self.dependency_graph).count((a, b)) == self.edge_mult(a, b)
        &&& dag_edges(self.dependency_graph).len() == self.edge_total
        &&& self.edge_total == total_parents(self@)
        &&& self.edge_total <= 0xffff_fffe
        &&& self@.len() <= 0xffff_fffe
    }

    /// How many edges run from graph index `a` to graph index `b`: one
    /// when `a` and `b` are nodes and `a`'s id is a parent of `b`'s,
    /// else zero (parent lists are duplicate-free).
    pub closed spec fn edge_mult(self, a: usize, b: usize) -> nat {
        if exists|i: int, j: int|
            0 <= i < self@.len() && 0 <= j < self@.len() && (#[trigger] self.node_info@[i]).graph_index
                == a && (#[trigger] self.node_info@[j]).graph_index == b
                && self@[j].header.parents.contains(self@[i].header.id) {
            1
        } else {
            0
        }
    }

    /// A state fit to use: both invariant layers hold.
    #[verifier::opaque]
    pub open spec fn wf(self) -> bool {
        self.abs_ok() && self.rep_ok()
    }

    /// Makes an empty graph.
    pub fn new() -> (r: State)
        ensures
            r.wf(),
            r@.len() == 0,
    {
        proof {
            reveal(State::wf);
        }
        let dependency_graph = dag_new();
        let r = State {
            dependency_graph,
            root_nodes: Vec::new(),
            node_info: Vec::new(),
            tips: Vec::new(),
            edge_total: 0,
        };
        proof {
            assert(dag_weights(r.dependency_graph) =~= Map::empty());
            assert(dag_edges(r.dependency_graph) =~= Multiset::empty());
            assert(dag_weights(r.dependency_graph).dom() =~= Set::empty());
            assert forall|a: usize, b: usize|
                #[trigger] dag_edges(r.dependency_graph).count((a, b)) == r.edge_mult(a, b) by {
                assert(dag_edges(r.dependency_graph).count((a, b)) == 0);
            }
        }
        r
    }
}

impl State {
    /// Under `abs_ok`, a present id names exactly one node, and `idx_of`
    /// is that node's position.
    pub proof fn lemma_lookup(self, h: u64)
        requires
            self.ids_unique(),
            self.has_node(h),
        ensures
            0 <= self.idx_of(h) < self@.len(),
            self@[self.idx_of(h)].header.id == h,
            forall|i: int|
                0 <= i < self@.len() && (#[trigger] self@[i]).header.id == h ==> i == self.idx_of(
                    h,
                ),
    {
        let x = self.idx_of(h);
        assert(0 <= x < self@.len() && self@[x].header.id == h);
        assert forall|i: int|
            0 <= i < self@.len() && (#[trigger] self@[i]).header.id == h implies i == x by {
            if i < x {
                assert(self@[i].header.id != self@[x].header.id);
            } else if x < i {
                assert(self@[x].header.id != self@[i].header.id);
            }
        }
    }

    /// Position of the node with this id, if present.
    fn find_index(&self, h: u64) -> (r: Option<usize>)
        requires
            self.ids_unique(),
        ensures
            match r {
                Some(i) => self.has_node(h) && i == self.idx_of(h) && 0 <= i < self@.len()
                    && self@[i as int].header.id == h,
                None => !self.has_node(h),
            },
    {
        let mut k: usize = 0;
        while k < self.node_info.len()
            invariant
                self.ids_unique(),
                0 <= k <= self@.len(),
                self@.len() == self.node_info@.len(),
                forall|t: int| 0 <= t < k ==> (#[trigger] self@[t]).header.id != h,
            decreases self@.len() - k,
        {
            if self.node_info[k].header.header_id == h {
                proof {
                    assert(self@[k as int].header.id == h);
                    self.lemma_lookup(h);
                }
                return Some(k);
            }
            k += 1;
        }
        None
    }

    /// Whether a header with this id is in the graph.
    pub fn contains(&self, h: &u64) -> (r: bool)
        requires
            self.ids_unique(),
        ensures
            r == self.has_node(*h),
    {
        self.find_index(*h).is_some()
    }

    /// The stored header with this id, if present.
    pub fn get_header(&self, n: &u64) -> (r: Option<&Header>)
        requires
            self.wf(),
        ensures
            match r {
                Some(hd) => self.has_node(*n) && hd@ == self.node_of(*n).header,
                None => !self.has_node(*n),
            },
    {
        proof {
            reveal(State::wf);
        }
        match self.find_index(*n) {
            Some(i) => Some(&self.node_info[i].header),
            None => None,
        }
    }

    /// The depth of the node with this id, if present.
    pub fn get_header_depth(&self, n: &u64) -> (r: Option<u64>)
        requires
            self.wf(),
        ensures
            match r {
                Some(d) => self.has_node(*n) && d == self.depth_of(*n),
                None => !self.has_node(*n),
            },
    {
        proof {
            reveal(State::wf);
        }
        match self.find_index(*n) {
            Some(i) => Some(self.node_info[i].depth),
            None => None,
        }
    }

    /// The childless nodes, each exactly once.
    pub fn tips(&self) -> (r: &Vec<u64>)
        requires
            self.wf(),
        ensures
            r@ == self.tip_seq(),
            r@.no_duplicates(),
            forall|h: u64| r@.contains(h) <==> (self.has_node(h) && self.childless(h)),
    {
        proof {
            reveal(State::wf);
        }
        &self.tips
    }

    /// How many headers the graph holds.
    pub fn node_count(&self) -> (r: usize)
        ensures
            r == self@.len(),
    {
        self.node_info.len()
    }

    /// The parents of the given node if it exists. An empty result means
    /// the node is root-attached.
    #[verifier::rlimit(50)]
    pub fn get_parents(&self, h: &u64) -> (r: Option<Vec<u64>>)
        requires
            self.ids_unique(),
        ensures
            match r {
                Some(v) => self.has_node(*h) && v@ == self.parents_of(*h),
                None => !self.has_node(*h),
            },
    {
        match self.find_index(*h) {
            Some(i) => {
                let mut out: Vec<u64> = Vec::new();
                let ghost ps = self.parents_of(*h);
                let mut k: usize = 0;
                proof {
                    assert(ps == self@[i as int].header.parents);
                }
                while k < self.node_info[i].header.parent_ids.len()
                    invariant
                        0 <= i < self.node_info@.len(),
                        ps == self.node_info@[i as int].header@.parents,
                        0 <= k <= ps.len(),
                        out@ == ps.take(k as int),
                    decreases ps.len() - k,
                {
                    out.push(self.node_info[i].header.parent_ids[k]);
                    proof {
                        assert(out@ =~= ps.take(k as int + 1));
                    }
                    k += 1;
                }
                proof {
                    assert(out@ =~= ps);
                }
                Some(out)
            },
            None => None,
        }
    }

    /// The parents of the given node, each with its depth, if the node
    /// exists. An empty result means the node is root-attached.
    #[verifier::rlimit(50)]
    pub fn get_parents_with_depth(&self, h: &u64) -> (r: Option<Vec<(u64, u64)>>)
        requires
            self.wf(),
        ensures
            match r {
                Some(v) => {
                    &&& self.has_node(*h)
                    &&& v@.len() == self.parents_of(*h).len()
                    &&& forall|k: int|
                        0 <= k < v@.len() ==> (#[trigger] v@[k]) == (
                        self.depth_of(self.parents_of(*h)[k]),
                        self.parents_of(*h)[k],
                        )
                    &&& forall|k: int| 0 <= k < v@.len() ==> self.has_node((#[trigger] v@[k]).1)
                },
                None => !self.has_node(*h),
            },
    {
        proof {
            reveal(State::wf);
        }
        match self.find_index(*h) {
            Some(i) => {
                let mut out: Vec<(u64, u64)> = Vec::new();
                let ghost ps = self.parents_of(*h);
                let mut k: usize = 0;
                while k < self.node_info[i].header.parent_ids.len()
                    invariant
                        self.ids_unique(),
                        self.parents_closed(),
                        0 <= i < self.node_info@.len(),
                        self@.len() == self.node_info@.len(),
                        i as int == self.idx_of(*h),
                        self.has_node(*h),
                        ps == self.node_info@[i as int].header@.parents,
                        ps == self.parents_of(*h),
                        0 <= k <= ps.len(),
                        out@.len() == k,
                        forall|t: int|
                            0 <= t < k ==> (#[trigger] out@[t]) == (
                            self.depth_of(ps[t]),
                            ps[t],
                            ),
                    decreases ps.len() - k,
                {
                    let p = self.node_info[i].header.parent_ids[k];
                    proof {
                        assert(self@[i as int].header.parents[k as int] == p);
                        assert(self.has_node(p));
                    }
                    match self.find_index(p) {
                        Some(j) => {
                            proof {
                                assert(self.depth_of(p) == self@[j as int].depth);
                            }
                            out.push((self.node_info[j].depth, p));
                        },
                        None => {
                            proof {
                                assert(false);
                            }
                        },
                    }
                    k += 1;
                }
                Some(out)
            },
            None => None,
        }
    }
}

impl State {
    /// `v` lists exactly the children of `h`, each once, with its depth.
    pub open spec fn children_listing(self, h: u64, v: Seq<(u64, u64)>) -> bool {
        &&& forall|t: int|
            0 <= t < v.len() ==> self.is_child_of((#[trigger] v[t]).1, h) && v[t].0
                == self.depth_of(v[t].1)
        &&& forall|c: u64|
            self.is_child_of(c, h) ==> exists|t: int| 0 <= t < v.len() && (#[trigger] v[t]).1 == c
        &&& forall|t1: int, t2: int|
            0 <= t1 < t2 < v.len() ==> (#[trigger] v[t1]).1 != (#[trigger] v[t2]).1
    }

    /// An edge out of node `i` leads to a node whose id is the weight
    /// stored at the edge's target, and that id is a child of node `i`'s.
    proof fn lemma_child_node(self, i: int, x: usize)
        requires
            self.wf(),
            0 <= i < self@.len(),
            dag_edges(self.dependency_graph).count((self.node_info@[i].graph_index, x)) > 0,
        ensures
            dag_weights(self.dependency_graph).dom().contains(x),
            self.is_child_of(dag_weights(self.dependency_graph)[x], self@[i].header.id),
            exists|j: int|
                0 <= j < self@.len() && (#[trigger] self.node_info@[j]).graph_index == x
                    && self@[j].header.id == dag_weights(self.dependency_graph)[x]
                    && self@[j].header.parents.contains(self@[i].header.id),
    {
        reveal(State::wf);
        let gi = self.node_info@[i].graph_index;
        assert(self.edge_mult(gi, x) == 1);
        let (i0, j0): (int, int) = choose|i0: int, j0: int|
            0 <= i0 < self@.len() && 0 <= j0 < self@.len() && (#[trigger] self.node_info@[i0]).graph_index
                == gi && (#[trigger] self.node_info@[j0]).graph_index == x
                && self@[j0].header.parents.contains(self@[i0].header.id);
        assert(i0 == i);
        assert(dag_weights(self.dependency_graph)[x] == self@[j0].header.id);
        self.lemma_lookup(self@[j0].header.id);
        assert(self.parents_of(self@[j0].header.id) == self@[j0].header.parents);
    }

    /// A child of node `i` is reached by an edge out of `i` whose target
    /// stores the child's id.
    proof fn lemma_child_complete(self, i: int, c: u64)
        requires
            self.wf(),
            0 <= i < self@.len(),
            self.is_child_of(c, self@[i].header.id),
        ensures
            0 <= self.idx_of(c) < self@.len(),
            dag_edges(self.dependency_graph).count(
                (self.node_info@[i].graph_index, self.node_info@[self.idx_of(c)].graph_index),
            ) > 0,
            dag_weights(self.dependency_graph)[self.node_info@[self.idx_of(c)].graph_index] == c,
    {
        reveal(State::wf);
        self.lemma_lookup(c);
        let j0 = self.idx_of(c);
        let gi = self.node_info@[i].graph_index;
        let x = self.node_info@[j0].graph_index;
        assert(self.edge_mult(gi, x) == 1) by {
            assert(0 <= i < self@.len() && 0 <= j0 < self@.len()
                && self.node_info@[i].graph_index == gi && self.node_info@[j0].graph_index == x
                && self@[j0].header.parents.contains(self@[i].header.id));
        }
        assert(dag_edges(self.dependency_graph).count((gi, x)) == self.edge_mult(gi, x));
    }

    /// What `dag_children` returns for node `i` is sound: every entry is
    /// a distinct graph index whose weight is a child of node `i`'s id.
    proof fn lemma_children_sound(self, i: int, idxs: Seq<usize>)
        requires
            self.wf(),
            0 <= i < self@.len(),
            forall|x: usize| #[trigger] idxs.to_multiset().count(x) == dag_edges(
                self.dependency_graph,
            ).count((self.node_info@[i].graph_index, x)),
        ensures
            idxs.no_duplicates(),
            forall|tt: int| 0 <= tt < idxs.len() ==> {
                &&& dag_weights(self.dependency_graph).dom().contains(#[trigger] idxs[tt])
                &&& self.is_child_of(
                    dag_weights(self.dependency_graph)[idxs[tt]],
                    self@[i].header.id,
                )
            },
    {
        reveal(State::wf);
        let gi = self.node_info@[i].graph_index;
        idxs.to_multiset_ensures();
        assert forall|x: usize|
            idxs.to_multiset().contains(x) implies idxs.to_multiset().count(x) == 1 by {
            assert(dag_edges(self.dependency_graph).count((gi, x)) == self.edge_mult(gi, x));
        }
        idxs.lemma_multiset_has_no_duplicates_conv();
        assert forall|tt: int| 0 <= tt < idxs.len() implies {
            &&& dag_weights(self.dependency_graph).dom().contains(#[trigger] idxs[tt])
            &&& self.is_child_of(dag_weights(self.dependency_graph)[idxs[tt]], self@[i].header.id)
        } by {
            let x = idxs[tt];
            assert(idxs.contains(x));
            assert(idxs.to_multiset().count(x) > 0);
            self.lemma_child_node(i, x);
        }
    }

    /// What the children query builds from `dag_children`\'s result is
    /// complete and duplicate-free.
    proof fn lemma_children_output(self, i: int, idxs: Seq<usize>, out: Seq<(u64, u64)>)
        requires
            self.wf(),
            0 <= i < self@.len(),
            out.len() == idxs.len(),
            forall|x: usize| #[trigger] idxs.to_multiset().count(x) == dag_edges(
                self.dependency_graph,
            ).count((self.node_info@[i].graph_index, x)),
            forall|tt: int|
                0 <= tt < idxs.len() ==> (#[trigger] out[tt]).1 == dag_weights(
                    self.dependency_graph,
                )[idxs[tt]],
            forall|tt: int|
                0 <= tt < out.len() ==> (#[trigger] out[tt]).0 == self.depth_of(out[tt].1),
        ensures
            self.children_listing(self@[i].header.id, out),
    {
        reveal(State::wf);
        let gi = self.node_info@[i].graph_index;
        idxs.to_multiset_ensures();
        self.lemma_children_sound(i, idxs);
        assert forall|c: u64| self.is_child_of(c, self@[i].header.id) implies exists|t: int|
            0 <= t < out.len() && (#[trigger] out[t]).1 == c by {
            self.lemma_child_complete(i, c);
            let x = self.node_info@[self.idx_of(c)].graph_index;
            assert(idxs.to_multiset().count(x) > 0);
            assert(idxs.contains(x));
            let tt = choose|tt: int| 0 <= tt < idxs.len() && idxs[tt] == x;
            assert(out[tt].1 == c);
        }
        assert forall|t1: int, t2: int|
            0 <= t1 < t2 < out.len() implies (#[trigger] out[t1]).1 != (#[trigger] out[t2]).1 by {
            let x1 = idxs[t1];
            let x2 = idxs[t2];
            assert(x1 != x2);
            assert(idxs.contains(x1) && idxs.contains(x2));
            idxs.to_multiset_ensures();
            assert(idxs.to_multiset().count(x1) > 0 && idxs.to_multiset().count(x2) > 0);
            self.lemma_child_node(i, x1);
            self.lemma_child_node(i, x2);
            let j1 = choose|j: int|
                0 <= j < self@.len() && (#[trigger] self.node_info@[j]).graph_index == x1
                    && self@[j].header.id == dag_weights(self.dependency_graph)[x1]
                    && self@[j].header.parents.contains(self@[i].header.id);
            let j2 = choose|j: int|
                0 <= j < self@.len() && (#[trigger] self.node_info@[j]).graph_index == x2
                    && self@[j].header.id == dag_weights(self.dependency_graph)[x2]
                    && self@[j].header.parents.contains(self@[i].header.id);
            assert(j1 != j2);
            assert(out[t1].1 == self@[j1].header.id);
            assert(out[t2].1 == self@[j2].header.id);
        }
    }

    /// The children of the given node, each with its depth, if the node
    /// exists; each child appears exactly once. An empty result means
    /// the node is a tip.
    #[verifier::rlimit(100)]
    pub fn get_children_with_depth(&self, h: &u64) -> (r: Option<Vec<(u64, u64)>>)
        requires
            self.wf(),
        ensures
            match r {
                Some(v) => self.has_node(*h) && self.children_listing(*h, v@),
                None => !self.has_node(*h),
            },
    {
        proof {
            reveal(State::wf);
        }
        let i = match self.find_index(*h) {
            Some(i) => i,
            None => {
                return None;
            },
        };
        let gi = self.node_info[i].graph_index;
        let idxs = dag_children(&self.dependency_graph, gi);
        proof {
            self.lemma_children_sound(i as int, idxs@);
        }
        let mut out: Vec<(u64, u64)> = Vec::new();
        let mut t: usize = 0;
        while t < idxs.len()
            invariant
                self.ids_unique(),
                0 <= i < self.node_info@.len(),
                self@.len() == self.node_info@.len(),
                self@[i as int].header.id == *h,
                self.has_node(*h),
                0 <= t <= idxs@.len(),
                out@.len() == t,
                forall|tt: int| 0 <= tt < idxs@.len() ==> {
                    &&& dag_weights(self.dependency_graph).dom().contains(#[trigger] idxs@[tt])
                    &&& self.is_child_of(dag_weights(self.dependency_graph)[idxs@[tt]], *h)
                },
                forall|tt: int|
                    0 <= tt < t ==> (#[trigger] out@[tt]).1 == dag_weights(self.dependency_graph)[
                        idxs@[tt]
                    ] && out@[tt].0 == self.depth_of(out@[tt].1),
            decreases idxs@.len() - t,
        {
            let x = idxs[t];
            let id = match dag_node_weight(&self.dependency_graph, x) {
                Some(id) => id,
                None => {
                    proof {
                        assert(false);
                    }
                    0
                },
            };
            proof {
                assert(self.is_child_of(id, *h));
            }
            match self.find_index(id) {
                Some(j) => {
                    proof {
                        self.lemma_lookup(id);
                        assert(self.depth_of(id) == self@[j as int].depth);
                    }
                    out.push((self.node_info[j].depth, id));
                },
                None => {
                    proof {
                        assert(false);
                    }
                },
            }
            t += 1;
        }
        proof {
            self.lemma_children_output(i as int, idxs@, out@);
            assert(self@[i as int].header.id == *h);
        }
        Some(out)
    }
}

impl State {
    /// Appending a node with a fresh id moves no existing node: lookups
    /// of present ids answer the same in the extended state.
    pub proof fn lemma_push_preserves_lookup(pre: State, post: State, h: u64)
        requires
            pre.ids_unique(),
            post@.len() == pre@.len() + 1,
            forall|t: int| 0 <= t < pre@.len() ==> post@[t] == pre@[t],
            post@[pre@.len() as int].header.id != h,
            pre.has_node(h),
        ensures
            post.has_node(h),
            post.idx_of(h) == pre.idx_of(h),
            post.node_of(h) == pre.node_of(h),
            post.depth_of(h) == pre.depth_of(h),
            post.parents_of(h) == pre.parents_of(h),
    {
        pre.lemma_lookup(h);
        let i = pre.idx_of(h);
        assert(post@[i].header.id == h);
        assert(post.has_node(h));
        let x = post.idx_of(h);
        assert(0 <= x < post@.len() && post@[x].header.id == h);
        if x < pre@.len() {
            assert(pre@[x].header.id == h);
            assert(x == i);
        } else {
            assert(x == pre@.len());
            assert(false);
        }
    }
}

/// The edges a batch of parent indices contributes toward one child.
pub open spec fn edge_batch(pidxs: Seq<usize>, gi: usize) -> vstd::multiset::Multiset<
    (usize, usize),
> {
    pidxs.map_values(|p: usize| (p, gi)).to_multiset()
}

/// How often a pair occurs in a duplicate-free batch.
pub proof fn lemma_edge_batch_count(pidxs: Seq<usize>, gi: usize, a: usize, b: usize)
    requires
        pidxs.no_duplicates(),
    ensures
        b != gi ==> edge_batch(pidxs, gi).count((a, b)) == 0,
        b == gi && pidxs.contains(a) ==> edge_batch(pidxs, gi).count((a, b)) == 1,
        b == gi && !pidxs.contains(a) ==> edge_batch(pidxs, gi).count((a, b)) == 0,
{
    let m = pidxs.map_values(|p: usize| (p, gi));
    m.to_multiset_ensures();
    assert(m.no_duplicates()) by {
        assert forall|i: int, j: int|
            (0 <= i < m.len() && 0 <= j < m.len() && i != j) implies m[i] != m[j] by {
            assert(pidxs[i] != pidxs[j]);
        }
    }
    m.lemma_multiset_has_no_duplicates();
    if b == gi && pidxs.contains(a) {
        let t = choose|t: int| 0 <= t < pidxs.len() && pidxs[t] == a;
        assert(m[t] == (a, b));
        assert(m.contains((a, b)));
        assert(m.to_multiset().count((a, b)) == 1);
    } else {
        if m.to_multiset().count((a, b)) > 0 {
            assert(m.contains((a, b)));
            let t = choose|t: int| 0 <= t < m.len() && m[t] == (a, b);
            assert(pidxs[t] == a && gi == b);
            assert(pidxs.contains(a));
            assert(false);
        }
    }
}

/// Extending the batch by one parent index adds one edge.
pub proof fn lemma_edge_batch_push(pidxs: Seq<usize>, k: int, gi: usize)
    requires
        0 <= k < pidxs.len(),
    ensures
        edge_batch(pidxs.take(k + 1), gi) =~= edge_batch(pidxs.take(k), gi).insert(
            (pidxs[k], gi),
        ),
{
    let mk = pidxs.take(k).map_values(|p: usize| (p, gi));
    let mk1 = pidxs.take(k + 1).map_values(|p: usize| (p, gi));
    assert(mk1 =~= mk.push((pidxs[k], gi)));
    mk.to_multiset_ensures();
}

/// A batch holds as many edges as it has parent indices.
pub proof fn lemma_edge_batch_len(pidxs: Seq<usize>, gi: usize)
    ensures
        edge_batch(pidxs, gi).len() == pidxs.len(),
{
    let m = pidxs.map_values(|p: usize| (p, gi));
    m.to_multiset_ensures();
}

impl State {
    /// Whether this header may be inserted: it validates against the id,
    /// its parents are distinct and all present, the id is fresh, and
    /// the u32-indexed edge store has room for one more node and its
    /// edges.
    pub open spec fn can_insert(self, header_id: u64, header: SpecHeader) -> bool {
        &&& header.id == header_id
        &&& header.parents.no_duplicates()
        &&& !self.has_node(header_id)
        &&& forall|k: int|
            0 <= k < header.parents.len() ==> self.has_node(#[trigger] header.parents[k])
        &&& self@.len() < 0xffff_fffe
        &&& total_parents(self@) + header.parents.len() < 0xffff_ffff
    }

    /// The node an accepted insert appends.
    pub open spec fn inserted_node(self, header: SpecHeader) -> SpecNode {
        SpecNode { depth: self.new_depth(header) as u64, header }
    }

    /// The least parent depth looks only at the named nodes, so it is
    /// unchanged by appending a node with a fresh id.
    proof fn lemma_min_parent_depth_stable(pre: State, post: State, ps: Seq<u64>, newid: u64)
        requires
            pre.ids_unique(),
            !pre.has_node(newid),
            post@.len() == pre@.len() + 1,
            forall|t: int| 0 <= t < pre@.len() ==> post@[t] == pre@[t],
            post@[pre@.len() as int].header.id == newid,
            forall|t: int| 0 <= t < ps.len() ==> pre.has_node(#[trigger] ps[t]),
        ensures
            post.min_parent_depth(ps) == pre.min_parent_depth(ps),
        decreases ps.len(),
    {
        if ps.len() > 0 {
            State::lemma_min_parent_depth_stable(pre, post, ps.drop_last(), newid);
            pre.lemma_lookup(ps.last());
            State::lemma_push_preserves_lookup(pre, post, ps.last());
            if ps.len() == 1 {
                assert(ps[0] == ps.last());
            }
        }
    }

    /// The least parent depth is the depth of one of the named nodes,
    /// and no larger than any of them.
    proof fn lemma_min_parent_depth_le(self, ps: Seq<u64>)
        requires
            ps.len() > 0,
        ensures
            exists|t: int|
                0 <= t < ps.len() && self.min_parent_depth(ps) == self.depth_of(#[trigger] ps[t]),
            forall|t: int|
                0 <= t < ps.len() ==> self.min_parent_depth(ps) <= self.depth_of(#[trigger] ps[t]),
        decreases ps.len(),
    {
        if ps.len() == 1 {
            assert(self.min_parent_depth(ps) == self.depth_of(ps[0]));
        } else {
            self.lemma_min_parent_depth_le(ps.drop_last());
            let t0 = choose|t: int|
                0 <= t < ps.drop_last().len() && self.min_parent_depth(ps.drop_last())
                    == self.depth_of(#[trigger] ps.drop_last()[t]);
            assert(ps.drop_last()[t0] == ps[t0]);
            if self.depth_of(ps.last()) < self.min_parent_depth(ps.drop_last()) {
                assert(self.min_parent_depth(ps) == self.depth_of(ps[ps.len() - 1]));
            } else {
                assert(self.min_parent_depth(ps) == self.depth_of(ps[t0]));
            }
            assert forall|t: int|
                0 <= t < ps.len() implies self.min_parent_depth(ps) <= self.depth_of(
                #[trigger] ps[t]) by {
                if t < ps.len() - 1 {
                    assert(ps.drop_last()[t] == ps[t]);
                }
            }
        }
    }

    /// The depth rule evaluates the same before and after appending a
    /// node with a fresh id.
    proof fn lemma_new_depth_stable(pre: State, post: State, h0: SpecHeader, newid: u64)
        requires
            pre.ids_unique(),
            !pre.has_node(newid),
            post@.len() == pre@.len() + 1,
            forall|t: int| 0 <= t < pre@.len() ==> post@[t] == pre@[t],
            post@[pre@.len() as int].header.id == newid,
            forall|t: int| 0 <= t < h0.parents.len() ==> pre.has_node(#[trigger] h0.parents[t]),
        ensures
            post.new_depth(h0) == pre.new_depth(h0),
    {
        State::lemma_min_parent_depth_stable(pre, post, h0.parents, newid);
    }

    /// The depth rule yields a depth between 1 and one more than the
    /// number of nodes.
    proof fn lemma_new_depth_bound(pre: State, h0: SpecHeader)
        requires
            pre.ids_unique(),
            pre.depths_ok(),
            forall|t: int| 0 <= t < h0.parents.len() ==> pre.has_node(#[trigger] h0.parents[t]),
        ensures
            1 <= pre.new_depth(h0) <= pre@.len() + 1,
    {
        if h0.parents.len() > 0 {
            pre.lemma_min_parent_depth_le(h0.parents);
            let t0 = choose|t: int|
                0 <= t < h0.parents.len() && pre.min_parent_depth(h0.parents) == pre.depth_of(
                    #[trigger] h0.parents[t],
                );
            pre.lemma_lookup(h0.parents[t0]);
            let j0 = pre.idx_of(h0.parents[t0]);
            assert(pre@[j0].depth <= j0 + 1);
        }
    }

    /// Appending a node per the depth rule keeps the view-level
    /// invariants.
    proof fn lemma_insert_abs(pre: State, post: State, hdr: SpecHeader, d: u64)
        requires
            pre.wf(),
            hdr.parents.no_duplicates(),
            !pre.has_node(hdr.id),
            forall|k: int| 0 <= k < hdr.parents.len() ==> pre.has_node(#[trigger] hdr.parents[k]),
            pre@.len() < 0xffff_fffe,
            post@ == pre@.push(SpecNode { depth: d, header: hdr }),
            d as int == pre.new_depth(hdr),
        ensures
            post.abs_ok(),
            forall|h: u64|
                pre.has_node(h) ==> #[trigger] post.has_node(h) && post.node_of(h)
                    == pre.node_of(h),
            post.has_node(hdr.id),
            post.node_of(hdr.id) == (SpecNode { depth: d, header: hdr }),
    {
        reveal(State::wf);
        let n = pre@.len() as int;
        assert(post@[n].header.id == hdr.id);
        assert(forall|t: int| 0 <= t < n ==> post@[t] == pre@[t]);
        assert forall|h: u64| pre.has_node(h) implies #[trigger] post.has_node(h)
            && post.node_of(h) == pre.node_of(h) by {
            pre.lemma_lookup(h);
            assert(h != hdr.id);
            State::lemma_push_preserves_lookup(pre, post, h);
        }
        // ids stay unique
        assert forall|i: int, j: int|
            0 <= i < j < post@.len() implies (#[trigger] post@[i]).header.id != (
        #[trigger] post@[j]).header.id by {
            if j == n {
                assert(pre@[i].header.id == post@[i].header.id);
                if post@[i].header.id == hdr.id {
                    assert(pre.has_node(hdr.id));
                }
            }
        }
        // parents stand earlier
        assert forall|i: int, k: int|
            0 <= i < post@.len() && 0 <= k < post@[i].header.parents.len() implies exists|j: int|
                0 <= j < i && (#[trigger] post@[j]).header.id == (
            #[trigger] post@[i].header.parents[k]) by {
            if i < n {
                assert(pre@[i].header.parents[k] == post@[i].header.parents[k]);
                let j = choose|j: int|
                    0 <= j < i && (#[trigger] pre@[j]).header.id == pre@[i].header.parents[k];
                assert(post@[j].header.id == post@[i].header.parents[k]);
            } else {
                assert(pre.has_node(hdr.parents[k]));
                pre.lemma_lookup(hdr.parents[k]);
                let j = pre.idx_of(hdr.parents[k]);
                assert(post@[j].header.id == post@[i].header.parents[k]);
            }
        }
        // the depth rule keeps holding
        assert forall|i: int| 0 <= i < post@.len() implies (#[trigger] post@[i]).depth
            == post.new_depth(post@[i].header) && post@[i].depth <= i + 1 by {
            let h0 = post@[i].header;
            assert forall|t: int|
                0 <= t < h0.parents.len() implies pre.has_node(#[trigger] h0.parents[t]) by {
                if i < n {
                    assert(pre@[i].header.parents[t] == h0.parents[t]);
                    let j = choose|j: int|
                        0 <= j < i && (#[trigger] pre@[j]).header.id == pre@[i].header.parents[t];
                }
            }
            State::lemma_new_depth_stable(pre, post, h0, hdr.id);
            if i < n {
                assert(pre@[i].depth == pre.new_depth(pre@[i].header));
                assert(h0 == pre@[i].header);
            } else {
                State::lemma_new_depth_bound(pre, h0);
                assert(post@[i].depth == d);
            }
        }
        assert(post.has_node(hdr.id));
        post.lemma_lookup(hdr.id);
        assert(post.idx_of(hdr.id) == pre@.len());
    }

    /// Appending the node `newid` with parent list `ps` extends the
    /// child relation by exactly the pairs (newid, parent).
    pub open spec fn child_step(pre: State, post: State, newid: u64, ps: Seq<u64>) -> bool {
        forall|c: u64, q: u64|
            #[trigger] post.is_child_of(c, q) <==> (pre.is_child_of(c, q) || (c == newid
                && ps.contains(q)))
    }

    /// Structural relation between the states before and after one
    /// insert, as far as the node list goes.
    pub open spec fn insert_rel(pre: State, post: State, hdr: SpecHeader, d: u64) -> bool {
        &&& pre.wf()
        &&& post.abs_ok()
        &&& hdr.parents.no_duplicates()
        &&& !pre.has_node(hdr.id)
        &&& (forall|k: int|
            0 <= k < hdr.parents.len() ==> pre.has_node(#[trigger] hdr.parents[k]))
        &&& post@ == pre@.push(SpecNode { depth: d, header: hdr })
    }

    /// Appending a node extends the child relation by exactly its own
    /// parent pairs, and moves no existing node.
    proof fn lemma_insert_children(pre: State, post: State, hdr: SpecHeader, d: u64)
        requires
            State::insert_rel(pre, post, hdr, d),
        ensures
            State::child_step(pre, post, hdr.id, hdr.parents),
            forall|h: u64|
                #[trigger] pre.has_node(h) ==> post.has_node(h) && post.node_of(h)
                    == pre.node_of(h),
            post.has_node(hdr.id),
            post.parents_of(hdr.id) == hdr.parents,
            post.childless(hdr.id),
    {
        reveal(State::wf);
        let n = pre@.len() as int;
        assert(forall|t: int| 0 <= t < n ==> post@[t] == pre@[t]);
        assert forall|h: u64| #[trigger] pre.has_node(h) implies post.has_node(h)
            && post.node_of(h) == pre.node_of(h) by {
            pre.lemma_lookup(h);
            assert(h != hdr.id);
            State::lemma_push_preserves_lookup(pre, post, h);
        }
        assert(post@[n].header.id == hdr.id);
        assert(post.has_node(hdr.id));
        post.lemma_lookup(hdr.id);
        assert(post.idx_of(hdr.id) == n);
        assert(post.parents_of(hdr.id) == hdr.parents);
        assert forall|c: u64, q: u64| #[trigger] post.is_child_of(c, q) implies (pre.is_child_of(
            c,
            q,
        ) || (c == hdr.id && hdr.parents.contains(q))) by {
            post.lemma_lookup(c);
            if post.idx_of(c) < n {
                assert(pre@[post.idx_of(c)].header.id == c);
                assert(pre.has_node(c));
                pre.lemma_lookup(c);
                assert(pre.idx_of(c) == post.idx_of(c));
            }
        }
        assert forall|c: u64, q: u64|
            pre.is_child_of(c, q) implies #[trigger] post.is_child_of(c, q) by {
            pre.lemma_lookup(c);
        }
        assert forall|c: u64, q: u64|
            c == hdr.id && hdr.parents.contains(q) implies #[trigger] post.is_child_of(c, q) by {}
        assert forall|c: u64| !(#[trigger] post.is_child_of(c, hdr.id)) by {
            if post.is_child_of(c, hdr.id) {
                if c == hdr.id && hdr.parents.contains(hdr.id) {
                    assert(pre.has_node(hdr.id));
                } else {
                    assert(pre.is_child_of(c, hdr.id));
                    pre.lemma_lookup(c);
                    let i = pre.idx_of(c);
                    let ks = pre@[i].header.parents;
                    let t = choose|t: int| 0 <= t < ks.len() && ks[t] == hdr.id;
                    let j = choose|j: int|
                        0 <= j < i && (#[trigger] pre@[j]).header.id == ks[t];
                    assert(pre.has_node(hdr.id));
                }
            }
        }
    }

    /// Appending a node keeps the root characterization, given the root
    /// vector was extended exactly when the node is root-attached.
    proof fn lemma_insert_roots(pre: State, post: State, hdr: SpecHeader, d: u64)
        requires
            State::insert_rel(pre, post, hdr, d),
            hdr.parents.len() == 0 ==> post.root_seq() == pre.root_seq().push(hdr.id),
            hdr.parents.len() != 0 ==> post.root_seq() == pre.root_seq(),
        ensures
            post.root_seq().no_duplicates(),
            forall|h: u64|
                post.root_seq().contains(h) <==> (post.has_node(h) && post.parents_of(h).len()
                    == 0),
    {
        reveal(State::wf);
        let n = pre@.len() as int;
        State::lemma_insert_children(pre, post, hdr, d);
        post.lemma_lookup(hdr.id);
        assert(post.idx_of(hdr.id) == n);
        if hdr.parents.len() == 0 {
            assert(!pre.root_seq().contains(hdr.id));
            assert forall|i: int, j: int|
                (0 <= i < post.root_seq().len() && 0 <= j < post.root_seq().len() && i != j)
                    implies post.root_seq()[i] != post.root_seq()[j] by {
                if i < pre.root_seq().len() && j < pre.root_seq().len() {
                } else if i < j {
                    assert(post.root_seq()[i] == pre.root_seq()[i]);
                    assert(pre.root_seq().contains(pre.root_seq()[i]));
                } else {
                    assert(post.root_seq()[j] == pre.root_seq()[j]);
                    assert(pre.root_seq().contains(pre.root_seq()[j]));
                }
            }
        }
        assert forall|h: u64| #[trigger] post.root_seq().contains(h) implies (post.has_node(h)
            && post.parents_of(h).len() == 0) by {
            if pre.root_seq().contains(h) {
                assert(pre.has_node(h));
            } else {
                let t = choose|t: int| 0 <= t < post.root_seq().len() && post.root_seq()[t] == h;
                assert(hdr.parents.len() == 0 && h == hdr.id);
            }
        }
        assert forall|h: u64| (post.has_node(h) && post.parents_of(h).len() == 0) implies
            #[trigger] post.root_seq().contains(h) by {
            post.lemma_lookup(h);
            if post.idx_of(h) < n {
                assert(pre@[post.idx_of(h)].header.id == h);
                assert(pre.has_node(h));
                assert(pre.node_of(h) == post.node_of(h));
                assert(pre.root_seq().contains(h));
                if hdr.parents.len() == 0 {
                    let t = choose|t: int|
                        0 <= t < pre.root_seq().len() && pre.root_seq()[t] == h;
                    assert(post.root_seq()[t] == h);
                }
            } else {
                assert(h == hdr.id);
                assert(post.root_seq()[post.root_seq().len() - 1] == hdr.id);
            }
        }
    }

    /// Appending a node keeps the tip characterization, given the tip
    /// vector lost the node's parents and gained the node.
    #[verifier::rlimit(60)]
    proof fn lemma_insert_tips(pre: State, post: State, hdr: SpecHeader, d: u64)
        requires
            State::insert_rel(pre, post, hdr, d),
            post.tip_seq().no_duplicates(),
            post.tip_seq().to_set() =~= pre.tip_seq().to_set().difference(
                hdr.parents.to_set(),
            ).insert(hdr.id),
        ensures
            forall|h: u64|
                post.tip_seq().contains(h) <==> (post.has_node(h) && post.childless(h)),
    {
        reveal(State::wf);
        let n = pre@.len() as int;
        State::lemma_insert_children(pre, post, hdr, d);
        assert forall|h: u64| #[trigger] post.tip_seq().contains(h) implies (post.has_node(h)
            && post.childless(h)) by {
            assert(post.tip_seq().to_set().contains(h));
            if h == hdr.id {
            } else {
                assert(pre.tip_seq().to_set().contains(h));
                assert(pre.tip_seq().contains(h));
                assert(pre.has_node(h));
                assert(!hdr.parents.to_set().contains(h));
                assert forall|c: u64| !(#[trigger] post.is_child_of(c, h)) by {
                    if post.is_child_of(c, h) {
                        if c == hdr.id && hdr.parents.contains(h) {
                            assert(hdr.parents.to_set().contains(h));
                        } else {
                            assert(pre.is_child_of(c, h));
                            assert(pre.childless(h));
                        }
                    }
                }
            }
        }
        assert forall|h: u64| (post.has_node(h) && post.childless(h)) implies
            #[trigger] post.tip_seq().contains(h) by {
            post.lemma_lookup(h);
            if post.idx_of(h) < n {
                assert(pre@[post.idx_of(h)].header.id == h);
                assert(pre.has_node(h));
                assert(pre.childless(h)) by {
                    assert forall|c: u64| !(#[trigger] pre.is_child_of(c, h)) by {
                        if pre.is_child_of(c, h) {
                            assert(post.is_child_of(c, h));
                        }
                    }
                }
                assert(pre.tip_seq().contains(h));
                assert(pre.tip_seq().to_set().contains(h));
                assert(!hdr.parents.to_set().contains(h)) by {
                    if hdr.parents.contains(h) {
                        assert(post.is_child_of(hdr.id, h));
                    }
                }
                assert(post.tip_seq().to_set().contains(h));
            } else {
                assert(h == hdr.id);
                assert(post.tip_seq().to_set().contains(h));
            }
        }
    }

    /// Structural relation between the states before and after one
    /// insert, as far as the edge store goes.
    spec fn insert_graph_rel(
        pre: State,
        post: State,
        hdr: SpecHeader,
        d: u64,
        gi: usize,
        pidxs: Seq<usize>,
    ) -> bool {
        &&& pre.ids_unique()
        &&& pre.parents_closed()
        &&& pre.graph_ok()
        &&& pre@.len() < 0xffff_fffe
        &&& hdr.parents.no_duplicates()
        &&& !pre.has_node(hdr.id)
        &&& (forall|k: int|
            0 <= k < hdr.parents.len() ==> pre.has_node(#[trigger] hdr.parents[k]))
        &&& post@ == pre@.push(SpecNode { depth: d, header: hdr })
        &&& post.node_info@.len() == pre.node_info@.len() + 1
        &&& (forall|t: int|
            0 <= t < pre.node_info@.len() ==> post.node_info@[t] == pre.node_info@[t])
        &&& post.node_info@[pre.node_info@.len() as int].graph_index == gi
        &&& pre@.len() == pre.node_info@.len()
        &&& post@.len() == post.node_info@.len()
        &&& !dag_weights(pre.dependency_graph).dom().contains(gi)
        &&& dag_weights(post.dependency_graph) == dag_weights(pre.dependency_graph).insert(
            gi,
            hdr.id,
        )
        &&& dag_edges(post.dependency_graph) == dag_edges(pre.dependency_graph).add(
            edge_batch(pidxs, gi),
        )
        &&& pidxs.len() == hdr.parents.len()
        &&& (forall|k: int|
            0 <= k < pidxs.len() ==> #[trigger] pidxs[k] == pre.node_info@[pre.idx_of(
                hdr.parents[k],
            )].graph_index && 0 <= pre.idx_of(hdr.parents[k]) < pre@.len())
    }

    /// No node of `pre` lists the fresh id among its parents.
    proof fn lemma_fresh_unparented(pre: State, newid: u64)
        requires
            pre.parents_closed(),
            !pre.has_node(newid),
        ensures
            forall|j: int, t: int|
                0 <= j < pre@.len() && 0 <= t < pre@[j].header.parents.len() ==> (
                #[trigger] pre@[j].header.parents[t]) != newid,
    {
        assert forall|j: int, t: int|
            0 <= j < pre@.len() && 0 <= t < pre@[j].header.parents.len() implies (
        #[trigger] pre@[j].header.parents[t]) != newid by {
            if pre@[j].header.parents[t] == newid {
                let j2 = choose|j2: int|
                    0 <= j2 < j && (#[trigger] pre@[j2]).header.id == pre@[j].header.parents[t];
                assert(pre.has_node(newid));
            }
        }
    }

    /// One edge count stays in step with the node lists across an insert.
    #[verifier::rlimit(60)]
    proof fn lemma_insert_count(
        pre: State,
        post: State,
        hdr: SpecHeader,
        d: u64,
        gi: usize,
        pidxs: Seq<usize>,
        a: usize,
        b: usize,
    )
        requires
            State::insert_graph_rel(pre, post, hdr, d, gi, pidxs),
        ensures
            dag_edges(post.dependency_graph).count((a, b)) == post.edge_mult(a, b),
    {
        let n = pre@.len() as int;
        let wpre = dag_weights(pre.dependency_graph);
        let epre = dag_edges(pre.dependency_graph);
        let epost = dag_edges(post.dependency_graph);
        assert(pidxs.no_duplicates()) by {
            assert forall|i: int, j: int|
                (0 <= i < pidxs.len() && 0 <= j < pidxs.len() && i != j) implies pidxs[i]
                    != pidxs[j] by {
                pre.lemma_lookup(hdr.parents[i]);
                pre.lemma_lookup(hdr.parents[j]);
                assert(hdr.parents[i] != hdr.parents[j]);
            }
        }
        State::lemma_fresh_unparented(pre, hdr.id);
        lemma_edge_batch_count(pidxs, gi, a, b);
        assert(epost.count((a, b)) == epre.count((a, b)) + edge_batch(pidxs, gi).count((a, b)));
        assert(epre.count((a, b)) == pre.edge_mult(a, b));
        if b == gi {
            assert(pre.edge_mult(a, b) == 0) by {
                if pre.edge_mult(a, b) == 1 {
                    let (i0, j0): (int, int) = choose|i0: int, j0: int|
                        0 <= i0 < pre@.len() && 0 <= j0 < pre@.len() && (
                        #[trigger] pre.node_info@[i0]).graph_index == a && (
                        #[trigger] pre.node_info@[j0]).graph_index == b
                            && pre@[j0].header.parents.contains(pre@[i0].header.id);
                    assert(wpre.dom().contains(gi));
                }
            }
            if pidxs.contains(a) {
                let k = choose|k: int| 0 <= k < pidxs.len() && pidxs[k] == a;
                let i0 = pre.idx_of(hdr.parents[k]);
                assert(post.node_info@[i0].graph_index == a);
                assert(post.node_info@[n].graph_index == gi);
                assert(post@[n].header.parents.contains(post@[i0].header.id)) by {
                    pre.lemma_lookup(hdr.parents[k]);
                    assert(post@[i0].header.id == hdr.parents[k]);
                }
                assert(post.edge_mult(a, b) == 1);
            } else {
                assert(post.edge_mult(a, b) == 0) by {
                    if post.edge_mult(a, b) == 1 {
                        let (i0, j0): (int, int) = choose|i0: int, j0: int|
                            0 <= i0 < post@.len() && 0 <= j0 < post@.len() && (
                            #[trigger] post.node_info@[i0]).graph_index == a && (
                            #[trigger] post.node_info@[j0]).graph_index == b
                                && post@[j0].header.parents.contains(post@[i0].header.id);
                        if j0 < n {
                            assert(wpre.dom().contains(gi));
                        } else {
                            if i0 == n {
                                assert(hdr.parents.contains(hdr.id));
                                let t = choose|t: int|
                                    0 <= t < hdr.parents.len() && hdr.parents[t] == hdr.id;
                                assert(pre.has_node(hdr.id));
                            } else {
                                assert(hdr.parents.contains(pre@[i0].header.id));
                                let t = choose|t: int|
                                    0 <= t < hdr.parents.len() && hdr.parents[t]
                                        == pre@[i0].header.id;
                                pre.lemma_lookup(hdr.parents[t]);
                                assert(pre.idx_of(hdr.parents[t]) == i0);
                                assert(pidxs[t] == a);
                                assert(pidxs.contains(a));
                            }
                        }
                    }
                }
            }
        } else {
            assert(edge_batch(pidxs, gi).count((a, b)) == 0);
            if pre.edge_mult(a, b) == 1 {
                let (i0, j0): (int, int) = choose|i0: int, j0: int|
                    0 <= i0 < pre@.len() && 0 <= j0 < pre@.len() && (
                    #[trigger] pre.node_info@[i0]).graph_index == a && (
                    #[trigger] pre.node_info@[j0]).graph_index == b
                        && pre@[j0].header.parents.contains(pre@[i0].header.id);
                assert(post.node_info@[i0].graph_index == a);
                assert(post.node_info@[j0].graph_index == b);
                assert(post.edge_mult(a, b) == 1);
            } else {
                if post.edge_mult(a, b) == 1 {
                    let (i0, j0): (int, int) = choose|i0: int, j0: int|
                        0 <= i0 < post@.len() && 0 <= j0 < post@.len() && (
                        #[trigger] post.node_info@[i0]).graph_index == a && (
                        #[trigger] post.node_info@[j0]).graph_index == b
                            && post@[j0].header.parents.contains(post@[i0].header.id);
                    if j0 == n {
                        assert(post.node_info@[j0].graph_index == gi);
                    } else if i0 == n {
                        assert(pre@[j0].header.parents.contains(hdr.id));
                        let t = choose|t: int|
                            0 <= t < pre@[j0].header.parents.len() && pre@[j0].header.parents[t]
                                == hdr.id;
                    } else {
                        assert(pre.edge_mult(a, b) == 1);
                    }
                    assert(false);
                }
            }
        }
    }

    /// All edge counts stay in step with the node lists across an
    /// insert.
    proof fn lemma_insert_counts(
        pre: State,
        post: State,
        hdr: SpecHeader,
        d: u64,
        gi: usize,
        pidxs: Seq<usize>,
    )
        requires
            State::insert_graph_rel(pre, post, hdr, d, gi, pidxs),
        ensures
            forall|a: usize, b: usize|
                #[trigger] dag_edges(post.dependency_graph).count((a, b)) == post.edge_mult(
                    a,
                    b,
                ),
    {
        assert forall|a: usize, b: usize| #[trigger] dag_edges(post.dependency_graph).count(
            (a, b),
        ) == post.edge_mult(a, b) by {
            State::lemma_insert_count(pre, post, hdr, d, gi, pidxs, a, b);
        }
    }

    /// The weight map's indices stay exactly the nodes' graph indices
    /// across an insert.
    proof fn lemma_insert_dom(
        pre: State,
        post: State,
        hdr: SpecHeader,
        d: u64,
        gi: usize,
        pidxs: Seq<usize>,
    )
        requires
            State::insert_graph_rel(pre, post, hdr, d, gi, pidxs),
        ensures
            forall|x: usize|
                dag_weights(post.dependency_graph).dom().contains(x) ==> exists|i: int|
                    0 <= i < post@.len() && (#[trigger] post.node_info@[i]).graph_index == x,
            dag_weights(post.dependency_graph).dom().len() == dag_weights(
                pre.dependency_graph,
            ).dom().len() + 1,
            dag_weights(post.dependency_graph).dom().finite(),
            forall|i: int|
                0 <= i < post@.len() ==> dag_weights(post.dependency_graph).dom().contains(
                    (#[trigger] post.node_info@[i]).graph_index,
                ),
            forall|i: int|
                0 <= i < post@.len() ==> dag_weights(post.dependency_graph)[(
                #[trigger] post.node_info@[i]).graph_index] == post.node_info@[i].header.header_id,
            forall|i: int, j: int|
                0 <= i < j < post@.len() ==> (#[trigger] post.node_info@[i]).graph_index != (
                #[trigger] post.node_info@[j]).graph_index,
    {
        broadcast use vstd::set::axiom_set_insert_len;

        let n = pre@.len() as int;
        let wpre = dag_weights(pre.dependency_graph);
        let wpost = dag_weights(post.dependency_graph);
        assert(wpost.dom() =~= wpre.dom().insert(gi));
        assert(wpost.dom().len() == wpre.dom().len() + 1);
        assert(post@[n].header == hdr);
        assert(post@[n].header == post.node_info@[n].header@);
        assert(post.node_info@[n].header.header_id == hdr.id);
        assert forall|i: int|
            0 <= i < post@.len() implies dag_weights(post.dependency_graph).dom().contains(
            (#[trigger] post.node_info@[i]).graph_index,
        ) && dag_weights(post.dependency_graph)[post.node_info@[i].graph_index]
            == post.node_info@[i].header.header_id by {
            if i < n {
                assert(post.node_info@[i] == pre.node_info@[i]);
                assert(wpre.dom().contains(pre.node_info@[i].graph_index));
                assert(pre.node_info@[i].graph_index != gi);
            } else {
                assert(post.node_info@[i].graph_index == gi);
            }
        }
        assert forall|i: int, j: int|
            0 <= i < j < post@.len() implies (#[trigger] post.node_info@[i]).graph_index != (
        #[trigger] post.node_info@[j]).graph_index by {
            if j < n {
            } else {
                assert(post.node_info@[i].graph_index == pre.node_info@[i].graph_index);
                assert(wpre.dom().contains(pre.node_info@[i].graph_index));
            }
        }
        assert forall|x: usize|
            dag_weights(post.dependency_graph).dom().contains(x) implies exists|i: int|
                0 <= i < post@.len() && (#[trigger] post.node_info@[i]).graph_index == x by {
            if x == gi {
                assert(post.node_info@[n].graph_index == x);
            } else {
                let i = choose|i: int|
                    0 <= i < pre@.len() && (#[trigger] pre.node_info@[i]).graph_index == x;
                assert(post.node_info@[i].graph_index == x);
            }
        }
    }

    /// Appending a node and its parent edges keeps the edge store in
    /// step with the nodes.
    #[verifier::rlimit(100)]
    proof fn lemma_insert_graph(
        pre: State,
        post: State,
        hdr: SpecHeader,
        d: u64,
        gi: usize,
        pidxs: Seq<usize>,
    )
        requires
            State::insert_graph_rel(pre, post, hdr, d, gi, pidxs),
            post.edge_total == pre.edge_total + hdr.parents.len(),
            pre.edge_total + hdr.parents.len() <= 0xffff_fffe,
            total_parents(post@) == total_parents(pre@) + hdr.parents.len(),
        ensures
            post.graph_ok(),
    {
        State::lemma_insert_counts(pre, post, hdr, d, gi, pidxs);
        State::lemma_insert_dom(pre, post, hdr, d, gi, pidxs);
        lemma_edge_batch_len(pidxs, gi);
        assert(dag_edges(post.dependency_graph).len() == dag_edges(pre.dependency_graph).len()
            + pidxs.len());
    }

}

/// Taking one more element of a sequence adds it to the taken set.
pub proof fn lemma_take_push_to_set(s: Seq<u64>, k: int)
    requires
        0 <= k < s.len(),
    ensures
        s.take(k + 1).to_set() =~= s.take(k).to_set().insert(s[k]),
{
    assert forall|y: u64|
        s.take(k + 1).to_set().contains(y) implies s.take(k).to_set().insert(s[k]).contains(
        y,
    ) by {
        let i = choose|i: int| 0 <= i < s.take(k + 1).len() && #[trigger] s.take(k + 1)[i] == y;
        if i < k {
            assert(s.take(k)[i] == y);
            assert(s.take(k).contains(y));
        }
    }
    assert forall|y: u64|
        s.take(k).to_set().insert(s[k]).contains(y) implies s.take(k + 1).to_set().contains(
        y,
    ) by {
        if y == s[k] {
            assert(s.take(k + 1)[k] == y);
            assert(s.take(k + 1).contains(y));
        } else {
            let i = choose|i: int| 0 <= i < s.take(k).len() && #[trigger] s.take(k)[i] == y;
            assert(s.take(k + 1)[i] == y);
            assert(s.take(k + 1).contains(y));
        }
    }
}

impl State {
    /// One step of scanning a parent list for its least depth.
    proof fn lemma_min_parent_depth_step(self, ps: Seq<u64>, k: int, d: u64)
        requires
            0 <= k < ps.len(),
            d == self.depth_of(ps[k]),
        ensures
            self.min_parent_depth(ps.take(k + 1)) == if k == 0 {
                d
            } else if d < self.min_parent_depth(ps.take(k)) {
                d
            } else {
                self.min_parent_depth(ps.take(k))
            },
    {
        assert(ps.take(k + 1).drop_last() =~= ps.take(k));
        assert(ps.take(k + 1).last() == ps[k]);
        if k == 0 {
            assert(ps.take(1).len() == 1);
            assert(ps.take(1)[0] == ps[0]);
        }
    }

    /// Putting the pieces of one insert together: the updated fields
    /// satisfy the whole invariant.
    #[verifier::rlimit(100)]
    proof fn lemma_insert_finish(
        pre: State,
        post: State,
        ni: NodeInfo,
        gi: usize,
        pidxs: Seq<usize>,
    )
        requires
            pre.wf(),
            pre.can_insert(ni.header.header_id, ni.header@),
            ni.graph_index == gi,
            ni.depth as int == pre.new_depth(ni.header@),
            post.node_info@ == pre.node_info@.push(ni),
            ni.header.parent_ids@.len() == 0 ==> post.root_seq() == pre.root_seq().push(
                ni.header.header_id,
            ),
            ni.header.parent_ids@.len() != 0 ==> post.root_seq() == pre.root_seq(),
            post.tip_seq().no_duplicates(),
            post.tip_seq().to_set() == pre.tip_seq().to_set().difference(
                ni.header.parent_ids@.to_set(),
            ).insert(ni.header.header_id),
            !dag_weights(pre.dependency_graph).dom().contains(gi),
            dag_weights(post.dependency_graph) == dag_weights(pre.dependency_graph).insert(
                gi,
                ni.header.header_id,
            ),
            dag_edges(post.dependency_graph) == dag_edges(pre.dependency_graph).add(
                edge_batch(pidxs, gi),
            ),
            pidxs.len() == ni.header.parent_ids@.len(),
            forall|k: int|
                0 <= k < pidxs.len() ==> #[trigger] pidxs[k] == pre.node_info@[pre.idx_of(
                    ni.header.parent_ids@[k],
                )].graph_index && 0 <= pre.idx_of(ni.header.parent_ids@[k]) < pre@.len(),
            post.edge_total == pre.edge_total + ni.header.parent_ids@.len(),
        ensures
            post.wf(),
            post@ == pre@.push(pre.inserted_node(ni.header@)),
    {
        reveal(State::wf);
        let hdrg = ni.header@;
        let d = ni.depth;
        assert(post@ =~= pre@.push(SpecNode { depth: d, header: hdrg }));
        lemma_total_parents_push(pre@, SpecNode { depth: d, header: hdrg });
        State::lemma_insert_abs(pre, post, hdrg, d);
        assert(State::insert_rel(pre, post, hdrg, d));
        State::lemma_insert_roots(pre, post, hdrg, d);
        State::lemma_insert_tips(pre, post, hdrg, d);
        assert(State::insert_graph_rel(pre, post, hdrg, d, gi, pidxs));
        State::lemma_insert_graph(pre, post, hdrg, d, gi, pidxs);
        assert(post.wf());
        assert(pre.inserted_node(hdrg) == (SpecNode { depth: d, header: hdrg }));
    }

    /// Finds every named parent, returning their graph indices and the
    /// least parent depth, or nothing if some parent is absent.
    #[verifier::rlimit(60)]
    fn scan_parents(&self, parents: &Vec<u64>) -> (r: Option<(Vec<usize>, u64)>)
        requires
            self.wf(),
        ensures
            match r {
                Some(pm) => {
                    &&& forall|t: int|
                        0 <= t < parents@.len() ==> self.has_node(#[trigger] parents@[t])
                    &&& pm.0@.len() == parents@.len()
                    &&& forall|t: int|
                        0 <= t < parents@.len() ==> #[trigger] pm.0@[t] == self.node_info@[
                            self.idx_of(parents@[t])
                        ].graph_index && 0 <= self.idx_of(parents@[t]) < self@.len()
                    &&& forall|t: int|
                        0 <= t < parents@.len() ==> dag_weights(
                            self.dependency_graph,
                        ).dom().contains(#[trigger] pm.0@[t])
                    &&& (parents@.no_duplicates() ==> pm.0@.no_duplicates())
                    &&& parents@.len() > 0 ==> pm.1 == self.min_parent_depth(parents@)
                },
                None => !(forall|t: int|
                    0 <= t < parents@.len() ==> self.has_node(#[trigger] parents@[t])),
            },
    {
        proof {
            reveal(State::wf);
        }
        let ghost ps = parents@;
        let n_par = parents.len();
        let mut pidxs: Vec<usize> = Vec::new();
        let mut min_depth: u64 = 0;
        let mut k: usize = 0;
        while k < n_par
            invariant
                self.ids_unique(),
                self@.len() == self.node_info@.len(),
                ps == parents@,
                n_par == ps.len(),
                0 <= k <= n_par,
                pidxs@.len() == k,
                forall|t: int| 0 <= t < k ==> self.has_node(#[trigger] ps[t]),
                forall|t: int|
                    0 <= t < k ==> #[trigger] pidxs@[t] == self.node_info@[self.idx_of(
                        ps[t],
                    )].graph_index && 0 <= self.idx_of(ps[t]) < self@.len(),
                k > 0 ==> min_depth == self.min_parent_depth(ps.take(k as int)),
            decreases n_par - k,
        {
            let p = parents[k];
            match self.find_index(p) {
                None => {
                    proof {
                        assert(!self.has_node(ps[k as int]));
                    }
                    return None;
                },
                Some(j) => {
                    let dep = self.node_info[j].depth;
                    proof {
                        self.lemma_lookup(p);
                        assert(self.depth_of(p) == self@[j as int].depth);
                        self.lemma_min_parent_depth_step(ps, k as int, dep);
                    }
                    let gidx = self.node_info[j].graph_index;
                    if k == 0 || dep < min_depth {
                        min_depth = dep;
                    }
                    pidxs.push(gidx);
                },
            }
            k += 1;
        }
        proof {
            assert(ps.take(n_par as int) =~= ps);
            if ps.no_duplicates() {
                assert forall|t1: int, t2: int|
                    (0 <= t1 < pidxs@.len() && 0 <= t2 < pidxs@.len() && t1 != t2)
                        implies pidxs@[t1] != pidxs@[t2] by {
                    self.lemma_lookup(ps[t1]);
                    self.lemma_lookup(ps[t2]);
                    assert(ps[t1] != ps[t2]);
                }
            }
            assert forall|t: int|
                0 <= t < pidxs@.len() implies dag_weights(self.dependency_graph).dom().contains(
                #[trigger] pidxs@[t]) by {
                self.lemma_lookup(ps[t]);
            }
        }
        Some((pidxs, min_depth))
    }

    /// Puts the new node into the edge store and adds one edge per
    /// parent index; only the edge store changes.
    #[verifier::rlimit(100)]
    fn attach_edges(&mut self, header_id: u64, pidxs: &Vec<usize>) -> (gi: usize)
        requires
            old(self).graph_ok(),
            old(self)@.len() == old(self).node_info@.len(),
            pidxs@.no_duplicates(),
            forall|t: int|
                0 <= t < pidxs@.len() ==> dag_weights(old(self).dependency_graph).dom().contains(
                    #[trigger] pidxs@[t],
                ),
            old(self).edge_total + pidxs@.len() <= 0xffff_fffe,
            old(self)@.len() < 0xffff_fffe,
        ensures
            final(self).node_info@ == old(self).node_info@,
            final(self).tips@ == old(self).tips@,
            final(self).root_nodes@ == old(self).root_nodes@,
            final(self).edge_total == old(self).edge_total,
            !dag_weights(old(self).dependency_graph).dom().contains(gi),
            dag_weights(final(self).dependency_graph) == dag_weights(
                old(self).dependency_graph,
            ).insert(gi, header_id),
            dag_edges(final(self).dependency_graph) == dag_edges(
                old(self).dependency_graph,
            ).add(edge_batch(pidxs@, gi)),
    {
        let ghost pre = *old(self);
        let n_par = pidxs.len();
        let gi = dag_add_node(&mut self.dependency_graph, header_id);
        proof {
            assert(pidxs@.take(0) =~= Seq::<usize>::empty());
            assert(pidxs@.take(0).map_values(|p: usize| (p, gi)) =~= Seq::<(
                usize,
                usize,
            )>::empty());
            let e = Seq::<(usize, usize)>::empty();
            e.to_multiset_ensures();
            assert forall|x: (usize, usize)| e.to_multiset().count(x) == 0 by {
                assert(!e.contains(x));
            }
            assert(e.to_multiset() =~= Multiset::empty());
            assert(edge_batch(pidxs@.take(0), gi) =~= Multiset::empty());
            assert(dag_edges(self.dependency_graph) =~= dag_edges(pre.dependency_graph).add(
                edge_batch(pidxs@.take(0), gi),
            ));
        }
        let mut k2: usize = 0;
        while k2 < n_par
            invariant
                self.root_nodes@ == pre.root_nodes@,
                self.node_info@ == pre.node_info@,
                self.tips@ == pre.tips@,
                self.edge_total == pre.edge_total,
                pre.graph_ok(),
                pre@.len() == pre.node_info@.len(),
                n_par == pidxs@.len(),
                0 <= k2 <= n_par,
                pidxs@.no_duplicates(),
                forall|t: int|
                    0 <= t < n_par ==> dag_weights(pre.dependency_graph).dom().contains(
                        #[trigger] pidxs@[t],
                    ),
                !dag_weights(pre.dependency_graph).dom().contains(gi),
                dag_weights(self.dependency_graph) == dag_weights(pre.dependency_graph).insert(
                    gi,
                    header_id,
                ),
                dag_edges(self.dependency_graph) == dag_edges(pre.dependency_graph).add(
                    edge_batch(pidxs@.take(k2 as int), gi),
                ),
                dag_edges(pre.dependency_graph).len() == pre.edge_total,
                pre.edge_total + n_par <= 0xffff_fffe,
            decreases n_par - k2,
        {
            let a = pidxs[k2];
            proof {
                lemma_edge_batch_len(pidxs@.take(k2 as int), gi);
                assert forall|x: usize|
                    #[trigger] dag_edges(self.dependency_graph).count((gi, x)) == 0 by {
                    assert(dag_edges(pre.dependency_graph).count((gi, x)) == pre.edge_mult(
                        gi,
                        x,
                    ));
                    assert(pre.edge_mult(gi, x) == 0) by {
                        if pre.edge_mult(gi, x) == 1 {
                            let (i0, j0): (int, int) = choose|i0: int, j0: int|
                                0 <= i0 < pre@.len() && 0 <= j0 < pre@.len() && (
                                #[trigger] pre.node_info@[i0]).graph_index == gi && (
                                #[trigger] pre.node_info@[j0]).graph_index == x
                                    && pre@[j0].header.parents.contains(pre@[i0].header.id);
                            assert(dag_weights(pre.dependency_graph).dom().contains(gi));
                        }
                    }
                    lemma_edge_batch_count(pidxs@.take(k2 as int), gi, gi, x);
                    if x == gi {
                        if pidxs@.take(k2 as int).contains(gi) {
                            let t = choose|t: int|
                                0 <= t < k2 && #[trigger] pidxs@.take(k2 as int)[t] == gi;
                            assert(pidxs@[t] == gi);
                            assert(false);
                        }
                    }
                }
                assert(a != gi);
                lemma_unreachable_without_outgoing(dag_edges(self.dependency_graph), gi, a);
                assert(dag_edges(self.dependency_graph).len() < 0xffff_ffff);
            }
            let ok = dag_add_edge(&mut self.dependency_graph, a, gi);
            if !ok {
                proof {
                    assert(false);
                }
            }
            proof {
                lemma_edge_batch_push(pidxs@, k2 as int, gi);
            }
            k2 += 1;
        }
        proof {
            assert(pidxs@.take(n_par as int) =~= pidxs@);
        }
        gi
    }

    /// Drops the named parents from the tips and adds the new header;
    /// only the tip vector changes.
    fn retip(&mut self, parents: &Vec<u64>, header_id: u64)
        requires
            old(self).tips@.no_duplicates(),
        ensures
            final(self).node_info@ == old(self).node_info@,
            final(self).root_nodes@ == old(self).root_nodes@,
            final(self).edge_total == old(self).edge_total,
            final(self).dependency_graph == old(self).dependency_graph,
            final(self).tips@.no_duplicates(),
            final(self).tips@.to_set() == old(self).tips@.to_set().difference(
                parents@.to_set(),
            ).insert(header_id),
    {
        let ghost pre = *old(self);
        let ghost ps = parents@;
        let n_par = parents.len();
        let mut k3: usize = 0;
        while k3 < n_par
            invariant
                self.root_nodes@ == pre.root_nodes@,
                self.node_info@ == pre.node_info@,
                self.edge_total == pre.edge_total,
                self.dependency_graph == pre.dependency_graph,
                ps == parents@,
                n_par == ps.len(),
                0 <= k3 <= n_par,
                self.tips@.no_duplicates(),
                self.tips@.to_set() =~= pre.tips@.to_set().difference(
                    ps.take(k3 as int).to_set(),
                ),
            decreases n_par - k3,
        {
            let p = parents[k3];
            set_remove(&mut self.tips, p);
            proof {
                lemma_take_push_to_set(ps, k3 as int);
                assert(self.tips@.to_set() =~= pre.tips@.to_set().difference(
                    ps.take(k3 as int + 1).to_set(),
                ));
            }
            k3 += 1;
        }
        set_insert(&mut self.tips, header_id);
        proof {
            assert(ps.take(n_par as int) =~= ps);
            assert(self.tips@.to_set() =~= pre.tips@.to_set().difference(ps.to_set()).insert(
                header_id,
            ));
        }
    }

    /// Inserts the header under its claimed id. Returns true iff the
    /// header validates against the id, is new, its parents are
    /// distinct and all present, and the u32-indexed edge store has
    /// room; on success the node is appended with its depth per the
    /// depth rule. A rejected header leaves the state unchanged.
    #[verifier::rlimit(100)]
    pub fn insert_header(&mut self, header_id: u64, header: Header) -> (r: bool)
        requires
            old(self).wf(),
        ensures
            final(self).wf(),
            r == old(self).can_insert(header_id, header@),
            !r ==> *final(self) == *old(self),
            r ==> final(self)@ == old(self)@.push(old(self).inserted_node(header@)),
    {
        proof {
            reveal(State::wf);
        }
        let ghost hdrg = header@;
        let ghost pre = *self;
        if header.header_id != header_id {
            return false;
        }
        if !vec_no_dup(&header.parent_ids) {
            return false;
        }
        if self.contains(&header_id) {
            return false;
        }
        if self.node_info.len() >= 0xffff_fffe {
            return false;
        }
        let n_par = header.parent_ids.len();
        if n_par as u64 >= 0xffff_ffffu64 - self.edge_total {
            proof {
                assert(total_parents(self@) + hdrg.parents.len() >= 0xffff_ffff);
            }
            return false;
        }
        // find each parent, its graph index, and the least parent depth
        let ghost ps = header.parent_ids@;
        let sp = self.scan_parents(&header.parent_ids);
        let (parent_idxs, min_depth) = match sp {
            None => {
                return false;
            },
            Some(pm) => pm,
        };
        proof {
            assert(pre.can_insert(header_id, hdrg));
        }
        // the new node\'s depth
        let depth: u64;
        if n_par == 0 {
            depth = 1;
        } else {
            proof {
                State::lemma_new_depth_bound(pre, hdrg);
            }
            depth = min_depth + 1;
        }
        proof {
            assert(depth as int == pre.new_depth(hdrg));
        }
        // the node and its edges go into the edge store, the parents
        // stop being tips, the new header becomes one
        let gi = self.attach_edges(header_id, &parent_idxs);
        self.retip(&header.parent_ids, header_id);
        // the roots gain the header when it is root-attached
        if n_par == 0 {
            self.root_nodes.push(header_id);
        }
        // the node record itself
        let ghost nig = NodeInfo { graph_index: gi, depth: depth, header: header };
        self.node_info.push(NodeInfo { graph_index: gi, depth, header });
        self.edge_total = self.edge_total + n_par as u64;
        proof {
            assert(self.node_info@ == pre.node_info@.push(nig));
            State::lemma_insert_finish(pre, *self, nig, gi, parent_idxs@);
        }
        true
    }
}


/// The sum of the parent-list lengths over a sequence of nodes.
pub open spec fn total_parents(s: Seq<SpecNode>) -> int
    decreases s.len(),
{
    if s.len() == 0 {
        0
    } else {
        total_parents(s.drop_last()) + s.last().header.parents.len()
    }
}

/// Appending a node grows the parent-list total by its parent count.
pub proof fn lemma_total_parents_push(s: Seq<SpecNode>, n: SpecNode)
    ensures
        total_parents(s.push(n)) == total_parents(s) + n.header.parents.len(),
{
    assert(s.push(n).drop_last() =~= s);
    assert(s.push(n).last() == n);
}

impl State {
    /// The set of present ids.
    pub open spec fn id_set(self) -> Set<u64> {
        self.ids().to_set()
    }

    /// Under unique ids, the id set is finite and counts the nodes.
    pub proof fn lemma_id_set(self)
        requires
            self.ids_unique(),
        ensures
            self.id_set().finite(),
            self.id_set().len() == self@.len(),
            forall|h: u64| self.id_set().contains(h) <==> self.has_node(h),
    {
        broadcast use vstd::seq_lib::seq_to_set_is_finite;

        self.lemma_ids_no_dup();
        self.ids().unique_seq_to_set();
        self.lemma_has_node_ids();
        assert forall|h: u64| self.id_set().contains(h) <==> self.has_node(h) by {
            assert(self.id_set().contains(h) == self.ids().contains(h));
        }
    }

    /// Present ids are exactly the entries of `ids()`.
    pub proof fn lemma_has_node_ids(self)
        ensures
            forall|h: u64| self.has_node(h) <==> self.ids().contains(h),
    {
        assert forall|h: u64| self.has_node(h) implies self.ids().contains(h) by {
            let i = choose|i: int|
                0 <= i < self@.len() && (#[trigger] self@[i]).header.id == h;
            assert(self.ids()[i] == h);
        }
        assert forall|h: u64| self.ids().contains(h) implies self.has_node(h) by {
            let i = choose|i: int| 0 <= i < self.ids().len() && self.ids()[i] == h;
            assert(self@[i].header.id == h);
        }
    }

    /// A well-formed graph fits the u32-indexed edge store.
    pub proof fn lemma_size_bound(self)
        requires
            self.wf(),
        ensures
            self@.len() <= 0xffff_fffe,
    {
        reveal(State::wf);
    }

    /// The tips are exactly the present nodes that no node lists as a
    /// parent.
    pub proof fn lemma_tips_are_childless(self)
        requires
            self.wf(),
        ensures
            forall|h: u64|
                self.tip_seq().contains(h) <==> (self.has_node(h) && self.childless(h)),
            self.tip_seq().no_duplicates(),
    {
        reveal(State::wf);
    }

    /// The recorded roots are exactly the present nodes with an empty
    /// parent list.
    pub proof fn lemma_roots_are_parentless(self)
        requires
            self.wf(),
        ensures
            forall|h: u64|
                self.root_seq().contains(h) <==> (self.has_node(h) && self.parents_of(h).len()
                    == 0),
            self.root_seq().no_duplicates(),
    {
        reveal(State::wf);
    }

    /// The depth of a present node is 1 when it is root-attached, else
    /// one more than the least depth of its parents.
    pub proof fn lemma_depth_rule(self, h: u64)
        requires
            self.wf(),
            self.has_node(h),
        ensures
            self.parents_of(h).len() == 0 ==> self.depth_of(h) == 1,
            self.parents_of(h).len() > 0 ==> self.depth_of(h) as int == 1
                + self.min_parent_depth(self.parents_of(h)),
    {
        reveal(State::wf);
        self.lemma_lookup(h);
        let i = self.idx_of(h);
        assert(self@[i].depth == self.new_depth(self@[i].header));
    }

    /// Insertion order is a topological sort: every node's parents stand
    /// strictly earlier in `ids()`, so the parent relation admits no
    /// cycle.
    pub proof fn lemma_topological_order(self)
        requires
            self.wf(),
        ensures
            self.ids().no_duplicates(),
            forall|i: int, k: int|
                0 <= i < self.ids().len() && 0 <= k < self.parents_of(self.ids()[i]).len()
                    ==> exists|j: int|
                    0 <= j < i && self.ids()[j] == (#[trigger] self.parents_of(
                        self.ids()[i],
                    )[k]),
    {
        reveal(State::wf);
        assert forall|i: int, j: int|
            (0 <= i < self.ids().len() && 0 <= j < self.ids().len() && i != j)
                implies self.ids()[i] != self.ids()[j] by {
            assert(self.ids()[i] == self@[i].header.id);
            assert(self.ids()[j] == self@[j].header.id);
        }
        assert forall|i: int, k: int|
            0 <= i < self.ids().len() && 0 <= k < self.parents_of(self.ids()[i]).len()
                implies exists|j: int|
                0 <= j < i && self.ids()[j] == (#[trigger] self.parents_of(self.ids()[i])[k]) by {
            let h = self.ids()[i];
            assert(self@[i].header.id == h);
            assert(self.has_node(h));
            self.lemma_lookup(h);
            assert(self.idx_of(h) == i);
            assert(self.parents_of(h) == self@[i].header.parents);
            let j = choose|j: int|
                0 <= j < i && (#[trigger] self@[j]).header.id == self@[i].header.parents[k];
            assert(self.ids()[j] == self.parents_of(h)[k]);
        }
    }

    /// A header whose id is already present can never be inserted, so
    /// re-inserting a header leaves the graph unchanged.
    pub proof fn lemma_duplicate_insert_rejected(self, header_id: u64, hdr: SpecHeader)
        requires
            self.has_node(header_id),
        ensures
            !self.can_insert(header_id, hdr),
    {
    }

    /// Two graphs hold the same nodes: the same ids, each with the same
    /// header.
    pub open spec fn same_nodes(l: State, r: State) -> bool {
        &&& forall|h: u64| l.has_node(h) <==> r.has_node(h)
        &&& forall|h: u64|
            l.has_node(h) ==> #[trigger] l.node_of(h).header == r.node_of(h).header
    }
}

impl State {
    /// Under unique ids, `ids()` is duplicate-free.
    pub proof fn lemma_ids_no_dup(self)
        requires
            self.ids_unique(),
        ensures
            self.ids().no_duplicates(),
    {
        reveal(State::wf);
        assert forall|i: int, j: int|
            (0 <= i < self.ids().len() && 0 <= j < self.ids().len() && i != j)
                implies self.ids()[i] != self.ids()[j] by {
            assert(self.ids()[i] == self@[i].header.id);
            assert(self.ids()[j] == self@[j].header.id);
        }
    }

    /// Graphs with the same nodes have the same number of them.
    proof fn lemma_same_nodes_same_len(l: State, r: State)
        requires
            l.ids_unique(),
            r.ids_unique(),
            State::same_nodes(l, r),
        ensures
            l@.len() == r@.len(),
    {
        l.lemma_has_node_ids();
        r.lemma_has_node_ids();
        l.lemma_ids_no_dup();
        r.lemma_ids_no_dup();
        assert forall|x: u64|
            l.ids().to_set().contains(x) <==> r.ids().to_set().contains(x) by {
            assert(l.ids().to_set().contains(x) == l.ids().contains(x));
            assert(r.ids().to_set().contains(x) == r.ids().contains(x));
            assert(l.ids().contains(x) == l.has_node(x));
            assert(r.ids().contains(x) == r.has_node(x));
            assert(l.has_node(x) == r.has_node(x));
        }
        assert(l.ids().to_set() =~= r.ids().to_set());
        l.ids().unique_seq_to_set();
        r.ids().unique_seq_to_set();
    }

    /// If every node of `l` is matched in `r` and the counts agree, the
    /// graphs hold the same nodes.
    proof fn lemma_scan_same_nodes(l: State, r: State)
        requires
            l.ids_unique(),
            r.ids_unique(),
            l@.len() == r@.len(),
            forall|t: int| 0 <= t < l@.len() ==> {
                &&& r.has_node((#[trigger] l@[t]).header.id)
                &&& r.node_of(l@[t].header.id).header == l@[t].header
            },
        ensures
            State::same_nodes(l, r),
    {
        assert forall|h: u64| l.has_node(h) implies r.has_node(h) && #[trigger] l.node_of(
            h,
        ).header == r.node_of(h).header by {
            l.lemma_lookup(h);
            let t = l.idx_of(h);
            assert(l@[t].header.id == h);
            assert(l.node_of(h).header == l@[t].header);
        }
        l.lemma_has_node_ids();
        r.lemma_has_node_ids();
        l.lemma_ids_no_dup();
        r.lemma_ids_no_dup();
        l.ids().unique_seq_to_set();
        r.ids().unique_seq_to_set();
        assert(forall|x: u64| l.ids().to_set().contains(x) ==> r.ids().to_set().contains(x));
        lemma_subset_same_len(l.ids().to_set(), r.ids().to_set());
        assert forall|h: u64| r.has_node(h) implies l.has_node(h) by {
            assert(r.ids().to_set().contains(h));
        }
    }
}

/// A finite set that another of the same size contains is the same set.
proof fn lemma_subset_same_len(a: Set<u64>, b: Set<u64>)
    requires
        a.finite(),
        b.finite(),
        forall|x: u64| a.contains(x) ==> b.contains(x),
        a.len() == b.len(),
    ensures
        forall|x: u64| b.contains(x) ==> a.contains(x),
{
    assert forall|x: u64| b.contains(x) implies a.contains(x) by {
        if !a.contains(x) {
            a.lemma_subset_not_in_lt(b, x);
        }
    }
}

/// Tests whether two ECG states hold the same DAG: the same header ids
/// with the same parent lists.
pub fn equal_dags(l: &State, r: &State) -> (res: bool)
    requires
        l.wf(),
        r.wf(),
    ensures
        res == State::same_nodes(*l, *r),
{
    proof {
        reveal(State::wf);
    }
    if l.node_info.len() != r.node_info.len() {
        proof {
            if State::same_nodes(*l, *r) {
                State::lemma_same_nodes_same_len(*l, *r);
            }
        }
        return false;
    }
    let n = l.node_info.len();
    let mut i: usize = 0;
    while i < n
        invariant
            l.ids_unique(),
            r.ids_unique(),
            n == l.node_info@.len(),
            l@.len() == l.node_info@.len(),
            r@.len() == r.node_info@.len(),
            l@.len() == r@.len(),
            0 <= i <= n,
            forall|t: int| 0 <= t < i ==> {
                &&& r.has_node((#[trigger] l@[t]).header.id)
                &&& r.node_of(l@[t].header.id).header == l@[t].header
            },
        decreases n - i,
    {
        let id = l.node_info[i].header.header_id;
        proof {
            assert(l@[i as int].header.id == id);
        }
        match r.find_index(id) {
            None => {
                proof {
                    assert(l.has_node(id));
                    assert(!State::same_nodes(*l, *r));
                }
                return false;
            },
            Some(j) => {
                let same = crate::vecset::vec_u64_eq(
                    &l.node_info[i].header.parent_ids,
                    &r.node_info[j].header.parent_ids,
                );
                proof {
                    l.lemma_lookup(id);
                    r.lemma_lookup(id);
                    assert(l.idx_of(id) == i as int);
                    assert(r.idx_of(id) == j as int);
                    assert(l.node_of(id).header.parents == l.node_info@[i as int].header@.parents);
                    assert(r.node_of(id).header.parents == r.node_info@[j as int].header@.parents);
                }
                if !same {
                    proof {
                        assert(l.node_of(id).header.parents != r.node_of(id).header.parents);
                        assert(!State::same_nodes(*l, *r));
                    }
                    return false;
                }
                proof {
                    assert(l.node_of(id).header == r.node_of(id).header);
                }
            },
        }
        i += 1;
    }
    proof {
        State::lemma_scan_same_nodes(*l, *r);
    }
    true
}

} // verus!
