//! The recursive branching network.
mod traversal;

use vstd::prelude::*;
use vstd::arithmetic::power2::*;
use std::collections::VecDeque;

use crate::geometry::growth::{
    grown_depth, grown_parent, growth_count, lemma_grown_depth_bounds, lemma_grown_depth_range,
    lemma_growth_is_breadth_first, lemma_pow2_le,
};

verus! {

/// A node of the branching network.
#[derive(Debug, PartialEq)]
pub struct BranchNode<P> {
    /// What the node carries (its location, flow and capacity).
    pub payload: P,
    /// The branching depth of this node.
    pub depth: usize,
    /// The parent index, if this node is not the root.
    pub parent: Option<usize>,
}

/// A directed edge from a parent to one of its children.
#[derive(Debug, PartialEq)]
pub struct BranchEdge<E> {
    pub from: usize,
    pub to: usize,
    /// What the edge carries (its weight and capacity).
    pub payload: E,
}

/// A recursive branching structure: a tree rooted at node 0 whose nodes are
/// stored in creation order, with one edge per non-root node.
#[derive(Debug, PartialEq)]
pub struct BranchNetwork<P, E> {
    nodes: Vec<BranchNode<P>>,
    edges: Vec<BranchEdge<E>>,
}

/// Alias for the branch network as a graph-oriented structure.
pub type BranchGraph<P, E> = BranchNetwork<P, E>;

impl<P: Clone> Clone for BranchNode<P> {
    /// A copy of the node whose payload is a clone of this one's.
    fn clone(&self) -> (r: Self)
        ensures
            r.depth == self.depth,
            r.parent == self.parent,
            cloned(self.payload, r.payload),
    {
        BranchNode { payload: self.payload.clone(), depth: self.depth, parent: self.parent }
    }
}

impl<E: Clone> Clone for BranchEdge<E> {
    /// A copy of the edge whose payload is a clone of this one's.
    fn clone(&self) -> (r: Self)
        ensures
            r.from == self.from,
            r.to == self.to,
            cloned(self.payload, r.payload),
    {
        BranchEdge { from: self.from, to: self.to, payload: self.payload.clone() }
    }
}

impl<P: Clone, E: Clone> Clone for BranchNetwork<P, E> {
    /// A copy of the network with the same shape; every payload is a clone
    /// of the one at the same place.
    fn clone(&self) -> (r: Self)
        ensures
            r.node_seq().len() == self.node_seq().len(),
            r.edge_seq().len() == self.edge_seq().len(),
            forall|i: int|
                #![trigger r.node_seq()[i]]
                0 <= i < self.node_seq().len() ==> {
                    &&& r.node_seq()[i].depth == self.node_seq()[i].depth
                    &&& r.node_seq()[i].parent == self.node_seq()[i].parent
                    &&& cloned(self.node_seq()[i].payload, r.node_seq()[i].payload)
                },
            forall|k: int|
                #![trigger r.edge_seq()[k]]
                0 <= k < self.edge_seq().len() ==> {
                    &&& r.edge_seq()[k].from == self.edge_seq()[k].from
                    &&& r.edge_seq()[k].to == self.edge_seq()[k].to
                    &&& cloned(self.edge_seq()[k].payload, r.edge_seq()[k].payload)
                },
            self.wf() ==> r.wf(),
    {
        let nodes = self.nodes.clone();
        let edges = self.edges.clone();
        let r = BranchNetwork { nodes, edges };
        proof {
            assert forall|i: int| 0 <= i < self.node_seq().len() implies {
                &&& #[trigger] r.node_seq()[i].depth == self.node_seq()[i].depth
                &&& r.node_seq()[i].parent == self.node_seq()[i].parent
                &&& cloned(self.node_seq()[i].payload, r.node_seq()[i].payload)
            } by {
                assert(cloned(self.nodes[i], r.nodes[i]));
            }
            assert forall|k: int| 0 <= k < self.edge_seq().len() implies {
                &&& #[trigger] r.edge_seq()[k].from == self.edge_seq()[k].from
                &&& r.edge_seq()[k].to == self.edge_seq()[k].to
                &&& cloned(self.edge_seq()[k].payload, r.edge_seq()[k].payload)
            } by {
                assert(cloned(self.edges[k], r.edges[k]));
            }
        }
        r
    }
}

/// The targets of the edges that leave `from`, in edge order.
pub open spec fn edge_targets<E>(edges: Seq<BranchEdge<E>>, from: int) -> Seq<usize>
    decreases edges.len(),
{
    if edges.len() == 0 {
        Seq::empty()
    } else {
        let rest = edge_targets(edges.drop_last(), from);
        if edges.last().from == from {
            rest.push(edges.last().to)
        } else {
            rest
        }
    }
}

impl<P, E> BranchNetwork<P, E> {
    /// The nodes, in creation order.
    pub closed spec fn node_seq(&self) -> Seq<BranchNode<P>> {
        self.nodes@
    }

    /// The edges, in creation order.
    pub closed spec fn edge_seq(&self) -> Seq<BranchEdge<E>> {
        self.edges@
    }

    /// The parent index recorded on node `i`.
    pub open spec fn parent_index(&self, i: int) -> int {
        self.node_seq()[i].parent->0 as int
    }

    /// Depth recorded on node `i`.
    pub open spec fn depth_of(&self, i: int) -> int {
        self.node_seq()[i].depth as int
    }

    /// The shape every network keeps: node 0 is the root at depth 0; every
    /// other node has an earlier parent and lies one level below it; edge `k`
    /// leads from the parent of node `k + 1` to node `k + 1`.
    pub open spec fn wf(&self) -> bool {
        &&& 1 <= self.node_seq().len() <= usize::MAX
        &&& self.node_seq()[0].parent is None
        &&& self.node_seq()[0].depth == 0
        &&& forall|i: int|
            #![trigger self.node_seq()[i]]
            1 <= i < self.node_seq().len() ==> {
                &&& self.node_seq()[i].parent is Some
                &&& 0 <= self.parent_index(i) < i
                &&& self.depth_of(i) == self.depth_of(self.parent_index(i)) + 1
            }
        &&& self.edge_seq().len() + 1 == self.node_seq().len()
        &&& forall|k: int|
            #![trigger self.edge_seq()[k]]
            0 <= k < self.edge_seq().len() ==> {
                &&& self.edge_seq()[k].to == k + 1
                &&& self.node_seq()[k + 1].parent == Some(self.edge_seq()[k].from)
            }
    }

    /// The children of node `p`, in the order their edges were created.
    pub open spec fn spec_children(&self, p: int) -> Seq<usize> {
        edge_targets(self.edge_seq(), p)
    }

    /// Creates a branch network with a single root node.
    pub fn new(root_payload: P) -> (net: Self)
        ensures
            net.wf(),
            net.node_seq() == seq![BranchNode { payload: root_payload, depth: 0usize, parent: None::<usize> }],
            net.edge_seq() == Seq::<BranchEdge<E>>::empty(),
    {
        let mut nodes = Vec::new();
        nodes.push(BranchNode { payload: root_payload, depth: 0, parent: None });
        BranchNetwork { nodes, edges: Vec::new() }
    }

    /// Returns the root node.
    pub fn root(&self) -> (r: &BranchNode<P>)
        requires
            self.wf(),
        ensures
            *r == self.node_seq()[0],
    {
        &self.nodes[0]
    }

    /// Returns the root index.
    pub fn root_index(&self) -> (r: usize)
        ensures
            r == 0,
    {
        0
    }

    /// Returns the node list.
    pub fn nodes(&self) -> (r: &[BranchNode<P>])
        ensures
            r@ == self.node_seq(),
    {
        self.nodes.as_slice()
    }

    /// Returns the edge list.
    pub fn edges(&self) -> (r: &[BranchEdge<E>])
        ensures
            r@ == self.edge_seq(),
    {
        self.edges.as_slice()
    }

    /// Returns the number of nodes currently in the network.
    pub fn len(&self) -> (r: usize)
        ensures
            r == self.node_seq().len(),
    {
        self.nodes.len()
    }

    /// Returns true when the network contains only the root node.
    pub fn is_empty(&self) -> (r: bool)
        requires
            self.wf(),
        ensures
            r == (self.node_seq().len() == 1),
    {
        self.nodes.len() <= 1
    }

    /// Returns the depth of the deepest node in the network.
    pub fn max_depth(&self) -> (r: usize)
        requires
            self.wf(),
        ensures
            exists|i: int| 0 <= i < self.node_seq().len() && self.node_seq()[i].depth == r,
            forall|i: int| 0 <= i < self.node_seq().len() ==> self.node_seq()[i].depth <= r,
    {
        let mut best: usize = self.nodes[0].depth;
        let mut i: usize = 1;
        while i < self.nodes.len()
            invariant
                1 <= i <= self.node_seq().len(),
                exists|j: int| 0 <= j < i && self.node_seq()[j].depth == best,
                forall|j: int| 0 <= j < i ==> self.node_seq()[j].depth <= best,
            decreases self.node_seq().len() - i,
        {
            if self.nodes[i].depth > best {
                best = self.nodes[i].depth;
            }
            i = i + 1;
        }
        best
    }

    /// Returns the direct parent of a node, if it exists.
    pub fn parent_of(&self, node_index: usize) -> (r: Option<usize>)
        ensures
            r == (if node_index < self.node_seq().len() {
                self.node_seq()[node_index as int].parent
            } else {
                None
            }),
    {
        if node_index < self.nodes.len() {
            self.nodes[node_index].parent
        } else {
            None
        }
    }

    /// Returns the stored depth of a node, if it exists.
    pub fn node_depth(&self, node_index: usize) -> (r: Option<usize>)
        ensures
            r == (if node_index < self.node_seq().len() {
                Some(self.node_seq()[node_index as int].depth)
            } else {
                None
            }),
    {
        if node_index < self.nodes.len() {
            Some(self.nodes[node_index].depth)
        } else {
            None
        }
    }

    /// Returns what a node carries, if it exists.
    pub fn node_payload(&self, node_index: usize) -> (r: Option<&P>)
        ensures
            r == (if node_index < self.node_seq().len() {
                Some(&self.node_seq()[node_index as int].payload)
            } else {
                None
            }),
    {
        if node_index < self.nodes.len() {
            Some(&self.nodes[node_index].payload)
        } else {
            None
        }
    }

    /// Returns the children of a node.
    pub fn children_of(&self, node_index: usize) -> (r: Vec<usize>)
        ensures
            r@ == self.spec_children(node_index as int),
            self.wf() ==> forall|c: usize|
                #[trigger] r@.contains(c) <==> (1 <= c < self.node_seq().len()
                    && self.node_seq()[c as int].parent == Some(node_index)),
            self.wf() ==> forall|i: int, j: int| 0 <= i < j < r@.len() ==> r@[i] < r@[j],
    {
        proof {
            if self.wf() {
                self.lemma_children_exact(node_index);
                assert forall|c: usize|
                    #[trigger] self.spec_children(node_index as int).contains(c) implies (1 <= c
                        < self.node_seq().len() && self.node_seq()[c as int].parent == Some(
                        node_index,
                    )) by {
                    let i = choose|i: int|
                        0 <= i < self.spec_children(node_index as int).len() && self.spec_children(
                            node_index as int,
                        )[i] == c;
                }
            }
        }
        let mut out: Vec<usize> = Vec::new();
        let mut k: usize = 0;
        while k < self.edges.len()
            invariant
                0 <= k <= self.edge_seq().len(),
                out@ == edge_targets(self.edge_seq().take(k as int), node_index as int),
            decreases self.edge_seq().len() - k,
        {
            assert(self.edge_seq().take(k + 1).drop_last() =~= self.edge_seq().take(k as int));
            if self.edges[k].from == node_index {
                out.push(self.edges[k].to);
            }
            k = k + 1;
        }
        assert(self.edge_seq().take(k as int) =~= self.edge_seq());
        out
    }

    /// Node `first + k`, appended by a growth pass, hangs from
    /// `grown_parent(first, k)` at depth `grown_depth(k)`, is reached by edge
    /// `first + k - 1`, and carries what `spawn` returned for its parent's
    /// payload and the `k`-th choice.
    pub open spec fn grown_node_matches<F: Fn(&P, usize) -> (P, E)>(
        &self,
        first: int,
        k: int,
        choices: Seq<usize>,
        spawn: &F,
    ) -> bool {
        let i = first + k;
        let par = grown_parent(first, k);
        &&& self.node_seq()[i].parent == Some(par as usize)
        &&& self.node_seq()[i].depth == grown_depth(k as nat)
        &&& self.edge_seq()[i - 1].from == par
        &&& self.edge_seq()[i - 1].to == i
        &&& call_ensures(
            spawn,
            (&self.node_seq()[par].payload, choices[k]),
            (self.node_seq()[i].payload, self.edge_seq()[i - 1].payload),
        )
    }

    /// Grows the network breadth-first from the root: every node taken from
    /// the frontier whose depth is below `depth_limit` receives two new
    /// children. The `k`-th new node is made by `spawn` from its parent's
    /// payload and `choices[k]` (the transformation drawn for it), which
    /// returns the child's payload and its edge's payload.
    #[verifier::rlimit(30)]
    pub fn grow_from_ifs<F: Fn(&P, usize) -> (P, E)>(
        &mut self,
        choices: &[usize],
        spawn: &F,
        depth_limit: usize,
    )
        requires
            old(self).wf(),
            old(self).node_seq().len() + growth_count(depth_limit as nat) <= usize::MAX,
            choices@.len() == growth_count(depth_limit as nat),
            forall|p: &P, i: usize| #[trigger] spawn.requires((p, i)),
        ensures
            final(self).wf(),
            final(self).node_seq().len() == old(self).node_seq().len() + growth_count(depth_limit as nat),
            final(self).node_seq().subrange(0, old(self).node_seq().len() as int) == old(self).node_seq(),
            final(self).edge_seq().subrange(0, old(self).edge_seq().len() as int) == old(self).edge_seq(),
            forall|k: int| 0 <= k < growth_count(depth_limit as nat) ==>
                #[trigger] final(self).grown_node_matches(old(self).node_seq().len() as int, k, choices@, spawn),
            depth_limit >= 1 ==> growth_count(depth_limit as nat) >= 2 && final(self).node_seq()[old(
                self,
            ).node_seq().len() as int].parent == Some(0usize) && final(self).node_seq()[old(self).node_seq().len() + 1int].parent
                == Some(0usize),
            forall|k: int|
                #![trigger final(self).node_seq()[old(self).node_seq().len() + k]]
                0 <= k < growth_count(depth_limit as nat) ==> 1 <= final(self).node_seq()[old(
                    self,
                ).node_seq().len() + k].depth <= depth_limit,
            forall|k: int|
                #![trigger final(self).node_seq()[old(self).node_seq().len() + k]]
                0 <= k < growth_count(depth_limit as nat) && final(self).node_seq()[old(
                    self,
                ).node_seq().len() + k].depth < depth_limit ==> {
                    &&& 2 * k + 3 < growth_count(depth_limit as nat)
                    &&& final(self).node_seq()[old(self).node_seq().len() + 2 * k + 2].parent
                        == Some((old(self).node_seq().len() + k) as usize)
                    &&& final(self).node_seq()[old(self).node_seq().len() + 2 * k + 3].parent
                        == Some((old(self).node_seq().len() + k) as usize)
                },
            forall|k1: int, k2: int|
                #![trigger final(self).node_seq()[old(self).node_seq().len() + k1], final(self).node_seq()[old(self).node_seq().len() + k2]]
                0 <= k1 <= k2 < growth_count(depth_limit as nat) ==> {
                    &&& final(self).node_seq()[old(self).node_seq().len() + k1].depth
                        <= final(self).node_seq()[old(self).node_seq().len() + k2].depth
                    &&& final(self).parent_index(old(self).node_seq().len() + k1)
                        <= final(self).parent_index(old(self).node_seq().len() + k2)
                },
            forall|k: int|
                #![trigger final(self).node_seq()[old(self).node_seq().len() + k]]
                0 <= k < growth_count(depth_limit as nat) && k % 2 == 0 ==> k + 1 < growth_count(
                    depth_limit as nat,
                ) && final(self).node_seq()[old(self).node_seq().len() + k].parent
                    == final(self).node_seq()[old(self).node_seq().len() + k + 1].parent,
            forall|k: int|
                #![trigger final(self).node_seq()[old(self).node_seq().len() + k]]
                0 <= k < growth_count(depth_limit as nat) ==> {
                    let i = old(self).node_seq().len() + k;
                    &&& final(self).node_seq()[i].parent is Some
                    &&& final(self).parent_index(i) < i
                    &&& final(self).edge_seq()[i - 1].from == final(self).parent_index(i)
                    &&& call_ensures(
                        spawn,
                        (&final(self).node_seq()[final(self).parent_index(i)].payload, choices@[k]),
                        (final(self).node_seq()[i].payload, final(self).edge_seq()[i - 1].payload),
                    )
                },
    {
        let ghost n0: int = self.node_seq().len() as int;
        let ghost m: int = growth_count(depth_limit as nat) as int;
        let ghost old_nodes = self.node_seq();
        let ghost old_edges = self.edge_seq();
        let ghost mut q: int = 0;
        let ghost mut root_done: bool = false;
        proof {
            lemma_pow2_unfold(depth_limit as nat + 1);
            lemma_pow2_pos(depth_limit as nat);
        }
        let first = self.nodes.len();
        let mut frontier: VecDeque<usize> = VecDeque::new();
        frontier.push_back(0);
        while frontier.len() > 0
            invariant
                self.wf(),
                n0 == old_nodes.len(),
                n0 == first,
                n0 >= 1,
                old_nodes == old(self).node_seq(),
                old_edges == old(self).edge_seq(),
                m == growth_count(depth_limit as nat),
                m + 2 == pow2(depth_limit as nat + 1),
                n0 + m <= usize::MAX,
                forall|p: &P, i: usize| #[trigger] spawn.requires((p, i)),
                choices@.len() == m,
                n0 <= self.node_seq().len() <= n0 + m,
                self.node_seq().subrange(0, n0) == old_nodes,
                self.edge_seq().subrange(0, n0 - 1) == old_edges,
                forall|k: int|
                    0 <= k < self.node_seq().len() - n0 ==> #[trigger] self.grown_node_matches(n0, k, choices@, spawn),
                !root_done ==> q == 0 && self.node_seq().len() == n0 && frontier@ == seq![0usize],
                root_done ==> 0 <= q <= self.node_seq().len() - n0,
                root_done ==> self.node_seq().len() - n0 == (if 2 * q + 2 <= m {
                    2 * q + 2
                } else {
                    m
                }),
                root_done ==> frontier@ == Seq::new(
                    (self.node_seq().len() - n0 - q) as nat,
                    |j: int| (n0 + q + j) as usize,
                ),
            decreases (if root_done {
                m - q
            } else {
                m + 1
            }),
        {
            let index = frontier.pop_front().unwrap();
            let ghost a: int = self.node_seq().len() - n0;
            proof {
                if root_done {
                    assert(index == n0 + q);
                    assert(self.grown_node_matches(n0, q, choices@, spawn));
                    lemma_grown_depth_bounds(q as nat);
                } else {
                    assert(index == 0);
                }
            }
            let depth = self.nodes[index].depth;
            if depth < depth_limit {
                proof {
                    if root_done {
                        lemma_pow2_le(grown_depth(q as nat) + 1, depth_limit as nat);
                        lemma_pow2_unfold(depth_limit as nat + 1);
                        assert(a == 2 * q + 2);
                        assert(a + 2 <= m);
                    } else {
                        lemma_pow2_le(1, depth_limit as nat);
                        lemma_pow2_unfold(1);
                        assert(pow2(0) == 1) by {
                            lemma2_to64();
                        }
                        lemma_pow2_unfold(depth_limit as nat + 1);
                        assert(2 <= m);
                    }
                }
                let drawn = self.nodes.len() - first;
                let (p1, e1) = spawn(&self.nodes[index].payload, choices[drawn]);
                let (p2, e2) = spawn(&self.nodes[index].payload, choices[drawn + 1]);
                let ghost pre = *self;
                let next = self.nodes.len();
                self.nodes.push(BranchNode { payload: p1, depth: depth + 1, parent: Some(index) });
                self.edges.push(BranchEdge { from: index, to: next, payload: e1 });
                frontier.push_back(next);
                self.nodes.push(
                    BranchNode { payload: p2, depth: depth + 1, parent: Some(index) },
                );
                self.edges.push(BranchEdge { from: index, to: next + 1, payload: e2 });
                frontier.push_back(next + 1);
                proof {
                    if root_done {
                        assert(grown_depth((2 * q + 2) as nat) == grown_depth(q as nat) + 1);
                        assert(grown_depth((2 * q + 3) as nat) == grown_depth(q as nat) + 1);
                    }
                    assert(self.grown_node_matches(n0, a, choices@, spawn));
                    assert(self.grown_node_matches(n0, a + 1, choices@, spawn));
                    Self::lemma_appended_keep_matches(pre, *self, n0, a, choices@, spawn);
                    assert(self.node_seq().subrange(0, n0) =~= old_nodes);
                    assert(self.edge_seq().subrange(0, n0 - 1) =~= old_edges);
                }
            } else {
                proof {
                    if root_done {
                        lemma_pow2_le(depth_limit as nat, grown_depth(q as nat));
                        lemma_pow2_unfold(depth_limit as nat + 1);
                        assert(a == m);
                    } else {
                        lemma_pow2_unfold(1);
                        assert(pow2(0) == 1) by {
                            lemma2_to64();
                        }
                        assert(m == 0);
                    }
                }
            }
            proof {
                if root_done {
                    q = q + 1;
                } else {
                    root_done = true;
                }
            }
        }
        proof {
            self.lemma_grown_shape(n0, depth_limit as nat, choices@, spawn);
        }
    }

    /// What the nodes appended by a growth pass are, stated on the nodes
    /// themselves: the first two hang from the root, every appended node lies
    /// between depth 1 and the limit, every one above the limit has the two
    /// next-numbered children, they are made in breadth-first order, and each
    /// carries what `spawn` returned for its recorded parent's payload and its
    /// own choice.
    pub proof fn lemma_grown_shape<F: Fn(&P, usize) -> (P, E)>(
        &self,
        first: int,
        depth_limit: nat,
        choices: Seq<usize>,
        spawn: &F,
    )
        requires
            self.wf(),
            first >= 1,
            self.node_seq().len() == first + growth_count(depth_limit),
            forall|k: int|
                0 <= k < growth_count(depth_limit) ==> #[trigger] self.grown_node_matches(
                    first,
                    k,
                    choices,
                    spawn,
                ),
        ensures
            depth_limit >= 1 ==> growth_count(depth_limit) >= 2 && self.node_seq()[first as int].parent == Some(0usize) && self.node_seq()[first + 1int].parent
                == Some(0usize),
            forall|k: int|
                #![trigger self.node_seq()[first + k]]
                0 <= k < growth_count(depth_limit) ==> 1 <= self.node_seq()[first + k].depth <= depth_limit,
            forall|k: int|
                #![trigger self.node_seq()[first + k]]
                0 <= k < growth_count(depth_limit) && self.node_seq()[first + k].depth < depth_limit ==> {
                    &&& 2 * k + 3 < growth_count(depth_limit)
                    &&& self.node_seq()[first + 2 * k + 2].parent
                        == Some((first + k) as usize)
                    &&& self.node_seq()[first + 2 * k + 3].parent
                        == Some((first + k) as usize)
                },
            forall|k1: int, k2: int|
                #![trigger self.node_seq()[first + k1], self.node_seq()[first + k2]]
                0 <= k1 <= k2 < growth_count(depth_limit) ==> {
                    &&& self.node_seq()[first + k1].depth
                        <= self.node_seq()[first + k2].depth
                    &&& self.parent_index(first + k1)
                        <= self.parent_index(first + k2)
                },
            forall|k: int|
                #![trigger self.node_seq()[first + k]]
                0 <= k < growth_count(depth_limit) && k % 2 == 0 ==> k + 1 < growth_count(
                    depth_limit,
                ) && self.node_seq()[first + k].parent
                    == self.node_seq()[first + k + 1].parent,
            forall|k: int|
                #![trigger self.node_seq()[first + k]]
                0 <= k < growth_count(depth_limit) ==> {
                    let i = first + k;
                    &&& self.node_seq()[i].parent is Some
                    &&& self.parent_index(i) < i
                    &&& self.edge_seq()[i - 1].from == self.parent_index(i)
                    &&& call_ensures(
                        spawn,
                        (&self.node_seq()[self.parent_index(i)].payload, choices[k]),
                        (self.node_seq()[i].payload, self.edge_seq()[i - 1].payload),
                    )
                },
    {
        self.lemma_grown_payloads(first, depth_limit, choices, spawn);
        self.lemma_grown_levels(first, depth_limit, choices, spawn);
        self.lemma_grown_order(first, depth_limit, choices, spawn);
    }

    /// Each appended node carries what `spawn` made from its recorded parent.
    proof fn lemma_grown_payloads<F: Fn(&P, usize) -> (P, E)>(
        &self,
        first: int,
        depth_limit: nat,
        choices: Seq<usize>,
        spawn: &F,
    )
        requires
            self.wf(),
            first >= 1,
            self.node_seq().len() == first + growth_count(depth_limit),
            forall|k: int|
                0 <= k < growth_count(depth_limit) ==> #[trigger] self.grown_node_matches(
                    first,
                    k,
                    choices,
                    spawn,
                ),
        ensures
            forall|k: int|
                #![trigger self.node_seq()[first + k]]
                0 <= k < growth_count(depth_limit) ==> {
                    let i = first + k;
                    &&& self.node_seq()[i].parent is Some
                    &&& self.parent_index(i) < i
                    &&& self.edge_seq()[i - 1].from == self.parent_index(i)
                    &&& call_ensures(
                        spawn,
                        (&self.node_seq()[self.parent_index(i)].payload, choices[k]),
                        (self.node_seq()[i].payload, self.edge_seq()[i - 1].payload),
                    )
                },
    {
        let m = growth_count(depth_limit) as int;
        assert forall|k: int| 0 <= k < m implies {
            let i = first + k;
            &&& #[trigger] self.node_seq()[first + k].parent is Some
            &&& self.parent_index(i) < i
            &&& self.edge_seq()[i - 1].from == self.parent_index(i)
            &&& call_ensures(
                spawn,
                (&self.node_seq()[self.parent_index(i)].payload, choices[k]),
                (self.node_seq()[i].payload, self.edge_seq()[i - 1].payload),
            )
        } by {
            assert(self.grown_node_matches(first, k, choices, spawn));
        }
    }

    /// The root's two new children, the depths of appended nodes, and the children of those above the limit.
    proof fn lemma_grown_levels<F: Fn(&P, usize) -> (P, E)>(
        &self,
        first: int,
        depth_limit: nat,
        choices: Seq<usize>,
        spawn: &F,
    )
        requires
            self.wf(),
            first >= 1,
            self.node_seq().len() == first + growth_count(depth_limit),
            forall|k: int|
                0 <= k < growth_count(depth_limit) ==> #[trigger] self.grown_node_matches(
                    first,
                    k,
                    choices,
                    spawn,
                ),
        ensures
            depth_limit >= 1 ==> growth_count(depth_limit) >= 2 && self.node_seq()[first as int].parent == Some(0usize) && self.node_seq()[first + 1int].parent
                == Some(0usize),
            forall|k: int|
                #![trigger self.node_seq()[first + k]]
                0 <= k < growth_count(depth_limit) ==> 1 <= self.node_seq()[first + k].depth <= depth_limit,
            forall|k: int|
                #![trigger self.node_seq()[first + k]]
                0 <= k < growth_count(depth_limit) && self.node_seq()[first + k].depth < depth_limit ==> {
                    &&& 2 * k + 3 < growth_count(depth_limit)
                    &&& self.node_seq()[first + 2 * k + 2].parent
                        == Some((first + k) as usize)
                    &&& self.node_seq()[first + 2 * k + 3].parent
                        == Some((first + k) as usize)
                },
    {
        let m = growth_count(depth_limit) as int;
        lemma_pow2_unfold(depth_limit + 1);
        lemma_pow2_pos(depth_limit);
        assert(m % 2 == 0);
        if depth_limit >= 1 {
            lemma_pow2_le(1, depth_limit);
            lemma_pow2_unfold(1);
            assert(pow2(0) == 1) by {
                lemma2_to64();
            }
            assert(self.grown_node_matches(first, 0, choices, spawn));
            assert(self.grown_node_matches(first, 1, choices, spawn));
        }
        assert forall|k: int| 0 <= k < m implies 1 <= #[trigger] self.node_seq()[first + k].depth
            <= depth_limit by {
            assert(self.grown_node_matches(first, k, choices, spawn));
            lemma_grown_depth_range(depth_limit, k as nat);
        }
        assert forall|k: int|
            0 <= k < m && #[trigger] self.node_seq()[first + k].depth < depth_limit implies {
            &&& 2 * k + 3 < m
            &&& self.node_seq()[first + 2 * k + 2].parent == Some((first + k) as usize)
            &&& self.node_seq()[first + 2 * k + 3].parent == Some((first + k) as usize)
        } by {
            assert(self.grown_node_matches(first, k, choices, spawn));
            lemma_grown_depth_bounds(k as nat);
            lemma_pow2_le(grown_depth(k as nat) + 1, depth_limit);
            assert(self.grown_node_matches(first, 2 * k + 2, choices, spawn));
            assert(self.grown_node_matches(first, 2 * k + 3, choices, spawn));
        }
    }

    /// Appended nodes come level by level, in pairs of siblings.
    proof fn lemma_grown_order<F: Fn(&P, usize) -> (P, E)>(
        &self,
        first: int,
        depth_limit: nat,
        choices: Seq<usize>,
        spawn: &F,
    )
        requires
            self.wf(),
            first >= 1,
            self.node_seq().len() == first + growth_count(depth_limit),
            forall|k: int|
                0 <= k < growth_count(depth_limit) ==> #[trigger] self.grown_node_matches(
                    first,
                    k,
                    choices,
                    spawn,
                ),
        ensures
            forall|k1: int, k2: int|
                #![trigger self.node_seq()[first + k1], self.node_seq()[first + k2]]
                0 <= k1 <= k2 < growth_count(depth_limit) ==> {
                    &&& self.node_seq()[first + k1].depth
                        <= self.node_seq()[first + k2].depth
                    &&& self.parent_index(first + k1)
                        <= self.parent_index(first + k2)
                },
            forall|k: int|
                #![trigger self.node_seq()[first + k]]
                0 <= k < growth_count(depth_limit) && k % 2 == 0 ==> k + 1 < growth_count(
                    depth_limit,
                ) && self.node_seq()[first + k].parent
                    == self.node_seq()[first + k + 1].parent,
    {
        let m = growth_count(depth_limit) as int;
        lemma_pow2_unfold(depth_limit + 1);
        lemma_pow2_pos(depth_limit);
        assert(m % 2 == 0);
        assert forall|k1: int, k2: int| 0 <= k1 <= k2 < m implies {
            &&& #[trigger] self.node_seq()[first + k1].depth <= #[trigger] self.node_seq()[first + k2].depth
            &&& self.parent_index(first + k1) <= self.parent_index(first + k2)
        } by {
            assert(self.grown_node_matches(first, k1, choices, spawn));
            assert(self.grown_node_matches(first, k2, choices, spawn));
            lemma_growth_is_breadth_first(first, k1 as nat, k2 as nat);
        }
        assert forall|k: int| 0 <= k < m && k % 2 == 0 implies k + 1 < m && #[trigger] self.node_seq()[first
            + k].parent == self.node_seq()[first + k + 1].parent by {
            assert(self.grown_node_matches(first, k, choices, spawn));
            assert(self.grown_node_matches(first, k + 1, choices, spawn));
            lemma_growth_is_breadth_first(first, k as nat, k as nat);
        }
    
    }

    /// Appending nodes and edges leaves the nodes already grown as they were.
    proof fn lemma_appended_keep_matches<F: Fn(&P, usize) -> (P, E)>(
        pre: Self,
        post: Self,
        n0: int,
        a: int,
        choices: Seq<usize>,
        spawn: &F,
    )
        requires
            n0 >= 1,
            a >= 0,
            pre.node_seq().len() == n0 + a,
            pre.edge_seq().len() == n0 + a - 1,
            post.node_seq().len() == n0 + a + 2,
            post.edge_seq().len() == n0 + a + 1,
            forall|i: int| 0 <= i < n0 + a ==> post.node_seq()[i] == pre.node_seq()[i],
            forall|i: int| 0 <= i < n0 + a - 1 ==> post.edge_seq()[i] == pre.edge_seq()[i],
            forall|k: int| 0 <= k < a ==> #[trigger] pre.grown_node_matches(n0, k, choices, spawn),
            post.grown_node_matches(n0, a, choices, spawn),
            post.grown_node_matches(n0, a + 1, choices, spawn),
        ensures
            forall|k: int| 0 <= k < a + 2 ==> #[trigger] post.grown_node_matches(n0, k, choices, spawn),
    {
        assert forall|k: int| 0 <= k < a + 2 implies #[trigger] post.grown_node_matches(n0, k, choices, spawn) by {
            if k < a {
                assert(pre.grown_node_matches(n0, k, choices, spawn));
                assert(post.node_seq()[n0 + k] == pre.node_seq()[n0 + k]);
                assert(post.edge_seq()[n0 + k - 1] == pre.edge_seq()[n0 + k - 1]);
                assert(post.node_seq()[grown_parent(n0, k)] == pre.node_seq()[grown_parent(n0, k)]);
            }
        }
    }

    /// The children of `p` among the first `m` edges are exactly the nodes
    /// `1..=m` whose parent is `p`, in increasing order.
    proof fn lemma_edge_targets_prefix(&self, p: usize, m: int)
        requires
            self.wf(),
            0 <= m <= self.edge_seq().len(),
        ensures
            ({
                let t = edge_targets(self.edge_seq().take(m), p as int);
                &&& forall|i: int|
                    0 <= i < t.len() ==> 1 <= #[trigger] t[i] <= m && self.node_seq()[t[i] as int].parent
                        == Some(p)
                &&& forall|i: int, j: int| 0 <= i < j < t.len() ==> t[i] < t[j]
                &&& forall|c: usize|
                    1 <= c <= m && #[trigger] self.node_seq()[c as int].parent == Some(p)
                        ==> t.contains(c)
            }),
        decreases m,
    {
        if m > 0 {
            self.lemma_edge_targets_prefix(p, m - 1);
            assert(self.edge_seq().take(m).drop_last() =~= self.edge_seq().take(m - 1));
            let prev = edge_targets(self.edge_seq().take(m - 1), p as int);
            let t = edge_targets(self.edge_seq().take(m), p as int);
            let e = self.edge_seq()[m - 1];
            assert(self.node_seq()[m].parent == Some(e.from));
            assert forall|c: usize|
                1 <= c <= m && #[trigger] self.node_seq()[c as int].parent == Some(p) implies t.contains(
                c,
            ) by {
                if c < m {
                    let i = choose|i: int| 0 <= i < prev.len() && prev[i] == c;
                    assert(t[i] == c);
                } else {
                    assert(t[t.len() - 1] == c);
                }
            }
        }
    }

    /// The children of `p` are exactly the nodes whose parent is `p`, listed
    /// in increasing order.
    pub proof fn lemma_children_exact(&self, p: usize)
        requires
            self.wf(),
        ensures
            forall|i: int|
                0 <= i < self.spec_children(p as int).len() ==> 1 <= #[trigger] self.spec_children(
                    p as int,
                )[i] < self.node_seq().len() && self.node_seq()[self.spec_children(
                    p as int,
                )[i] as int].parent == Some(p),
            forall|i: int, j: int|
                0 <= i < j < self.spec_children(p as int).len() ==> self.spec_children(p as int)[i]
                    < self.spec_children(p as int)[j],
            forall|c: usize|
                1 <= c < self.node_seq().len() && #[trigger] self.node_seq()[c as int].parent
                    == Some(p) ==> self.spec_children(p as int).contains(c),
    {
        self.lemma_edge_targets_prefix(p, self.edge_seq().len() as int);
        assert(self.edge_seq().take(self.edge_seq().len() as int) =~= self.edge_seq());
    }

    /// A node's depth never exceeds its index.
    pub(crate) proof fn lemma_depth_le_index(&self, x: int)
        requires
            self.wf(),
            0 <= x < self.node_seq().len(),
        ensures
            self.depth_of(x) <= x,
        decreases x,
    {
        if x > 0 {
            assert(self.node_seq()[x].parent is Some);
            self.lemma_depth_le_index(self.parent_index(x));
        }
    }

    /// Every well-formed network is a tree rooted at node 0: the root has no
    /// parent and depth 0; there is one edge fewer than nodes; every edge
    /// leads from an earlier node to a later one, whose recorded parent is
    /// the edge's source and which lies one level below it; and no two edges
    /// lead to the same node.
    pub proof fn lemma_tree_shape(&self)
        requires
            self.wf(),
        ensures
            self.node_seq()[0].parent is None,
            self.node_seq()[0].depth == 0,
            self.edge_seq().len() == self.node_seq().len() - 1,
            forall|k: int|
                #![trigger self.edge_seq()[k]]
                0 <= k < self.edge_seq().len() ==> {
                    &&& self.edge_seq()[k].from < self.edge_seq()[k].to
                    &&& self.edge_seq()[k].to < self.node_seq().len()
                    &&& self.node_seq()[self.edge_seq()[k].to as int].parent == Some(
                        self.edge_seq()[k].from,
                    )
                    &&& self.depth_of(self.edge_seq()[k].to as int) == self.depth_of(
                        self.edge_seq()[k].from as int,
                    ) + 1
                },
            forall|k1: int, k2: int|
                0 <= k1 < self.edge_seq().len() && 0 <= k2 < self.edge_seq().len() && k1 != k2
                    ==> #[trigger] self.edge_seq()[k1].to != #[trigger] self.edge_seq()[k2].to,
    {
        assert forall|k: int| #![trigger self.edge_seq()[k]] 0 <= k < self.edge_seq().len() implies {
            &&& self.edge_seq()[k].from < self.edge_seq()[k].to
            &&& self.edge_seq()[k].to < self.node_seq().len()
            &&& self.node_seq()[self.edge_seq()[k].to as int].parent == Some(self.edge_seq()[k].from)
            &&& self.depth_of(self.edge_seq()[k].to as int) == self.depth_of(
                self.edge_seq()[k].from as int,
            ) + 1
        } by {
            assert(self.node_seq()[k + 1].parent is Some);
        }
    }

    /// After a growth pass with limit `depth_limit` whose first new node is
    /// `first`, every appended node lies between depth 1 and the limit, and
    /// when the limit is at least 1 the last one appended lies at the limit.
    pub proof fn lemma_growth_reaches_limit<F: Fn(&P, usize) -> (P, E)>(
        &self,
        first: int,
        depth_limit: nat,
        choices: Seq<usize>,
        spawn: &F,
    )
        requires
            0 <= first,
            first + growth_count(depth_limit) <= self.node_seq().len(),
            forall|k: int|
                0 <= k < growth_count(depth_limit) ==> #[trigger] self.grown_node_matches(first, k, choices, spawn),
        ensures
            forall|k: int|
                0 <= k < growth_count(depth_limit) ==> 1 <= #[trigger] self.node_seq()[first
                    + k].depth <= depth_limit,
            depth_limit >= 1 ==> self.node_seq()[first + growth_count(depth_limit) - 1].depth
                == depth_limit,
    {
        assert forall|k: int| 0 <= k < growth_count(depth_limit) implies 1 <= #[trigger] self.node_seq()[first
            + k].depth <= depth_limit by {
            assert(self.grown_node_matches(first, k, choices, spawn));
            lemma_grown_depth_range(depth_limit, k as nat);
        }
        if depth_limit >= 1 {
            lemma_pow2_unfold(depth_limit + 1);
            lemma_pow2_le(1, depth_limit);
            lemma_pow2_unfold(1);
            assert(pow2(0) == 1) by {
                lemma2_to64();
            }
            let k = growth_count(depth_limit) - 1;
            assert(self.grown_node_matches(first, k, choices, spawn));
            lemma_grown_depth_range(depth_limit, k as nat);
        }
    }
}

} // verus!
