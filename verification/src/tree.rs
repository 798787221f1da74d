//! A generic, mutable, ownership-safe tree used as a scene graph.
//!
//! Nodes live in an arena and are addressed by stable indices (`NodeRef`);
//! parent and child links are indices rather than pointers. The arena keeps
//! the "parent owns children, a child only observes its parent" direction by
//! construction: a parent's `children` list and a child's `parent` link always
//! agree, and no node is ever reachable from itself by repeated parent steps.

use crate::ids::IdAllocator;
use std::collections::VecDeque;
use vstd::prelude::*;

verus! {

/// A handle to a node in a [`Tree`] arena.
///
/// Handles stay valid for the whole life of the arena. A handle that did not
/// come from this arena may be out of range; `Tree::contains` lets a caller
/// rule that out before resolving it.
#[derive(Clone, Copy, PartialEq, Eq, Structural, Debug)]
pub struct NodeRef {
    pub idx: usize,
}

/// A tree element: identity, optional parent link, ordered children, payload.
///
/// The `parent` and `children` links are maintained by the owning [`Tree`]:
/// they are readable everywhere, but a node handed out by the arena is only
/// ever borrowed, so the links can only be rewritten through the arena's own
/// operations.
pub struct Node<T> {
    /// Unique per process; never reused.
    pub id: usize,
    /// The owning parent; `None` marks a root.
    pub parent: Option<NodeRef>,
    /// Owned children, in insertion order; insertion order is traversal
    /// priority order.
    pub children: Vec<NodeRef>,
    /// Opaque payload supplied by the caller.
    pub data: T,
}

/// Returned by `reparent` when the requested attachment would create a cycle,
/// including attaching a node under itself. The tree is left unchanged.
#[derive(Clone, Copy, PartialEq, Eq, Structural, Debug)]
pub struct CycleError;

/// An arena of nodes forming a forest of trees. Structural mutation goes
/// through `create`, `reparent` and `remove_child` only, which keep the
/// arena well formed. A subtree detached by `remove_child` stays in the
/// arena as a root of its own until the whole arena is dropped, so a handle
/// never dangles; a parent link, when present, always points at a live node
/// that owns it.
pub struct Tree<T> {
    nodes: Vec<Node<T>>,
    ids: IdAllocator,
}

/// The index behind an optional node handle.
pub open spec fn opt_idx(o: Option<NodeRef>) -> Option<int> {
    match o {
        Some(r) => Some(r.idx as int),
        None => None,
    }
}

/// The indices behind a sequence of node handles.
pub open spec fn refs_to_idxs(s: Seq<NodeRef>) -> Seq<int> {
    s.map_values(|r: NodeRef| r.idx as int)
}

/// `s` with every occurrence of `v` taken out, the rest in original order.
pub open spec fn seq_without(s: Seq<int>, v: int) -> Seq<int>
    decreases s.len(),
{
    if s.len() == 0 {
        Seq::empty()
    } else if s.last() == v {
        seq_without(s.drop_last(), v)
    } else {
        seq_without(s.drop_last(), v).push(s.last())
    }
}

/// Taking `v` out of a sequence that does not hold it changes nothing.
pub proof fn lemma_seq_without_absent(s: Seq<int>, v: int)
    requires
        !s.contains(v),
    ensures
        seq_without(s, v) == s,
    decreases s.len(),
{
    if s.len() > 0 {
        assert(!s.drop_last().contains(v)) by {
            if s.drop_last().contains(v) {
                let k = choose|k: int| 0 <= k < s.drop_last().len() && s.drop_last()[k] == v;
                assert(s[k] == v);
            }
        }
        assert(s.last() != v);
        lemma_seq_without_absent(s.drop_last(), v);
        assert(seq_without(s, v) =~= s);
    } else {
        assert(seq_without(s, v) =~= s);
    }
}

/// What is taken out stays out: the result never holds `v`.
pub proof fn lemma_seq_without_gone(s: Seq<int>, v: int)
    ensures
        !seq_without(s, v).contains(v),
    decreases s.len(),
{
    if s.len() > 0 {
        lemma_seq_without_gone(s.drop_last(), v);
        if s.last() != v {
            let r = seq_without(s.drop_last(), v).push(s.last());
            assert forall|k: int| 0 <= k < r.len() implies r[k] != v by {
                if k < r.len() - 1 {
                    assert(seq_without(s.drop_last(), v)[k] == r[k]);
                }
            }
        }
    }
}

/// When `v` occurs exactly once, at position `k`, taking it out is the same
/// as removing position `k`.
pub proof fn lemma_seq_without_unique(s: Seq<int>, v: int, k: int)
    requires
        0 <= k < s.len(),
        s[k] == v,
        forall|j: int| 0 <= j < s.len() && j != k ==> s[j] != v,
    ensures
        seq_without(s, v) == s.remove(k),
    decreases s.len(),
{
    if k == s.len() - 1 {
        assert(!s.drop_last().contains(v)) by {
            if s.drop_last().contains(v) {
                let j = choose|j: int| 0 <= j < s.drop_last().len() && s.drop_last()[j] == v;
                assert(s[j] == v);
            }
        }
        lemma_seq_without_absent(s.drop_last(), v);
        assert(seq_without(s, v) =~= s.remove(k));
    } else {
        assert(s.drop_last()[k] == v);
        lemma_seq_without_unique(s.drop_last(), v, k);
        assert(s.last() != v);
        assert(seq_without(s, v) =~= s.remove(k)) by {
            assert(seq_without(s, v) == s.drop_last().remove(k).push(s.last()));
        }
    }
}

impl<T> Node<T> {
    fn new(id: usize, parent: Option<NodeRef>, data: T) -> (r: Node<T>)
        ensures
            r.id == id,
            r.parent == parent,
            r.children@ == Seq::<NodeRef>::empty(),
            r.data == data,
    {
        Node { id, parent, children: Vec::new(), data }
    }

    /// The node's parent handle, or `None` for a root.
    pub fn parent(&self) -> (r: Option<NodeRef>)
        ensures
            r == self.parent,
    {
        self.parent
    }

    /// Read-only view of the node's children, in insertion order.
    pub fn children(&self) -> (r: &Vec<NodeRef>)
        ensures
            r@ == self.children@,
    {
        &self.children
    }

    /// True iff the node has no children.
    pub fn is_leaf(&self) -> (b: bool)
        ensures
            b == (self.children@.len() == 0),
    {
        self.children.len() == 0
    }

    // Kept in step with the child's parent link by `Tree::create` and
    // `Tree::reparent`, which are the only callers.
    fn add_child(&mut self, child: NodeRef)
        ensures
            final(self).id == old(self).id,
            final(self).parent == old(self).parent,
            final(self).data == old(self).data,
            final(self).children@ == old(self).children@.push(child),
    {
        self.children.push(child);
    }
}

impl<T> Tree<T> {
    /// How many nodes the arena holds.
    pub closed spec fn node_count(&self) -> nat {
        self.nodes.len() as nat
    }

    /// The identifier of the node at index `i`.
    pub closed spec fn id_spec(&self, i: int) -> usize {
        self.nodes[i].id
    }

    /// The parent index of the node at index `i`; `None` marks a root.
    pub closed spec fn parent_spec(&self, i: int) -> Option<int> {
        opt_idx(self.nodes[i].parent)
    }

    /// The ordered child handles of the node at index `i`.
    pub closed spec fn child_refs(&self, i: int) -> Seq<NodeRef> {
        self.nodes[i].children@
    }

    /// The ordered child indices of the node at index `i`.
    pub open spec fn children_spec(&self, i: int) -> Seq<int> {
        refs_to_idxs(self.child_refs(i))
    }

    /// The payload of the node at index `i`.
    pub closed spec fn data_spec(&self, i: int) -> T {
        self.nodes[i].data
    }

    /// The next identifier the arena will issue.
    pub closed spec fn next_id_spec(&self) -> nat {
        self.ids.next_spec()
    }

    /// `i` is the index of a node of this arena.
    pub open spec fn valid(&self, i: int) -> bool {
        0 <= i < self.node_count()
    }

    /// The handle `n` points at a node of this arena.
    pub open spec fn valid_ref(&self, n: NodeRef) -> bool {
        self.valid(n.idx as int)
    }

    /// The parent chain from `i` reaches a parentless node within `fuel` steps.
    pub open spec fn hits_root(&self, i: int, fuel: nat) -> bool
        decreases fuel,
    {
        match self.parent_spec(i) {
            None => true,
            Some(p) => fuel > 0 && self.hits_root(p, (fuel - 1) as nat),
        }
    }

    /// The parent chain from `i` reaches a parentless node in finitely many
    /// steps; with `link_wf` below this rules out parent cycles.
    pub open spec fn terminates(&self, i: int) -> bool {
        exists|fuel: nat| self.hits_root(i, fuel)
    }

    /// Some number of steps within which `i`'s parent chain terminates.
    pub open spec fn chain_fuel(&self, i: int) -> nat {
        choose|fuel: nat| self.hits_root(i, fuel)
    }

    /// `a` occurs on `i`'s parent chain, searched for `fuel` steps.
    pub open spec fn on_chain_f(&self, i: int, a: int, fuel: nat) -> bool
        decreases fuel,
    {
        match self.parent_spec(i) {
            None => false,
            Some(p) => p == a || (fuel > 0 && self.on_chain_f(p, a, (fuel - 1) as nat)),
        }
    }

    /// `a` is a proper ancestor of `i`: it occurs on `i`'s parent chain.
    pub open spec fn on_chain(&self, i: int, a: int) -> bool {
        self.on_chain_f(i, a, self.chain_fuel(i))
    }

    /// The index reached from `i` by following parents for `fuel` steps.
    pub open spec fn root_of_f(&self, i: int, fuel: nat) -> int
        decreases fuel,
    {
        match self.parent_spec(i) {
            None => i,
            Some(p) => if fuel > 0 {
                self.root_of_f(p, (fuel - 1) as nat)
            } else {
                i
            },
        }
    }

    /// The root above `i`: the parentless node its parent chain ends at.
    pub open spec fn root_of(&self, i: int) -> int {
        self.root_of_f(i, self.chain_fuel(i))
    }

    /// The number of parent steps from `i` to its root, searched for `fuel`
    /// steps.
    pub open spec fn depth_f(&self, i: int, fuel: nat) -> nat
        decreases fuel,
    {
        match self.parent_spec(i) {
            None => 0,
            Some(p) => if fuel > 0 {
                self.depth_f(p, (fuel - 1) as nat) + 1
            } else {
                0
            },
        }
    }

    /// The number of parent steps from `i` to its root.
    pub open spec fn depth_of(&self, i: int) -> nat {
        self.depth_f(i, self.chain_fuel(i))
    }

    /// Any fuel that lets the chain terminate finds the same depth.
    proof fn lemma_depth_f_agrees(&self, i: int, f1: nat, f2: nat)
        requires
            self.hits_root(i, f1),
            f1 <= f2,
        ensures
            self.depth_f(i, f2) == self.depth_f(i, f1),
        decreases f1,
    {
        match self.parent_spec(i) {
            None => {},
            Some(p) => {
                self.lemma_depth_f_agrees(p, (f1 - 1) as nat, (f2 - 1) as nat);
            },
        }
    }

    /// One parent step down raises the depth by one.
    pub proof fn lemma_depth_step(&self, i: int, p: int)
        requires
            self.terminates(i),
            self.parent_spec(i) == Some(p),
        ensures
            self.terminates(p),
            self.depth_of(i) == self.depth_of(p) + 1,
    {
        let f = self.chain_fuel(i);
        assert(self.hits_root(i, f));
        let f1 = (f - 1) as nat;
        assert(self.hits_root(p, f1));
        let g = self.chain_fuel(p);
        assert(self.hits_root(p, g));
        if f1 <= g {
            self.lemma_depth_f_agrees(p, f1, g);
        } else {
            self.lemma_depth_f_agrees(p, g, f1);
        }
    }

    /// An ancestor sits strictly closer to the root than its descendant.
    proof fn lemma_on_chain_depth_f(&self, i: int, a: int, fuel: nat)
        requires
            self.hits_root(i, fuel),
            self.on_chain_f(i, a, fuel),
        ensures
            self.terminates(a),
            self.depth_of(a) < self.depth_of(i),
        decreases fuel,
    {
        match self.parent_spec(i) {
            None => {},
            Some(p) => {
                assert(self.terminates(i)) by {
                    assert(self.hits_root(i, fuel));
                }
                self.lemma_depth_step(i, p);
                if p != a {
                    self.lemma_on_chain_depth_f(p, a, (fuel - 1) as nat);
                }
            },
        }
    }

    /// No node is its own ancestor: the parent relation is acyclic.
    pub proof fn lemma_no_self_chain(&self, i: int)
        requires
            self.wf(),
            self.valid(i),
        ensures
            !self.on_chain(i, i),
    {
        if self.on_chain(i, i) {
            assert(self.terminates(i));
            let f = self.chain_fuel(i);
            assert(self.hits_root(i, f));
            self.lemma_on_chain_depth_f(i, i, f);
        }
    }

    /// Helper for `lemma_chain_to_child`, by induction over the chain fuel.
    proof fn lemma_chain_to_child_f(&self, i: int, n: int, fuel: nat)
        requires
            self.wf(),
            self.valid(i),
            self.hits_root(i, fuel),
            self.on_chain_f(i, n, fuel),
        ensures
            exists|c: int|
                #[trigger] self.children_spec(n).contains(c) && (i == c || self.on_chain(i, c)),
        decreases fuel,
    {
        assert(self.link_wf(i));
        match self.parent_spec(i) {
            None => {},
            Some(p) => {
                if p == n {
                    assert(self.children_spec(n).contains(i));
                } else {
                    self.lemma_chain_to_child_f(p, n, (fuel - 1) as nat);
                    let c = choose|c: int|
                        #[trigger] self.children_spec(n).contains(c) && (p == c || self.on_chain(
                            p,
                            c,
                        ));
                    assert(self.terminates(i)) by {
                        assert(self.hits_root(i, fuel));
                    }
                    self.lemma_chain_step(i, p);
                    assert(self.children_spec(n).contains(c) && (i == c || self.on_chain(i, c)));
                }
            },
        }
    }

    /// A chain from a strict descendant of `n` up to `n` enters `n` through
    /// one of `n`'s children.
    pub proof fn lemma_chain_to_child(&self, i: int, n: int)
        requires
            self.wf(),
            self.valid(i),
            self.on_chain(i, n),
        ensures
            exists|c: int|
                #[trigger] self.children_spec(n).contains(c) && (i == c || self.on_chain(i, c)),
    {
        assert(self.terminates(i));
        let f = self.chain_fuel(i);
        assert(self.hits_root(i, f));
        self.lemma_chain_to_child_f(i, n, f);
    }

    /// The links of node `i` agree with its neighbours: a present parent is a
    /// real node that owns `i` in its children, every child is a real node
    /// whose parent link points back at `i`, and no child is listed twice.
    pub open spec fn link_wf(&self, i: int) -> bool {
        &&& (self.parent_spec(i) matches Some(p) ==> self.valid(p) && p != i
                && self.children_spec(p).contains(i))
        &&& (forall|k: int| 0 <= k < self.children_spec(i).len() ==> self.valid(
            #[trigger] self.children_spec(i)[k],
        ) && self.parent_spec(self.children_spec(i)[k]) == Some(i))
        &&& (forall|k1: int, k2: int|
            0 <= k1 < k2 < self.children_spec(i).len() ==> #[trigger] self.children_spec(i)[k1]
                != #[trigger] self.children_spec(i)[k2])
    }

    /// The arena's invariant: links agree, parent chains terminate (the
    /// parent/child relation is acyclic), and identifiers are fresh and
    /// pairwise distinct.
    pub open spec fn wf(&self) -> bool {
        &&& (forall|i: int| self.valid(i) ==> #[trigger] self.link_wf(i))
        &&& (forall|i: int| self.valid(i) ==> #[trigger] self.terminates(i))
        &&& (forall|i: int|
            #![trigger self.id_spec(i)]
            self.valid(i) ==> (self.id_spec(i) as nat) < self.next_id_spec())
        &&& (forall|i: int, j: int|
            #![trigger self.id_spec(i), self.id_spec(j)]
            self.valid(i) && self.valid(j) && i != j ==> self.id_spec(i) != self.id_spec(j))
    }

    /// An empty arena.
    pub fn new() -> (r: Tree<T>)
        ensures
            r.node_count() == 0,
            r.next_id_spec() == 0,
            r.wf(),
    {
        Tree { nodes: Vec::new(), ids: IdAllocator::new() }
    }

    /// How many nodes the arena holds.
    pub fn len(&self) -> (r: usize)
        ensures
            r == self.node_count(),
    {
        self.nodes.len()
    }

    /// Whether `n` resolves to a node of this arena. A handle that does not
    /// resolves to nothing everywhere else in the interface.
    pub fn contains(&self, n: NodeRef) -> (b: bool)
        ensures
            b == self.valid_ref(n),
    {
        n.idx < self.nodes.len()
    }

    /// Any fuel that lets the chain terminate finds the same root.
    proof fn lemma_root_of_f_agrees(&self, i: int, f1: nat, f2: nat)
        requires
            self.hits_root(i, f1),
            f1 <= f2,
        ensures
            self.root_of_f(i, f2) == self.root_of_f(i, f1),
        decreases f1,
    {
        match self.parent_spec(i) {
            None => {},
            Some(p) => {
                self.lemma_root_of_f_agrees(p, (f1 - 1) as nat, (f2 - 1) as nat);
            },
        }
    }

    /// Any fuel that lets the chain terminate finds the same ancestors.
    proof fn lemma_on_chain_f_agrees(&self, i: int, a: int, f1: nat, f2: nat)
        requires
            self.hits_root(i, f1),
            f1 <= f2,
        ensures
            self.on_chain_f(i, a, f2) == self.on_chain_f(i, a, f1),
        decreases f1,
    {
        match self.parent_spec(i) {
            None => {},
            Some(p) => {
                self.lemma_on_chain_f_agrees(p, a, (f1 - 1) as nat, (f2 - 1) as nat);
            },
        }
    }

    /// A node with no parent is its own root and has no ancestors.
    pub proof fn lemma_chain_end(&self, i: int)
        requires
            self.parent_spec(i) is None,
        ensures
            self.terminates(i),
            self.root_of(i) == i,
            forall|a: int| !self.on_chain(i, a),
    {
        assert(self.hits_root(i, 0));
    }

    /// Unfolds the root and ancestor functions across one parent step.
    pub proof fn lemma_chain_step(&self, i: int, p: int)
        requires
            self.terminates(i),
            self.parent_spec(i) == Some(p),
        ensures
            self.terminates(p),
            self.root_of(i) == self.root_of(p),
            self.on_chain(i, p),
            forall|a: int|
                #![trigger self.on_chain(p, a)]
                self.on_chain(i, a) == (p == a || self.on_chain(p, a)),
    {
        let f = self.chain_fuel(i);
        assert(self.hits_root(i, f));
        let f1 = (f - 1) as nat;
        assert(self.hits_root(p, f1));
        let g = self.chain_fuel(p);
        assert(self.hits_root(p, g));
        if f1 <= g {
            self.lemma_root_of_f_agrees(p, f1, g);
        } else {
            self.lemma_root_of_f_agrees(p, g, f1);
        }
        assert forall|a: int| self.on_chain(i, a) == (p == a || #[trigger] self.on_chain(p, a)) by {
            if f1 <= g {
                self.lemma_on_chain_f_agrees(p, a, f1, g);
            } else {
                self.lemma_on_chain_f_agrees(p, a, g, f1);
            }
        }
    }

    /// Chains are untouched by mutations that leave every parent link alone.
    proof fn lemma_hits_root_frame(t1: &Tree<T>, t2: &Tree<T>, i: int, fuel: nat)
        requires
            t1.hits_root(i, fuel),
            t1.valid(i),
            forall|j: int| t1.valid(j) ==> t2.parent_spec(j) == #[trigger] t1.parent_spec(j),
            forall|j: int| t1.valid(j) ==> #[trigger] t1.link_wf(j),
        ensures
            t2.hits_root(i, fuel),
        decreases fuel,
    {
        assert(t1.link_wf(i));
        match t1.parent_spec(i) {
            None => {},
            Some(p) => {
                Self::lemma_hits_root_frame(t1, t2, p, (fuel - 1) as nat);
            },
        }
    }

    /// The well-formedness argument behind `create`: the new arena differs
    /// from the old one by one fresh, correctly linked node.
    proof fn lemma_create_wf(&self, pre: Tree<T>, new_idx: int, parent: Option<NodeRef>)
        requires
            pre.wf(),
            parent matches Some(p) ==> pre.valid_ref(p),
            pre.next_id_spec() < usize::MAX,
            self.node_count() == pre.node_count() + 1,
            new_idx == pre.node_count(),
            self.id_spec(new_idx) as nat == pre.next_id_spec(),
            self.next_id_spec() == pre.next_id_spec() + 1,
            self.parent_spec(new_idx) == opt_idx(parent),
            self.children_spec(new_idx) == Seq::<int>::empty(),
            forall|i: int|
                #![trigger self.id_spec(i)]
                pre.valid(i) ==> self.id_spec(i) == pre.id_spec(i),
            forall|i: int|
                #![trigger self.parent_spec(i)]
                pre.valid(i) ==> self.parent_spec(i) == pre.parent_spec(i),
            forall|i: int|
                #![trigger self.children_spec(i)]
                pre.valid(i) && opt_idx(parent) != Some(i) ==> self.children_spec(i)
                    == pre.children_spec(i),
            parent matches Some(p) ==> self.children_spec(p.idx as int) == pre.children_spec(
                p.idx as int,
            ).push(new_idx),
        ensures
            self.wf(),
    {
        assert forall|i: int| self.valid(i) implies #[trigger] self.link_wf(i) by {
            if i == new_idx {
                match parent {
                    Some(p) => {
                        assert(self.children_spec(p.idx as int)[self.children_spec(
                            p.idx as int,
                        ).len() - 1] == new_idx);
                        assert(self.children_spec(p.idx as int).contains(new_idx));
                    },
                    None => {},
                }
            } else {
                assert(pre.link_wf(i));
                match parent {
                    Some(p) => {
                        if i == p.idx as int {
                            let pre_cs = pre.children_spec(i);
                            let cs = self.children_spec(i);
                            assert(cs == pre_cs.push(new_idx));
                            assert forall|k: int| 0 <= k < cs.len() implies self.valid(
                                #[trigger] cs[k],
                            ) && self.parent_spec(cs[k]) == Some(i) by {
                                if k < pre_cs.len() {
                                    assert(pre_cs[k] == cs[k]);
                                    assert(pre.valid(pre_cs[k]));
                                } else {
                                    assert(cs[k] == new_idx);
                                }
                            }
                            assert forall|k1: int, k2: int|
                                0 <= k1 < k2 < cs.len() implies #[trigger] cs[k1]
                                != #[trigger] cs[k2] by {
                                if k2 < pre_cs.len() {
                                    assert(pre_cs[k1] == cs[k1] && pre_cs[k2] == cs[k2]);
                                } else {
                                    assert(cs[k2] == new_idx);
                                    assert(pre.valid(pre_cs[k1]));
                                }
                            }
                        } else {
                            assert(self.children_spec(i) == pre.children_spec(i));
                        }
                    },
                    None => {},
                }
                match pre.parent_spec(i) {
                    Some(q) => {
                        assert(pre.children_spec(q).contains(i));
                        match parent {
                            Some(p) => {
                                if q == p.idx as int {
                                    let k = choose|k: int|
                                        0 <= k < pre.children_spec(q).len() && pre.children_spec(
                                            q,
                                        )[k] == i;
                                    assert(self.children_spec(q)[k] == i);
                                    assert(self.children_spec(q).contains(i));
                                } else {
                                    assert(self.children_spec(q) == pre.children_spec(q));
                                }
                            },
                            None => {},
                        }
                    },
                    None => {},
                }
            }
        }
        assert forall|i: int| self.valid(i) implies #[trigger] self.terminates(i) by {
            if i == new_idx {
                match parent {
                    Some(p) => {
                        assert(pre.terminates(p.idx as int));
                        let f = pre.chain_fuel(p.idx as int);
                        assert(pre.hits_root(p.idx as int, f));
                        Self::lemma_hits_root_frame(&pre, self, p.idx as int, f);
                        assert(self.hits_root(new_idx, f + 1));
                    },
                    None => {
                        assert(self.hits_root(new_idx, 0));
                    },
                }
            } else {
                assert(pre.terminates(i));
                let f = pre.chain_fuel(i);
                assert(pre.hits_root(i, f));
                Self::lemma_hits_root_frame(&pre, self, i, f);
            }
        }
    }

    /// No two nodes of one arena ever share an identifier, whichever scene
    /// graphs they belong to: identifiers are issued by the arena's single
    /// monotonic allocator and never reused.
    pub proof fn lemma_ids_unique(&self, i: int, j: int)
        requires
            self.wf(),
            self.valid(i),
            self.valid(j),
            i != j,
        ensures
            self.id_spec(i) != self.id_spec(j),
    {
    }

    /// Helper for `lemma_root_unique`, by induction over the chain fuel.
    proof fn lemma_root_unique_f(&self, i: int, a: int, fuel: nat)
        requires
            self.hits_root(i, fuel),
            a == i || self.on_chain_f(i, a, fuel),
            self.parent_spec(a) is None,
        ensures
            self.root_of_f(i, fuel) == a,
        decreases fuel,
    {
        match self.parent_spec(i) {
            None => {},
            Some(p) => {
                if p == a {
                    self.lemma_root_of_f_agrees(p, 0, (fuel - 1) as nat);
                } else {
                    self.lemma_root_unique_f(p, a, (fuel - 1) as nat);
                }
            },
        }
    }

    /// The root above a node is unique: any parentless node that is the node
    /// itself or one of its ancestors is exactly `root_of` the node.
    pub proof fn lemma_root_unique(&self, i: int, a: int)
        requires
            self.wf(),
            self.valid(i),
            a == i || self.on_chain(i, a),
            self.parent_spec(a) is None,
        ensures
            a == self.root_of(i),
    {
        assert(self.terminates(i));
        let f = self.chain_fuel(i);
        assert(self.hits_root(i, f));
        self.lemma_root_unique_f(i, a, f);
    }

    /// Helper for `lemma_root_is_ancestor`, by induction over the chain fuel.
    proof fn lemma_root_is_ancestor_f(&self, i: int, fuel: nat)
        requires
            self.wf(),
            self.valid(i),
            self.hits_root(i, fuel),
        ensures
            self.root_of(i) == i || self.on_chain(i, self.root_of(i)),
        decreases fuel,
    {
        match self.parent_spec(i) {
            None => {
                self.lemma_chain_end(i);
            },
            Some(p) => {
                assert(self.link_wf(i));
                assert(self.terminates(i)) by {
                    assert(self.hits_root(i, fuel));
                }
                self.lemma_chain_step(i, p);
                self.lemma_root_is_ancestor_f(p, (fuel - 1) as nat);
            },
        }
    }

    /// The root above a node is the node itself or one of its ancestors;
    /// together with `lemma_root_unique` this makes it the single
    /// ancestor-or-self with no parent.
    pub proof fn lemma_root_is_ancestor(&self, i: int)
        requires
            self.wf(),
            self.valid(i),
        ensures
            self.root_of(i) == i || self.on_chain(i, self.root_of(i)),
    {
        assert(self.terminates(i));
        let f = self.chain_fuel(i);
        assert(self.hits_root(i, f));
        self.lemma_root_is_ancestor_f(i, f);
    }

    /// A parent's children list and a child's parent link always agree.
    pub proof fn lemma_child_link(&self, p: int, c: int)
        requires
            self.wf(),
            self.valid(p),
            self.valid(c),
        ensures
            self.children_spec(p).contains(c) <==> self.parent_spec(c) == Some(p),
    {
        assert(self.link_wf(p));
        assert(self.link_wf(c));
        if self.children_spec(p).contains(c) {
            let k = choose|k: int|
                0 <= k < self.children_spec(p).len() && self.children_spec(p)[k] == c;
            assert(self.parent_spec(self.children_spec(p)[k]) == Some(p));
        }
    }

    /// Chains still terminate after a mutation that leaves every parent link
    /// either alone or cleared.
    proof fn lemma_hits_root_cut(t1: &Tree<T>, t2: &Tree<T>, i: int, fuel: nat)
        requires
            t1.hits_root(i, fuel),
            t1.valid(i),
            forall|j: int|
                t1.valid(j) ==> #[trigger] t2.parent_spec(j) == t1.parent_spec(j)
                    || t2.parent_spec(j) is None,
            forall|j: int| t1.valid(j) ==> #[trigger] t1.link_wf(j),
        ensures
            t2.hits_root(i, fuel),
        decreases fuel,
    {
        assert(t1.link_wf(i));
        match t2.parent_spec(i) {
            None => {},
            Some(p) => {
                assert(t1.parent_spec(i) == Some(p));
                Self::lemma_hits_root_cut(t1, t2, p, (fuel - 1) as nat);
            },
        }
    }

    /// The well-formedness argument shared by `remove_child` and `reparent`'s
    /// detach step: the arena after taking `c` out of `p`'s children and
    /// clearing `c`'s parent link is well formed again.
    proof fn lemma_detach_wf(&self, pre: Tree<T>, p: int, c: int)
        requires
            pre.wf(),
            pre.valid(p),
            pre.valid(c),
            pre.parent_spec(c) == Some(p),
            self.node_count() == pre.node_count(),
            self.next_id_spec() == pre.next_id_spec(),
            self.parent_spec(c) is None,
            self.children_spec(p) == seq_without(pre.children_spec(p), c),
            forall|i: int|
                #![trigger self.id_spec(i)]
                pre.valid(i) ==> self.id_spec(i) == pre.id_spec(i),
            forall|i: int|
                #![trigger self.parent_spec(i)]
                pre.valid(i) && i != c ==> self.parent_spec(i) == pre.parent_spec(i),
            forall|i: int|
                #![trigger self.children_spec(i)]
                pre.valid(i) && i != p ==> self.children_spec(i) == pre.children_spec(i),
        ensures
            self.wf(),
    {
        assert(pre.link_wf(p));
        assert(pre.link_wf(c));
        let pre_cs = pre.children_spec(p);
        let cs = self.children_spec(p);
        let k = choose|k: int| 0 <= k < pre_cs.len() && pre_cs[k] == c;
        assert(pre_cs[k] == c);
        assert forall|j: int| 0 <= j < pre_cs.len() && j != k implies pre_cs[j] != c by {}
        lemma_seq_without_unique(pre_cs, c, k);
        assert(cs == pre_cs.remove(k));
        assert forall|i: int| self.valid(i) implies #[trigger] self.link_wf(i) by {
            assert(pre.link_wf(i));
            if i == p {
                assert forall|j: int| 0 <= j < cs.len() implies self.valid(#[trigger] cs[j])
                    && self.parent_spec(cs[j]) == Some(i) by {
                    let jj = if j < k {
                        j
                    } else {
                        j + 1
                    };
                    assert(cs[j] == pre_cs[jj]);
                    assert(pre.valid(pre_cs[jj]));
                    assert(pre_cs[jj] != c);
                }
                assert forall|j1: int, j2: int| 0 <= j1 < j2 < cs.len() implies #[trigger] cs[j1]
                    != #[trigger] cs[j2] by {
                    let jj1 = if j1 < k {
                        j1
                    } else {
                        j1 + 1
                    };
                    let jj2 = if j2 < k {
                        j2
                    } else {
                        j2 + 1
                    };
                    assert(cs[j1] == pre_cs[jj1] && cs[j2] == pre_cs[jj2]);
                }
            } else {
                assert(self.children_spec(i) == pre.children_spec(i));
                assert forall|j: int|
                    0 <= j < self.children_spec(i).len() implies self.valid(
                    #[trigger] self.children_spec(i)[j],
                ) && self.parent_spec(self.children_spec(i)[j]) == Some(i) by {
                    assert(pre.valid(pre.children_spec(i)[j]));
                    assert(pre.parent_spec(pre.children_spec(i)[j]) == Some(i));
                    assert(pre.children_spec(i)[j] != c);
                }
            }
            if i != c {
                match self.parent_spec(i) {
                    Some(q) => {
                        assert(pre.parent_spec(i) == Some(q));
                        assert(pre.children_spec(q).contains(i));
                        if q == p {
                            let j = choose|j: int| 0 <= j < pre_cs.len() && pre_cs[j] == i;
                            assert(i != c);
                            assert(j != k);
                            let jj = if j < k {
                                j
                            } else {
                                j - 1
                            };
                            assert(cs[jj] == pre_cs[j]);
                            assert(cs.contains(i));
                        } else {
                            assert(self.children_spec(q) == pre.children_spec(q));
                        }
                    },
                    None => {},
                }
            }
        }
        assert forall|i: int| self.valid(i) implies #[trigger] self.terminates(i) by {
            assert(pre.terminates(i));
            let f = pre.chain_fuel(i);
            assert(pre.hits_root(i, f));
            Self::lemma_hits_root_cut(&pre, self, i, f);
        }
    }

    /// Everything the call leaves behind, as a relation between the arena
    /// before and after. `remove_child` ensures exactly this.
    pub open spec fn remove_child_post(pre: Tree<T>, post: Tree<T>, p: int, c: int) -> bool {
        if pre.children_spec(p).contains(c) {
            &&& post.wf()
            &&& post.node_count() == pre.node_count()
            &&& post.next_id_spec() == pre.next_id_spec()
            &&& post.children_spec(p) == seq_without(pre.children_spec(p), c)
            &&& post.parent_spec(c) is None
            &&& (forall|i: int|
                #![trigger post.id_spec(i)]
                pre.valid(i) ==> post.id_spec(i) == pre.id_spec(i))
            &&& (forall|i: int|
                #![trigger post.data_spec(i)]
                pre.valid(i) ==> post.data_spec(i) == pre.data_spec(i))
            &&& (forall|i: int|
                #![trigger post.parent_spec(i)]
                pre.valid(i) && i != c ==> post.parent_spec(i) == pre.parent_spec(i))
            &&& (forall|i: int|
                #![trigger post.children_spec(i)]
                pre.valid(i) && i != p ==> post.children_spec(i) == pre.children_spec(i))
        } else {
            post == pre
        }
    }

    /// Removing an absent child is a no-op, so removing the same child twice
    /// is the same as removing it once: the second call changes nothing.
    pub proof fn lemma_remove_child_idempotent(
        t0: &Tree<T>,
        t1: &Tree<T>,
        t2: &Tree<T>,
        p: int,
        c: int,
    )
        requires
            t0.wf(),
            t0.valid(p),
            t0.valid(c),
            Self::remove_child_post(*t0, *t1, p, c),
            Self::remove_child_post(*t1, *t2, p, c),
        ensures
            t2 == t1,
    {
        if t0.children_spec(p).contains(c) {
            lemma_seq_without_gone(t0.children_spec(p), c);
        }
    }

    /// Replaces the payload behind `n`, leaving identity and structure alone.
    pub fn set_data(&mut self, n: NodeRef, data: T)
        requires
            old(self).wf(),
            old(self).valid_ref(n),
        ensures
            final(self).wf(),
            final(self).node_count() == old(self).node_count(),
            final(self).next_id_spec() == old(self).next_id_spec(),
            final(self).data_spec(n.idx as int) == data,
            forall|i: int|
                #![trigger final(self).id_spec(i)]
                old(self).valid(i) ==> final(self).id_spec(i) == old(self).id_spec(i),
            forall|i: int|
                #![trigger final(self).parent_spec(i)]
                old(self).valid(i) ==> final(self).parent_spec(i) == old(self).parent_spec(i),
            forall|i: int|
                #![trigger final(self).child_refs(i)]
                old(self).valid(i) ==> final(self).child_refs(i) == old(self).child_refs(i),
            forall|i: int|
                #![trigger final(self).data_spec(i)]
                old(self).valid(i) && i != n.idx as int ==> final(self).data_spec(i) == old(
                    self,
                ).data_spec(i),
    {
        let node = &mut self.nodes[n.idx];
        node.data = data;
        proof {
            let ghost pre = *old(self);
            assert(self.node_count() == pre.node_count());
            assert forall|i: int|
                pre.valid(i) implies #[trigger] self.id_spec(i) == pre.id_spec(i)
                && self.parent_spec(i) == pre.parent_spec(i) && self.children_spec(i)
                == pre.children_spec(i) by {}
            assert forall|i: int| self.valid(i) implies #[trigger] self.link_wf(i) by {
                assert(pre.link_wf(i));
            }
            assert forall|i: int| self.valid(i) implies #[trigger] self.terminates(i) by {
                assert(pre.terminates(i));
                let f = pre.chain_fuel(i);
                assert(pre.hits_root(i, f));
                Self::lemma_hits_root_cut(&pre, self, i, f);
            }
        }
    }

    /// A chain that avoids `c` is untouched by a mutation that only rewrites
    /// `c`'s parent link.
    proof fn lemma_avoid_frame_f(t1: &Tree<T>, t2: &Tree<T>, i: int, c: int, fuel: nat)
        requires
            t1.hits_root(i, fuel),
            !t1.on_chain_f(i, c, fuel),
            i != c,
            t1.valid(i),
            forall|j: int|
                t1.valid(j) && j != c ==> #[trigger] t2.parent_spec(j) == t1.parent_spec(j),
            forall|j: int| t1.valid(j) ==> #[trigger] t1.link_wf(j),
        ensures
            t2.hits_root(i, fuel),
            !t2.on_chain_f(i, c, fuel),
        decreases fuel,
    {
        assert(t1.link_wf(i));
        match t1.parent_spec(i) {
            None => {},
            Some(p) => {
                Self::lemma_avoid_frame_f(t1, t2, p, c, (fuel - 1) as nat);
            },
        }
    }

    /// As `lemma_avoid_frame_f`, over the fuel-free ancestor relation.
    proof fn lemma_avoid_frame(t1: &Tree<T>, t2: &Tree<T>, i: int, c: int)
        requires
            t1.wf(),
            t1.valid(i),
            i != c,
            !t1.on_chain(i, c),
            forall|j: int|
                t1.valid(j) && j != c ==> #[trigger] t2.parent_spec(j) == t1.parent_spec(j),
        ensures
            t2.terminates(i),
            !t2.on_chain(i, c),
            t2.hits_root(i, t1.chain_fuel(i)),
    {
        assert(t1.terminates(i));
        let f = t1.chain_fuel(i);
        assert(t1.hits_root(i, f));
        Self::lemma_avoid_frame_f(t1, t2, i, c, f);
        assert(t2.hits_root(i, f));
        let g = t2.chain_fuel(i);
        assert(t2.hits_root(i, g));
        if f <= g {
            t2.lemma_on_chain_f_agrees(i, c, f, g);
        } else {
            t2.lemma_on_chain_f_agrees(i, c, g, f);
        }
    }

    /// After hanging `c` under a node whose own chain terminates, every chain
    /// that terminated before still terminates.
    proof fn lemma_terminates_attach(t1: &Tree<T>, t2: &Tree<T>, x: int, c: int, fuel: nat)
        requires
            t1.hits_root(x, fuel),
            t1.valid(x),
            t2.terminates(c),
            forall|j: int|
                t1.valid(j) && j != c ==> #[trigger] t2.parent_spec(j) == t1.parent_spec(j),
            forall|j: int| t1.valid(j) ==> #[trigger] t1.link_wf(j),
        ensures
            t2.terminates(x),
        decreases fuel,
    {
        if x != c {
            assert(t1.link_wf(x));
            match t1.parent_spec(x) {
                None => {
                    assert(t2.hits_root(x, 0));
                },
                Some(p) => {
                    Self::lemma_terminates_attach(t1, t2, p, c, (fuel - 1) as nat);
                    let g = t2.chain_fuel(p);
                    assert(t2.hits_root(p, g));
                    assert(t2.hits_root(x, g + 1));
                },
            }
        }
    }

    /// The well-formedness argument behind `reparent`'s attach step: hanging
    /// a detached root `c` under a node `t` whose chain avoids `c` gives a
    /// well-formed arena again.
    proof fn lemma_attach_wf(&self, mid: Tree<T>, c: int, t: int)
        requires
            mid.wf(),
            mid.valid(c),
            mid.valid(t),
            c != t,
            mid.parent_spec(c) is None,
            !mid.on_chain(t, c),
            self.node_count() == mid.node_count(),
            self.next_id_spec() == mid.next_id_spec(),
            self.parent_spec(c) == Some(t),
            self.children_spec(t) == mid.children_spec(t).push(c),
            forall|i: int|
                #![trigger self.id_spec(i)]
                mid.valid(i) ==> self.id_spec(i) == mid.id_spec(i),
            forall|i: int|
                #![trigger self.parent_spec(i)]
                mid.valid(i) && i != c ==> self.parent_spec(i) == mid.parent_spec(i),
            forall|i: int|
                #![trigger self.children_spec(i)]
                mid.valid(i) && i != t ==> self.children_spec(i) == mid.children_spec(i),
        ensures
            self.wf(),
    {
        assert forall|i: int| mid.valid(i) implies !mid.children_spec(i).contains(c) by {
            mid.lemma_child_link(i, c);
        }
        assert forall|i: int| self.valid(i) implies #[trigger] self.link_wf(i) by {
            assert(mid.link_wf(i));
            let cs = self.children_spec(i);
            if i == t {
                let pre_cs = mid.children_spec(i);
                assert forall|k: int| 0 <= k < cs.len() implies self.valid(#[trigger] cs[k])
                    && self.parent_spec(cs[k]) == Some(i) by {
                    if k < pre_cs.len() {
                        assert(cs[k] == pre_cs[k]);
                        assert(mid.valid(pre_cs[k]));
                        assert(pre_cs.contains(pre_cs[k]));
                        assert(pre_cs[k] != c);
                    } else {
                        assert(cs[k] == c);
                    }
                }
                assert forall|k1: int, k2: int| 0 <= k1 < k2 < cs.len() implies #[trigger] cs[k1]
                    != #[trigger] cs[k2] by {
                    if k2 < pre_cs.len() {
                        assert(cs[k1] == pre_cs[k1] && cs[k2] == pre_cs[k2]);
                    } else {
                        assert(cs[k2] == c);
                        assert(pre_cs.contains(pre_cs[k1]));
                    }
                }
            } else {
                assert(cs == mid.children_spec(i));
                assert forall|k: int| 0 <= k < cs.len() implies self.valid(#[trigger] cs[k])
                    && self.parent_spec(cs[k]) == Some(i) by {
                    assert(mid.valid(cs[k]));
                    assert(mid.parent_spec(cs[k]) == Some(i));
                    assert(mid.children_spec(i).contains(cs[k]));
                    assert(cs[k] != c);
                }
            }
            match self.parent_spec(i) {
                Some(q) => {
                    if i == c {
                        assert(q == t);
                        assert(self.children_spec(t)[self.children_spec(t).len() - 1] == c);
                        assert(self.children_spec(t).contains(c));
                    } else {
                        assert(mid.parent_spec(i) == Some(q));
                        assert(mid.children_spec(q).contains(i));
                        if q == t {
                            let k = choose|k: int|
                                0 <= k < mid.children_spec(q).len() && mid.children_spec(q)[k]
                                    == i;
                            assert(self.children_spec(q)[k] == i);
                            assert(self.children_spec(q).contains(i));
                        } else {
                            assert(self.children_spec(q) == mid.children_spec(q));
                        }
                    }
                },
                None => {},
            }
        }
        Self::lemma_avoid_frame(&mid, self, t, c);
        assert(self.terminates(t));
        let ft = self.chain_fuel(t);
        assert(self.hits_root(t, ft));
        assert(self.hits_root(c, ft + 1));
        assert(self.terminates(c));
        assert forall|i: int| self.valid(i) implies #[trigger] self.terminates(i) by {
            assert(mid.terminates(i));
            let f = mid.chain_fuel(i);
            assert(mid.hits_root(i, f));
            Self::lemma_terminates_attach(&mid, self, i, c, f);
        }
    }

    /// Borrow the node behind a handle.
    pub fn get(&self, n: NodeRef) -> (r: &Node<T>)
        requires
            self.valid_ref(n),
        ensures
            r.id == self.id_spec(n.idx as int),
            opt_idx(r.parent) == self.parent_spec(n.idx as int),
            r.children@ == self.child_refs(n.idx as int),
            r.data == self.data_spec(n.idx as int),
    {
        &self.nodes[n.idx]
    }
}

impl<T> Node<T> {
    /// Creates a node with a fresh identifier. If a parent is given the new
    /// node is immediately registered as its last child; otherwise the new
    /// node is a root. Returns a shareable handle to the new node.
    pub fn create(tree: &mut Tree<T>, data: T, parent: Option<NodeRef>) -> (r: NodeRef)
        requires
            old(tree).wf(),
            parent matches Some(p) ==> old(tree).valid_ref(p),
            old(tree).next_id_spec() < usize::MAX,
            old(tree).node_count() < usize::MAX,
        ensures
            final(tree).wf(),
            final(tree).node_count() == old(tree).node_count() + 1,
            r.idx == old(tree).node_count(),
            final(tree).id_spec(r.idx as int) as nat == old(tree).next_id_spec(),
            final(tree).next_id_spec() == old(tree).next_id_spec() + 1,
            final(tree).parent_spec(r.idx as int) == opt_idx(parent),
            final(tree).children_spec(r.idx as int) == Seq::<int>::empty(),
            final(tree).data_spec(r.idx as int) == data,
            forall|i: int|
                #![trigger final(tree).id_spec(i)]
                old(tree).valid(i) ==> final(tree).id_spec(i) == old(tree).id_spec(i),
            forall|i: int|
                #![trigger final(tree).parent_spec(i)]
                old(tree).valid(i) ==> final(tree).parent_spec(i) == old(tree).parent_spec(i),
            forall|i: int|
                #![trigger final(tree).data_spec(i)]
                old(tree).valid(i) ==> final(tree).data_spec(i) == old(tree).data_spec(i),
            forall|i: int|
                #![trigger final(tree).children_spec(i)]
                old(tree).valid(i) && opt_idx(parent) != Some(i) ==> final(tree).children_spec(i)
                    == old(tree).children_spec(i),
            parent matches Some(p) ==> final(tree).children_spec(p.idx as int) == old(
                tree,
            ).children_spec(p.idx as int).push(r.idx as int),
    {
        let id: usize = tree.ids.next_id();
        let idx: usize = tree.nodes.len();
        let r = NodeRef { idx };
        let node = Node::new(id, parent, data);
        tree.nodes.push(node);
        match parent {
            Some(p) => {
                let pn = &mut tree.nodes[p.idx];
                pn.add_child(r);
            },
            None => {},
        }
        proof {
            assert(tree.children_spec(idx as int) =~= Seq::<int>::empty());
            match parent {
                Some(p) => {
                    assert(tree.children_spec(p.idx as int) =~= old(tree).children_spec(
                        p.idx as int,
                    ).push(idx as int));
                },
                None => {},
            }
            tree.lemma_create_wf(*old(tree), r.idx as int, parent);
        }
        r
    }

    /// Walks the parent chain upward until a node with no parent is found;
    /// cost proportional to the depth of the node.
    pub fn find_root(tree: &Tree<T>, node: NodeRef) -> (r: NodeRef)
        requires
            tree.wf(),
            tree.valid_ref(node),
        ensures
            tree.valid_ref(r),
            tree.parent_spec(r.idx as int) is None,
            r.idx as int == tree.root_of(node.idx as int),
    {
        let mut cur = node;
        proof {
            assert(tree.terminates(node.idx as int));
        }
        let ghost mut fuel: nat = tree.chain_fuel(node.idx as int);
        proof {
            assert(tree.hits_root(cur.idx as int, fuel));
        }
        loop
            invariant
                tree.wf(),
                tree.valid_ref(cur),
                tree.hits_root(cur.idx as int, fuel),
                tree.root_of(cur.idx as int) == tree.root_of(node.idx as int),
            decreases fuel,
        {
            match tree.get(cur).parent() {
                Some(p) => {
                    proof {
                        assert(tree.link_wf(cur.idx as int));
                        assert(tree.terminates(cur.idx as int));
                        tree.lemma_chain_step(cur.idx as int, p.idx as int);
                        fuel = (fuel - 1) as nat;
                    }
                    cur = p;
                },
                None => {
                    proof {
                        tree.lemma_chain_end(cur.idx as int);
                    }
                    return cur;
                },
            }
        }
    }


    /// Walks `this`'s parent chain comparing identifiers against `ancestor`;
    /// true iff `ancestor` is found on that chain. This is the
    /// cycle-prevention primitive `reparent` relies on.
    pub fn is_child_of(tree: &Tree<T>, this: NodeRef, ancestor: NodeRef) -> (r: bool)
        requires
            tree.wf(),
            tree.valid_ref(this),
            tree.valid_ref(ancestor),
        ensures
            r == tree.on_chain(this.idx as int, ancestor.idx as int),
    {
        let anc_id: usize = tree.get(ancestor).id;
        let mut cur = this;
        proof {
            assert(tree.terminates(this.idx as int));
        }
        let ghost mut fuel: nat = tree.chain_fuel(this.idx as int);
        proof {
            assert(tree.hits_root(cur.idx as int, fuel));
        }
        loop
            invariant
                tree.wf(),
                tree.valid_ref(cur),
                tree.valid_ref(ancestor),
                anc_id == tree.id_spec(ancestor.idx as int),
                tree.hits_root(cur.idx as int, fuel),
                tree.on_chain(this.idx as int, ancestor.idx as int) == tree.on_chain(
                    cur.idx as int,
                    ancestor.idx as int,
                ),
            decreases fuel,
        {
            match tree.get(cur).parent() {
                Some(p) => {
                    proof {
                        assert(tree.link_wf(cur.idx as int));
                        assert(tree.terminates(cur.idx as int));
                        tree.lemma_chain_step(cur.idx as int, p.idx as int);
                    }
                    if tree.get(p).id == anc_id {
                        proof {
                            if p.idx != ancestor.idx {
                                tree.lemma_ids_unique(p.idx as int, ancestor.idx as int);
                            }
                        }
                        return true;
                    }
                    proof {
                        fuel = (fuel - 1) as nat;
                    }
                    cur = p;
                },
                None => {
                    proof {
                        tree.lemma_chain_end(cur.idx as int);
                    }
                    return false;
                },
            }
        }
    }


    /// Linear scan of `parent`'s children by identifier; removes the single
    /// match, preserving the relative order of the rest, and clears the
    /// removed child's parent link. A no-op, not an error, if `child` is
    /// absent from `parent`'s children.
    pub fn remove_child(tree: &mut Tree<T>, parent: NodeRef, child: NodeRef)
        requires
            old(tree).wf(),
            old(tree).valid_ref(parent),
            old(tree).valid_ref(child),
        ensures
            final(tree).wf(),
            Tree::<T>::remove_child_post(*old(tree), *final(tree), parent.idx as int, child.idx as int),
    {
        let child_id: usize = tree.get(child).id;
        let n: usize = tree.get(parent).children.len();
        let ghost cs = tree.children_spec(parent.idx as int);
        let mut i: usize = 0;
        let mut found: Option<usize> = None;
        while i < n && found.is_none()
            invariant
                tree.wf(),
                tree.valid_ref(parent),
                tree.valid_ref(child),
                child_id == tree.id_spec(child.idx as int),
                cs == tree.children_spec(parent.idx as int),
                n == cs.len(),
                0 <= i <= n,
                match found {
                    Some(k) => 0 <= k < n && cs[k as int] == child.idx as int,
                    None => forall|j: int| 0 <= j < i ==> cs[j] != child.idx as int,
                },
            decreases n - i + (if found is None {
                1int
            } else {
                0int
            }),
        {
            proof {
                assert(tree.link_wf(parent.idx as int));
            }
            let c: NodeRef = tree.get(parent).children[i];
            proof {
                assert(cs[i as int] == c.idx as int);
                assert(tree.valid(cs[i as int]));
            }
            if tree.get(c).id == child_id {
                proof {
                    if c.idx != child.idx {
                        tree.lemma_ids_unique(c.idx as int, child.idx as int);
                    }
                }
                found = Some(i);
            } else {
                proof {
                    if cs[i as int] == child.idx as int {
                        assert(tree.id_spec(cs[i as int]) == child_id);
                    }
                }
                i = i + 1;
            }
        }
        match found {
            Some(k) => {
                proof {
                    assert(cs.contains(child.idx as int));
                    tree.lemma_child_link(parent.idx as int, child.idx as int);
                    assert(tree.link_wf(child.idx as int));
                }
                let pn = &mut tree.nodes[parent.idx];
                pn.children.remove(k);
                let cn = &mut tree.nodes[child.idx];
                cn.parent = None;
                proof {
                    let ghost pre = *old(tree);
                    assert(tree.children_spec(parent.idx as int) =~= seq_without(
                        cs,
                        child.idx as int,
                    )) by {
                        let kk = choose|kk: int| 0 <= kk < cs.len() && cs[kk] == child.idx as int;
                        assert(pre.link_wf(parent.idx as int));
                        assert(kk == k as int);
                        lemma_seq_without_unique(cs, child.idx as int, k as int);
                        assert(tree.nodes[parent.idx as int].children@ == pre.nodes[parent.idx as int].children@.remove(k as int));
                        assert(refs_to_idxs(pre.nodes[parent.idx as int].children@.remove(k as int))
                            =~= cs.remove(k as int));
                    }
                    tree.lemma_detach_wf(pre, parent.idx as int, child.idx as int);
                }
            },
            None => {
                proof {
                    if tree.children_spec(parent.idx as int).contains(child.idx as int) {
                        let k = choose|k: int| 0 <= k < cs.len() && cs[k] == child.idx as int;
                        assert(false);
                    }
                }
            },
        }
    }


    /// Linear scan of `parent`'s children by identifier. Returns the child
    /// holding `id`, or `None` when no child of `parent` carries it: absence
    /// is an expected case, not an error.
    pub fn find_child(tree: &Tree<T>, parent: NodeRef, id: usize) -> (r: Option<NodeRef>)
        requires
            tree.wf(),
            tree.valid_ref(parent),
        ensures
            match r {
                Some(c) => tree.valid_ref(c) && tree.children_spec(parent.idx as int).contains(
                    c.idx as int,
                ) && tree.id_spec(c.idx as int) == id,
                None => forall|j: int|
                    0 <= j < tree.children_spec(parent.idx as int).len()
                        ==> tree.id_spec(#[trigger] tree.children_spec(parent.idx as int)[j]) != id,
            },
    {
        let ghost cs = tree.children_spec(parent.idx as int);
        let n: usize = tree.get(parent).children.len();
        let mut i: usize = 0;
        while i < n
            invariant
                tree.wf(),
                tree.valid_ref(parent),
                cs == tree.children_spec(parent.idx as int),
                n == cs.len(),
                0 <= i <= n,
                forall|j: int| 0 <= j < i ==> tree.id_spec(#[trigger] cs[j]) != id,
            decreases n - i,
        {
            proof {
                assert(tree.link_wf(parent.idx as int));
            }
            let c: NodeRef = tree.get(parent).children[i];
            proof {
                assert(cs[i as int] == c.idx as int);
                assert(tree.valid(cs[i as int]));
            }
            if tree.get(c).id == id {
                proof {
                    assert(cs.contains(c.idx as int));
                }
                return Some(c);
            }
            i = i + 1;
        }
        None
    }


    /// `None` if `node` is a root; otherwise all of the parent's children
    /// except `node` itself, in their original order.
    pub fn siblings(tree: &Tree<T>, node: NodeRef) -> (r: Option<Vec<NodeRef>>)
        requires
            tree.wf(),
            tree.valid_ref(node),
        ensures
            match r {
                None => tree.parent_spec(node.idx as int) is None,
                Some(v) => tree.parent_spec(node.idx as int) matches Some(p) && refs_to_idxs(v@)
                    == seq_without(tree.children_spec(p), node.idx as int),
            },
    {
        let node_id: usize = tree.get(node).id;
        match tree.get(node).parent() {
            None => None,
            Some(p) => {
                proof {
                    assert(tree.link_wf(node.idx as int));
                }
                let ghost cs = tree.children_spec(p.idx as int);
                let n: usize = tree.get(p).children.len();
                let mut out: Vec<NodeRef> = Vec::new();
                let mut i: usize = 0;
                while i < n
                    invariant
                        tree.wf(),
                        tree.valid_ref(node),
                        tree.valid_ref(p),
                        node_id == tree.id_spec(node.idx as int),
                        cs == tree.children_spec(p.idx as int),
                        n == cs.len(),
                        0 <= i <= n,
                        refs_to_idxs(out@) == seq_without(cs.take(i as int), node.idx as int),
                    decreases n - i,
                {
                    proof {
                        assert(tree.link_wf(p.idx as int));
                    }
                    let c: NodeRef = tree.get(p).children[i];
                    proof {
                        assert(cs[i as int] == c.idx as int);
                        assert(tree.valid(cs[i as int]));
                        assert(cs.take(i + 1).drop_last() =~= cs.take(i as int));
                        assert(cs.take(i + 1).last() == cs[i as int]);
                    }
                    if tree.get(c).id == node_id {
                        proof {
                            if c.idx != node.idx {
                                tree.lemma_ids_unique(c.idx as int, node.idx as int);
                            }
                        }
                    } else {
                        proof {
                            if c.idx == node.idx {
                                assert(tree.id_spec(c.idx as int) == node_id);
                            }
                        }
                        out.push(c);
                        proof {
                            assert(refs_to_idxs(out@) =~= refs_to_idxs(out@.drop_last()).push(
                                c.idx as int,
                            ));
                        }
                    }
                    i = i + 1;
                }
                proof {
                    assert(cs.take(n as int) =~= cs);
                }
                Some(out)
            },
        }
    }


    /// Atomically detaches `child` from its current parent (if any), rewrites
    /// its parent link to `target`, and appends it to `target`'s children.
    /// Fails with `CycleError` — before any mutation — when `child` and
    /// `target` are the same node or when `target` is a descendant of
    /// `child`, i.e. exactly when `is_child_of(target, child)` holds or the
    /// two identities coincide.
    #[verifier::rlimit(50)]
    pub fn reparent(tree: &mut Tree<T>, child: NodeRef, target: NodeRef) -> (r: Result<(), CycleError>)
        requires
            old(tree).wf(),
            old(tree).valid_ref(child),
            old(tree).valid_ref(target),
        ensures
            final(tree).wf(),
            r is Err <==> (child.idx == target.idx || old(tree).on_chain(
                target.idx as int,
                child.idx as int,
            )),
            r is Err ==> *final(tree) == *old(tree),
            r is Ok ==> ({
                let c = child.idx as int;
                let t = target.idx as int;
                let pre = *old(tree);
                let post = *final(tree);
                &&& post.parent_spec(c) == Some(t)
                &&& post.on_chain(c, t)
                &&& (pre.parent_spec(c) matches Some(q) ==> (if q == t {
                    post.children_spec(t) == seq_without(pre.children_spec(t), c).push(c)
                } else {
                    &&& post.children_spec(q) == seq_without(pre.children_spec(q), c)
                    &&& !post.children_spec(q).contains(c)
                    &&& post.children_spec(t) == pre.children_spec(t).push(c)
                }))
                &&& (pre.parent_spec(c) is None ==> post.children_spec(t) == pre.children_spec(
                    t,
                ).push(c))
                &&& (forall|i: int|
                    #![trigger post.children_spec(i)]
                    pre.valid(i) && i != t && Some(i) != pre.parent_spec(c)
                        ==> post.children_spec(i) == pre.children_spec(i))
                &&& (forall|i: int|
                    #![trigger post.parent_spec(i)]
                    pre.valid(i) && i != c ==> post.parent_spec(i) == pre.parent_spec(i))
                &&& post.node_count() == pre.node_count()
                &&& post.next_id_spec() == pre.next_id_spec()
                &&& (forall|i: int|
                    #![trigger post.id_spec(i)]
                    pre.valid(i) ==> post.id_spec(i) == pre.id_spec(i))
                &&& (forall|i: int|
                    #![trigger post.data_spec(i)]
                    pre.valid(i) ==> post.data_spec(i) == pre.data_spec(i))
            }),
    {
        let child_id: usize = tree.get(child).id;
        let target_id: usize = tree.get(target).id;
        if child_id == target_id {
            proof {
                if child.idx != target.idx {
                    tree.lemma_ids_unique(child.idx as int, target.idx as int);
                }
            }
            return Err(CycleError);
        }
        if Self::is_child_of(&*tree, target, child) {
            return Err(CycleError);
        }
        match tree.get(child).parent() {
            Some(op) => {
                proof {
                    assert(tree.link_wf(child.idx as int));
                    tree.lemma_child_link(op.idx as int, child.idx as int);
                }
                Self::remove_child(&mut *tree, op, child);
            },
            None => {},
        }
        let ghost mid = *tree;
        proof {
            Tree::<T>::lemma_avoid_frame(&*old(tree), &mid, target.idx as int, child.idx as int);
        }
        let cn = &mut tree.nodes[child.idx];
        cn.parent = Some(target);
        let tn = &mut tree.nodes[target.idx];
        tn.children.push(child);
        proof {
            assert(tree.children_spec(target.idx as int) =~= mid.children_spec(
                target.idx as int,
            ).push(child.idx as int));
            tree.lemma_attach_wf(mid, child.idx as int, target.idx as int);
            assert(tree.terminates(child.idx as int));
            tree.lemma_chain_step(child.idx as int, target.idx as int);
            let ghost pre = *old(tree);
            let ghost c = child.idx as int;
            let ghost t = target.idx as int;
            assert forall|i: int| pre.valid(i) && i != c implies #[trigger] tree.parent_spec(i)
                == pre.parent_spec(i) by {
                assert(mid.parent_spec(i) == pre.parent_spec(i));
            }
            assert forall|i: int|
                pre.valid(i) && i != t && Some(i) != pre.parent_spec(c) implies #[trigger] tree
                .children_spec(i) == pre.children_spec(i) by {
                assert(mid.children_spec(i) == pre.children_spec(i));
            }
            assert forall|i: int| pre.valid(i) implies #[trigger] tree.id_spec(i) == pre.id_spec(
                i,
            ) by {
                assert(mid.id_spec(i) == pre.id_spec(i));
            }
            assert forall|i: int| pre.valid(i) implies #[trigger] tree.data_spec(i)
                == pre.data_spec(i) by {
                assert(mid.data_spec(i) == pre.data_spec(i));
            }
            match old(tree).parent_spec(child.idx as int) {
                Some(q) => {
                    lemma_seq_without_gone(
                        old(tree).children_spec(q),
                        child.idx as int,
                    );
                },
                None => {},
            }
        }
        Ok(())
    }

}

/// One step of the shared breadth-first queueing discipline, as a relation
/// between the queue before and after: the front handle is dequeued and its
/// current children are appended behind the rest. A node's children are only
/// discoverable after the node itself has been dequeued.
pub open spec fn bfs_step<T>(tree: &Tree<T>, before: Seq<NodeRef>, after: Seq<NodeRef>) -> bool {
    &&& before.len() > 0
    &&& after == before.subrange(1, before.len() as int) + tree.child_refs(before[0].idx as int)
}

/// All handles of `q` point at nodes of `tree`.
pub open spec fn queued_in<T>(q: Seq<NodeRef>, tree: &Tree<T>) -> bool {
    forall|k: int| 0 <= k < q.len() ==> tree.valid_ref(#[trigger] q[k])
}

/// Lazy, finite level-order traversal: yields `(id, handle)` pairs, parents
/// strictly before their children, same-depth siblings in insertion order.
/// Not restartable once exhausted; traverse again with a fresh instance.
pub struct BreadthFirstIterator {
    queue: VecDeque<NodeRef>,
}

impl BreadthFirstIterator {
    /// The handles waiting to be visited, front first.
    pub closed spec fn pending(&self) -> Seq<NodeRef> {
        self.queue@
    }

    /// Seeded with a single root.
    pub fn new(root: NodeRef) -> (r: Self)
        ensures
            r.pending() == seq![root],
    {
        let mut queue: VecDeque<NodeRef> = VecDeque::new();
        queue.push_back(root);
        BreadthFirstIterator { queue }
    }

    /// Dequeues the next node in level order, appends that node's current
    /// children to the queue, and yields its identifier and handle; `None`
    /// once the queue is exhausted.
    pub fn next<T>(&mut self, tree: &Tree<T>) -> (r: Option<(usize, NodeRef)>)
        requires
            tree.wf(),
            queued_in(old(self).pending(), tree),
        ensures
            queued_in(final(self).pending(), tree),
            match r {
                None => old(self).pending().len() == 0 && final(self).pending() == old(
                    self,
                ).pending(),
                Some(pair) => pair.1 == old(self).pending()[0] && pair.0 == tree.id_spec(
                    pair.1.idx as int,
                ) && bfs_step(tree, old(self).pending(), final(self).pending()),
            },
    {
        match self.queue.pop_front() {
            Some(n) => {
                proof {
                    assert(old(self).pending()[0] == n);
                    assert(tree.valid_ref(n));
                }
                enqueue_children(&mut self.queue, tree, n);
                let id: usize = tree.get(n).id;
                Some((id, n))
            },
            None => None,
        }
    }
}

/// Appends the current children of `n` to the back of `queue`.
pub(crate) fn enqueue_children<T>(queue: &mut VecDeque<NodeRef>, tree: &Tree<T>, n: NodeRef)
    requires
        tree.wf(),
        tree.valid_ref(n),
        queued_in(old(queue)@, tree),
    ensures
        final(queue)@ == old(queue)@ + tree.child_refs(n.idx as int),
        queued_in(final(queue)@, tree),
{
    let ghost crs = tree.child_refs(n.idx as int);
    let node = tree.get(n);
    let m: usize = node.children.len();
    let mut i: usize = 0;
    while i < m
        invariant
            tree.wf(),
            tree.valid_ref(n),
            crs == tree.child_refs(n.idx as int),
            node.children@ == crs,
            m == crs.len(),
            0 <= i <= m,
            queue@ == old(queue)@ + crs.take(i as int),
            queued_in(queue@, tree),
        decreases m - i,
    {
        let c: NodeRef = node.children[i];
        proof {
            assert(tree.link_wf(n.idx as int));
            assert(tree.children_spec(n.idx as int)[i as int] == c.idx as int);
            assert(tree.valid(c.idx as int));
            assert(crs.take(i + 1).drop_last() =~= crs.take(i as int));
        }
        queue.push_back(c);
        proof {
            assert(queue@ =~= old(queue)@ + crs.take(i + 1));
            assert forall|k: int| 0 <= k < queue@.len() implies tree.valid_ref(
                #[trigger] queue@[k],
            ) by {
                if k < queue@.len() - 1 {
                    assert(queue@.drop_last()[k] == queue@[k]);
                }
            }
        }
        i = i + 1;
    }
    proof {
        assert(crs.take(m as int) =~= crs);
    }
}

/// A push-style stepped visitor over the same breadth-first queueing
/// discipline as [`BreadthFirstIterator`]: a single-step `visit` plus a
/// `has_next` predicate, so a caller can interleave traversal steps with
/// other per-frame work instead of consuming the whole sequence in one pass.
pub trait NodeVisitor<T> {
    /// The handles waiting to be visited, front first.
    spec fn pending(&self) -> Seq<NodeRef>;

    /// Visits the next node in level order: dequeues it, makes its current
    /// children discoverable, and hands its handle back; `None` once
    /// exhausted.
    fn visit(&mut self, tree: &Tree<T>) -> (r: Option<NodeRef>)
        requires
            tree.wf(),
            queued_in(old(self).pending(), tree),
        ensures
            queued_in(final(self).pending(), tree),
            match r {
                None => old(self).pending().len() == 0 && final(self).pending() == old(
                    self,
                ).pending(),
                Some(n) => n == old(self).pending()[0] && bfs_step(
                    tree,
                    old(self).pending(),
                    final(self).pending(),
                ),
            },
    ;

    /// True while any node is still waiting to be visited.
    fn has_next(&self) -> (b: bool)
        ensures
            b == (self.pending().len() > 0),
    ;
}

/// The breadth-first implementation of [`NodeVisitor`].
pub struct BreadthFirstVisitor {
    queue: VecDeque<NodeRef>,
}

impl BreadthFirstVisitor {
    /// The handles waiting to be visited, front first.
    pub closed spec fn queued(&self) -> Seq<NodeRef> {
        self.queue@
    }

    /// Seeded with a single root.
    pub fn new(root: NodeRef) -> (r: Self)
        ensures
            r.queued() == seq![root],
    {
        let mut queue: VecDeque<NodeRef> = VecDeque::new();
        queue.push_back(root);
        BreadthFirstVisitor { queue }
    }
}

impl<T> NodeVisitor<T> for BreadthFirstVisitor {
    open spec fn pending(&self) -> Seq<NodeRef> {
        self.queued()
    }

    fn visit(&mut self, tree: &Tree<T>) -> (r: Option<NodeRef>) {
        match self.queue.pop_front() {
            Some(n) => {
                proof {
                    assert(tree.valid_ref(n));
                }
                enqueue_children(&mut self.queue, tree, n);
                Some(n)
            },
            None => None,
        }
    }

    fn has_next(&self) -> (b: bool) {
        self.queue.len() != 0
    }
}

} // verus!
