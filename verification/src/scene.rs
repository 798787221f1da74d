//! The scene graph and the traversal-driven draw pass.
//!
//! A [`SceneGraph`] names a single root node of renderable content and is
//! handed, by shared reference, to a renderer once per frame. The pass walks
//! the root's subtree breadth-first and composes world transforms top-down:
//! when a node is dequeued, its world transform — the parent's world
//! transform composed with its own local transform — is written back into
//! its payload strictly before any of its children are dequeued, so no
//! dirty-flag propagation or multi-pass fixups are needed.

use crate::transform::Mat4;
use crate::tree::{enqueue_children, queued_in, NodeRef, Tree};
use std::collections::VecDeque;
use vstd::prelude::*;

verus! {

broadcast use vstd::set::group_set_axioms;

/// The payload contract the renderer collaborator relies on: a local
/// transform, a readable and writable world transform, and a stable
/// per-instance identity usable as a GPU-resource cache key.
pub trait Renderable: Sized {
    /// The local transform, relative to the parent node.
    spec fn local_spec(&self) -> Mat4;

    /// The stored world transform.
    spec fn world_spec(&self) -> Mat4;

    /// The stable per-instance identity.
    spec fn ident_spec(&self) -> u64;

    /// Reads the local (model) transform.
    fn get_model_matrix(&self) -> (m: Mat4)
        ensures
            m == self.local_spec(),
    ;

    /// Reads the stored world transform.
    fn get_world_matrix(&self) -> (m: Mat4)
        ensures
            m == self.world_spec(),
    ;

    /// The same entity with its world transform replaced: the single
    /// sanctioned payload mutation during a draw pass.
    fn set_world_matrix(&self, m: Mat4) -> (r: Self)
        ensures
            r.local_spec() == self.local_spec(),
            r.ident_spec() == self.ident_spec(),
            r.world_spec() == m,
    ;

    /// Reads the stable per-instance identity.
    fn identify(&self) -> (id: u64)
        ensures
            id == self.ident_spec(),
    ;
}

/// A renderable entity: a mesh reference with a local transform and the
/// world transform most recently composed for it.
#[derive(Clone, Copy, PartialEq, Eq, Structural, Debug)]
pub struct Model {
    /// The local (model) transform.
    pub model_mat: Mat4,
    /// The world transform, rewritten by each draw pass.
    pub world_mat: Mat4,
    /// Identifies the mesh; the same logical entity reuses uploaded
    /// geometry across frames through this key.
    pub mesh_id: u64,
}

impl Model {
    /// A model with the given mesh key and local transform; the world
    /// transform starts as the identity until a pass composes it.
    pub fn create(mesh_id: u64, model_mat: Mat4) -> (m: Model)
        ensures
            m.model_mat == model_mat,
            m.world_mat == Mat4::identity_spec(),
            m.mesh_id == mesh_id,
    {
        Model { model_mat, world_mat: Mat4::identity(), mesh_id }
    }
}

impl Renderable for Model {
    open spec fn local_spec(&self) -> Mat4 {
        self.model_mat
    }

    open spec fn world_spec(&self) -> Mat4 {
        self.world_mat
    }

    open spec fn ident_spec(&self) -> u64 {
        self.mesh_id
    }

    fn get_model_matrix(&self) -> (m: Mat4) {
        self.model_mat
    }

    fn get_world_matrix(&self) -> (m: Mat4) {
        self.world_mat
    }

    fn set_world_matrix(&self, m: Mat4) -> (r: Model) {
        Model { model_mat: self.model_mat, world_mat: m, mesh_id: self.mesh_id }
    }

    fn identify(&self) -> (id: u64) {
        self.mesh_id
    }
}

/// A wrapper naming a single root node of renderable content. Created once
/// per logical layer; handed by shared reference to a renderer and consumed
/// once per frame by a traversal-driven draw pass.
#[derive(Clone, Copy, PartialEq, Eq, Structural, Debug)]
pub struct SceneGraph {
    /// The root of the layer's subtree.
    pub root: NodeRef,
}

/// How a renderer rasterises the nodes it draws.
#[derive(Clone, Copy, PartialEq, Eq, Structural, Debug)]
pub enum DrawMode {
    Wireframe,
    Points,
    Colored,
}

/// `i` lies in the subtree rooted at `root`: it is the root itself or has
/// the root among its ancestors.
pub open spec fn subtree_of<T>(tree: &Tree<T>, root: int, i: int) -> bool {
    i == root || tree.on_chain(i, root)
}

/// The world transform owed to node `i` by a pass over the subtree at
/// `root`, searched for `fuel` parent steps: the composition of the local
/// transforms on the path from `root` down to `i`. The root's world
/// transform is its local transform, since it has no parent within the
/// pass.
pub open spec fn world_of_f<T: Renderable>(tree: &Tree<T>, root: int, i: int, fuel: nat) -> Mat4
    decreases fuel,
{
    if i == root {
        tree.data_spec(i).local_spec()
    } else {
        match tree.parent_spec(i) {
            None => tree.data_spec(i).local_spec(),
            Some(p) => if fuel > 0 {
                Mat4::compose_spec(
                    world_of_f(tree, root, p, (fuel - 1) as nat),
                    tree.data_spec(i).local_spec(),
                )
            } else {
                tree.data_spec(i).local_spec()
            },
        }
    }
}

/// The world transform owed to node `i` by a pass over the subtree at
/// `root`.
pub open spec fn world_of<T: Renderable>(tree: &Tree<T>, root: int, i: int) -> Mat4 {
    world_of_f(tree, root, i, tree.chain_fuel(i))
}

/// Any fuel that lets the chain terminate finds the same world transform.
proof fn lemma_world_of_f_agrees<T: Renderable>(
    tree: &Tree<T>,
    root: int,
    i: int,
    f1: nat,
    f2: nat,
)
    requires
        tree.hits_root(i, f1),
        f1 <= f2,
    ensures
        world_of_f(tree, root, i, f2) == world_of_f(tree, root, i, f1),
    decreases f1,
{
    if i != root {
        match tree.parent_spec(i) {
            None => {},
            Some(p) => {
                lemma_world_of_f_agrees(tree, root, p, (f1 - 1) as nat, (f2 - 1) as nat);
            },
        }
    }
}

/// Unfolds the owed world transform across one parent step: below the root,
/// a node's world transform is its parent's world transform composed with
/// its own local transform.
pub proof fn lemma_world_step<T: Renderable>(tree: &Tree<T>, root: int, i: int, p: int)
    requires
        tree.wf(),
        tree.valid(i),
        i != root,
        tree.parent_spec(i) == Some(p),
    ensures
        tree.terminates(p),
        world_of(tree, root, i) == Mat4::compose_spec(
            world_of(tree, root, p),
            tree.data_spec(i).local_spec(),
        ),
{
    assert(tree.terminates(i));
    let f = tree.chain_fuel(i);
    assert(tree.hits_root(i, f));
    let f1 = (f - 1) as nat;
    assert(tree.hits_root(p, f1));
    let g = tree.chain_fuel(p);
    assert(tree.hits_root(p, g));
    if f1 <= g {
        lemma_world_of_f_agrees(tree, root, p, f1, g);
    } else {
        lemma_world_of_f_agrees(tree, root, p, g, f1);
    }
}

/// The bookkeeping step behind one iteration of the draw pass: dequeuing
/// the front node `n`, marking it done, and enqueuing its children keeps
/// every queue and visited-set invariant of the breadth-first walk.
#[verifier::rlimit(100)]
proof fn lemma_pass_step<T: Renderable>(
    pre: &Tree<T>,
    q0: Seq<NodeRef>,
    q1: Seq<NodeRef>,
    done0: Set<int>,
    rt: int,
    n: NodeRef,
)
    requires
        pre.wf(),
        pre.valid(rt),
        q0.len() > 0,
        n == q0[0],
        q1 == q0.subrange(1, q0.len() as int) + pre.child_refs(n.idx as int),
        forall|k: int| 0 <= k < q0.len() ==> pre.valid((#[trigger] q0[k]).idx as int),
        forall|k: int| 0 <= k < q0.len() ==> subtree_of(pre, rt, (#[trigger] q0[k]).idx as int),
        forall|k: int| 0 <= k < q0.len() ==> !done0.contains((#[trigger] q0[k]).idx as int),
        forall|k1: int, k2: int|
            0 <= k1 < k2 < q0.len() ==> (#[trigger] q0[k1]).idx != (#[trigger] q0[k2]).idx,
        forall|k: int|
            0 <= k < q0.len() ==> ((#[trigger] q0[k]).idx as int == rt || (pre.parent_spec(
                q0[k].idx as int,
            ) matches Some(p) && done0.contains(p))),
        forall|i: int|
            #![trigger done0.contains(i)]
            done0.contains(i) ==> pre.valid(i) && subtree_of(pre, rt, i),
        forall|i: int|
            #![trigger done0.contains(i)]
            done0.contains(i) ==> (i == rt || (pre.parent_spec(i) matches Some(p)
                && done0.contains(p))),
        forall|i: int|
            #![trigger subtree_of(pre, rt, i)]
            pre.valid(i) && subtree_of(pre, rt, i) ==> (done0.contains(i) || exists|k: int|
                0 <= k < q0.len() && (i == (#[trigger] q0[k]).idx as int || pre.on_chain(
                    i,
                    q0[k].idx as int,
                ))),
        done0.finite(),
    ensures
        ({
            let n_i = n.idx as int;
            let done1 = done0.insert(n_i);
            &&& (forall|k: int| 0 <= k < q1.len() ==> pre.valid((#[trigger] q1[k]).idx as int))
            &&& (forall|k: int|
                0 <= k < q1.len() ==> subtree_of(pre, rt, (#[trigger] q1[k]).idx as int))
            &&& (forall|k: int| 0 <= k < q1.len() ==> !done1.contains((#[trigger] q1[k]).idx as int))
            &&& (forall|k1: int, k2: int|
                0 <= k1 < k2 < q1.len() ==> (#[trigger] q1[k1]).idx != (#[trigger] q1[k2]).idx)
            &&& (forall|k: int|
                0 <= k < q1.len() ==> ((#[trigger] q1[k]).idx as int == rt || (pre.parent_spec(
                    q1[k].idx as int,
                ) matches Some(p) && done1.contains(p))))
            &&& (forall|i: int|
                #![trigger done1.contains(i)]
                done1.contains(i) ==> pre.valid(i) && subtree_of(pre, rt, i))
            &&& (forall|i: int|
                #![trigger done1.contains(i)]
                done1.contains(i) ==> (i == rt || (pre.parent_spec(i) matches Some(p)
                    && done1.contains(p))))
            &&& (forall|i: int|
                #![trigger subtree_of(pre, rt, i)]
                pre.valid(i) && subtree_of(pre, rt, i) ==> (done1.contains(i) || exists|k: int|
                    0 <= k < q1.len() && (i == (#[trigger] q1[k]).idx as int || pre.on_chain(
                        i,
                        q1[k].idx as int,
                    ))))
            &&& done1.finite()
            &&& done1.len() == done0.len() + 1
            &&& done1.len() <= pre.node_count()
        }),
{
    let n_i = n.idx as int;
    let done1 = done0.insert(n_i);
    let crs = pre.child_refs(n_i);
    let tail = q0.subrange(1, q0.len() as int);
    assert(pre.link_wf(n_i));
    assert(subtree_of(pre, rt, n_i));
    // Each child of `n` is a fresh subtree node below `n`.
    assert forall|j: int| 0 <= j < crs.len() implies pre.valid((#[trigger] crs[j]).idx as int)
        && pre.parent_spec(crs[j].idx as int) == Some(n_i) && subtree_of(
        pre,
        rt,
        crs[j].idx as int,
    ) && crs[j].idx as int != rt by {
        let c = crs[j].idx as int;
        assert(pre.children_spec(n_i)[j] == c);
        assert(pre.valid(c));
        assert(pre.parent_spec(c) == Some(n_i));
        assert(pre.terminates(c));
        pre.lemma_chain_step(c, n_i);
        if n_i != rt {
            assert(pre.on_chain(n_i, rt));
        }
        assert(pre.on_chain(c, rt));
        if c == rt {
            pre.lemma_no_self_chain(rt);
        }
    }
    // None of them is already done: their parent `n` was not.
    assert forall|j: int| 0 <= j < crs.len() implies !done1.contains(
        (#[trigger] crs[j]).idx as int,
    ) by {
        let c = crs[j].idx as int;
        if c == n_i {
            assert(pre.terminates(c));
            pre.lemma_chain_step(c, n_i);
            assert(pre.on_chain(n_i, n_i));
            pre.lemma_no_self_chain(n_i);
        }
        if done0.contains(c) {
            assert(c == rt || (pre.parent_spec(c) matches Some(p) && done0.contains(p)));
        }
    }
    // The new queue holds no duplicates.
    assert forall|k1: int, k2: int| 0 <= k1 < k2 < q1.len() implies (#[trigger] q1[k1]).idx != (
    #[trigger] q1[k2]).idx by {
        if k2 < tail.len() {
            assert(q1[k1] == q0[k1 + 1] && q1[k2] == q0[k2 + 1]);
        } else if k1 < tail.len() {
            assert(q1[k2] == crs[k2 - tail.len()]);
            assert(q1[k1] == q0[k1 + 1]);
            if q1[k1].idx == q1[k2].idx {
                assert(!done1.contains(q1[k2].idx as int));
                assert(q1[k1].idx as int == rt || (pre.parent_spec(q1[k1].idx as int) matches Some(
                    p,
                ) && done0.contains(p)));
                assert(pre.parent_spec(q1[k2].idx as int) == Some(n_i));
                assert(q1[k2].idx as int != rt);
            }
        } else {
            assert(q1[k1] == crs[k1 - tail.len()]);
            assert(q1[k2] == crs[k2 - tail.len()]);
            assert(pre.children_spec(n_i)[k1 - tail.len()] == crs[k1 - tail.len()].idx as int);
            assert(pre.children_spec(n_i)[k2 - tail.len()] == crs[k2 - tail.len()].idx as int);
        }
    }
    // Every subtree node keeps a witness: its old one, or — when its chain
    // entered through `n` — the child of `n` that the chain runs through.
    assert forall|i: int|
        pre.valid(i) && #[trigger] subtree_of(pre, rt, i) implies (done1.contains(i)
        || exists|k: int|
        0 <= k < q1.len() && (i == (#[trigger] q1[k]).idx as int || pre.on_chain(
            i,
            q1[k].idx as int,
        ))) by {
        if !done1.contains(i) {
            let k0 = choose|k: int|
                0 <= k < q0.len() && (i == (#[trigger] q0[k]).idx as int || pre.on_chain(
                    i,
                    q0[k].idx as int,
                ));
            if k0 >= 1 {
                assert(q1[k0 - 1] == q0[k0]);
                assert(0 <= k0 - 1 < q1.len() && (i == (#[trigger] q1[k0 - 1]).idx as int
                    || pre.on_chain(i, q1[k0 - 1].idx as int)));
            } else {
                assert(i != n_i);
                assert(pre.on_chain(i, n_i));
                pre.lemma_chain_to_child(i, n_i);
                let c = choose|c: int|
                    #[trigger] pre.children_spec(n_i).contains(c) && (i == c || pre.on_chain(i, c));
                let j = choose|j: int|
                    0 <= j < pre.children_spec(n_i).len() && pre.children_spec(n_i)[j] == c;
                assert(crs[j].idx as int == c);
                assert(q1[tail.len() + j] == crs[j]);
                assert(0 <= tail.len() + j < q1.len() && (i == (#[trigger] q1[tail.len()
                    + j]).idx as int || pre.on_chain(i, q1[tail.len() + j].idx as int)));
            }
        }
    }
    // The visited set grows by exactly the dequeued node.
    assert(!done0.contains(n_i));
    assert(done1.len() == done0.len() + 1);
    assert forall|i: int| done1.contains(i) implies vstd::set_lib::set_int_range(
        0,
        pre.node_count() as int,
    ).contains(i) by {}
    vstd::set_lib::lemma_int_range(0, pre.node_count() as int);
    vstd::set_lib::lemma_len_subset(
        done1,
        vstd::set_lib::set_int_range(0, pre.node_count() as int),
    );
}

/// The draw pass's transform phase: a full breadth-first traversal of the
/// scene graph's subtree that composes world transforms top-down. When a
/// node is dequeued its world transform — the parent's world transform
/// composed with the node's local transform, or the local transform alone
/// at the root — is written back into its payload before any of its
/// children are dequeued. Structure, identifiers, local transforms and
/// payload identities are left untouched, as is every node outside the
/// subtree.
#[verifier::rlimit(100)]
pub fn update_world_transforms<T: Renderable>(tree: &mut Tree<T>, graph: &SceneGraph)
    requires
        old(tree).wf(),
        old(tree).valid_ref(graph.root),
    ensures
        final(tree).wf(),
        final(tree).node_count() == old(tree).node_count(),
        final(tree).next_id_spec() == old(tree).next_id_spec(),
        forall|i: int|
            #![trigger final(tree).id_spec(i)]
            old(tree).valid(i) ==> final(tree).id_spec(i) == old(tree).id_spec(i),
        forall|i: int|
            #![trigger final(tree).parent_spec(i)]
            old(tree).valid(i) ==> final(tree).parent_spec(i) == old(tree).parent_spec(i),
        forall|i: int|
            #![trigger final(tree).child_refs(i)]
            old(tree).valid(i) ==> final(tree).child_refs(i) == old(tree).child_refs(i),
        forall|i: int|
            #![trigger final(tree).data_spec(i)]
            old(tree).valid(i) ==> final(tree).data_spec(i).local_spec() == old(tree).data_spec(
                i,
            ).local_spec() && final(tree).data_spec(i).ident_spec() == old(tree).data_spec(
                i,
            ).ident_spec(),
        forall|i: int|
            #![trigger final(tree).data_spec(i)]
            old(tree).valid(i) && !subtree_of(&*old(tree), graph.root.idx as int, i) ==> final(tree).data_spec(i) == old(tree).data_spec(i),
        forall|i: int|
            #![trigger final(tree).data_spec(i)]
            old(tree).valid(i) && subtree_of(&*old(tree), graph.root.idx as int, i) ==> final(tree).data_spec(i).world_spec() == world_of(&*old(tree), graph.root.idx as int, i),
{
    let ghost pre = *old(tree);
    let ghost rt = graph.root.idx as int;
    let root = graph.root;
    let mut queue: VecDeque<NodeRef> = VecDeque::new();
    queue.push_back(root);
    let ghost mut done: Set<int> = Set::empty();
    proof {
        assert forall|i: int|
            pre.valid(i) && #[trigger] subtree_of(&pre, rt, i) implies exists|k: int|
            0 <= k < queue@.len() && (i == (#[trigger] queue@[k]).idx as int || pre.on_chain(
                i,
                queue@[k].idx as int,
            )) by {
            assert(queue@[0] == root);
            assert(0 <= 0 < queue@.len() && (i == queue@[0].idx as int || pre.on_chain(
                i,
                queue@[0].idx as int,
            )));
        }
    }
    while queue.len() != 0
        invariant
            pre.wf(),
            pre.valid(rt),
            rt == root.idx as int,
            tree.wf(),
            tree.node_count() == pre.node_count(),
            tree.next_id_spec() == pre.next_id_spec(),
            forall|i: int|
                #![trigger tree.id_spec(i)]
                pre.valid(i) ==> tree.id_spec(i) == pre.id_spec(i),
            forall|i: int|
                #![trigger tree.parent_spec(i)]
                pre.valid(i) ==> tree.parent_spec(i) == pre.parent_spec(i),
            forall|i: int|
                #![trigger tree.child_refs(i)]
                pre.valid(i) ==> tree.child_refs(i) == pre.child_refs(i),
            forall|i: int|
                #![trigger tree.data_spec(i)]
                pre.valid(i) ==> tree.data_spec(i).local_spec() == pre.data_spec(i).local_spec()
                    && tree.data_spec(i).ident_spec() == pre.data_spec(i).ident_spec(),
            forall|i: int|
                #![trigger tree.data_spec(i)]
                pre.valid(i) && !done.contains(i) ==> tree.data_spec(i) == pre.data_spec(i),
            done.finite(),
            done.len() <= pre.node_count(),
            forall|i: int|
                #![trigger done.contains(i)]
                done.contains(i) ==> pre.valid(i) && subtree_of(&pre, rt, i) && tree.data_spec(
                    i,
                ).world_spec() == world_of(&pre, rt, i),
            forall|i: int|
                #![trigger done.contains(i)]
                done.contains(i) ==> (i == rt || (pre.parent_spec(i) matches Some(p)
                    && done.contains(p))),
            queued_in(queue@, tree),
            forall|k: int|
                0 <= k < queue@.len() ==> subtree_of(&pre, rt, (#[trigger] queue@[k]).idx as int),
            forall|k: int|
                0 <= k < queue@.len() ==> !done.contains((#[trigger] queue@[k]).idx as int),
            forall|k1: int, k2: int|
                0 <= k1 < k2 < queue@.len() ==> (#[trigger] queue@[k1]).idx != (
                #[trigger] queue@[k2]).idx,
            forall|k: int|
                0 <= k < queue@.len() ==> ((#[trigger] queue@[k]).idx as int == rt || (
                pre.parent_spec(queue@[k].idx as int) matches Some(p) && done.contains(p))),
            forall|i: int|
                #![trigger subtree_of(&pre, rt, i)]
                pre.valid(i) && subtree_of(&pre, rt, i) ==> (done.contains(i) || exists|k: int|
                    0 <= k < queue@.len() && (i == (#[trigger] queue@[k]).idx as int
                        || pre.on_chain(i, queue@[k].idx as int))),
        decreases pre.node_count() - done.len(),
    {
        let ghost q0 = queue@;
        let popped: Option<NodeRef> = queue.pop_front();
        let n: NodeRef = match popped {
            Some(x) => x,
            None => root,
        };
        proof {
            assert(popped == Some(q0[0]));
            assert(n == q0[0]);
            assert(tree.valid_ref(n));
            assert(subtree_of(&pre, rt, n.idx as int));
            assert(!done.contains(n.idx as int));
        }
        let w: Mat4;
        if n.idx == root.idx {
            w = tree.get(n).data.get_model_matrix();
            proof {
                assert(world_of(&pre, rt, rt) == pre.data_spec(rt).local_spec());
                assert(w == world_of(&pre, rt, n.idx as int));
            }
        } else {
            let parent_link: Option<NodeRef> = tree.get(n).parent();
            proof {
                assert(pre.on_chain(n.idx as int, rt));
                if pre.parent_spec(n.idx as int) is None {
                    assert(!pre.on_chain(n.idx as int, rt));
                }
                assert(tree.parent_spec(n.idx as int) == pre.parent_spec(n.idx as int));
            }
            let p: NodeRef = match parent_link {
                Some(p) => p,
                None => root,
            };
            proof {
                assert(parent_link is Some);
                assert(pre.parent_spec(n.idx as int) == Some(p.idx as int));
                assert(done.contains(p.idx as int));
                assert(tree.valid_ref(p));
            }
            let pw = tree.get(p).data.get_world_matrix();
            let lm = tree.get(n).data.get_model_matrix();
            w = pw.compose(&lm);
            proof {
                lemma_world_step(&pre, rt, n.idx as int, p.idx as int);
                assert(pw == world_of(&pre, rt, p.idx as int));
                assert(lm == pre.data_spec(n.idx as int).local_spec());
                assert(w == world_of(&pre, rt, n.idx as int));
            }
        }
        let nd = tree.get(n).data.set_world_matrix(w);
        tree.set_data(n, nd);
        enqueue_children(&mut queue, tree, n);
        proof {
            let n_i = n.idx as int;
            assert(tree.child_refs(n_i) == pre.child_refs(n_i));
            assert(queue@ == q0.subrange(1, q0.len() as int) + pre.child_refs(n_i));
            lemma_pass_step(&pre, q0, queue@, done, rt, n);
            done = done.insert(n_i);
            assert forall|i: int|
                #![trigger done.contains(i)]
                done.contains(i) implies pre.valid(i) && subtree_of(&pre, rt, i)
                && tree.data_spec(i).world_spec() == world_of(&pre, rt, i) by {}
        }
    }
    proof {
        assert forall|i: int|
            pre.valid(i) && #[trigger] subtree_of(&pre, rt, i) implies done.contains(i) by {}
    }
}

} // verus!
