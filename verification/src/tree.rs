//! The forest of rooted instances and its structural operations.
//!
//! [`RbxTree`] owns every node, keyed by identifier in a hash map, and
//! tracks the set of identifiers without a parent. All structural
//! mutation goes through the operations here, each of which preserves the
//! forest invariants: parent and child references agree in both
//! directions, child lists hold no duplicates and no dangling
//! identifiers, the root set is exactly the parentless nodes, and the
//! graph is acyclic (witnessed by a depth map in the invariant).

use std::collections::HashMap;
use std::collections::HashSet;

use vstd::prelude::*;

use crate::model::{
    NodeModel, is_desc, desc_set, ids_ok, parents_ok, children_ok, nodup_ok, map_wf,
    roots_ok, depth_ok, insert_model, unlink_model, remaining_model, remaining_roots,
    extracted_model, graft_model, graft_roots, lemma_push_nodup,
    stack_descs, stack_disjoint, lemma_desc_self, lemma_desc_depth, lemma_desc_unfold,
    lemma_stack_step, lemma_children_in_desc, lemma_remove_preserves_wf,
    lemma_graft_preserves_wf,
};

verus! {

broadcast use vstd::std_specs::hash::group_hash_axioms;

/// An instance that is rooted in a forest: an opaque payload together
/// with the node's identifier, optional parent identifier, and ordered
/// child identifiers.
pub struct RootedRbxInstance<T> {
    payload: T,
    id: u64,
    children: Vec<u64>,
    parent: Option<u64>,
}

impl<T> View for RootedRbxInstance<T> {
    type V = NodeModel<T>;

    closed spec fn view(&self) -> NodeModel<T> {
        NodeModel {
            id: self.id,
            parent: self.parent,
            children: self.children@,
            payload: self.payload,
        }
    }
}

impl<T> RootedRbxInstance<T> {
    /// A fresh leaf node: no children yet, parent as given.
    fn new(payload: T, id: u64, parent: Option<u64>) -> (r: RootedRbxInstance<T>)
        ensures
            r@ == (NodeModel {
                id: id,
                parent: parent,
                children: Seq::<u64>::empty(),
                payload: payload,
            }),
    {
        let r = RootedRbxInstance { payload, id, children: Vec::new(), parent };
        proof {
            assert(r@.children =~= Seq::<u64>::empty());
        }
        r
    }

    /// The identifier of this instance, stable for its whole lifetime.
    pub fn get_id(&self) -> (r: u64)
        ensures
            r == self@.id,
    {
        self.id
    }

    /// The identifier of this instance's parent, if it has one.
    pub fn get_parent_id(&self) -> (r: Option<u64>)
        ensures
            r == self@.parent,
    {
        self.parent
    }

    /// The ordered identifiers of this instance's children.
    pub fn get_children_ids(&self) -> (r: &Vec<u64>)
        ensures
            r@ == self@.children,
    {
        &self.children
    }

    /// Read access to the payload this instance carries.
    pub fn get_payload(&self) -> (r: &T)
        ensures
            *r == self@.payload,
    {
        &self.payload
    }
}

/// A forest of rooted instances, keyed by identifier.
pub struct RbxTree<T> {
    instances: HashMap<u64, RootedRbxInstance<T>>,
    root_ids: HashSet<u64>,
    next_id: u64,
}

impl<T> RbxTree<T> {
    /// The forest as a map from identifier to node model.
    pub closed spec fn nodes(&self) -> Map<u64, NodeModel<T>> {
        Map::new(
            |i: u64| self.instances@.dom().contains(i),
            |i: u64| self.instances@[i]@,
        )
    }

    /// The identifiers of the nodes without a parent.
    pub closed spec fn roots(&self) -> Set<u64>  {
        self.root_ids@
    }

    /// All identifiers this forest has ever assigned lie below this bound;
    /// insertion assigns the bound itself and then raises it.
    pub closed spec fn id_bound(&self) -> u64 {
        self.next_id
    }

    /// The forest invariants: parent and child references agree in both
    /// directions, child lists are duplicate-free, the root set is exactly
    /// the parentless stored nodes, a depth witness rules out cycles, and
    /// every stored identifier lies below the assignment bound.
    pub closed spec fn wf(&self) -> bool {
        &&& map_wf(self.nodes())
        &&& roots_ok(self.nodes(), self.roots())
        &&& exists|d: Map<u64, int>| #[trigger] depth_ok(self.nodes(), d)
        &&& forall|i: u64| #[trigger] self.nodes().dom().contains(i) ==> i < self.next_id
    }

    /// An empty forest: no nodes, no roots.
    pub fn new() -> (r: RbxTree<T>)
        ensures
            r.wf(),
            r.nodes() == Map::<u64, NodeModel<T>>::empty(),
            r.roots() == Set::<u64>::empty(),
            r.id_bound() == 0,
    {
        let r = RbxTree {
            instances: HashMap::new(),
            root_ids: HashSet::new(),
            next_id: 0u64,
        };
        proof {
            assert(r.nodes() =~= Map::<u64, NodeModel<T>>::empty());
            assert(depth_ok(r.nodes(), Map::<u64, int>::empty()));
        }
        r
    }

    /// Read-only view of the identifiers of the forest's roots.
    pub fn get_root_ids(&self) -> (r: &HashSet<u64>)
        ensures
            r@ == self.roots(),
    {
        &self.root_ids
    }

    /// Look the node with this identifier up, if it is stored here.
    pub fn get_instance(&self, id: u64) -> (r: Option<&RootedRbxInstance<T>>)
        ensures
            match r {
                Some(inst) => self.nodes().dom().contains(id) && inst@ == self.nodes()[id],
                None => !self.nodes().dom().contains(id),
            },
    {
        self.instances.get(&id)
    }

    /// Mutable lookup: a mutable borrow of the payload of the node with
    /// this identifier, or `None` if it is not stored here. Only the
    /// payload is writable; the structural fields are invariant-protected
    /// state, mutated only through the forest's own operations. A caller
    /// that writes through the borrow re-establishes well-formedness with
    /// [`lemma_payload_write_wf`].
    pub fn get_instance_mut(&mut self, id: u64) -> (r: Option<&mut T>)
        requires
            old(self).wf(),
        ensures
            final(self).roots() == old(self).roots(),
            final(self).id_bound() == old(self).id_bound(),
            match r {
                Some(payload) => {
                    &&& old(self).nodes().dom().contains(id)
                    &&& *payload == old(self).nodes()[id].payload
                    &&& final(self).nodes() =~= old(self).nodes().insert(
                        id,
                        NodeModel {
                            id: old(self).nodes()[id].id,
                            parent: old(self).nodes()[id].parent,
                            children: old(self).nodes()[id].children,
                            payload: *final(payload),
                        },
                    )
                },
                None => {
                    &&& !old(self).nodes().dom().contains(id)
                    &&& final(self).nodes() == old(self).nodes()
                    &&& final(self).wf()
                },
            },
    {
        match self.instances.entry(id) {
            std::collections::hash_map::Entry::Occupied(e) => {
                let node = e.into_mut();
                Some(&mut node.payload)
            },
            std::collections::hash_map::Entry::Vacant(_) => None,
        }
    }

    /// Link a fresh leaf node into the forest: hang it under its parent's
    /// child list, or record it as a root, and store it.
    fn insert_instance_internal(&mut self, node: RootedRbxInstance<T>)
        requires
            old(self).wf(),
            node@.children == Seq::<u64>::empty(),
            node@.id < old(self).id_bound(),
            !old(self).nodes().dom().contains(node@.id),
            node@.parent matches Some(p) ==> old(self).nodes().dom().contains(p),
        ensures
            final(self).wf(),
            final(self).id_bound() == old(self).id_bound(),
            final(self).nodes() == insert_model(
                old(self).nodes(),
                node@.id,
                node@.parent,
                node@.payload,
            ),
            final(self).roots() == if node@.parent is None {
                old(self).roots().insert(node@.id)
            } else {
                old(self).roots()
            },
    {
        let ghost m0 = self.nodes();
        let ghost d0 = choose|d: Map<u64, int>| depth_ok(m0, d);
        proof {
            assert(depth_ok(m0, d0));
        }
        let id = node.id;
        match node.parent {
            Some(parent_id) => {
                assert(self.instances@.dom().contains(parent_id));
                let mut pnode = self.instances.remove(&parent_id).unwrap();
                proof {
                    assert(pnode@ == m0[parent_id]);
                }
                pnode.children.push(id);
                self.instances.insert(parent_id, pnode);
            }
            None => {
                self.root_ids.insert(id);
            }
        }
        self.instances.insert(id, node);
        proof {
            let m1 = self.nodes();
            assert(m1 =~= insert_model(m0, id, node@.parent, node@.payload));
            lemma_wf_after_leaf_insert(m0, d0, old(self).roots(), id, node@.parent, node@.payload);
            let dnew = match node@.parent {
                Some(p) => d0.insert(id, d0[p] + 1),
                None => d0.insert(id, 0),
            };
            assert(self.wf()) by {
                assert(map_wf(m1) && roots_ok(m1, self.roots()) && depth_ok(m1, dnew));
                assert(forall|i: u64| #[trigger] m1.dom().contains(i) ==> i < self.next_id);
            }
        }
    }

    /// Create a new node around `payload`, assign it a fresh identifier,
    /// and link it under `parent_id` (at the end of that parent's child
    /// list), or as a new root when `parent_id` is `None`. Returns the new
    /// identifier.
    pub fn insert_instance(&mut self, payload: T, parent_id: Option<u64>) -> (id: u64)
        requires
            old(self).wf(),
            old(self).id_bound() < u64::MAX,
            parent_id matches Some(p) ==> old(self).nodes().dom().contains(p),
        ensures
            final(self).wf(),
            id == old(self).id_bound(),
            !old(self).nodes().dom().contains(id),
            final(self).id_bound() == old(self).id_bound() + 1,
            final(self).nodes() == insert_model(old(self).nodes(), id, parent_id, payload),
            final(self).roots() == if parent_id is None {
                old(self).roots().insert(id)
            } else {
                old(self).roots()
            },
    {
        let id = self.next_id;
        self.next_id = self.next_id + 1;
        let node = RootedRbxInstance::new(payload, id, parent_id);
        self.insert_instance_internal(node);
        id
    }

    /// A lazy walk over the node identified by `id` and all of its
    /// descendants, starting with that node itself. The forest must not
    /// be structurally mutated while the walk is alive; the borrow
    /// checker enforces this.
    pub fn descendants(&self, id: u64) -> (r: Descendants<'_, T>)
        requires
            self.wf(),
        ensures
            r.wf(),
            r.forest() == *self,
            r.seed_id() == id,
            r.visited_set() == Set::<u64>::empty(),
    {
        let mut ids_to_visit: Vec<u64> = Vec::new();
        ids_to_visit.push(id);
        let r = Descendants {
            tree: self,
            ids_to_visit,
            seed: Ghost(id),
            visited: Ghost(Set::empty()),
        };
        proof {
            let m = self.nodes();
            let st = r.ids_to_visit@;
            assert(st.len() == 1 && st[0] == id);
            assert(st.drop_last() =~= Seq::<u64>::empty());
            assert(st.last() == id);
            assert(stack_descs(m, st) == stack_descs(m, st.drop_last()).union(desc_set(m, id)));
            assert(stack_descs(m, st) =~= desc_set(m, id));
            assert(desc_set(m, id) =~= Set::<u64>::empty().union(stack_descs(m, st)));
        }
        r
    }

    /// Move the node `source_id`, and with it every descendant, out of
    /// `source_tree` and into this forest, re-parenting the moved root
    /// under `new_parent_id` (or making it a root here when `None`). The
    /// moved subtree keeps its internal structure: descendants keep their
    /// parents and child lists; only the top node's parent link changes,
    /// and the new parent's child list gains the moved root at the end.
    #[verifier::loop_isolation(false)]
    pub fn transplant(
        &mut self,
        source_tree: &mut RbxTree<T>,
        source_id: u64,
        new_parent_id: Option<u64>,
    )
        requires
            old(self).wf(),
            old(source_tree).wf(),
            old(source_tree).nodes().dom().contains(source_id),
            new_parent_id matches Some(p) ==> old(self).nodes().dom().contains(p),
            desc_set(old(source_tree).nodes(), source_id).disjoint(old(self).nodes().dom()),
        ensures
            final(self).wf(),
            final(source_tree).wf(),
            final(source_tree).nodes() == remaining_model(old(source_tree).nodes(), source_id),
            final(source_tree).roots() == remaining_roots(
                old(source_tree).nodes(),
                old(source_tree).roots(),
                source_id,
            ),
            final(source_tree).id_bound() == old(source_tree).id_bound(),
            final(self).nodes() == graft_model(
                old(self).nodes(),
                old(source_tree).nodes(),
                source_id,
                new_parent_id,
            ),
            final(self).roots() == graft_roots(old(self).roots(), source_id, new_parent_id),
            final(self).id_bound() == if old(self).id_bound() >= old(source_tree).id_bound() {
                old(self).id_bound()
            } else {
                old(source_tree).id_bound()
            },
            final(source_tree).nodes().dom() == old(source_tree).nodes().dom().difference(
                desc_set(old(source_tree).nodes(), source_id),
            ),
            final(self).nodes().dom() == old(self).nodes().dom().union(
                desc_set(old(source_tree).nodes(), source_id),
            ),
            forall|x: u64|
                is_desc(final(self).nodes(), source_id, x) <==> desc_set(
                    old(source_tree).nodes(),
                    source_id,
                ).contains(x),
    {
        let ghost sm0 = source_tree.nodes();
        let ghost ds0 = choose|d: Map<u64, int>| depth_ok(sm0, d);
        let ghost sroots0 = source_tree.roots();
        let ghost tm0 = self.nodes();
        let ghost dt0 = choose|d: Map<u64, int>| depth_ok(tm0, d);
        let ghost troots0 = self.roots();
        let ghost dset = desc_set(sm0, source_id);
        let ghost mu = unlink_model(sm0, source_id);
        let ghost gm = graft_model(tm0, sm0, source_id, new_parent_id);
        proof {
            assert(depth_ok(sm0, ds0));
            assert(depth_ok(tm0, dt0));
            lemma_desc_self(sm0, source_id);
        }
        if source_tree.next_id > self.next_id {
            self.next_id = source_tree.next_id;
        }
        // Sever the subtree from its parent, or root set, in the source.
        let parent_id = match source_tree.instances.get(&source_id) {
            Some(inst) => inst.get_parent_id(),
            None => None,
        };
        proof {
            assert(parent_id == sm0[source_id].parent);
        }
        match parent_id {
            Some(pid) => {
                let mut pnode = source_tree.instances.remove(&pid).unwrap();
                proof {
                    assert(pnode@ == sm0[pid]);
                    sm0[pid].children.index_of_first_ensures(source_id);
                }
                let idx = find_index(&pnode.children, source_id);
                pnode.children.remove(idx);
                source_tree.instances.insert(pid, pnode);
                proof {
                    assert(sm0[pid].children.remove_value(source_id) == sm0[pid].children.remove(
                        idx as int,
                    ));
                    assert(source_tree.nodes() =~= mu);
                }
            },
            None => {
                source_tree.root_ids.remove(&source_id);
                proof {
                    assert(source_tree.nodes() =~= mu);
                }
            },
        }
        // Link the moved root into this forest.
        match new_parent_id {
            Some(p) => {
                let mut pnode = self.instances.remove(&p).unwrap();
                proof {
                    assert(pnode@ == tm0[p]);
                }
                pnode.children.push(source_id);
                self.instances.insert(p, pnode);
            },
            None => {
                self.root_ids.insert(source_id);
            },
        }
        // Move the root over, re-parented.
        let mut rnode = source_tree.instances.remove(&source_id).unwrap();
        rnode.parent = new_parent_id;
        let mut stack: Vec<u64> = Vec::new();
        push_all(&mut stack, &rnode.children);
        self.instances.insert(source_id, rnode);
        proof {
            lemma_desc_unfold(sm0, ds0, source_id);
            lemma_children_in_desc(sm0, source_id, source_id);
            assert(stack@ == Seq::<u64>::empty() + sm0[source_id].children);
            assert(stack@ =~= sm0[source_id].children);
            assert(stack_descs(sm0, stack@) =~= dset.remove(source_id));
            assert(source_tree.nodes() =~= mu.remove_keys(
                dset.difference(stack_descs(sm0, stack@)),
            ));
            assert forall|x: u64| #[trigger] dset.contains(x) implies sm0.dom().contains(x)
                && !tm0.dom().contains(x) by {}
            assert(self.nodes() =~= gm.remove_keys(stack_descs(sm0, stack@)));
        }
        // Walk the subtree, moving every reachable descendant over.
        loop
            invariant
                source_tree.nodes() == mu.remove_keys(
                    dset.difference(stack_descs(sm0, stack@)),
                ),
                source_tree.roots() == remaining_roots(sm0, sroots0, source_id),
                source_tree.next_id == old(source_tree).next_id,
                self.nodes() == gm.remove_keys(stack_descs(sm0, stack@)),
                self.roots() == graft_roots(troots0, source_id, new_parent_id),
                self.next_id == if old(self).next_id >= old(source_tree).next_id {
                    old(self).next_id
                } else {
                    old(source_tree).next_id
                },
                stack_disjoint(sm0, stack@),
                forall|i: int| 0 <= i < stack@.len() ==> dset.contains(#[trigger] stack@[i]),
                !stack_descs(sm0, stack@).contains(source_id),
            decreases source_tree.instances@.len(),
        {
            let ghost st = stack@;
            let id = match stack.pop() {
                Some(i) => i,
                None => {
                    break ;
                },
            };
            proof {
                assert(st[st.len() - 1] == id);
                assert(dset.contains(id));
                lemma_desc_self(sm0, id);
                assert(desc_set(sm0, id).contains(id));
                assert(stack_descs(sm0, st) == stack_descs(sm0, st.drop_last()).union(
                    desc_set(sm0, st.last()),
                ));
                assert(stack_descs(sm0, st).contains(id));
                assert(source_tree.nodes().dom().contains(id));
                lemma_stack_step(sm0, ds0, st);
                lemma_children_in_desc(sm0, source_id, id);
            }
            let ghost prevn = source_tree.nodes();
            let node = source_tree.instances.remove(&id).unwrap();
            proof {
                assert(node@ == prevn[id]);
                assert(source_tree.nodes() =~= prevn.remove(id));
                assert(id != source_id);
                assert((sm0[source_id].parent matches Some(pp) ==> id != pp)) by {
                    if sm0[source_id].parent is Some {
                        let pp = sm0[source_id].parent->0;
                        if dset.contains(pp) {
                            lemma_desc_depth(sm0, ds0, source_id, pp);
                        }
                    }
                }
                assert(node@ == sm0[id]);
            }
            push_all(&mut stack, &node.children);
            let ghost prevo = self.nodes();
            self.instances.insert(id, node);
            proof {
                let rnew = stack_descs(sm0, stack@);
                assert(stack@ == st.drop_last() + sm0[id].children);
                assert(rnew == stack_descs(sm0, st).remove(id));
                assert(source_tree.nodes() =~= mu.remove_keys(dset.difference(rnew)));
                assert(gm[id] == sm0[id]) by {
                    assert(!tm0.dom().contains(id));
                    if new_parent_id is Some {
                        assert(tm0.dom().contains(new_parent_id->0));
                    }
                }
                assert(self.nodes() =~= prevo.insert(id, sm0[id]));
                assert(self.nodes() =~= gm.remove_keys(rnew));
                assert forall|i: int| 0 <= i < stack@.len() implies dset.contains(
                    #[trigger] stack@[i],
                ) by {
                    if i < st.len() - 1 {
                        assert(stack@[i] == st[i]);
                    } else {
                        assert(stack@[i] == sm0[id].children[i - (st.len() - 1)]);
                        assert(is_desc(sm0, source_id, stack@[i]));
                    }
                }
            }
        }
        proof {
            assert(stack@.len() == 0);
            assert(stack_descs(sm0, stack@) =~= Set::<u64>::empty());
            assert(dset.difference(stack_descs(sm0, stack@)) =~= dset);
            assert(source_tree.nodes() =~= remaining_model(sm0, source_id));
            assert(self.nodes() =~= gm);
            lemma_remove_preserves_wf(sm0, ds0, sroots0, source_id);
            assert(source_tree.wf()) by {
                assert forall|i: u64| #[trigger] source_tree.nodes().dom().contains(i) implies i
                    < source_tree.next_id by {
                    assert(sm0.dom().contains(i));
                }
            }
            let dn = lemma_graft_preserves_wf(
                tm0,
                dt0,
                troots0,
                sm0,
                ds0,
                source_id,
                new_parent_id,
            );
            assert(depth_ok(self.nodes(), dn));
            assert(self.wf()) by {
                assert forall|i: u64| #[trigger] self.nodes().dom().contains(i) implies i
                    < self.next_id by {
                    assert(tm0.dom().contains(i) || dset.contains(i));
                    if dset.contains(i) {
                        assert(sm0.dom().contains(i));
                    }
                }
            }
        }
    }

    /// Detach the subtree rooted at `root_id` — the node itself and every
    /// descendant — and return it as a new, independent forest whose sole
    /// root is `root_id`. Returns `None`, and changes nothing, when
    /// `root_id` is not stored here. The subtree keeps its internal
    /// structure; only the link to the former parent is severed.
    #[verifier::loop_isolation(false)]
    pub fn remove_instance(&mut self, root_id: u64) -> (r: Option<RbxTree<T>>)
        requires
            old(self).wf(),
        ensures
            final(self).wf(),
            final(self).id_bound() == old(self).id_bound(),
            match r {
                Some(out) => {
                    &&& old(self).nodes().dom().contains(root_id)
                    &&& out.wf()
                    &&& out.id_bound() == old(self).id_bound()
                    &&& final(self).nodes() == remaining_model(old(self).nodes(), root_id)
                    &&& final(self).roots() == remaining_roots(
                        old(self).nodes(),
                        old(self).roots(),
                        root_id,
                    )
                    &&& out.nodes() == extracted_model(old(self).nodes(), root_id)
                    &&& out.roots() == Set::<u64>::empty().insert(root_id)
                },
                None => {
                    &&& !old(self).nodes().dom().contains(root_id)
                    &&& final(self).nodes() == old(self).nodes()
                    &&& final(self).roots() == old(self).roots()
                },
            },
    {
        let ghost m0 = self.nodes();
        let ghost d0 = choose|d: Map<u64, int>| depth_ok(m0, d);
        let ghost roots0 = self.roots();
        proof {
            assert(depth_ok(m0, d0));
        }
        let parent_id = match self.instances.get(&root_id) {
            Some(inst) => inst.get_parent_id(),
            None => {
                return None;
            },
        };
        let ghost dset = desc_set(m0, root_id);
        let ghost mu = unlink_model(m0, root_id);
        proof {
            lemma_desc_self(m0, root_id);
        }
        // Sever the link from the subtree's root to its former parent.
        match parent_id {
            Some(pid) => {
                let mut pnode = self.instances.remove(&pid).unwrap();
                proof {
                    assert(pnode@ == m0[pid]);
                    m0[pid].children.index_of_first_ensures(root_id);
                }
                let idx = find_index(&pnode.children, root_id);
                pnode.children.remove(idx);
                self.instances.insert(pid, pnode);
                proof {
                    assert(m0[pid].children.remove_value(root_id) == m0[pid].children.remove(
                        idx as int,
                    ));
                    assert(self.nodes() =~= mu);
                }
            },
            None => {
                self.root_ids.remove(&root_id);
                proof {
                    assert(self.nodes() =~= mu);
                }
            },
        }
        // Move the root over first, clearing its parent reference.
        let mut out: RbxTree<T> = RbxTree {
            instances: HashMap::new(),
            root_ids: HashSet::new(),
            next_id: self.next_id,
        };
        let mut rnode = self.instances.remove(&root_id).unwrap();
        rnode.parent = None;
        let mut stack: Vec<u64> = Vec::new();
        push_all(&mut stack, &rnode.children);
        out.root_ids.insert(root_id);
        out.instances.insert(root_id, rnode);
        proof {
            lemma_desc_unfold(m0, d0, root_id);
            lemma_children_in_desc(m0, root_id, root_id);
            assert(stack@ == Seq::<u64>::empty() + m0[root_id].children);
            assert(stack@ =~= m0[root_id].children);
            assert(stack_descs(m0, stack@) =~= dset.remove(root_id));
            assert(self.nodes() =~= mu.remove_keys(dset.difference(stack_descs(m0, stack@))));
            assert(out.nodes() =~= extracted_model(m0, root_id).remove_keys(
                stack_descs(m0, stack@),
            ));
            assert(out.roots() =~= Set::<u64>::empty().insert(root_id));
        }
        // Walk the subtree, moving every reachable descendant over.
        loop
            invariant
                self.nodes() == mu.remove_keys(dset.difference(stack_descs(m0, stack@))),
                self.roots() == remaining_roots(m0, roots0, root_id),
                self.next_id == old(self).next_id,
                out.nodes() == extracted_model(m0, root_id).remove_keys(
                    stack_descs(m0, stack@),
                ),
                out.roots() == Set::<u64>::empty().insert(root_id),
                out.next_id == old(self).next_id,
                stack_disjoint(m0, stack@),
                forall|i: int| 0 <= i < stack@.len() ==> dset.contains(#[trigger] stack@[i]),
                !stack_descs(m0, stack@).contains(root_id),
            decreases self.instances@.len(),
        {
            let ghost st = stack@;
            let id = match stack.pop() {
                Some(i) => i,
                None => {
                    break ;
                },
            };
            proof {
                assert(st[st.len() - 1] == id);
                assert(dset.contains(id));
                lemma_desc_self(m0, id);
                assert(desc_set(m0, id).contains(id));
                assert(stack_descs(m0, st) == stack_descs(m0, st.drop_last()).union(
                    desc_set(m0, st.last()),
                ));
                assert(stack_descs(m0, st).contains(id));
                assert(self.nodes().dom().contains(id));
                lemma_stack_step(m0, d0, st);
                lemma_children_in_desc(m0, root_id, id);
            }
            let ghost prevn = self.nodes();
            let node = self.instances.remove(&id).unwrap();
            proof {
                assert(node@ == prevn[id]);
                assert(self.nodes() =~= prevn.remove(id));
                assert(node@ == mu[id]);
                assert(id != root_id);
                assert((m0[root_id].parent matches Some(pp) ==> id != pp)) by {
                    if m0[root_id].parent is Some {
                        let pp = m0[root_id].parent->0;
                        if dset.contains(pp) {
                            lemma_desc_depth(m0, d0, root_id, pp);
                        }
                    }
                }
                assert(node@ == m0[id]);
            }
            push_all(&mut stack, &node.children);
            let ghost prevo = out.nodes();
            out.instances.insert(id, node);
            proof {
                let rnew = stack_descs(m0, stack@);
                assert(stack@ == st.drop_last() + m0[id].children);
                assert(rnew == stack_descs(m0, st).remove(id));
                assert(self.nodes() =~= mu.remove_keys(dset.difference(rnew)));
                assert(extracted_model(m0, root_id)[id] == m0[id]);
                assert(out.nodes() =~= prevo.insert(id, m0[id]));
                assert(out.nodes() =~= extracted_model(m0, root_id).remove_keys(rnew));
                assert forall|i: int| 0 <= i < stack@.len() implies dset.contains(
                    #[trigger] stack@[i],
                ) by {
                    if i < st.len() - 1 {
                        assert(stack@[i] == st[i]);
                    } else {
                        assert(stack@[i] == m0[id].children[i - (st.len() - 1)]);
                        assert(is_desc(m0, root_id, stack@[i]));
                    }
                }
            }
        }
        proof {
            assert(stack@.len() == 0);
            assert(stack_descs(m0, stack@) =~= Set::<u64>::empty());
            assert(dset.difference(stack_descs(m0, stack@)) =~= dset);
            assert(self.nodes() =~= remaining_model(m0, root_id));
            assert(out.nodes() =~= extracted_model(m0, root_id));
            lemma_remove_preserves_wf(m0, d0, roots0, root_id);
            assert(depth_ok(self.nodes(), d0));
            assert(depth_ok(out.nodes(), d0));
            assert(self.wf()) by {
                assert forall|i: u64| #[trigger] self.nodes().dom().contains(i) implies i
                    < self.next_id by {
                    assert(m0.dom().contains(i));
                }
            }
            assert(out.wf()) by {
                assert forall|i: u64| #[trigger] out.nodes().dom().contains(i) implies i
                    < out.next_id by {
                    assert(m0.dom().contains(i));
                }
            }
        }
        Some(out)
    }
}

/// Invariant law: a well-formed forest satisfies, over its node map and
/// root set, every structural invariant — stored identifiers match their
/// keys, parent and child references agree in both directions, child
/// lists are duplicate-free, the root set is exactly the parentless
/// nodes, and a depth witness rules out cycles. Every operation of
/// [`RbxTree`] requires and re-establishes this well-formedness.
pub proof fn lemma_wf_invariants<T>(t: RbxTree<T>)
    requires
        t.wf(),
    ensures
        map_wf(t.nodes()),
        roots_ok(t.nodes(), t.roots()),
        exists|d: Map<u64, int>| #[trigger] depth_ok(t.nodes(), d),
        forall|i: u64| #[trigger] t.nodes().dom().contains(i) ==> i < t.id_bound(),
{
}

/// A payload write through [`RbxTree::get_instance_mut`] keeps the forest
/// well-formed: it changes no structural field of any node, so every
/// invariant carries over from the state before the write.
pub proof fn lemma_payload_write_wf<T>(
    pre: RbxTree<T>,
    post: RbxTree<T>,
    id: u64,
    nm: NodeModel<T>,
)
    requires
        pre.wf(),
        pre.nodes().dom().contains(id),
        nm.id == pre.nodes()[id].id,
        nm.parent == pre.nodes()[id].parent,
        nm.children == pre.nodes()[id].children,
        post.nodes() == pre.nodes().insert(id, nm),
        post.roots() == pre.roots(),
        post.id_bound() == pre.id_bound(),
    ensures
        post.wf(),
{
    let m0 = pre.nodes();
    let m1 = post.nodes();
    let d0 = choose|d: Map<u64, int>| depth_ok(m0, d);
    assert(depth_ok(m0, d0));
    assert(m1.dom() =~= m0.dom());
    assert(ids_ok(m1));
    assert(parents_ok(m1)) by {
        assert forall|i: u64| #[trigger] m1.dom().contains(i) implies (m1[i].parent matches Some(
            q,
        ) ==> m1.dom().contains(q) && m1[q].children.contains(i)) by {
            assert(m1[i].parent == m0[i].parent);
            if m0[i].parent is Some {
                let q = m0[i].parent->0;
                assert(m1[q].children == m0[q].children);
            }
        }
    }
    assert(children_ok(m1)) by {
        assert forall|i: u64, j: int|
            m1.dom().contains(i) && 0 <= j < m1[i].children.len() implies m1.dom().contains(
            #[trigger] m1[i].children[j],
        ) && m1[m1[i].children[j]].parent == Some(i) by {
            assert(m1[i].children == m0[i].children);
            let c = m0[i].children[j];
            assert(m0.dom().contains(c) && m0[c].parent == Some(i));
            assert(m1[c].parent == m0[c].parent);
        }
    }
    assert(nodup_ok(m1));
    assert(roots_ok(m1, post.roots()));
    assert(depth_ok(m1, d0)) by {
        assert forall|i: u64| #[trigger] m1.dom().contains(i) implies d0.dom().contains(i) && (
        m1[i].parent matches Some(q) ==> d0[i] == d0[q] + 1) by {
            assert(m0.dom().contains(i));
            assert(m1[i].parent == m0[i].parent);
        }
    }
}

/// A lazy, single-pass walk over a node and all of its descendants.
///
/// The walk pops the most recently pushed identifier, yields the node it
/// resolves to, and pushes that node's children in list order — so
/// siblings are visited in reverse child-list order, depth-first. An
/// identifier that no longer resolves is skipped. The walk borrows the
/// forest for its whole lifetime, so the forest cannot be structurally
/// mutated while the walk is alive.
pub struct Descendants<'a, T> {
    tree: &'a RbxTree<T>,
    ids_to_visit: Vec<u64>,
    seed: Ghost<u64>,
    visited: Ghost<Set<u64>>,
}

impl<'a, T> Descendants<'a, T> {
    /// The forest this walk reads.
    pub closed spec fn forest(&self) -> RbxTree<T> {
        *self.tree
    }

    /// The identifier the walk was seeded with.
    pub closed spec fn seed_id(&self) -> u64 {
        self.seed@
    }

    /// The identifiers yielded so far, each exactly once.
    pub closed spec fn visited_set(&self) -> Set<u64> {
        self.visited@
    }

    /// The walk's invariant: the forest is well-formed, the subtrees
    /// pending on the stack are pairwise disjoint, and together with the
    /// already-yielded identifiers they partition the seed's subtree.
    pub closed spec fn wf(&self) -> bool {
        &&& self.tree.wf()
        &&& stack_disjoint(self.tree.nodes(), self.ids_to_visit@)
        &&& desc_set(self.tree.nodes(), self.seed@) == self.visited@.union(
            stack_descs(self.tree.nodes(), self.ids_to_visit@),
        )
        &&& forall|x: u64| #[trigger] self.visited@.contains(x) ==> !stack_descs(
            self.tree.nodes(),
            self.ids_to_visit@,
        ).contains(x)
    }

    /// Yield the next node of the walk: a node of the seed's subtree that
    /// was not yielded before, or `None` once every node of the subtree
    /// has been yielded exactly once.
    #[verifier::loop_isolation(false)]
    pub fn next(&mut self) -> (r: Option<&'a RootedRbxInstance<T>>)
        requires
            old(self).wf(),
        ensures
            final(self).wf(),
            final(self).forest() == old(self).forest(),
            final(self).seed_id() == old(self).seed_id(),
            match r {
                Some(node) => {
                    &&& old(self).forest().nodes().dom().contains(node@.id)
                    &&& node@ == old(self).forest().nodes()[node@.id]
                    &&& is_desc(old(self).forest().nodes(), old(self).seed_id(), node@.id)
                    &&& !old(self).visited_set().contains(node@.id)
                    &&& final(self).visited_set() == old(self).visited_set().insert(node@.id)
                },
                None => {
                    &&& final(self).visited_set() == old(self).visited_set()
                    &&& old(self).visited_set() == desc_set(
                        old(self).forest().nodes(),
                        old(self).seed_id(),
                    )
                },
            },
    {
        let t: &'a RbxTree<T> = self.tree;
        let ghost m = t.nodes();
        let ghost dep = choose|d: Map<u64, int>| depth_ok(m, d);
        proof {
            assert(depth_ok(m, dep));
        }
        loop
            invariant
                self.tree == t,
                self.seed@ == old(self).seed@,
                self.visited@ == old(self).visited@,
                self.wf(),
            decreases self.ids_to_visit@.len(),
        {
            let ghost st = self.ids_to_visit@;
            let id = match self.ids_to_visit.pop() {
                Some(i) => i,
                None => {
                    break ;
                },
            };
            proof {
                assert(st[st.len() - 1] == id);
                assert(stack_descs(m, st) == stack_descs(m, st.drop_last()).union(
                    desc_set(m, st.last()),
                ));
            }
            match t.get_instance(id) {
                Some(instance) => {
                    proof {
                        lemma_desc_self(m, id);
                        lemma_stack_step(m, dep, st);
                    }
                    push_all(&mut self.ids_to_visit, instance.get_children_ids());
                    self.visited = Ghost(self.visited@.insert(id));
                    proof {
                        assert(self.ids_to_visit@ == st.drop_last() + m[id].children);
                        let rnew = stack_descs(m, self.ids_to_visit@);
                        assert(rnew == stack_descs(m, st).remove(id));
                        assert(stack_descs(m, st).contains(id));
                        assert(desc_set(m, self.seed@).contains(id));
                        assert(is_desc(m, self.seed@, id));
                        assert(desc_set(m, self.seed@) =~= self.visited@.union(rnew));
                        assert forall|x: u64| #[trigger] self.visited@.contains(x)
                            implies !rnew.contains(x) by {
                            if x != id {
                                assert(old(self).visited@.contains(x));
                            }
                        }
                    }
                    return Some(instance);
                },
                None => {
                    proof {
                        assert(desc_set(m, id) =~= Set::<u64>::empty());
                        assert(stack_descs(m, st.drop_last()) =~= stack_descs(m, st));
                        assert(self.ids_to_visit@ == st.drop_last());
                        assert forall|i: int, j: int|
                            #![trigger desc_set(m, self.ids_to_visit@[i]), desc_set(m, self.ids_to_visit@[j])]
                            0 <= i < j < self.ids_to_visit@.len() implies desc_set(
                            m,
                            self.ids_to_visit@[i],
                        ).disjoint(desc_set(m, self.ids_to_visit@[j])) by {
                            assert(self.ids_to_visit@[i] == st[i]);
                            assert(self.ids_to_visit@[j] == st[j]);
                            assert(desc_set(m, st[i]).disjoint(desc_set(m, st[j])));
                        }
                    }
                },
            }
        }
        proof {
            assert(self.ids_to_visit@.len() == 0);
            assert(stack_descs(m, self.ids_to_visit@) =~= Set::<u64>::empty());
            assert(self.visited@ =~= desc_set(m, self.seed@));
        }
        None
    }
}

/// Append a copy of every identifier in `src` to `dst`, in order.
#[verifier::loop_isolation(false)]
fn push_all(dst: &mut Vec<u64>, src: &Vec<u64>)
    ensures
        final(dst)@ == old(dst)@ + src@,
{
    let mut i: usize = 0;
    while i < src.len()
        invariant
            i <= src.len(),
            dst@ == old(dst)@ + src@.subrange(0, i as int),
        decreases src.len() - i,
    {
        dst.push(src[i]);
        proof {
            assert(src@.subrange(0, i + 1) =~= src@.subrange(0, i as int).push(src@[i as int]));
            assert(dst@ =~= old(dst)@ + src@.subrange(0, i + 1));
        }
        i = i + 1;
    }
    proof {
        assert(src@.subrange(0, src.len() as int) =~= src@);
    }
}

/// The position of the first occurrence of `x` in `v`, which must occur.
#[verifier::loop_isolation(false)]
fn find_index(v: &Vec<u64>, x: u64) -> (idx: usize)
    requires
        v@.contains(x),
    ensures
        idx < v@.len(),
        v@[idx as int] == x,
        forall|j: int| 0 <= j < idx ==> v@[j] != x,
{
    let mut i: usize = 0;
    while i < v.len()
        invariant
            i <= v.len(),
            forall|j: int| 0 <= j < i ==> v@[j] != x,
        decreases v.len() - i,
    {
        if v[i] == x {
            return i;
        }
        i = i + 1;
    }
    proof {
        let j = choose|j: int| 0 <= j < v@.len() && v@[j] == x;
        assert(false);
    }
    0
}

/// Inserting a fresh leaf preserves every forest invariant: the new node
/// has no children, its parent (if any) merely gains one more child at the
/// end of its list, and the new node's depth sits one below its parent.
proof fn lemma_wf_after_leaf_insert<T>(
    m: Map<u64, NodeModel<T>>,
    d: Map<u64, int>,
    roots: Set<u64>,
    id: u64,
    np: Option<u64>,
    payload: T,
)
    requires
        map_wf(m),
        roots_ok(m, roots),
        depth_ok(m, d),
        !m.dom().contains(id),
        np matches Some(p) ==> m.dom().contains(p),
    ensures
        map_wf(insert_model(m, id, np, payload)),
        roots_ok(
            insert_model(m, id, np, payload),
            if np is None {
                roots.insert(id)
            } else {
                roots
            },
        ),
        depth_ok(
            insert_model(m, id, np, payload),
            match np {
                Some(p) => d.insert(id, d[p] + 1),
                None => d.insert(id, 0),
            },
        ),
        insert_model(m, id, np, payload).dom() == m.dom().insert(id),
{
    let m1 = insert_model(m, id, np, payload);
    assert(m1.dom() =~= m.dom().insert(id));
    match np {
        Some(p) => {
            assert(!m[p].children.contains(id)) by {
                if m[p].children.contains(id) {
                    let j = choose|j: int|
                        0 <= j < m[p].children.len() && m[p].children[j] == id;
                    assert(m.dom().contains(m[p].children[j]));
                }
            }
            lemma_push_nodup(m[p].children, id);
            assert(m1[p].children == m[p].children.push(id));
            assert(m1[p].children.last() == id);
            assert(forall|j: int|
                0 <= j < m[p].children.len() ==> m1[p].children[j] == #[trigger] m[p].children[j]);
            assert(ids_ok(m1));
            assert(parents_ok(m1)) by {
                assert forall|i: u64| #[trigger] m1.dom().contains(i) implies (m1[i].parent
                    matches Some(q) ==> m1.dom().contains(q) && m1[q].children.contains(i)) by {
                    if i == id {
                        assert(m1[id].parent == Some(p));
                        assert(m1[p].children.contains(id)) by {
                            assert(m1[p].children[m[p].children.len() as int] == id);
                        }
                    } else {
                        match m[i].parent {
                            Some(q) => {
                                assert(m1[i].parent == Some(q));
                                if q == p {
                                    assert(m[p].children.contains(i));
                                    let j = choose|j: int|
                                        0 <= j < m[p].children.len() && m[p].children[j] == i;
                                    assert(m1[p].children[j] == i);
                                } else {
                                    assert(m1[q].children == m[q].children);
                                }
                            }
                            None => {}
                        }
                    }
                }
            }
            assert(children_ok(m1)) by {
                assert forall|i: u64, j: int|
                    m1.dom().contains(i) && 0 <= j < m1[i].children.len() implies m1.dom()
                    .contains(#[trigger] m1[i].children[j]) && m1[m1[i].children[j]].parent
                    == Some(i) by {
                    if i == id {
                        assert(m1[id].children.len() == 0);
                    } else if i == p {
                        if j < m[p].children.len() {
                            let c = m[p].children[j];
                            assert(m.dom().contains(c) && m[c].parent == Some(p));
                            assert(m1[c].parent == m[c].parent);
                        } else {
                            assert(m1[p].children[j] == id);
                            assert(m1[id].parent == Some(p));
                        }
                    } else {
                        let c = m[i].children[j];
                        assert(m.dom().contains(c) && m[c].parent == Some(i));
                        assert(m1[c].parent == m[c].parent);
                    }
                }
            }
            assert(nodup_ok(m1));
            assert(roots_ok(m1, roots)) by {
                assert forall|i: u64| #[trigger] roots.contains(i) implies m1.dom().contains(i)
                    && m1[i].parent is None by {
                    assert(m.dom().contains(i) && m[i].parent is None);
                }
                assert forall|i: u64|
                    m1.dom().contains(i) && m1[i].parent is None implies roots.contains(i) by {
                    if i != id {
                        assert(m[i].parent is None);
                    }
                }
            }
            assert(depth_ok(m1, d.insert(id, d[p] + 1)));
        }
        None => {
            assert(ids_ok(m1));
            assert(parents_ok(m1)) by {
                assert forall|i: u64| #[trigger] m1.dom().contains(i) implies (m1[i].parent
                    matches Some(q) ==> m1.dom().contains(q) && m1[q].children.contains(i)) by {
                    if i != id {
                        match m[i].parent {
                            Some(q) => {
                                assert(m1[q].children == m[q].children);
                            }
                            None => {}
                        }
                    }
                }
            }
            assert(children_ok(m1)) by {
                assert forall|i: u64, j: int|
                    m1.dom().contains(i) && 0 <= j < m1[i].children.len() implies m1.dom()
                    .contains(#[trigger] m1[i].children[j]) && m1[m1[i].children[j]].parent
                    == Some(i) by {
                    if i != id {
                        let c = m[i].children[j];
                        assert(m.dom().contains(c) && m[c].parent == Some(i));
                        assert(m1[c].parent == m[c].parent);
                    }
                }
            }
            assert(nodup_ok(m1));
            assert(roots_ok(m1, roots.insert(id)));
            assert(depth_ok(m1, d.insert(id, 0)));
        }
    }
}

} // verus!

