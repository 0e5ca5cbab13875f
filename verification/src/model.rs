//! Ghost model of a forest of identity-addressed nodes.
//!
//! A forest is modelled as a `Map` from identifier to [`NodeModel`]. A node
//! points up at its parent and down at an ordered sequence of children, and
//! the well-formedness predicates below tie the two directions together.
//! Reachability (`is_desc`) is defined along the deterministic parent
//! chains, and acyclicity is witnessed by a depth map that grows by one on
//! every parent-to-child step.

use vstd::prelude::*;

verus! {

/// Ghost model of a single node: its identifier, optional parent,
/// ordered child identifiers, and the payload it carries.
pub ghost struct NodeModel<T> {
    pub id: u64,
    pub parent: Option<u64>,
    pub children: Seq<u64>,
    pub payload: T,
}

/// The `k`-th ancestor of `x` under the parent links of `m`: `Some(x)` for
/// `k == 0`, and for `k > 0` the parent of the `(k-1)`-th ancestor, or
/// `None` once the chain leaves the map or passes a node with no parent.
pub open spec fn anc<T>(m: Map<u64, NodeModel<T>>, x: u64, k: nat) -> Option<u64>
    decreases k,
{
    if k == 0 {
        Some(x)
    } else {
        match anc(m, x, (k - 1) as nat) {
            None => None,
            Some(y) => if m.dom().contains(y) {
                m[y].parent
            } else {
                None
            },
        }
    }
}

/// `x` lies in the subtree rooted at `root`: `x` is stored in `m` and some
/// ancestor chain from `x` reaches `root`. Every stored node is a
/// descendant of itself, by the chain of length zero.
pub open spec fn is_desc<T>(m: Map<u64, NodeModel<T>>, root: u64, x: u64) -> bool {
    m.dom().contains(x) && exists|k: nat| anc(m, x, k) == Some(root)
}

/// All descendants of `root`, including `root` itself when stored in `m`.
pub open spec fn desc_set<T>(m: Map<u64, NodeModel<T>>, root: u64) -> Set<u64> {
    Set::new(|x: u64| is_desc(m, root, x))
}

/// Every stored node records the identifier it is keyed under.
pub open spec fn ids_ok<T>(m: Map<u64, NodeModel<T>>) -> bool {
    forall|i: u64| #[trigger] m.dom().contains(i) ==> m[i].id == i
}

/// Every parent reference points at a stored node that lists the child.
pub open spec fn parents_ok<T>(m: Map<u64, NodeModel<T>>) -> bool {
    forall|i: u64| #[trigger] m.dom().contains(i) ==> (m[i].parent matches Some(p) ==>
        m.dom().contains(p) && m[p].children.contains(i))
}

/// Every child reference points at a stored node whose parent is the lister.
pub open spec fn children_ok<T>(m: Map<u64, NodeModel<T>>) -> bool {
    forall|i: u64, j: int|
        #![trigger m[i].children[j]]
        m.dom().contains(i) && 0 <= j < m[i].children.len() ==> m.dom().contains(m[i].children[j])
            && m[m[i].children[j]].parent == Some(i)
}

/// No identifier appears twice in the same child list.
pub open spec fn nodup_ok<T>(m: Map<u64, NodeModel<T>>) -> bool {
    forall|i: u64| #[trigger] m.dom().contains(i) ==> m[i].children.no_duplicates()
}

/// The structural invariants of a forest map, taken together.
pub open spec fn map_wf<T>(m: Map<u64, NodeModel<T>>) -> bool {
    ids_ok(m) && parents_ok(m) && children_ok(m) && nodup_ok(m)
}

/// `r` is exactly the set of stored nodes without a parent.
pub open spec fn roots_ok<T>(m: Map<u64, NodeModel<T>>, r: Set<u64>) -> bool {
    forall|i: u64| #[trigger] r.contains(i) <==> m.dom().contains(i) && m[i].parent is None
}

/// `d` witnesses acyclicity: it assigns every stored node a depth that is
/// one more than its parent's depth, so no node can be its own ancestor.
pub open spec fn depth_ok<T>(m: Map<u64, NodeModel<T>>, d: Map<u64, int>) -> bool {
    forall|i: u64| #[trigger] m.dom().contains(i) ==> d.dom().contains(i) && (m[i].parent matches
        Some(p) ==> d[i] == d[p] + 1)
}

/// Splitting an ancestor chain: walking `j + k` steps is walking `j` steps
/// and then `k` more from wherever that landed.
pub proof fn lemma_anc_extend<T>(m: Map<u64, NodeModel<T>>, x: u64, j: nat, k: nat)
    ensures
        anc(m, x, j + k) == match anc(m, x, j) {
            None => None::<u64>,
            Some(y) => anc(m, y, k),
        },
    decreases k,
{
    if k == 0 {
        assert(anc(m, x, j + 0) == anc(m, x, j));
        match anc(m, x, j) {
            None => {}
            Some(y) => {
                assert(anc(m, y, 0) == Some(y));
            }
        }
    } else {
        lemma_anc_extend(m, x, j, (k - 1) as nat);
        assert(j + k == (j + k - 1) + 1);
        assert(anc(m, x, j + k) == match anc(m, x, (j + k - 1) as nat) {
            None => None::<u64>,
            Some(y) => if m.dom().contains(y) {
                m[y].parent
            } else {
                None
            },
        });
        match anc(m, x, j) {
            None => {}
            Some(y) => {
                assert(anc(m, y, k) == match anc(m, y, (k - 1) as nat) {
                    None => None::<u64>,
                    Some(z) => if m.dom().contains(z) {
                        m[z].parent
                    } else {
                        None
                    },
                });
            }
        }
    }
}

/// An ancestor `k` steps up sits exactly `k` levels above in the depth
/// witness, and is itself stored in the map.
pub proof fn lemma_anc_depth<T>(
    m: Map<u64, NodeModel<T>>,
    d: Map<u64, int>,
    x: u64,
    s: u64,
    k: nat,
)
    requires
        parents_ok(m),
        depth_ok(m, d),
        m.dom().contains(x),
        anc(m, x, k) == Some(s),
    ensures
        m.dom().contains(s),
        d[x] == d[s] + k,
    decreases k,
{
    if k == 0 {
    } else {
        match anc(m, x, (k - 1) as nat) {
            None => {
                assert(false);
            }
            Some(y) => {
                assert(m.dom().contains(y) && m[y].parent == Some(s));
                lemma_anc_depth(m, d, x, y, (k - 1) as nat);
            }
        }
    }
}

/// Every stored node is a descendant of itself.
pub proof fn lemma_desc_self<T>(m: Map<u64, NodeModel<T>>, x: u64)
    requires
        m.dom().contains(x),
    ensures
        is_desc(m, x, x),
{
    assert(anc(m, x, 0) == Some(x));
}

/// Descendants sit at or below their subtree root in the depth witness.
pub proof fn lemma_desc_depth<T>(m: Map<u64, NodeModel<T>>, d: Map<u64, int>, s: u64, x: u64)
    requires
        parents_ok(m),
        depth_ok(m, d),
        is_desc(m, s, x),
    ensures
        m.dom().contains(s),
        m.dom().contains(x),
        d[x] >= d[s],
{
    let k = choose|k: nat| anc(m, x, k) == Some(s);
    lemma_anc_depth(m, d, x, s, k);
}

/// A node has at most one subtree root at any given depth above it: two
/// roots of equal depth that both reach `x` coincide.
pub proof fn lemma_desc_same_depth<T>(
    m: Map<u64, NodeModel<T>>,
    d: Map<u64, int>,
    a: u64,
    b: u64,
    x: u64,
)
    requires
        parents_ok(m),
        depth_ok(m, d),
        is_desc(m, a, x),
        is_desc(m, b, x),
        d[a] == d[b],
    ensures
        a == b,
{
    let k1 = choose|k: nat| anc(m, x, k) == Some(a);
    let k2 = choose|k: nat| anc(m, x, k) == Some(b);
    lemma_anc_depth(m, d, x, a, k1);
    lemma_anc_depth(m, d, x, b, k2);
    assert(k1 == k2);
}

/// Going down one child edge keeps one inside the subtree: a descendant of
/// a child of `s` is a descendant of `s`.
pub proof fn lemma_desc_child<T>(m: Map<u64, NodeModel<T>>, s: u64, c: u64, x: u64)
    requires
        children_ok(m),
        m.dom().contains(s),
        m[s].children.contains(c),
        is_desc(m, c, x),
    ensures
        is_desc(m, s, x),
{
    let j = choose|j: int| 0 <= j < m[s].children.len() && m[s].children[j] == c;
    assert(m.dom().contains(c) && m[c].parent == Some(s));
    let k = choose|k: nat| anc(m, x, k) == Some(c);
    lemma_anc_extend(m, x, k, 1);
    assert(anc(m, c, 1) == Some(s));
    assert(anc(m, x, k + 1) == Some(s));
}

/// A strict descendant's parent is stored, lists the node as a child, and
/// still lies inside the subtree.
pub proof fn lemma_desc_parent<T>(m: Map<u64, NodeModel<T>>, s: u64, x: u64)
    requires
        parents_ok(m),
        is_desc(m, s, x),
        x != s,
    ensures
        m[x].parent is Some,
        m.dom().contains(m[x].parent->0),
        m[m[x].parent->0].children.contains(x),
        is_desc(m, s, m[x].parent->0),
{
    let k = choose|k: nat| anc(m, x, k) == Some(s);
    assert(k != 0);
    lemma_anc_extend(m, x, 1, (k - 1) as nat);
    assert(anc(m, x, 0) == Some(x));
    match m[x].parent {
        None => {
            assert(anc(m, x, 1) == None::<u64>);
            assert(anc(m, x, k) == None::<u64>);
        }
        Some(p) => {
            assert(anc(m, x, 1) == Some(p));
            assert(anc(m, p, (k - 1) as nat) == Some(s));
        }
    }
}

/// Being-a-descendant is transitive.
pub proof fn lemma_desc_trans<T>(m: Map<u64, NodeModel<T>>, a: u64, b: u64, c: u64)
    requires
        is_desc(m, a, b),
        is_desc(m, b, c),
    ensures
        is_desc(m, a, c),
{
    let k1 = choose|k: nat| anc(m, c, k) == Some(b);
    let k2 = choose|k: nat| anc(m, b, k) == Some(a);
    lemma_anc_extend(m, c, k1, k2);
    assert(anc(m, c, k1 + k2) == Some(a));
}

/// A strict descendant of `s` lies in the subtree of one of `s`'s children.
pub proof fn lemma_desc_step_down<T>(m: Map<u64, NodeModel<T>>, s: u64, x: u64, k: nat)
    requires
        parents_ok(m),
        m.dom().contains(x),
        anc(m, x, k) == Some(s),
        x != s,
    ensures
        exists|j: int|
            0 <= j < m[s].children.len() && is_desc(m, #[trigger] m[s].children[j], x),
    decreases k,
{
    assert(k != 0);
    assert(anc(m, x, 0) == Some(x));
    match m[x].parent {
        None => {
            lemma_anc_extend(m, x, 1, (k - 1) as nat);
            assert(anc(m, x, 1) == None::<u64>);
            assert(false);
        }
        Some(p) => {
            lemma_anc_extend(m, x, 1, (k - 1) as nat);
            assert(anc(m, x, 1) == Some(p));
            assert(anc(m, p, (k - 1) as nat) == Some(s));
            assert(m.dom().contains(p) && m[p].children.contains(x));
            if p == s {
                let j = choose|j: int| 0 <= j < m[s].children.len() && m[s].children[j] == x;
                lemma_desc_self(m, x);
                assert(is_desc(m, m[s].children[j], x));
            } else {
                lemma_desc_step_down(m, s, p, (k - 1) as nat);
                let j = choose|j: int|
                    0 <= j < m[s].children.len() && is_desc(m, #[trigger] m[s].children[j], p);
                let cj = m[s].children[j];
                let kc = choose|kc: nat| anc(m, p, kc) == Some(cj);
                lemma_anc_extend(m, x, 1, kc);
                assert(anc(m, x, 1) == Some(p));
                assert(anc(m, x, 1 + kc) == Some(cj));
                assert(is_desc(m, cj, x));
            }
        }
    }
}

/// The forest map after inserting a fresh leaf `id` under `np`: the leaf is
/// added with no children, and when `np` is a stored parent its child list
/// grows by `id` at the end.
pub open spec fn insert_model<T>(
    m: Map<u64, NodeModel<T>>,
    id: u64,
    np: Option<u64>,
    payload: T,
) -> Map<u64, NodeModel<T>> {
    let m1 = m.insert(
        id,
        NodeModel { id: id, parent: np, children: Seq::empty(), payload: payload },
    );
    match np {
        Some(p) => m1.insert(
            p,
            NodeModel {
                id: m[p].id,
                parent: m[p].parent,
                children: m[p].children.push(id),
                payload: m[p].payload,
            },
        ),
        None => m1,
    }
}

/// The map with the subtree of `rid` unlinked from `rid`'s parent: the
/// parent's child list loses `rid`, everything else is untouched.
pub open spec fn unlink_model<T>(m: Map<u64, NodeModel<T>>, rid: u64) -> Map<u64, NodeModel<T>> {
    match m[rid].parent {
        Some(p) => m.insert(
            p,
            NodeModel {
                id: m[p].id,
                parent: m[p].parent,
                children: m[p].children.remove_value(rid),
                payload: m[p].payload,
            },
        ),
        None => m,
    }
}

/// What stays behind after detaching the subtree of `rid`: the map without
/// the descendants of `rid`, with `rid` gone from its parent's child list.
pub open spec fn remaining_model<T>(m: Map<u64, NodeModel<T>>, rid: u64) -> Map<u64, NodeModel<T>> {
    unlink_model(m, rid).remove_keys(desc_set(m, rid))
}

/// The root set that stays behind after detaching the subtree of `rid`.
pub open spec fn remaining_roots<T>(
    m: Map<u64, NodeModel<T>>,
    roots: Set<u64>,
    rid: u64,
) -> Set<u64> {
    if m[rid].parent is None {
        roots.remove(rid)
    } else {
        roots
    }
}

/// The detached subtree of `rid` as a forest map of its own: the
/// descendants of `rid` verbatim, except that `rid` itself loses its
/// parent reference and becomes the sole root.
pub open spec fn extracted_model<T>(m: Map<u64, NodeModel<T>>, rid: u64) -> Map<u64, NodeModel<T>> {
    m.restrict(desc_set(m, rid)).insert(
        rid,
        NodeModel { id: m[rid].id, parent: None, children: m[rid].children, payload: m[rid].payload },
    )
}

/// The target map after grafting the subtree of `sid` out of `sm` under
/// `np`: the descendants of `sid` are carried over verbatim, `sid`'s parent
/// becomes `np`, and when `np` is a stored parent its child list grows by
/// `sid` at the end.
pub open spec fn graft_model<T>(
    tm: Map<u64, NodeModel<T>>,
    sm: Map<u64, NodeModel<T>>,
    sid: u64,
    np: Option<u64>,
) -> Map<u64, NodeModel<T>> {
    let moved = tm.union_prefer_right(sm.restrict(desc_set(sm, sid))).insert(
        sid,
        NodeModel { id: sm[sid].id, parent: np, children: sm[sid].children, payload: sm[sid].payload },
    );
    match np {
        Some(p) => moved.insert(
            p,
            NodeModel {
                id: tm[p].id,
                parent: tm[p].parent,
                children: tm[p].children.push(sid),
                payload: tm[p].payload,
            },
        ),
        None => moved,
    }
}

/// The target root set after grafting a subtree rooted at `sid` under `np`.
pub open spec fn graft_roots(roots: Set<u64>, sid: u64, np: Option<u64>) -> Set<u64> {
    match np {
        Some(p) => roots,
        None => roots.insert(sid),
    }
}

/// The union of the subtrees of every entry of a work stack.
pub open spec fn stack_descs<T>(m: Map<u64, NodeModel<T>>, st: Seq<u64>) -> Set<u64>
    decreases st.len(),
{
    if st.len() == 0 {
        Set::<u64>::empty()
    } else {
        stack_descs(m, st.drop_last()).union(desc_set(m, st.last()))
    }
}

/// The subtrees of the entries of a work stack are pairwise disjoint.
pub open spec fn stack_disjoint<T>(m: Map<u64, NodeModel<T>>, st: Seq<u64>) -> bool {
    forall|i: int, j: int|
        #![trigger desc_set(m, st[i]), desc_set(m, st[j])]
        0 <= i < j < st.len() ==> desc_set(m, st[i]).disjoint(desc_set(m, st[j]))
}

/// Membership in the union of a stack's subtrees, entry by entry.
pub proof fn lemma_stack_descs_membership<T>(m: Map<u64, NodeModel<T>>, st: Seq<u64>)
    ensures
        forall|x: u64| #[trigger] stack_descs(m, st).contains(x) <==> exists|i: int|
            0 <= i < st.len() && is_desc(m, st[i], x),
    decreases st.len(),
{
    if st.len() == 0 {
    } else {
        lemma_stack_descs_membership(m, st.drop_last());
        assert forall|x: u64| #[trigger] stack_descs(m, st).contains(x) implies exists|i: int|
            0 <= i < st.len() && is_desc(m, st[i], x) by {
            if stack_descs(m, st.drop_last()).contains(x) {
                let i = choose|i: int|
                    0 <= i < st.drop_last().len() && is_desc(m, st.drop_last()[i], x);
                assert(st[i] == st.drop_last()[i]);
                assert(is_desc(m, st[i], x));
            } else {
                assert(is_desc(m, st.last(), x));
                assert(st[st.len() - 1] == st.last());
            }
        }
        assert forall|x: u64|
            exists|i: int| 0 <= i < st.len() && is_desc(m, st[i], x) implies #[trigger]
            stack_descs(m, st).contains(x) by {
            let i = choose|i: int| 0 <= i < st.len() && is_desc(m, st[i], x);
            if i == st.len() - 1 {
                assert(desc_set(m, st.last()).contains(x));
            } else {
                assert(st.drop_last()[i] == st[i]);
                assert(stack_descs(m, st.drop_last()).contains(x));
            }
        }
    }
}

/// The union of subtrees distributes over stack concatenation.
pub proof fn lemma_stack_descs_append<T>(m: Map<u64, NodeModel<T>>, a: Seq<u64>, b: Seq<u64>)
    ensures
        stack_descs(m, a + b) == stack_descs(m, a).union(stack_descs(m, b)),
    decreases b.len(),
{
    if b.len() == 0 {
        assert(a + b =~= a);
        assert(stack_descs(m, a + b) =~= stack_descs(m, a).union(stack_descs(m, b)));
    } else {
        lemma_stack_descs_append(m, a, b.drop_last());
        assert((a + b).drop_last() =~= a + b.drop_last());
        assert((a + b).last() == b.last());
        assert(stack_descs(m, a + b) == stack_descs(m, (a + b).drop_last()).union(
            desc_set(m, (a + b).last()),
        ));
        assert(stack_descs(m, a + b) =~= stack_descs(m, a).union(stack_descs(m, b)));
    }
}

/// Unfolding one subtree: the descendants of a stored node are the node
/// itself plus the union of its children's subtrees; the node sits in no
/// child subtree, and distinct children have disjoint subtrees.
pub proof fn lemma_desc_unfold<T>(m: Map<u64, NodeModel<T>>, d: Map<u64, int>, q: u64)
    requires
        map_wf(m),
        depth_ok(m, d),
        m.dom().contains(q),
    ensures
        desc_set(m, q) == stack_descs(m, m[q].children).insert(q),
        !stack_descs(m, m[q].children).contains(q),
        stack_disjoint(m, m[q].children),
{
    let ch = m[q].children;
    lemma_stack_descs_membership(m, ch);
    assert forall|j: int| 0 <= j < ch.len() implies m.dom().contains(#[trigger] ch[j])
        && m[ch[j]].parent == Some(q) && d[ch[j]] == d[q] + 1 by {}
    assert(!stack_descs(m, ch).contains(q)) by {
        if stack_descs(m, ch).contains(q) {
            let j = choose|j: int| 0 <= j < ch.len() && is_desc(m, ch[j], q);
            lemma_desc_depth(m, d, ch[j], q);
        }
    }
    assert forall|i: int, j: int|
        #![trigger desc_set(m, ch[i]), desc_set(m, ch[j])]
        0 <= i < j < ch.len() implies desc_set(m, ch[i]).disjoint(desc_set(m, ch[j])) by {
        assert forall|x: u64|
            desc_set(m, ch[i]).contains(x) && desc_set(m, ch[j]).contains(x) implies false by {
            lemma_desc_same_depth(m, d, ch[i], ch[j], x);
            assert(ch[i] == ch[j]);
        }
        assert(desc_set(m, ch[i]).disjoint(desc_set(m, ch[j])));
    }
    assert forall|x: u64| #[trigger] desc_set(m, q).contains(x) implies stack_descs(
        m,
        ch,
    ).insert(q).contains(x) by {
        if x != q {
            let k = choose|k: nat| anc(m, x, k) == Some(q);
            lemma_desc_step_down(m, q, x, k);
        }
    }
    assert forall|x: u64| stack_descs(m, ch).insert(q).contains(x) implies #[trigger] desc_set(
        m,
        q,
    ).contains(x) by {
        if x == q {
            lemma_desc_self(m, q);
        } else {
            let j = choose|j: int| 0 <= j < ch.len() && is_desc(m, ch[j], x);
            lemma_desc_child(m, q, ch[j], x);
        }
    }
    assert(desc_set(m, q) =~= stack_descs(m, ch).insert(q));
}

/// Popping the top of a work stack and pushing its children removes
/// exactly the popped node from the union of pending subtrees, and keeps
/// the pending subtrees pairwise disjoint.
pub proof fn lemma_stack_step<T>(m: Map<u64, NodeModel<T>>, d: Map<u64, int>, st: Seq<u64>)
    requires
        map_wf(m),
        depth_ok(m, d),
        st.len() > 0,
        m.dom().contains(st.last()),
        stack_disjoint(m, st),
    ensures
        stack_descs(m, st.drop_last() + m[st.last()].children) == stack_descs(m, st).remove(
            st.last(),
        ),
        stack_disjoint(m, st.drop_last() + m[st.last()].children),
        !stack_descs(m, st.drop_last() + m[st.last()].children).contains(st.last()),
{
    let q = st.last();
    let ch = m[q].children;
    let rest = st.drop_last();
    lemma_desc_unfold(m, d, q);
    lemma_stack_descs_append(m, rest, ch);
    lemma_stack_descs_membership(m, rest);
    lemma_stack_descs_membership(m, ch);
    lemma_desc_self(m, q);
    assert(!stack_descs(m, rest).contains(q)) by {
        if stack_descs(m, rest).contains(q) {
            let i = choose|i: int| 0 <= i < rest.len() && is_desc(m, rest[i], q);
            assert(st[i] == rest[i]);
            assert(st[st.len() - 1] == q);
            assert(desc_set(m, st[i]).disjoint(desc_set(m, st[st.len() - 1])));
            assert(desc_set(m, st[i]).contains(q));
            assert(desc_set(m, st[st.len() - 1]).contains(q));
        }
    }
    assert(stack_descs(m, st) == stack_descs(m, rest).union(desc_set(m, q)));
    assert(stack_descs(m, rest + ch) =~= stack_descs(m, st).remove(q));
    assert forall|i: int, j: int|
        #![trigger desc_set(m, (rest + ch)[i]), desc_set(m, (rest + ch)[j])]
        0 <= i < j < (rest + ch).len() implies desc_set(m, (rest + ch)[i]).disjoint(
        desc_set(m, (rest + ch)[j]),
    ) by {
        let s = rest + ch;
        if j < rest.len() {
            assert(s[i] == st[i] && s[j] == st[j]);
            assert(desc_set(m, st[i]).disjoint(desc_set(m, st[j])));
        } else if i >= rest.len() {
            assert(s[i] == ch[i - rest.len()] && s[j] == ch[j - rest.len()]);
            assert(desc_set(m, ch[i - rest.len()]).disjoint(desc_set(m, ch[j - rest.len()])));
        } else {
            assert(s[i] == st[i] && s[j] == ch[j - rest.len()]);
            assert(st[st.len() - 1] == q);
            assert(desc_set(m, st[i]).disjoint(desc_set(m, st[st.len() - 1])));
            assert forall|x: u64|
                desc_set(m, s[j]).contains(x) implies desc_set(m, q).contains(x) by {
                assert(stack_descs(m, ch).contains(x));
            }
            assert(desc_set(m, s[i]).disjoint(desc_set(m, s[j])));
        }
    }
}

/// Pushing a fresh element onto a duplicate-free sequence keeps it
/// duplicate-free.
pub proof fn lemma_push_nodup(s: Seq<u64>, v: u64)
    requires
        s.no_duplicates(),
        !s.contains(v),
    ensures
        s.push(v).no_duplicates(),
{
    let r = s.push(v);
    assert forall|i: int, j: int| 0 <= i < j < r.len() implies r[i] != r[j] by {
        if j < s.len() {
        } else {
            assert(r[j] == v);
            assert(r[i] == s[i]);
            assert(s.contains(s[i]));
        }
    }
}

/// Removing a value from a duplicate-free sequence: the result is one
/// shorter, still duplicate-free, keeps exactly the other values, and when
/// the value sat at the end the result is the sequence without its last
/// element.
pub proof fn lemma_remove_value_nodup(s: Seq<u64>, v: u64)
    requires
        s.no_duplicates(),
        s.contains(v),
    ensures
        s.remove_value(v).len() == s.len() - 1,
        s.remove_value(v).no_duplicates(),
        forall|x: u64| s.remove_value(v).contains(x) <==> s.contains(x) && x != v,
        s.len() > 0 && s.last() == v ==> s.remove_value(v) == s.drop_last(),
{
    s.index_of_first_ensures(v);
    let i = s.index_of_first(v)->0;
    let r = s.remove(i);
    s.remove_ensures(i);
    assert forall|x: u64| r.contains(x) implies s.contains(x) && x != v by {
        let j = choose|j: int| 0 <= j < r.len() && r[j] == x;
        if j < i {
            assert(s[j] == x);
        } else {
            assert(s[j + 1] == x);
            assert(x != v) by {
                if s[j + 1] == v {
                    assert(j + 1 != i);
                }
            }
        }
        assert(x != v) by {
            if x == v {
                if j < i {
                    assert(s[j] == v);
                } else {
                    assert(s[j + 1] == v && j + 1 != i);
                }
            }
        }
    }
    assert forall|x: u64| s.contains(x) && x != v implies r.contains(x) by {
        let j = choose|j: int| 0 <= j < s.len() && s[j] == x;
        if j < i {
            assert(r[j] == x);
        } else {
            assert(j != i);
            assert(r[j - 1] == s[j]);
        }
    }
    assert(r.no_duplicates()) by {
        assert forall|a: int, b: int| 0 <= a < b < r.len() implies r[a] != r[b] by {
            if b < i {
            } else if a < i {
                assert(r[a] == s[a] && r[b] == s[b + 1]);
            } else {
                assert(r[a] == s[a + 1] && r[b] == s[b + 1]);
            }
        }
    }
    if s.len() > 0 && s.last() == v {
        assert(i == s.len() - 1) by {
            if i < s.len() - 1 {
                assert(s[i] == v && s[s.len() - 1] == v);
            }
        }
        assert(r =~= s.drop_last());
    }
}

/// The children of a subtree member are subtree members themselves.
pub proof fn lemma_children_in_desc<T>(m: Map<u64, NodeModel<T>>, rid: u64, q: u64)
    requires
        map_wf(m),
        is_desc(m, rid, q),
    ensures
        forall|j: int|
            0 <= j < m[q].children.len() ==> is_desc(m, rid, #[trigger] m[q].children[j])
                && m.dom().contains(m[q].children[j]),
{
    assert forall|j: int| 0 <= j < m[q].children.len() implies is_desc(
        m,
        rid,
        #[trigger] m[q].children[j],
    ) && m.dom().contains(m[q].children[j]) by {
        let c = m[q].children[j];
        assert(m.dom().contains(c) && m[c].parent == Some(q));
        lemma_desc_self(m, c);
        lemma_desc_child(m, q, c, c);
        lemma_desc_trans(m, rid, q, c);
    }
}

/// Detaching the subtree of a stored node splits a well-formed forest
/// into two well-formed forests: what stays behind, and the subtree as a
/// forest of its own whose sole root is the detached node. The original
/// depth witness serves both sides.
pub proof fn lemma_remove_preserves_wf<T>(
    m: Map<u64, NodeModel<T>>,
    d: Map<u64, int>,
    roots: Set<u64>,
    rid: u64,
)
    requires
        map_wf(m),
        depth_ok(m, d),
        roots_ok(m, roots),
        m.dom().contains(rid),
    ensures
        remaining_model(m, rid).dom() == m.dom().difference(desc_set(m, rid)),
        extracted_model(m, rid).dom() == desc_set(m, rid),
        map_wf(remaining_model(m, rid)),
        depth_ok(remaining_model(m, rid), d),
        roots_ok(remaining_model(m, rid), remaining_roots(m, roots, rid)),
        map_wf(extracted_model(m, rid)),
        depth_ok(extracted_model(m, rid), d),
        roots_ok(extracted_model(m, rid), Set::<u64>::empty().insert(rid)),
{
    let dset = desc_set(m, rid);
    let mu = unlink_model(m, rid);
    let rem = remaining_model(m, rid);
    let ext = extracted_model(m, rid);
    lemma_desc_self(m, rid);
    assert forall|x: u64| #[trigger] dset.contains(x) implies m.dom().contains(x) by {}
    assert(rem.dom() =~= m.dom().difference(dset));
    assert(ext.dom() =~= dset);
    // Children of subtree members stay in the subtree; strict members'
    // parents stay in the subtree.
    assert forall|x: u64, jj: int|
        dset.contains(x) && 0 <= jj < m[x].children.len() implies dset.contains(
        #[trigger] m[x].children[jj],
    ) by {
        let c = m[x].children[jj];
        lemma_desc_self(m, c);
        lemma_desc_child(m, x, c, c);
        lemma_desc_trans(m, rid, x, c);
    }
    assert forall|x: u64| #[trigger] dset.contains(x) && x != rid implies (m[x].parent matches
        Some(q) && dset.contains(q) && d[x] == d[q] + 1) by {
        lemma_desc_parent(m, rid, x);
    }
    match m[rid].parent {
        Some(p) => {
            assert(!dset.contains(p)) by {
                if dset.contains(p) {
                    lemma_desc_depth(m, d, rid, p);
                }
            }
            assert(m[p].children.contains(rid));
            lemma_remove_value_nodup(m[p].children, rid);
            assert(mu[p].children == m[p].children.remove_value(rid));
        }
        None => {}
    }
    // The rest of the forest never references the subtree.
    assert forall|x: u64, jj: int|
        rem.dom().contains(x) && 0 <= jj < rem[x].children.len() implies !dset.contains(
        #[trigger] rem[x].children[jj],
    ) && m.dom().contains(rem[x].children[jj]) && m[rem[x].children[jj]].parent == Some(x) by {
        let c = rem[x].children[jj];
        if m[rid].parent is Some && x == m[rid].parent->0 {
            let p = m[rid].parent->0;
            assert(rem[x].children == m[p].children.remove_value(rid));
            assert(rem[x].children.contains(c));
            assert(m[p].children.contains(c) && c != rid);
            let j0 = choose|j0: int| 0 <= j0 < m[p].children.len() && m[p].children[j0] == c;
            assert(m.dom().contains(c) && m[c].parent == Some(p));
            if dset.contains(c) {
                assert(m[c].parent matches Some(q) && dset.contains(q));
            }
        } else {
            assert(rem[x].children == m[x].children);
            assert(m.dom().contains(c) && m[c].parent == Some(x));
            if dset.contains(c) {
                if c == rid {
                    assert(m[rid].parent == Some(x));
                    assert(!dset.contains(x));
                    lemma_desc_self(m, rid);
                    assert(dset.contains(rid));
                    assert(m[rid].parent matches Some(pp) && x == pp);
                } else {
                    assert(m[c].parent matches Some(q) && dset.contains(q));
                }
            }
        }
    }
    assert(map_wf(rem)) by {
        assert(ids_ok(rem));
        assert(parents_ok(rem)) by {
            assert forall|i: u64| #[trigger] rem.dom().contains(i) implies (rem[i].parent matches
                Some(q) ==> rem.dom().contains(q) && rem[q].children.contains(i)) by {
                match m[i].parent {
                    Some(q) => {
                        assert(rem[i].parent == Some(q));
                        assert(m.dom().contains(q) && m[q].children.contains(i));
                        assert(!dset.contains(q)) by {
                            if dset.contains(q) {
                                let j0 = choose|j0: int|
                                    0 <= j0 < m[q].children.len() && m[q].children[j0] == i;
                                assert(dset.contains(m[q].children[j0]));
                            }
                        }
                        if m[rid].parent is Some && q == m[rid].parent->0 {
                            assert(i != rid);
                            assert(rem[q].children.contains(i));
                        } else {
                            assert(rem[q].children == m[q].children);
                        }
                    }
                    None => {}
                }
            }
        }
        assert(children_ok(rem)) by {
            assert forall|i: u64, j: int|
                rem.dom().contains(i) && 0 <= j < rem[i].children.len() implies rem.dom().contains(
                #[trigger] rem[i].children[j],
            ) && rem[rem[i].children[j]].parent == Some(i) by {
                let c = rem[i].children[j];
                assert(rem[i].children.contains(c));
                assert(!dset.contains(c) && m.dom().contains(c) && m[c].parent == Some(i));
                assert(rem[c].parent == m[c].parent);
            }
        }
        assert(nodup_ok(rem));
    }
    assert(depth_ok(rem, d)) by {
        assert forall|i: u64| #[trigger] rem.dom().contains(i) implies d.dom().contains(i) && (
        rem[i].parent matches Some(q) ==> d[i] == d[q] + 1) by {
            assert(m.dom().contains(i));
            assert(rem[i].parent == m[i].parent);
        }
    }
    assert(roots_ok(rem, remaining_roots(m, roots, rid))) by {
        let rr = remaining_roots(m, roots, rid);
        assert forall|i: u64| #[trigger] rr.contains(i) implies rem.dom().contains(i)
            && rem[i].parent is None by {
            assert(roots.contains(i));
            assert(m.dom().contains(i) && m[i].parent is None);
            assert(!dset.contains(i)) by {
                if dset.contains(i) && i != rid {
                    assert(m[i].parent matches Some(q));
                }
            }
            assert(rem[i].parent == m[i].parent);
        }
        assert forall|i: u64| rem.dom().contains(i) && rem[i].parent is None implies rr.contains(
            i,
        ) by {
            assert(rem[i].parent == m[i].parent);
            assert(roots.contains(i));
        }
    }
    assert(map_wf(ext)) by {
        assert(ids_ok(ext));
        assert(parents_ok(ext)) by {
            assert forall|i: u64| #[trigger] ext.dom().contains(i) implies (ext[i].parent matches
                Some(q) ==> ext.dom().contains(q) && ext[q].children.contains(i)) by {
                if i != rid {
                    assert(dset.contains(i));
                    assert(m[i].parent matches Some(q) && dset.contains(q));
                    assert(ext[i].parent == m[i].parent);
                    let q = m[i].parent->0;
                    assert(ext[q].children == m[q].children);
                }
            }
        }
        assert(children_ok(ext)) by {
            assert forall|i: u64, j: int|
                ext.dom().contains(i) && 0 <= j < ext[i].children.len() implies ext.dom().contains(
                #[trigger] ext[i].children[j],
            ) && ext[ext[i].children[j]].parent == Some(i) by {
                assert(ext[i].children == m[i].children);
                let c = m[i].children[j];
                assert(dset.contains(c));
                assert(m.dom().contains(c) && m[c].parent == Some(i));
                assert(c != rid) by {
                    if c == rid {
                        assert(!dset.contains(i)) by {
                            if dset.contains(i) {
                                lemma_desc_depth(m, d, rid, i);
                            }
                        }
                    }
                }
                assert(ext[c].parent == m[c].parent);
            }
        }
        assert(nodup_ok(ext));
    }
    assert(depth_ok(ext, d)) by {
        assert forall|i: u64| #[trigger] ext.dom().contains(i) implies d.dom().contains(i) && (
        ext[i].parent matches Some(q) ==> d[i] == d[q] + 1) by {
            assert(m.dom().contains(i));
            if i != rid {
                assert(ext[i].parent == m[i].parent);
            }
        }
    }
    assert(roots_ok(ext, Set::<u64>::empty().insert(rid))) by {
        assert forall|i: u64|
            ext.dom().contains(i) && ext[i].parent is None implies Set::<u64>::empty().insert(
            rid,
        ).contains(i) by {
            if i != rid {
                assert(m[i].parent matches Some(q));
                assert(ext[i].parent == m[i].parent);
            }
        }
    }
}

/// A chain that reaches `sid` inside the source subtree survives the
/// graft: every strict link on it runs between carried-over nodes.
proof fn lemma_graft_chain_in<T>(
    tm: Map<u64, NodeModel<T>>,
    sm: Map<u64, NodeModel<T>>,
    ds: Map<u64, int>,
    sid: u64,
    np: Option<u64>,
    x: u64,
    k: nat,
)
    requires
        map_wf(sm),
        depth_ok(sm, ds),
        sm.dom().contains(sid),
        sm.dom().contains(x),
        anc(sm, x, k) == Some(sid),
        desc_set(sm, sid).disjoint(tm.dom()),
        np matches Some(p) ==> tm.dom().contains(p),
    ensures
        anc(graft_model(tm, sm, sid, np), x, k) == Some(sid),
    decreases k,
{
    let g = graft_model(tm, sm, sid, np);
    let dset = desc_set(sm, sid);
    if k == 0 {
        assert(x == sid);
    } else {
        lemma_anc_depth(sm, ds, x, sid, k);
        assert(x != sid);
        lemma_anc_extend(sm, x, 1, (k - 1) as nat);
        assert(anc(sm, x, 0) == Some(x));
        match sm[x].parent {
            None => {
                assert(anc(sm, x, 1) == None::<u64>);
                assert(false);
            }
            Some(q) => {
                assert(anc(sm, x, 1) == Some(q));
                assert(anc(sm, q, (k - 1) as nat) == Some(sid));
                assert(sm.dom().contains(q));
                assert(dset.contains(q));
                assert(dset.contains(x));
                assert(!tm.dom().contains(x));
                assert(g.dom().contains(x) && g[x].parent == Some(q)) by {
                    if np is Some {
                        assert(!dset.contains(np->0));
                    }
                }
                lemma_graft_chain_in(tm, sm, ds, sid, np, q, (k - 1) as nat);
                lemma_anc_extend(g, x, 1, (k - 1) as nat);
                assert(anc(g, x, 0) == Some(x));
                assert(anc(g, x, 1) == Some(q));
            }
        }
    }
}

/// A chain that starts in the target forest stays in the target forest:
/// grafting never makes an old target node reach into the moved subtree.
proof fn lemma_graft_chain_out<T>(
    tm: Map<u64, NodeModel<T>>,
    sm: Map<u64, NodeModel<T>>,
    sid: u64,
    np: Option<u64>,
    x: u64,
    y: u64,
    k: nat,
)
    requires
        map_wf(tm),
        sm.dom().contains(sid),
        tm.dom().contains(x),
        anc(graft_model(tm, sm, sid, np), x, k) == Some(y),
        desc_set(sm, sid).disjoint(tm.dom()),
    ensures
        tm.dom().contains(y),
    decreases k,
{
    let g = graft_model(tm, sm, sid, np);
    if k == 0 {
        assert(y == x);
    } else {
        match anc(g, x, (k - 1) as nat) {
            None => {
                assert(false);
            }
            Some(z) => {
                lemma_graft_chain_out(tm, sm, sid, np, x, z, (k - 1) as nat);
                assert(g.dom().contains(z) && g[z].parent == Some(y));
                lemma_desc_self(sm, sid);
                assert(z != sid);
                assert(g[z].parent == tm[z].parent);
                assert(tm.dom().contains(y));
            }
        }
    }
}

/// Grafting a subtree out of a well-formed source into a disjoint
/// well-formed target yields a well-formed target whose subtree under the
/// moved root is exactly the carried-over node set. Returns a depth
/// witness for the combined forest.
pub proof fn lemma_graft_preserves_wf<T>(
    tm: Map<u64, NodeModel<T>>,
    dt: Map<u64, int>,
    troots: Set<u64>,
    sm: Map<u64, NodeModel<T>>,
    ds: Map<u64, int>,
    sid: u64,
    np: Option<u64>,
) -> (dn: Map<u64, int>)
    requires
        map_wf(tm),
        depth_ok(tm, dt),
        roots_ok(tm, troots),
        map_wf(sm),
        depth_ok(sm, ds),
        sm.dom().contains(sid),
        np matches Some(p) ==> tm.dom().contains(p),
        desc_set(sm, sid).disjoint(tm.dom()),
    ensures
        graft_model(tm, sm, sid, np).dom() == tm.dom().union(desc_set(sm, sid)),
        map_wf(graft_model(tm, sm, sid, np)),
        depth_ok(graft_model(tm, sm, sid, np), dn),
        roots_ok(graft_model(tm, sm, sid, np), graft_roots(troots, sid, np)),
        forall|x: u64|
            is_desc(graft_model(tm, sm, sid, np), sid, x) <==> desc_set(sm, sid).contains(x),
{
    let g = graft_model(tm, sm, sid, np);
    let dset = desc_set(sm, sid);
    lemma_desc_self(sm, sid);
    assert forall|x: u64| #[trigger] dset.contains(x) implies sm.dom().contains(x)
        && !tm.dom().contains(x) by {}
    assert(g.dom() =~= tm.dom().union(dset));
    // Closure facts about the moved subtree.
    assert forall|x: u64, jj: int|
        dset.contains(x) && 0 <= jj < sm[x].children.len() implies dset.contains(
        #[trigger] sm[x].children[jj],
    ) by {
        lemma_children_in_desc(sm, sid, x);
    }
    assert forall|x: u64| #[trigger] dset.contains(x) && x != sid implies (sm[x].parent matches
        Some(q) && dset.contains(q) && ds[x] == ds[q] + 1) by {
        lemma_desc_parent(sm, sid, x);
    }
    assert(sm[sid].parent matches Some(q) ==> !dset.contains(q)) by {
        if sm[sid].parent is Some {
            let q = sm[sid].parent->0;
            if dset.contains(q) {
                lemma_desc_depth(sm, ds, sid, q);
            }
        }
    }
    match np {
        Some(p) => {
            assert(!sm.dom().contains(p) || !dset.contains(p));
            assert(!tm[p].children.contains(sid)) by {
                if tm[p].children.contains(sid) {
                    let j0 = choose|j0: int|
                        0 <= j0 < tm[p].children.len() && tm[p].children[j0] == sid;
                    assert(tm.dom().contains(tm[p].children[j0]));
                }
            }
            lemma_push_nodup(tm[p].children, sid);
            assert(g[p].children == tm[p].children.push(sid));
            assert(g[p].children[tm[p].children.len() as int] == sid);
            assert(g[p].children.contains(sid));
            assert(forall|j: int|
                0 <= j < tm[p].children.len() ==> g[p].children[j] == #[trigger] tm[p].children[j]);
        }
        None => {}
    }
    assert(ids_ok(g));
    assert(parents_ok(g)) by {
        assert forall|i: u64| #[trigger] g.dom().contains(i) implies (g[i].parent matches Some(q)
            ==> g.dom().contains(q) && g[q].children.contains(i)) by {
            if i == sid {
                match np {
                    Some(p) => {
                        assert(g[sid].parent == Some(p));
                        assert(g[p].children.contains(sid));
                    }
                    None => {
                        assert(g[sid].parent is None);
                    }
                }
            } else if tm.dom().contains(i) {
                assert(g[i].parent == tm[i].parent);
                match tm[i].parent {
                    Some(q) => {
                        assert(tm.dom().contains(q) && tm[q].children.contains(i));
                        if np matches Some(p) && q == np->0 {
                            let j0 = choose|j0: int|
                                0 <= j0 < tm[q].children.len() && tm[q].children[j0] == i;
                            assert(g[q].children[j0] == i);
                        } else {
                            assert(g[q].children == tm[q].children);
                        }
                    }
                    None => {}
                }
            } else {
                assert(dset.contains(i) && i != sid);
                assert(g[i].parent == sm[i].parent);
                let q = sm[i].parent->0;
                assert(dset.contains(q));
                assert(g[q].children == sm[q].children);
                assert(sm[q].children.contains(i));
            }
        }
    }
    assert(children_ok(g)) by {
        assert forall|i: u64, j: int|
            g.dom().contains(i) && 0 <= j < g[i].children.len() implies g.dom().contains(
            #[trigger] g[i].children[j],
        ) && g[g[i].children[j]].parent == Some(i) by {
            if tm.dom().contains(i) {
                if np matches Some(p) && i == np->0 {
                    if j < tm[i].children.len() {
                        let c = tm[i].children[j];
                        assert(tm.dom().contains(c) && tm[c].parent == Some(i));
                        assert(c != sid);
                        assert(g[c].parent == tm[c].parent);
                    } else {
                        assert(g[i].children[j] == sid);
                        assert(g[sid].parent == np);
                    }
                } else {
                    let c = tm[i].children[j];
                    assert(g[i].children == tm[i].children);
                    assert(tm.dom().contains(c) && tm[c].parent == Some(i));
                    assert(c != sid);
                    assert(g[c].parent == tm[c].parent);
                }
            } else {
                assert(dset.contains(i));
                assert(g[i].children == sm[i].children);
                let c = sm[i].children[j];
                assert(sm.dom().contains(c) && sm[c].parent == Some(i));
                assert(dset.contains(c));
                assert(c != sid) by {
                    if c == sid {
                        assert(sm[sid].parent == Some(i));
                        assert(dset.contains(i));
                    }
                }
                assert(g[c].parent == sm[c].parent);
            }
        }
    }
    assert(nodup_ok(g));
    assert(roots_ok(g, graft_roots(troots, sid, np))) by {
        let gr = graft_roots(troots, sid, np);
        assert forall|i: u64| #[trigger] gr.contains(i) implies g.dom().contains(i)
            && g[i].parent is None by {
            if i == sid && np is None {
            } else {
                assert(troots.contains(i));
                assert(tm.dom().contains(i) && tm[i].parent is None);
                assert(i != sid);
                assert(g[i].parent == tm[i].parent);
            }
        }
        assert forall|i: u64| g.dom().contains(i) && g[i].parent is None implies gr.contains(
            i,
        ) by {
            if i == sid {
                assert(np is None);
            } else if tm.dom().contains(i) {
                assert(g[i].parent == tm[i].parent);
                assert(troots.contains(i));
            } else {
                assert(dset.contains(i) && i != sid);
                assert(g[i].parent == sm[i].parent);
                assert(sm[i].parent matches Some(q));
            }
        }
    }
    let shift: int = match np {
        Some(p) => dt[p] + 1 - ds[sid],
        None => 0,
    };
    let dn = Map::<u64, int>::new(
        |x: u64| true,
        |x: u64| if dset.contains(x) {
            ds[x] + shift
        } else {
            dt[x]
        },
    );
    assert(depth_ok(g, dn)) by {
        assert forall|i: u64| #[trigger] g.dom().contains(i) implies dn.dom().contains(i) && (
        g[i].parent matches Some(q) ==> dn[i] == dn[q] + 1) by {
            if i == sid {
                match np {
                    Some(p) => {
                        assert(!dset.contains(p));
                        assert(dn[sid] == ds[sid] + shift);
                        assert(dn[p] == dt[p]);
                    }
                    None => {}
                }
            } else if tm.dom().contains(i) {
                assert(g[i].parent == tm[i].parent);
                match tm[i].parent {
                    Some(q) => {
                        assert(tm.dom().contains(q));
                        assert(!dset.contains(i) && !dset.contains(q));
                        assert(dt[i] == dt[q] + 1);
                    }
                    None => {}
                }
            } else {
                assert(dset.contains(i) && i != sid);
                assert(g[i].parent == sm[i].parent);
                let q = sm[i].parent->0;
                assert(dset.contains(q) && ds[i] == ds[q] + 1);
            }
        }
    }
    assert forall|x: u64| is_desc(g, sid, x) implies dset.contains(x) by {
        if tm.dom().contains(x) {
            let k = choose|k: nat| anc(g, x, k) == Some(sid);
            lemma_graft_chain_out(tm, sm, sid, np, x, sid, k);
        } else {
            assert(g.dom().contains(x));
        }
    }
    assert forall|x: u64| #[trigger] dset.contains(x) implies is_desc(g, sid, x) by {
        let k = choose|k: nat| anc(sm, x, k) == Some(sid);
        lemma_graft_chain_in(tm, sm, ds, sid, np, x, k);
        assert(g.dom().contains(x));
    }
    dn
}

/// A chain that reaches the detached root inside its subtree survives
/// the detachment: no strict link on it touches the cleared parent field.
proof fn lemma_ext_chain<T>(m: Map<u64, NodeModel<T>>, d: Map<u64, int>, rid: u64, x: u64, k: nat)
    requires
        map_wf(m),
        depth_ok(m, d),
        m.dom().contains(rid),
        m.dom().contains(x),
        anc(m, x, k) == Some(rid),
    ensures
        anc(extracted_model(m, rid), x, k) == Some(rid),
    decreases k,
{
    let e = extracted_model(m, rid);
    if k == 0 {
    } else {
        lemma_anc_depth(m, d, x, rid, k);
        assert(x != rid);
        lemma_anc_extend(m, x, 1, (k - 1) as nat);
        assert(anc(m, x, 0) == Some(x));
        match m[x].parent {
            None => {
                assert(anc(m, x, 1) == None::<u64>);
                assert(false);
            }
            Some(q) => {
                assert(anc(m, x, 1) == Some(q));
                assert(anc(m, q, (k - 1) as nat) == Some(rid));
                assert(m.dom().contains(q));
                assert(is_desc(m, rid, x));
                assert(e.dom().contains(x));
                assert(e[x].parent == Some(q));
                lemma_ext_chain(m, d, rid, q, (k - 1) as nat);
                lemma_anc_extend(e, x, 1, (k - 1) as nat);
                assert(anc(e, x, 0) == Some(x));
                assert(anc(e, x, 1) == Some(q));
            }
        }
    }
}

/// The detached subtree, as a forest of its own, has exactly the same
/// descendant set under its root as it had inside the original forest.
pub proof fn lemma_desc_extracted<T>(m: Map<u64, NodeModel<T>>, d: Map<u64, int>, rid: u64)
    requires
        map_wf(m),
        depth_ok(m, d),
        m.dom().contains(rid),
    ensures
        desc_set(extracted_model(m, rid), rid) == desc_set(m, rid),
{
    let e = extracted_model(m, rid);
    let dset = desc_set(m, rid);
    lemma_desc_self(m, rid);
    assert forall|y: u64| #[trigger] dset.contains(y) implies m.dom().contains(y) by {}
    assert(e.dom() =~= dset);
    assert forall|x: u64| #[trigger] dset.contains(x) implies desc_set(e, rid).contains(x) by {
        let k = choose|k: nat| anc(m, x, k) == Some(rid);
        lemma_ext_chain(m, d, rid, x, k);
        assert(e.dom().contains(x));
    }
    assert forall|x: u64| desc_set(e, rid).contains(x) implies dset.contains(x) by {
        assert(e.dom().contains(x));
    }
    assert(desc_set(e, rid) =~= dset);
}

/// Round-trip law: detaching the subtree of `rid` and grafting it back
/// under the original parent reproduces the original forest exactly —
/// node set, parent and child links, child order, and root set — provided
/// `rid` was a root, or the last child of its parent (grafting appends,
/// so any other position cannot be restored).
pub proof fn lemma_remove_graft_round_trip<T>(
    m: Map<u64, NodeModel<T>>,
    d: Map<u64, int>,
    roots: Set<u64>,
    rid: u64,
)
    requires
        map_wf(m),
        depth_ok(m, d),
        roots_ok(m, roots),
        m.dom().contains(rid),
        m[rid].parent matches Some(p) ==> m[p].children.len() > 0 && m[p].children.last() == rid,
    ensures
        graft_model(
            remaining_model(m, rid),
            extracted_model(m, rid),
            rid,
            m[rid].parent,
        ) == m,
        graft_roots(remaining_roots(m, roots, rid), rid, m[rid].parent) == roots,
{
    let rem = remaining_model(m, rid);
    let ext = extracted_model(m, rid);
    let dset = desc_set(m, rid);
    let par = m[rid].parent;
    let g = graft_model(rem, ext, rid, par);
    lemma_desc_extracted(m, d, rid);
    lemma_desc_self(m, rid);
    lemma_remove_preserves_wf(m, d, roots, rid);
    assert forall|x: u64| #[trigger] dset.contains(x) implies m.dom().contains(x) by {}
    assert forall|x: u64| #[trigger] dset.contains(x) && x != rid implies (m[x].parent matches
        Some(q) && dset.contains(q)) by {
        lemma_desc_parent(m, rid, x);
    }
    match par {
        Some(p) => {
            assert(!dset.contains(p)) by {
                if dset.contains(p) {
                    lemma_desc_depth(m, d, rid, p);
                }
            }
            assert(m[p].children.contains(rid));
            lemma_remove_value_nodup(m[p].children, rid);
            assert(rem[p].children == m[p].children.drop_last());
            assert(rem[p].children.push(rid) =~= m[p].children);
        }
        None => {
            assert(roots.contains(rid));
        }
    }
    assert(g =~= m);
    assert(graft_roots(remaining_roots(m, roots, rid), rid, par) =~= roots);
}

/// Order law: insertion under a parent appends the fresh identifier at
/// the very end of that parent's child list, so two insertions under the
/// same parent land in call order, after everything already there.
pub proof fn lemma_insert_order<T>(
    m: Map<u64, NodeModel<T>>,
    p: u64,
    a: u64,
    b: u64,
    pa: T,
    pb: T,
)
    requires
        m.dom().contains(p),
        !m.dom().contains(a),
        !m.dom().contains(b),
        a != b,
    ensures
        insert_model(m, a, Some(p), pa)[p].children == m[p].children.push(a),
        insert_model(insert_model(m, a, Some(p), pa), b, Some(p), pb)[p].children
            == m[p].children.push(a).push(b),
{
    let m1 = insert_model(m, a, Some(p), pa);
    assert(m1[p].children == m[p].children.push(a));
    let m2 = insert_model(m1, b, Some(p), pb);
    assert(m2[p].children == m1[p].children.push(b));
}

} // verus!
