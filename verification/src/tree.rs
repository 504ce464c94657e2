//! The widget tree: a single-root hierarchy over entities with parent links,
//! an explicit parent chain and a deterministic pre-order traversal.

use vstd::prelude::*;

verus! {

/// An opaque handle identifying a widget node. The tree hands ids out in
/// creation order; the root is always `0`.
pub type Entity = usize;

/// A single-root, parent-indexed hierarchy. `parent[c]` is the parent of
/// node `c`; `children[p]` lists the children of `p` in creation order.
/// Every non-root node has exactly one parent with a smaller id, so walks
/// toward the root terminate.
pub struct Tree {
    pub parent: Vec<Entity>,
    pub children: Vec<Vec<Entity>>,
}

impl Tree {
    pub open spec fn spec_len(self) -> int {
        self.parent@.len() as int
    }

    /// Structural well-formedness: ids are dense, the root is its own
    /// parent entry, parents precede children, and the children lists agree
    /// with the parent links.
    pub open spec fn wf(self) -> bool {
        &&& self.parent@.len() == self.children@.len()
        &&& self.parent@.len() >= 1
        &&& self.parent@[0] == 0
        &&& forall|c: int| 1 <= c < self.spec_len() ==> (self.parent@[c] as int) < c
        &&& forall|p: int, k: int|
            0 <= p < self.spec_len() && 0 <= k < self.children@[p]@.len() ==> {
                let c = #[trigger] self.children@[p]@[k];
                p < c < self.spec_len() && self.parent@[c as int] == p
            }
        &&& forall|c: int| 1 <= c < self.spec_len()
            ==> #[trigger] self.children@[self.parent@[c] as int]@.contains(c as Entity)
        &&& forall|p: int, k1: int, k2: int|
            0 <= p < self.spec_len() && 0 <= k1 < k2 < self.children@[p]@.len()
                ==> #[trigger] self.children@[p]@[k1] != #[trigger] self.children@[p]@[k2]
    }

    /// The parent of a node, `None` for the root.
    pub open spec fn spec_parent_of(self, node: Entity) -> Option<Entity> {
        if node == 0 {
            None
        } else {
            Some(self.parent@[node as int])
        }
    }

    pub fn new() -> (t: Tree)
        ensures
            t.wf(),
            t.spec_len() == 1,
    {
        let mut parent: Vec<Entity> = Vec::new();
        parent.push(0);
        let mut children: Vec<Vec<Entity>> = Vec::new();
        children.push(Vec::new());
        Tree { parent, children }
    }

    pub fn len(&self) -> (n: usize)
        ensures
            n == self.spec_len(),
    {
        self.parent.len()
    }

    pub fn root(&self) -> (r: Entity)
        ensures
            r == 0,
    {
        0
    }

    pub fn parent_of(&self, node: Entity) -> (p: Option<Entity>)
        requires
            node < self.spec_len(),
        ensures
            p == self.spec_parent_of(node),
    {
        if node == 0 {
            None
        } else {
            Some(self.parent[node])
        }
    }

    /// Decides structural well-formedness, for validating a tree that was
    /// not built through [`Tree::new`] and [`Tree::add_child`] alone.
    pub fn check_wf(&self) -> (r: bool)
        ensures
            r == self.wf(),
    {
        let n = self.parent.len();
        if self.children.len() != n || n == 0 {
            return false;
        }
        if self.parent[0] != 0 {
            return false;
        }
        let mut c: usize = 1;
        while c < n
            invariant
                1 <= c <= n,
                n == self.parent@.len(),
                n == self.children@.len(),
                forall|cc: int| 1 <= cc < c ==> (self.parent@[cc] as int) < cc,
                forall|cc: int| 1 <= cc < c
                    ==> #[trigger] self.children@[self.parent@[cc] as int]@.contains(
                        cc as Entity,
                    ),
            decreases n - c,
        {
            let p = self.parent[c];
            if p >= c {
                return false;
            }
            if !list_contains(&self.children[p], c) {
                proof {
                    assert(!self.children@[self.parent@[c as int] as int]@.contains(
                        c as Entity,
                    ));
                    assert(!self.wf());
                }
                return false;
            }
            c = c + 1;
        }
        let mut p: usize = 0;
        while p < n
            invariant
                p <= n,
                n == self.parent@.len(),
                n == self.children@.len(),
                forall|pp: int, k: int|
                    0 <= pp < p && 0 <= k < self.children@[pp]@.len() ==> {
                        let cc = #[trigger] self.children@[pp]@[k];
                        pp < cc < n && self.parent@[cc as int] == pp
                    },
                forall|pp: int, k1: int, k2: int|
                    0 <= pp < p && 0 <= k1 < k2 < self.children@[pp]@.len()
                        ==> #[trigger] self.children@[pp]@[k1]
                            != #[trigger] self.children@[pp]@[k2],
            decreases n - p,
        {
            let len = self.children[p].len();
            let mut k: usize = 0;
            while k < len
                invariant
                    k <= len,
                    p < n,
                    n == self.parent@.len(),
                    n == self.children@.len(),
                    len == self.children@[p as int]@.len(),
                    forall|kk: int|
                        0 <= kk < k ==> {
                            let cc = #[trigger] self.children@[p as int]@[kk];
                            p < cc < n && self.parent@[cc as int] == p as Entity
                        },
                    forall|k1: int, k2: int|
                        0 <= k1 < k2 < len && k1 < k
                            ==> #[trigger] self.children@[p as int]@[k1]
                                != #[trigger] self.children@[p as int]@[k2],
                decreases len - k,
            {
                let ch = self.children[p][k];
                if ch <= p || ch >= n {
                    return false;
                }
                if self.parent[ch] != p {
                    return false;
                }
                let mut k2: usize = k + 1;
                while k2 < len
                    invariant
                        k < k2 <= len,
                        p < n,
                        n == self.children@.len(),
                        len == self.children@[p as int]@.len(),
                        ch == self.children@[p as int]@[k as int],
                        forall|kk: int| k < kk < k2
                            ==> ch != #[trigger] self.children@[p as int]@[kk],
                    decreases len - k2,
                {
                    if self.children[p][k2] == ch {
                        return false;
                    }
                    k2 = k2 + 1;
                }
                k = k + 1;
            }
            p = p + 1;
        }
        true
    }

    /// Creates a node under `parent` and returns its id.
    pub fn add_child(&mut self, parent: Entity) -> (c: Entity)
        requires
            old(self).wf(),
            parent < old(self).spec_len(),
        ensures
            final(self).wf(),
            c == old(self).spec_len(),
            final(self).spec_len() == old(self).spec_len() + 1,
            final(self).parent@ == old(self).parent@.push(parent),
            final(self).children@[parent as int]@
                == old(self).children@[parent as int]@.push(c),
            forall|p: int|
                0 <= p < old(self).spec_len() && p != parent
                    ==> final(self).children@[p] == old(self).children@[p],
            final(self).children@[c as int]@ == Seq::<Entity>::empty(),
    {
        let c = self.parent.len();
        self.parent.push(parent);
        let list = &mut self.children[parent];
        list.push(c);
        self.children.push(Vec::new());
        proof {
            let new = *self;
            assert forall|cc: int| 1 <= cc < new.spec_len() implies
                #[trigger] new.children@[new.parent@[cc] as int]@.contains(cc as Entity) by {
                if cc < c {
                    let op = old(self).parent@[cc] as int;
                    assert(old(self).children@[op]@.contains(cc as Entity));
                    let k = choose|k: int|
                        0 <= k < old(self).children@[op]@.len()
                            && old(self).children@[op]@[k] == cc as Entity;
                    assert(new.children@[op]@[k] == cc as Entity);
                } else {
                    assert(new.children@[parent as int]@.last() == c as Entity);
                }
            }
        }
        c
    }
}

/// Reports whether `x` occurs in the list.
fn list_contains(list: &Vec<Entity>, x: Entity) -> (r: bool)
    ensures
        r == list@.contains(x),
{
    let mut i: usize = 0;
    while i < list.len()
        invariant
            i <= list@.len(),
            forall|j: int| 0 <= j < i ==> list@[j] != x,
        decreases list@.len() - i,
    {
        if list[i] == x {
            return true;
        }
        i = i + 1;
    }
    false
}

/// The pre-order depth-first traversal starting at `node`: the node itself,
/// then the traversal of each child subtree in children order.
pub open spec fn preorder(t: Tree, node: Entity) -> Seq<Entity>
    decreases t.spec_len() - node, 1int, 0int,
        when t.wf() && node < t.spec_len()
{
    seq![node] + preorder_kids(t, node, 0)
}

/// The concatenated traversals of the children of `node` from child index
/// `k` on.
pub open spec fn preorder_kids(t: Tree, node: Entity, k: int) -> Seq<Entity>
    decreases t.spec_len() - node, 0int, t.children@[node as int]@.len() - k,
        when t.wf() && node < t.spec_len() && 0 <= k <= t.children@[node as int]@.len()
{
    if k >= t.children@[node as int]@.len() {
        Seq::empty()
    } else {
        preorder(t, t.children@[node as int]@[k]) + preorder_kids(t, node, k + 1)
    }
}

/// Computes the pre-order traversal of the subtree rooted at `node`.
pub fn preorder_vec(t: &Tree, node: Entity) -> (out: Vec<Entity>)
    requires
        t.wf(),
        node < t.spec_len(),
    ensures
        out@ == preorder(*t, node),
    decreases t.spec_len() - node,
{
    let mut out: Vec<Entity> = Vec::new();
    out.push(node);
    proof {
        assert(out@ + preorder_kids(*t, node, 0) =~= preorder(*t, node));
    }
    let n_kids = children_len(t, node);
    for k in 0..n_kids
        invariant
            t.wf(),
            node < t.spec_len(),
            n_kids == t.children@[node as int]@.len(),
            out@ + preorder_kids(*t, node, k as int) == preorder(*t, node),
    {
        let c = t.children[node][k];
        let mut sub = preorder_vec(t, c);
        proof {
            assert(preorder_kids(*t, node, k as int)
                == preorder(*t, c) + preorder_kids(*t, node, k + 1));
            assert((out@ + sub@) + preorder_kids(*t, node, k + 1)
                =~= out@ + (sub@ + preorder_kids(*t, node, k + 1)));
        }
        out.append(&mut sub);
    }
    proof {
        assert(out@ + preorder_kids(*t, node, n_kids as int) =~= out@);
    }
    out
}

/// Every entity of a pre-order traversal lies in the tree, at or below the
/// subtree root it started from.
pub proof fn lemma_preorder_bounds(t: Tree, node: Entity)
    requires
        t.wf(),
        node < t.spec_len(),
    ensures
        forall|i: int|
            0 <= i < preorder(t, node).len()
                ==> node <= #[trigger] preorder(t, node)[i] < t.spec_len(),
    decreases t.spec_len() - node, 1int, 0int,
{
    lemma_preorder_kids_bounds(t, node, 0);
    let po = preorder(t, node);
    let kids = preorder_kids(t, node, 0);
    assert forall|i: int| 0 <= i < po.len() implies node <= #[trigger] po[i] < t.spec_len() by {
        if i > 0 {
            assert(po[i] == kids[i - 1]);
        }
    }
}

proof fn lemma_preorder_kids_bounds(t: Tree, node: Entity, k: int)
    requires
        t.wf(),
        node < t.spec_len(),
        0 <= k <= t.children@[node as int]@.len(),
    ensures
        forall|i: int|
            0 <= i < preorder_kids(t, node, k).len()
                ==> node < #[trigger] preorder_kids(t, node, k)[i] < t.spec_len(),
    decreases t.spec_len() - node, 0int, t.children@[node as int]@.len() - k,
{
    if k < t.children@[node as int]@.len() {
        let c = t.children@[node as int]@[k];
        lemma_preorder_bounds(t, c);
        lemma_preorder_kids_bounds(t, node, k + 1);
        let sub = preorder(t, c);
        let rest = preorder_kids(t, node, k + 1);
        let whole = preorder_kids(t, node, k);
        assert forall|i: int|
            0 <= i < whole.len() implies node < #[trigger] whole[i] < t.spec_len() by {
            if i < sub.len() {
                assert(whole[i] == sub[i]);
            } else {
                assert(whole[i] == rest[i - sub.len()]);
            }
        }
    }
}

/// `a` lies on the parent chain of `e` (`e` itself included): `e` belongs
/// to the subtree rooted at `a`.
pub open spec fn in_subtree(t: Tree, e: Entity, a: Entity) -> bool
    decreases e,
        when t.wf() && e < t.spec_len()
{
    e == a || (e != 0 && in_subtree(t, t.parent@[e as int], a))
}

/// A subtree root never exceeds its members.
proof fn lemma_in_subtree_le(t: Tree, e: Entity, a: Entity)
    requires
        t.wf(),
        e < t.spec_len(),
        in_subtree(t, e, a),
    ensures
        a <= e,
    decreases e,
{
    if e != a {
        lemma_in_subtree_le(t, t.parent@[e as int], a);
    }
}

/// Subtree membership composes along the parent chain.
proof fn lemma_in_subtree_trans(t: Tree, e: Entity, a: Entity, b: Entity)
    requires
        t.wf(),
        e < t.spec_len(),
        in_subtree(t, e, a),
        in_subtree(t, a, b),
    ensures
        in_subtree(t, e, b),
    decreases e,
{
    if e != a {
        lemma_in_subtree_trans(t, t.parent@[e as int], a, b);
    }
}

/// Two ancestors of one node sit on one chain: one contains the other.
proof fn lemma_in_subtree_linear(t: Tree, e: Entity, a: Entity, b: Entity)
    requires
        t.wf(),
        e < t.spec_len(),
        in_subtree(t, e, a),
        in_subtree(t, e, b),
    ensures
        in_subtree(t, a, b) || in_subtree(t, b, a),
    decreases e,
{
    if e != a && e != b {
        lemma_in_subtree_linear(t, t.parent@[e as int], a, b);
    }
}

/// The subtrees of two children of one node share a member only when the
/// children coincide.
proof fn lemma_sibling_subtrees_disjoint(t: Tree, node: Entity, c1: Entity, c2: Entity, e: Entity)
    requires
        t.wf(),
        node < t.spec_len(),
        node < c1 < t.spec_len(),
        node < c2 < t.spec_len(),
        t.parent@[c1 as int] == node,
        t.parent@[c2 as int] == node,
        e < t.spec_len(),
        in_subtree(t, e, c1),
        in_subtree(t, e, c2),
    ensures
        c1 == c2,
{
    lemma_in_subtree_linear(t, e, c1, c2);
    if c1 != c2 {
        if in_subtree(t, c1, c2) {
            assert(in_subtree(t, node, c2));
            lemma_in_subtree_le(t, node, c2);
        } else {
            assert(in_subtree(t, node, c1));
            lemma_in_subtree_le(t, node, c1);
        }
    }
}

/// Every entity of the traversal of `node`'s subtree belongs to that
/// subtree.
proof fn lemma_preorder_in_subtree(t: Tree, r: Entity)
    requires
        t.wf(),
        r < t.spec_len(),
    ensures
        forall|i: int|
            0 <= i < preorder(t, r).len()
                ==> in_subtree(t, #[trigger] preorder(t, r)[i], r),
    decreases t.spec_len() - r, 1int, 0int,
{
    lemma_preorder_kids_bounds(t, r, 0);
    let po = preorder(t, r);
    let kids = preorder_kids(t, r, 0);
    assert forall|i: int| 0 <= i < po.len() implies in_subtree(t, po[i], r) by {
        if i == 0 {
            assert(po[0] == r);
        } else {
            assert(po[i] == kids[i - 1]);
            let j = lemma_kids_member_child(t, r, 0, i - 1);
            let c = t.children@[r as int]@[j];
            assert(in_subtree(t, r, r));
            assert(in_subtree(t, c, r));
            lemma_in_subtree_trans(t, kids[i - 1], c, r);
        }
    }
}

/// Names the remaining child whose subtree an entity of the concatenated
/// child traversals belongs to.
proof fn lemma_kids_member_child(t: Tree, node: Entity, k: int, i: int) -> (j: int)
    requires
        t.wf(),
        node < t.spec_len(),
        0 <= k <= t.children@[node as int]@.len(),
        0 <= i < preorder_kids(t, node, k).len(),
    ensures
        k <= j < t.children@[node as int]@.len(),
        in_subtree(t, preorder_kids(t, node, k)[i], t.children@[node as int]@[j]),
    decreases t.spec_len() - node, 0int, t.children@[node as int]@.len() - k,
{
    let c = t.children@[node as int]@[k];
    let sub = preorder(t, c);
    let rest = preorder_kids(t, node, k + 1);
    let whole = preorder_kids(t, node, k);
    if i < sub.len() {
        lemma_preorder_in_subtree(t, c);
        assert(whole[i] == sub[i]);
        k
    } else {
        let j = lemma_kids_member_child(t, node, k + 1, i - sub.len());
        assert(whole[i] == rest[i - sub.len()]);
        j
    }
}

/// LAW: the pre-order traversal lists each entity of the subtree at most
/// once, so one walk visits — and the state-update walker invokes — every
/// entity at most once per run cycle.
pub proof fn lemma_preorder_no_duplicates(t: Tree, r: Entity)
    requires
        t.wf(),
        r < t.spec_len(),
    ensures
        forall|i: int, j: int|
            0 <= i < j < preorder(t, r).len()
                ==> #[trigger] preorder(t, r)[i] != #[trigger] preorder(t, r)[j],
    decreases t.spec_len() - r, 1int, 0int,
{
    lemma_preorder_bounds(t, r);
    lemma_preorder_kids_bounds(t, r, 0);
    lemma_kids_no_duplicates(t, r, 0);
    let po = preorder(t, r);
    let kids = preorder_kids(t, r, 0);
    assert forall|i: int, j: int|
        0 <= i < j < po.len() implies #[trigger] po[i] != #[trigger] po[j] by {
        if i == 0 {
            assert(po[0] == r);
            assert(po[j] == kids[j - 1]);
        } else {
            assert(po[i] == kids[i - 1] && po[j] == kids[j - 1]);
        }
    }
}

proof fn lemma_kids_no_duplicates(t: Tree, node: Entity, k: int)
    requires
        t.wf(),
        node < t.spec_len(),
        0 <= k <= t.children@[node as int]@.len(),
    ensures
        forall|i: int, j: int|
            0 <= i < j < preorder_kids(t, node, k).len()
                ==> #[trigger] preorder_kids(t, node, k)[i]
                    != #[trigger] preorder_kids(t, node, k)[j],
    decreases t.spec_len() - node, 0int, t.children@[node as int]@.len() - k,
{
    if k < t.children@[node as int]@.len() {
        let c = t.children@[node as int]@[k];
        lemma_preorder_no_duplicates(t, c);
        lemma_preorder_in_subtree(t, c);
        lemma_preorder_bounds(t, c);
        lemma_kids_no_duplicates(t, node, k + 1);
        lemma_preorder_kids_bounds(t, node, k + 1);
        let sub = preorder(t, c);
        let rest = preorder_kids(t, node, k + 1);
        let whole = preorder_kids(t, node, k);
        assert forall|i: int, j: int|
            0 <= i < j < whole.len() implies #[trigger] whole[i] != #[trigger] whole[j] by {
            if j < sub.len() {
                assert(whole[i] == sub[i] && whole[j] == sub[j]);
            } else if i >= sub.len() {
                assert(whole[i] == rest[i - sub.len()] && whole[j] == rest[j - sub.len()]);
            } else {
                assert(whole[i] == sub[i] && whole[j] == rest[j - sub.len()]);
                assert(in_subtree(t, sub[i], c));
                let m = lemma_kids_member_child(t, node, k + 1, j - sub.len());
                let c2 = t.children@[node as int]@[m];
                assert(c2 != c);
                if whole[i] == whole[j] {
                    lemma_sibling_subtrees_disjoint(t, node, c, c2, sub[i]);
                }
            }
        }
    }
}

/// Reads the number of children of `node`.
fn children_len(t: &Tree, node: Entity) -> (n: usize)
    requires
        node < t.children@.len(),
    ensures
        n == t.children@[node as int]@.len(),
{
    t.children[node].len()
}

/// The chain of ancestors from `node` up to the root, both included.
pub open spec fn chain(t: Tree, node: Entity) -> Seq<Entity>
    decreases node,
        when t.wf() && node < t.spec_len()
{
    if node == 0 {
        seq![0 as Entity]
    } else {
        seq![node] + chain(t, t.parent@[node as int])
    }
}

/// Every link of the chain steps to a strictly smaller id, so the chain
/// holds each entity at most once and always ends at the root.
pub proof fn lemma_chain_shape(t: Tree, node: Entity)
    requires
        t.wf(),
        node < t.spec_len(),
    ensures
        chain(t, node).len() >= 1,
        chain(t, node)[0] == node,
        chain(t, node).last() == 0 as Entity,
        forall|i: int, j: int|
            0 <= i < j < chain(t, node).len()
                ==> #[trigger] chain(t, node)[i] > #[trigger] chain(t, node)[j],
        forall|i: int|
            0 <= i < chain(t, node).len() ==> #[trigger] chain(t, node)[i] <= node,
    decreases node,
{
    if node != 0 {
        let p = t.parent@[node as int];
        lemma_chain_shape(t, p);
        let c = chain(t, node);
        let cp = chain(t, p);
        assert(c =~= seq![node] + cp);
        assert forall|i: int, j: int|
            0 <= i < j < c.len() implies #[trigger] c[i] > #[trigger] c[j] by {
            if i == 0 {
                assert(c[j] == cp[j - 1]);
                assert(cp[j - 1] <= p);
            } else {
                assert(c[i] == cp[i - 1] && c[j] == cp[j - 1]);
            }
        }
        assert forall|i: int| 0 <= i < c.len() implies #[trigger] c[i] <= node by {
            if i > 0 {
                assert(c[i] == cp[i - 1]);
            }
        }
    }
}

/// Computes the parent chain of `node`.
pub fn parent_chain(t: &Tree, node: Entity) -> (out: Vec<Entity>)
    requires
        t.wf(),
        node < t.spec_len(),
    ensures
        out@ == chain(*t, node),
{
    let mut out: Vec<Entity> = Vec::new();
    out.push(node);
    proof {
        assert(out@ + chain(*t, node).drop_first() =~= chain(*t, node));
    }
    let mut cur = node;
    while cur != 0
        invariant
            t.wf(),
            cur < t.spec_len(),
            out@ + chain(*t, cur).drop_first() == chain(*t, node),
        decreases cur,
    {
        let next = t.parent[cur];
        proof {
            assert(chain(*t, cur).drop_first() =~= chain(*t, next));
            assert((out@ + seq![next]) + chain(*t, next).drop_first()
                =~= out@ + chain(*t, next));
        }
        out.push(next);
        cur = next;
    }
    proof {
        assert(chain(*t, 0).drop_first() =~= Seq::<Entity>::empty());
        assert(out@ + Seq::<Entity>::empty() =~= out@);
    }
    out
}

} // verus!
