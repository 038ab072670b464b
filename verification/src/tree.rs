//! Arena-backed tree: nodes addressed by index, linked through parent and
//! children handles.
//!
//! Slot 0 is the designated root.  Nodes are only ever appended to the arena,
//! so a child's index is always greater than its parent's; that ordering is
//! part of the invariant and makes every traversal terminate.

use vstd::prelude::*;
use crate::node::Node;

verus! {

/// An arena of nodes; slot 0 is the root.
#[derive(Debug)]
pub struct Tree {
    /// The node value stored in each slot.
    pub vals: Vec<Node>,
    /// The parent handle of each slot; `None` for the root and for detached nodes.
    pub parents: Vec<Option<usize>>,
    /// The children handles of each slot, in document order.
    pub childs: Vec<Vec<usize>>,
}

impl Tree {
    /// Number of slots in the arena.
    pub open spec fn len(self) -> int {
        self.vals@.len() as int
    }

    /// The parent handle of slot `i`.
    pub open spec fn parent_of(self, i: int) -> Option<usize> {
        self.parents@[i]
    }

    /// The children handles of slot `i`, in document order.
    pub open spec fn kids(self, i: int) -> Seq<usize> {
        self.childs@[i]@
    }

    /// The node value of slot `i`.
    pub open spec fn val(self, i: int) -> Node {
        self.vals@[i]
    }

    /// Link conditions at slot `i`: a parent was allocated earlier and lists
    /// `i` among its children; every child was allocated later, points back
    /// at `i`, and appears only once.
    pub open spec fn wf_at(self, i: int) -> bool {
        &&& match self.parent_of(i) {
            Option::Some(p) => p < i && self.kids(p as int).contains(i as usize),
            Option::None => true,
        }
        &&& forall|k: int|
            0 <= k < self.kids(i).len() ==> i < #[trigger] self.kids(i)[k] < self.len()
        &&& forall|k: int|
            0 <= k < self.kids(i).len() ==> self.parent_of(#[trigger] self.kids(i)[k] as int)
                == Option::Some(i as usize)
        &&& forall|k1: int, k2: int|
            0 <= k1 < k2 < self.kids(i).len() ==> self.kids(i)[k1] != self.kids(i)[k2]
    }

    /// The tree invariant: one root at slot 0 and consistent links everywhere.
    pub open spec fn wf(self) -> bool {
        &&& self.parents@.len() == self.len()
        &&& self.childs@.len() == self.len()
        &&& 1 <= self.len() <= usize::MAX
        &&& self.parent_of(0) is None
        &&& forall|i: int| 0 <= i < self.len() ==> #[trigger] self.wf_at(i)
    }

    /// Creates a tree holding only the given root value.
    pub fn new(root: Node) -> (t: Tree)
        ensures
            t.wf(),
            t.len() == 1,
            t.val(0) == root,
            t.kids(0) =~= Seq::<usize>::empty(),
    {
        let mut vals: Vec<Node> = Vec::new();
        vals.push(root);
        let mut parents: Vec<Option<usize>> = Vec::new();
        parents.push(Option::None);
        let mut childs: Vec<Vec<usize>> = Vec::new();
        childs.push(Vec::new());
        Tree { vals, parents, childs }
    }

    /// Allocates a fresh orphan slot holding `value` and returns its handle.
    pub fn new_orphan(&mut self, value: Node) -> (id: usize)
        requires
            old(self).wf(),
            old(self).len() < usize::MAX,
        ensures
            final(self).wf(),
            id == old(self).len(),
            final(self).len() == old(self).len() + 1,
            final(self).parent_of(id as int) is None,
            final(self).kids(id as int) =~= Seq::<usize>::empty(),
            final(self).val(id as int) == value,
            forall|i: int| 0 <= i < old(self).len() ==> final(self).val(i) == old(self).val(i),
            forall|i: int| 0 <= i < old(self).len() ==> final(self).parent_of(i)
                == old(self).parent_of(i),
            forall|i: int| 0 <= i < old(self).len() ==> final(self).kids(i) == old(self).kids(i),
    {
        let id = self.vals.len();
        self.vals.push(value);
        self.parents.push(Option::None);
        self.childs.push(Vec::new());
        proof {
            assert forall|i: int| 0 <= i < final(self).len() implies #[trigger] final(self).wf_at(
                i,
            ) by {
                if i < old(self).len() {
                    assert(old(self).wf_at(i));
                    assert(final(self).kids(i) == old(self).kids(i));
                } else {
                    assert(final(self).kids(i).len() == 0);
                }
            }
        }
        id
    }

    /// Replaces the node value of slot `i`; the links are untouched.
    pub fn set_val(&mut self, i: usize, value: Node)
        requires
            old(self).wf(),
            i < old(self).len(),
        ensures
            final(self).wf(),
            final(self).len() == old(self).len(),
            final(self).val(i as int) == value,
            forall|t: int| 0 <= t < old(self).len() && t != i ==> final(self).val(t)
                == old(self).val(t),
            forall|t: int| 0 <= t < old(self).len() ==> final(self).parent_of(t)
                == old(self).parent_of(t),
            forall|t: int| 0 <= t < old(self).len() ==> final(self).kids(t) == old(self).kids(t),
    {
        self.vals[i] = value;
        proof {
            assert forall|t: int| 0 <= t < final(self).len() implies #[trigger] final(self).wf_at(
                t,
            ) by {
                assert(old(self).wf_at(t));
            }
        }
    }

    /// Appends `child`, which must be an orphan allocated after `parent`,
    /// at the end of `parent`'s children.
    pub fn attach(&mut self, parent: usize, child: usize)
        requires
            old(self).wf(),
            parent < child,
            child < old(self).len(),
            old(self).parent_of(child as int) is None,
        ensures
            final(self).wf(),
            final(self).len() == old(self).len(),
            forall|i: int| 0 <= i < old(self).len() ==> final(self).val(i) == old(self).val(i),
            final(self).parent_of(child as int) == Option::Some(parent),
            forall|i: int| 0 <= i < old(self).len() && i != child ==> final(self).parent_of(i)
                == old(self).parent_of(i),
            final(self).kids(parent as int) == old(self).kids(parent as int).push(child),
            forall|i: int| 0 <= i < old(self).len() && i != parent ==> final(self).kids(i)
                == old(self).kids(i),
    {
        proof {
            assert(old(self).wf_at(parent as int));
            assert(old(self).wf_at(child as int));
        }
        let mut ks = self.childs.remove(parent);
        ks.push(child);
        self.childs.insert(parent, ks);
        self.parents[child] = Option::Some(parent);
        proof {
            assert(final(self).childs@ =~= old(self).childs@.update(
                parent as int,
                final(self).childs@[parent as int],
            ));
            assert(final(self).kids(parent as int) =~= old(self).kids(parent as int).push(child));
            lemma_attach_wf(*old(self), *self, parent, child);
        }
    }

    /// Inserts `child`, an orphan allocated after `sibling`'s parent, into
    /// that parent's children immediately before `sibling`.
    pub fn insert_before(&mut self, sibling: usize, child: usize)
        requires
            old(self).wf(),
            sibling < old(self).len(),
            child < old(self).len(),
            old(self).parent_of(sibling as int) is Some,
            old(self).parent_of(sibling as int)->Some_0 < child,
            old(self).parent_of(child as int) is None,
        ensures
            final(self).wf(),
            final(self).len() == old(self).len(),
            forall|i: int| 0 <= i < old(self).len() ==> final(self).val(i) == old(self).val(i),
            final(self).parent_of(child as int) == old(self).parent_of(sibling as int),
            forall|i: int| 0 <= i < old(self).len() && i != child ==> final(self).parent_of(i)
                == old(self).parent_of(i),
            ({
                let p = old(self).parent_of(sibling as int)->Some_0 as int;
                exists|j: int|
                    0 <= j < old(self).kids(p).len() && old(self).kids(p)[j] == sibling
                        && final(self).kids(p) == old(self).kids(p).insert(j, child)
            }),
            forall|i: int|
                0 <= i < old(self).len() && i != old(self).parent_of(sibling as int)->Some_0
                    ==> final(self).kids(i) == old(self).kids(i),
    {
        let p = match self.parents[sibling] {
            Option::Some(p) => p,
            Option::None => { unreached() },
        };
        proof {
            assert(old(self).wf_at(sibling as int));
            assert(old(self).wf_at(child as int));
            assert(old(self).kids(p as int).contains(sibling));
        }
        let j = find_pos(&self.childs[p], sibling);
        let mut ks = self.childs.remove(p);
        ks.insert(j, child);
        self.childs.insert(p, ks);
        self.parents[child] = Option::Some(p);
        proof {
            assert(final(self).childs@ =~= old(self).childs@.update(
                p as int,
                final(self).childs@[p as int],
            ));
            assert(final(self).kids(p as int) =~= old(self).kids(p as int).insert(
                j as int,
                child,
            ));
            lemma_insert_wf(*old(self), *self, p, child, j as int, sibling);
        }
    }

    /// Unlinks slot `id` from its parent; the subtree below it stays intact
    /// but is no longer reachable from the root.
    pub fn detach(&mut self, id: usize)
        requires
            old(self).wf(),
            id < old(self).len(),
            old(self).parent_of(id as int) is Some,
        ensures
            final(self).wf(),
            final(self).len() == old(self).len(),
            forall|i: int| 0 <= i < old(self).len() ==> final(self).val(i) == old(self).val(i),
            final(self).parent_of(id as int) is None,
            forall|i: int| 0 <= i < old(self).len() && i != id ==> final(self).parent_of(i)
                == old(self).parent_of(i),
            ({
                let p = old(self).parent_of(id as int)->Some_0 as int;
                exists|j: int|
                    0 <= j < old(self).kids(p).len() && old(self).kids(p)[j] == id
                        && final(self).kids(p) == old(self).kids(p).remove(j)
            }),
            forall|i: int|
                0 <= i < old(self).len() && i != old(self).parent_of(id as int)->Some_0
                    ==> final(self).kids(i) == old(self).kids(i),
    {
        let p = match self.parents[id] {
            Option::Some(p) => p,
            Option::None => { unreached() },
        };
        proof {
            assert(old(self).wf_at(id as int));
            assert(old(self).kids(p as int).contains(id));
        }
        let j = find_pos(&self.childs[p], id);
        let mut ks = self.childs.remove(p);
        ks.remove(j);
        self.childs.insert(p, ks);
        self.parents[id] = Option::None;
        proof {
            assert(final(self).childs@ =~= old(self).childs@.update(
                p as int,
                final(self).childs@[p as int],
            ));
            assert(final(self).kids(p as int) =~= old(self).kids(p as int).remove(j as int));
            lemma_detach_wf(*old(self), *self, p, id, j as int);
        }
    }
}

impl Tree {
    /// Document order of the subtree rooted at `n`: the node itself, then the
    /// subtrees of its children from first to last.
    pub open spec fn subtree(self, n: int) -> Seq<usize>
        decreases self.len() - n, self.kids(n).len() + 1,
        when self.wf() && 0 <= n < self.len()
    {
        seq![n as usize] + self.subtree_upto(n, self.kids(n).len() as int)
    }

    /// Concatenation of the subtrees of the first `k` children of `n`.
    pub open spec fn subtree_upto(self, n: int, k: int) -> Seq<usize>
        decreases self.len() - n, k,
        when self.wf() && 0 <= n < self.len() && 0 <= k <= self.kids(n).len()
        via Self::subtree_upto_decreases
    {
        if k <= 0 {
            Seq::empty()
        } else {
            self.subtree_upto(n, k - 1) + self.subtree(self.kids(n)[k - 1] as int)
        }
    }

    /// Collects the subtree rooted at `n` in document order.
    pub fn subtree_vec(&self, n: usize) -> (r: Vec<usize>)
        requires
            self.wf(),
            n < self.len(),
        ensures
            r@ == self.subtree(n as int),
        decreases self.len() - n,
    {
        let mut r: Vec<usize> = Vec::new();
        r.push(n);
        let m = self.childs[n].len();
        proof {
            assert(self.wf_at(n as int));
        }
        for k in 0..m
            invariant
                self.wf(),
                n < self.len(),
                m == self.kids(n as int).len(),
                r@ == seq![n] + self.subtree_upto(n as int, k as int),
        {
            let c = self.childs[n][k];
            proof {
                assert(self.wf_at(n as int));
                assert(n < self.kids(n as int)[k as int] < self.len());
            }
            let mut sub = self.subtree_vec(c);
            r.append(&mut sub);
        }
        r
    }

    #[via_fn]
    proof fn subtree_upto_decreases(self, n: int, k: int) {
        assert(self.wf_at(n));
    }

    /// True when `a` lies on the parent chain strictly above `n`.
    pub open spec fn is_ancestor(self, a: int, n: int) -> bool
        decreases n,
        when self.wf() && 0 <= n < self.len()
        via Self::is_ancestor_decreases
    {
        match self.parent_of(n) {
            Option::Some(p) => p == a || self.is_ancestor(a, p as int),
            Option::None => false,
        }
    }

    #[via_fn]
    proof fn is_ancestor_decreases(self, a: int, n: int) {
        assert(self.wf_at(n));
    }

    /// True when `a` is `n` itself or an ancestor of `n`.
    pub open spec fn is_anc_or_self(self, a: int, n: int) -> bool {
        a == n || self.is_ancestor(a, n)
    }
}

/// Ancestry runs along the parent chain: an ancestor of a node is an
/// ancestor of everything at or below that node.
pub proof fn lemma_ancestor_trans(t: Tree, a: int, b: int, n: int)
    requires
        t.wf(),
        0 <= b < t.len(),
        0 <= n < t.len(),
        t.is_ancestor(a, b),
        t.is_anc_or_self(b, n),
    ensures
        t.is_ancestor(a, n),
    decreases n,
{
    if n == b {
    } else {
        assert(t.is_ancestor(b, n));
        assert(t.wf_at(n));
        match t.parent_of(n) {
            Option::Some(p) => {
                if p == b {
                } else {
                    lemma_ancestor_trans(t, a, b, p as int);
                }
            },
            Option::None => {},
        }
    }
}

/// Every handle listed in the subtree of `n` is `n` itself or a strict
/// descendant of `n`, and in bounds.
pub proof fn lemma_subtree_desc(t: Tree, n: int)
    requires
        t.wf(),
        0 <= n < t.len(),
    ensures
        forall|j: int|
            0 <= j < t.subtree(n).len() ==> 0 <= #[trigger] t.subtree(n)[j] < t.len()
                && t.is_anc_or_self(n, t.subtree(n)[j] as int),
    decreases t.len() - n, t.kids(n).len() + 1,
{
    lemma_subtree_upto_desc(t, n, t.kids(n).len() as int);
    assert(t.subtree(n)[0] == n as usize);
    assert forall|j: int|
        0 <= j < t.subtree(n).len() implies 0 <= #[trigger] t.subtree(n)[j] < t.len()
            && t.is_anc_or_self(n, t.subtree(n)[j] as int) by {
        if j > 0 {
            let rest = t.subtree_upto(n, t.kids(n).len() as int);
            assert(t.subtree(n)[j] == rest[j - 1]);
        } else {
            assert(0 <= n < t.len());
        }
    }
}

/// Every handle in the concatenated child subtrees of `n` is a strict
/// descendant of `n`, and in bounds.
pub proof fn lemma_subtree_upto_desc(t: Tree, n: int, k: int)
    requires
        t.wf(),
        0 <= n < t.len(),
        0 <= k <= t.kids(n).len(),
    ensures
        forall|j: int|
            0 <= j < t.subtree_upto(n, k).len() ==> 0 <= #[trigger] t.subtree_upto(n, k)[j]
                < t.len() && t.is_ancestor(n, t.subtree_upto(n, k)[j] as int),
    decreases t.len() - n, k,
{
    if k > 0 {
        lemma_subtree_upto_desc(t, n, k - 1);
        assert(t.wf_at(n));
        let c = t.kids(n)[k - 1] as int;
        assert(n < c < t.len());
        lemma_subtree_desc(t, c);
        let pre = t.subtree_upto(n, k - 1);
        let sub = t.subtree(c);
        assert forall|j: int|
            0 <= j < t.subtree_upto(n, k).len() implies 0 <= #[trigger] t.subtree_upto(n, k)[j]
                < t.len() && t.is_ancestor(n, t.subtree_upto(n, k)[j] as int) by {
            if j < pre.len() {
                assert(t.subtree_upto(n, k)[j] == pre[j]);
            } else {
                assert(t.subtree_upto(n, k)[j] == sub[j - pre.len()]);
                let x = sub[j - pre.len()] as int;
                assert(t.is_anc_or_self(c, x));
                assert(t.parent_of(c) == Option::Some(n as usize));
                assert(t.is_ancestor(n, c));
                if x != c {
                    lemma_ancestor_trans(t, n, c, x);
                }
            }
        }
    }
}

/// After a node is unlinked from its parent, nothing at or below it is still
/// below the root: only the parent handle of the unlinked node changed, and
/// the chain from any of its descendants now stops there.
pub proof fn lemma_detached_unreachable(t0: Tree, t1: Tree, id: int, x: int)
    requires
        t0.wf(),
        t1.wf(),
        0 <= id < t0.len(),
        id != 0,
        t1.len() == t0.len(),
        t1.parent_of(id) is None,
        forall|i: int| 0 <= i < t0.len() && i != id ==> t1.parent_of(i) == t0.parent_of(i),
        0 <= x < t0.len(),
        t0.is_anc_or_self(id, x),
    ensures
        !t1.is_anc_or_self(0, x),
    decreases x,
{
    if x == id {
        assert(!t1.is_ancestor(0, x));
    } else {
        assert(t0.is_ancestor(id, x));
        assert(t0.wf_at(x));
        assert(t1.wf_at(x));
        match t0.parent_of(x) {
            Option::Some(p) => {
                assert(t0.is_anc_or_self(id, p as int));
                if p as int == id {
                    assert(t1.parent_of(id) is None);
                    assert(!t1.is_ancestor(0, id));
                    assert(x != 0);
                    if t1.is_ancestor(0, x) {
                        assert(p == 0 || t1.is_ancestor(0, p as int));
                        assert(false);
                    }
                } else {
                    lemma_detached_unreachable(t0, t1, id, p as int);
                    assert(x != 0) by {
                        if x == 0 {
                            assert(t0.parent_of(0) is None);
                        }
                    }
                    if t1.is_ancestor(0, x) {
                        assert(p == 0 || t1.is_ancestor(0, p as int));
                        if p == 0 {
                            assert(t0.is_anc_or_self(id, 0));
                            assert(t0.is_ancestor(id, 0));
                            assert(false);
                        } else {
                            assert(!t1.is_anc_or_self(0, p as int));
                            assert(false);
                        }
                    }
                }
            },
            Option::None => {},
        }
    }
}

/// Finds the position of `x` in a children list known to hold it.
pub(crate) fn find_pos(ks: &Vec<usize>, x: usize) -> (j: usize)
    requires
        ks@.contains(x),
    ensures
        j < ks@.len(),
        ks@[j as int] == x,
{
    let n = ks.len();
    let mut j: usize = 0;
    while j < n
        invariant
            n == ks@.len(),
            j <= n,
            forall|t: int| 0 <= t < j ==> ks@[t] != x,
            ks@.contains(x),
        decreases n - j,
    {
        if ks[j] == x {
            return j;
        }
        j = j + 1;
    }
    proof {
        let w = choose|w: int| 0 <= w < ks@.len() && ks@[w] == x;
        assert(false);
    }
    0
}

/// After appending an orphan `child` under `parent`, every slot still
/// satisfies its link conditions.
proof fn lemma_attach_wf(t0: Tree, t1: Tree, parent: usize, child: usize)
    requires
        t0.wf(),
        parent < child,
        child < t0.len(),
        t0.parent_of(child as int) is None,
        t1.len() == t0.len(),
        t1.parents@.len() == t0.len(),
        t1.childs@.len() == t0.len(),
        forall|i: int| 0 <= i < t0.len() ==> t1.val(i) == t0.val(i),
        t1.parent_of(child as int) == Option::Some(parent),
        forall|i: int| 0 <= i < t0.len() && i != child ==> t1.parent_of(i) == t0.parent_of(i),
        t1.kids(parent as int) == t0.kids(parent as int).push(child),
        forall|i: int| 0 <= i < t0.len() && i != parent ==> t1.kids(i) == t0.kids(i),
    ensures
        t1.wf(),
{
    assert forall|q: int| 0 <= q < t0.len() implies !t0.kids(q).contains(child) by {
        if t0.kids(q).contains(child) {
            let k = choose|k: int| 0 <= k < t0.kids(q).len() && t0.kids(q)[k] == child;
            assert(t0.wf_at(q));
            assert(t0.parent_of(child as int) == Option::Some(q as usize));
        }
    }
    assert forall|i: int| 0 <= i < t1.len() implies #[trigger] t1.wf_at(i) by {
        assert(t0.wf_at(i));
        assert(t0.wf_at(parent as int));
        if i == parent {
            let ks0 = t0.kids(parent as int);
            let ks1 = t1.kids(parent as int);
            assert(forall|k: int| 0 <= k < ks0.len() ==> ks1[k] == ks0[k]);
            assert(ks1[ks0.len() as int] == child);
        } else if i == child {
            assert(t1.kids(parent as int).contains(child)) by {
                assert(t1.kids(parent as int)[t0.kids(parent as int).len() as int] == child);
            }
        } else {
            match t1.parent_of(i) {
                Option::Some(p) => {
                    assert(t0.kids(p as int).contains(i as usize));
                    if p == parent {
                        let k = choose|k: int|
                            0 <= k < t0.kids(p as int).len() && t0.kids(p as int)[k] == i as usize;
                        assert(t1.kids(p as int)[k] == i as usize);
                    }
                },
                Option::None => {},
            }
        }
    }
}

/// After inserting an orphan `child` at position `j` among the children of
/// `p`, every slot still satisfies its link conditions.
proof fn lemma_insert_wf(t0: Tree, t1: Tree, p: usize, child: usize, j: int, sibling: usize)
    requires
        t0.wf(),
        p < child,
        child < t0.len(),
        p < t0.len(),
        t0.parent_of(child as int) is None,
        0 <= j < t0.kids(p as int).len(),
        t0.kids(p as int)[j] == sibling,
        t1.len() == t0.len(),
        t1.parents@.len() == t0.len(),
        t1.childs@.len() == t0.len(),
        forall|i: int| 0 <= i < t0.len() ==> t1.val(i) == t0.val(i),
        t1.parent_of(child as int) == Option::Some(p),
        forall|i: int| 0 <= i < t0.len() && i != child ==> t1.parent_of(i) == t0.parent_of(i),
        t1.kids(p as int) == t0.kids(p as int).insert(j, child),
        forall|i: int| 0 <= i < t0.len() && i != p ==> t1.kids(i) == t0.kids(i),
    ensures
        t1.wf(),
{
    assert forall|q: int| 0 <= q < t0.len() implies !t0.kids(q).contains(child) by {
        if t0.kids(q).contains(child) {
            let k = choose|k: int| 0 <= k < t0.kids(q).len() && t0.kids(q)[k] == child;
            assert(t0.wf_at(q));
            assert(t0.parent_of(child as int) == Option::Some(q as usize));
        }
    }
    let ks0 = t0.kids(p as int);
    let ks1 = t1.kids(p as int);
    assert(ks1.len() == ks0.len() + 1);
    assert(forall|k: int| 0 <= k < j ==> ks1[k] == ks0[k]);
    assert(ks1[j] == child);
    assert(forall|k: int| j < k < ks1.len() ==> ks1[k] == ks0[k - 1]);
    assert forall|i: int| 0 <= i < t1.len() implies #[trigger] t1.wf_at(i) by {
        assert(t0.wf_at(i));
        assert(t0.wf_at(p as int));
        if i == p {
            assert(forall|k1: int, k2: int|
                0 <= k1 < k2 < ks1.len() ==> ks1[k1] != ks1[k2]);
        }
        if i == child {
            assert(t1.kids(p as int).contains(child)) by {
                assert(ks1[j] == child);
            }
        } else {
            match t1.parent_of(i) {
                Option::Some(q) => {
                    assert(t0.kids(q as int).contains(i as usize));
                    if q == p {
                        let k = choose|k: int| 0 <= k < ks0.len() && ks0[k] == i as usize;
                        if k < j {
                            assert(ks1[k] == i as usize);
                        } else {
                            assert(ks1[k + 1] == i as usize);
                        }
                    }
                },
                Option::None => {},
            }
        }
    }
}

/// After unlinking `id` from its parent `p`, every slot still satisfies its
/// link conditions.
proof fn lemma_detach_wf(t0: Tree, t1: Tree, p: usize, id: usize, j: int)
    requires
        t0.wf(),
        id < t0.len(),
        p < t0.len(),
        t0.parent_of(id as int) == Option::Some(p),
        0 <= j < t0.kids(p as int).len(),
        t0.kids(p as int)[j] == id,
        t1.len() == t0.len(),
        t1.parents@.len() == t0.len(),
        t1.childs@.len() == t0.len(),
        forall|i: int| 0 <= i < t0.len() ==> t1.val(i) == t0.val(i),
        t1.parent_of(id as int) is None,
        forall|i: int| 0 <= i < t0.len() && i != id ==> t1.parent_of(i) == t0.parent_of(i),
        t1.kids(p as int) == t0.kids(p as int).remove(j),
        forall|i: int| 0 <= i < t0.len() && i != p ==> t1.kids(i) == t0.kids(i),
    ensures
        t1.wf(),
{
    let ks0 = t0.kids(p as int);
    let ks1 = t1.kids(p as int);
    assert(ks1.len() == ks0.len() - 1);
    assert(forall|k: int| 0 <= k < j ==> ks1[k] == ks0[k]);
    assert(forall|k: int| j <= k < ks1.len() ==> ks1[k] == ks0[k + 1]);
    assert forall|i: int| 0 <= i < t1.len() implies #[trigger] t1.wf_at(i) by {
        assert(t0.wf_at(i));
        assert(t0.wf_at(p as int));
        if i != id {
            match t1.parent_of(i) {
                Option::Some(q) => {
                    assert(t0.kids(q as int).contains(i as usize));
                    if q == p {
                        let k = choose|k: int| 0 <= k < ks0.len() && ks0[k] == i as usize;
                        assert(i as usize != id);
                        assert(ks0[j] == id);
                        assert(k != j);
                        if k < j {
                            assert(ks1[k] == i as usize);
                        } else {
                            assert(ks1[k - 1] == i as usize);
                        }
                    }
                },
                Option::None => {},
            }
        }
    }
}

} // verus!
