//! Values changed in place through a run-time checked cell: a counter, an
//! append-only log, and a tree whose children are attached after the nodes
//! are made, by whoever holds a handle to the parent.
use vstd::prelude::*;
use crate::cell::{BorrowCell, BorrowError};
use crate::counted::{
    held_by, held_upto, holds, lemma_held_counted, lemma_held_same_values, lemma_held_update, Handle,
    RcStore,
};

verus! {

/// An integer changed through a checked cell.
pub struct Counter {
    value: BorrowCell<i32>,
}

impl Counter {
    /// No access to the cell is left outstanding between calls.
    pub closed spec fn wf(&self) -> bool {
        self.value.is_idle()
    }

    /// The current value.
    pub closed spec fn current(&self) -> i32 {
        self.value.content()
    }

    pub fn new(initial: i32) -> (c: Self)
        ensures
            c.wf(),
            c.current() == initial,
    {
        Counter { value: BorrowCell::new(initial) }
    }

    /// Adds one.
    pub fn increment(&mut self)
        requires
            old(self).wf(),
            old(self).current() < i32::MAX,
        ensures
            final(self).wf(),
            final(self).current() == old(self).current() + 1,
    {
        let r = self.value.borrow_mut();
        if r.is_ok() {
            let v = *self.value.read();
            self.value.write(v + 1);
            self.value.release_mut();
        }
    }

    /// Sets the value back to zero.
    pub fn reset(&mut self)
        requires
            old(self).wf(),
        ensures
            final(self).wf(),
            final(self).current() == 0,
    {
        let r = self.value.borrow_mut();
        if r.is_ok() {
            self.value.write(0);
            self.value.release_mut();
        }
    }

    pub fn get(&self) -> (r: i32)
        requires
            self.wf(),
        ensures
            r == self.current(),
    {
        match self.value.try_read() {
            Ok(v) => *v,
            Err(_) => 0,
        }
    }
}

/// Messages appended in order to one buffer. Several holders share one log
/// by holding handles to it in an `RcStore`.
pub struct SharedLog {
    messages: BorrowCell<Vec<String>>,
}

impl SharedLog {
    /// No access to the cell is left outstanding between calls.
    pub closed spec fn wf(&self) -> bool {
        self.messages.is_idle()
    }

    /// The messages, oldest first.
    pub closed spec fn entries_of(&self) -> Seq<String> {
        self.messages.content()@
    }

    pub fn new() -> (l: Self)
        ensures
            l.wf(),
            l.entries_of() == Seq::<String>::empty(),
    {
        SharedLog { messages: BorrowCell::new(Vec::new()) }
    }

    /// Appends `msg` after the messages already logged.
    pub fn log(&mut self, msg: &str)
        requires
            old(self).wf(),
        ensures
            final(self).wf(),
            final(self).entries_of().len() == old(self).entries_of().len() + 1,
            final(self).entries_of().drop_last() == old(self).entries_of(),
            final(self).entries_of().last()@ == msg@,
    {
        let r = self.messages.borrow_mut();
        if r.is_ok() {
            let mut v = self.messages.replace(Vec::new());
            v.push(msg.to_string());
            self.messages.write(v);
            self.messages.release_mut();
        }
    }

    /// The messages, oldest first.
    pub fn entries(&self) -> (r: Vec<String>)
        requires
            self.wf(),
        ensures
            r@ == self.entries_of(),
    {
        let mut r: Vec<String> = Vec::new();
        match self.messages.try_read() {
            Ok(v) => {
                let mut i: usize = 0;
                while i < v.len()
                    invariant
                        i <= v@.len(),
                        v@ == self.entries_of(),
                        r@ == v@.subrange(0, i as int),
                    decreases v@.len() - i,
                {
                    r.push(v[i].clone());
                    i = i + 1;
                    assert(r@ =~= v@.subrange(0, i as int));
                }
                assert(r@ =~= v@);
            },
            Err(_) => {},
        }
        r
    }
}

/// A node of a tree whose children are attached after it is made. Nodes
/// live in an `RcStore`; a node holds each child through an owning handle.
pub struct TreeNode2 {
    pub value: i32,
    pub left: Option<Handle>,
    pub right: Option<Handle>,
}

/// How many owning handles to slot `j` the node `n` holds as children.
pub open spec fn child_refs(n: TreeNode2, j: int) -> nat {
    holds(n.left, j) + holds(n.right, j)
}

pub open spec fn child_refs_fn() -> spec_fn(TreeNode2, int) -> nat {
    |n: TreeNode2, j: int| child_refs(n, j)
}

/// How many owning handles to slot `j` the nodes of the store hold.
pub open spec fn parent_refs(s: &RcStore<TreeNode2>, j: int) -> nat {
    held_by(s, child_refs_fn(), j)
}

/// The owning handles to slot `j` that no node holds: those of callers.
pub open spec fn spare(s: &RcStore<TreeNode2>, j: int) -> int {
    s.strong(j) - parent_refs(s, j)
}

/// The child `c`, if any, is a slot of a store of `n` slots.
pub open spec fn child_ok(n: int, c: Option<Handle>) -> bool {
    match c {
        Some(h) => h.index < n,
        None => true,
    }
}

/// Node `y` is a child of node `x`.
pub open spec fn is_child(s: &RcStore<TreeNode2>, x: int, y: int) -> bool {
    holds(s.value(x).left, y) + holds(s.value(x).right, y) > 0
}

/// `path` leads from node `a` to node `b` by child links.
pub open spec fn is_path(s: &RcStore<TreeNode2>, path: Seq<int>, a: int, b: int) -> bool {
    &&& path.len() >= 1
    &&& path[0] == a
    &&& path.last() == b
    &&& forall|k: int| 0 <= k < path.len() - 1 ==> is_child(s, #[trigger] path[k], path[k + 1])
}

/// Node `b` is node `a` or lies in its subtree.
pub open spec fn reaches(s: &RcStore<TreeNode2>, a: int, b: int) -> bool {
    exists|path: Seq<int>| is_path(s, path, a, b)
}

/// `rank` falls along every child link.
pub open spec fn ranks_ok(s: &RcStore<TreeNode2>, rank: spec_fn(int) -> nat) -> bool {
    forall|x: int, y: int| 0 <= x < s.len() && #[trigger] is_child(s, x, y) ==> rank(y) < rank(x)
}

/// A rank that falls along every child link, where there is one.
pub open spec fn forest_rank(s: &RcStore<TreeNode2>) -> spec_fn(int) -> nat {
    choose|rank: spec_fn(int) -> nat| ranks_ok(s, rank)
}

/// Every child is a slot of the store, no chain of child links comes back
/// to where it started, and every slot has at least as many owning handles
/// as the nodes hold to it.
pub open spec fn forest_wf(s: &RcStore<TreeNode2>) -> bool {
    &&& s.wf()
    &&& forall|i: int|
        0 <= i < s.len() ==> child_ok(s.len() as int, #[trigger] s.value(i).left) && child_ok(
            s.len() as int,
            s.value(i).right,
        )
    &&& exists|rank: spec_fn(int) -> nat| ranks_ok(s, rank)
    &&& forall|j: int| 0 <= j < s.len() ==> #[trigger] s.strong(j) >= parent_refs(s, j)
}

/// The values under node `i` in order: left subtree, node, right subtree.
pub open spec fn inorder2(s: &RcStore<TreeNode2>, i: int) -> Seq<i32>
    decreases forest_rank(s)(i),
{
    let rank = forest_rank(s);
    let n = s.value(i);
    let l = match n.left {
        Some(h) => if rank(h.index as int) < rank(i) {
            inorder2(s, h.index as int)
        } else {
            Seq::empty()
        },
        None => Seq::empty(),
    };
    let r = match n.right {
        Some(h) => if rank(h.index as int) < rank(i) {
            inorder2(s, h.index as int)
        } else {
            Seq::empty()
        },
        None => Seq::empty(),
    };
    l + seq![n.value] + r
}

/// The children of a node of a well-formed forest are live.
proof fn lemma_children_live(s: &RcStore<TreeNode2>, i: int)
    requires
        forest_wf(s),
        0 <= i < s.len(),
    ensures
        s.value(i).left matches Some(h) ==> s.is_live(h),
        s.value(i).right matches Some(h) ==> s.is_live(h),
{
    match s.value(i).left {
        Some(h) => lemma_held_counted(s, child_refs_fn(), h.index as int, i, s.len()),
        None => {},
    }
    match s.value(i).right {
        Some(h) => lemma_held_counted(s, child_refs_fn(), h.index as int, i, s.len()),
        None => {},
    }
}

/// No node holds the slot just past the end of the store.
proof fn lemma_no_refs_beyond(s: &RcStore<TreeNode2>, n: nat)
    requires
        n <= s.len(),
        forall|i: int|
            0 <= i < s.len() ==> child_ok(s.len() as int, #[trigger] s.value(i).left) && child_ok(
                s.len() as int,
                s.value(i).right,
            ),
    ensures
        held_upto(s, child_refs_fn(), s.len() as int, n) == 0,
    decreases n,
{
    if n > 0 {
        lemma_no_refs_beyond(s, (n - 1) as nat);
        assert(child_ok(s.len() as int, s.value(n - 1).left));
    }
}

/// Stores with the same values everywhere hold the same handles.
proof fn lemma_refs_same(s0: &RcStore<TreeNode2>, s1: &RcStore<TreeNode2>)
    requires
        s1.len() == s0.len(),
        forall|i: int| 0 <= i < s0.len() ==> #[trigger] s1.value(i) == s0.value(i),
    ensures
        forall|j: int| #[trigger] parent_refs(s1, j) == parent_refs(s0, j),
{
    assert forall|j: int| #[trigger] parent_refs(s1, j) == parent_refs(s0, j) by {
        lemma_held_same_values(s0, s1, child_refs_fn(), j, s0.len());
    }
}

/// A store with the same nodes as a well-formed one has its shape.
proof fn lemma_same_shape(s0: &RcStore<TreeNode2>, s1: &RcStore<TreeNode2>)
    requires
        forest_wf(s0),
        s1.len() == s0.len(),
        forall|i: int| 0 <= i < s0.len() ==> #[trigger] s1.value(i) == s0.value(i),
    ensures
        forall|i: int|
            0 <= i < s1.len() ==> child_ok(s1.len() as int, #[trigger] s1.value(i).left) && child_ok(
                s1.len() as int,
                s1.value(i).right,
            ),
        exists|rank: spec_fn(int) -> nat| ranks_ok(s1, rank),
{
    let rank = choose|rank: spec_fn(int) -> nat| ranks_ok(s0, rank);
    assert forall|x: int, y: int| 0 <= x < s1.len() && #[trigger] is_child(s1, x, y) implies rank(y)
        < rank(x) by {
        assert(is_child(s0, x, y));
    }
    assert(ranks_ok(s1, rank));
    assert forall|i: int| 0 <= i < s1.len() implies child_ok(
        s1.len() as int,
        #[trigger] s1.value(i).left,
    ) && child_ok(s1.len() as int, s1.value(i).right) by {
        assert(s1.value(i) == s0.value(i));
    }
}

impl TreeNode2 {
    /// A new node without children, behind its first owning handle.
    pub fn new(store: &mut RcStore<TreeNode2>, value: i32) -> (h: Handle)
        requires
            forest_wf(old(store)),
        ensures
            forest_wf(final(store)),
            h.index == old(store).len(),
            final(store).len() == old(store).len() + 1,
            final(store).strong(h.index as int) == 1,
            final(store).weak(h.index as int) == 0,
            spare(final(store), h.index as int) == 1,
            final(store).value(h.index as int) == (TreeNode2 { value, left: None, right: None }),
            forall|j: int|
                0 <= j < old(store).len() ==> #[trigger] final(store).same_slot(old(store), j),
            forall|j: int|
                0 <= j < old(store).len() ==> #[trigger] parent_refs(final(store), j)
                    == parent_refs(old(store), j),
    {
        let ghost s0 = *store;
        let h = store.insert(TreeNode2 { value, left: None, right: None });
        proof {
            let n0 = s0.len();
            assert forall|i: int| 0 <= i < n0 implies #[trigger] store.value(i) == s0.value(i) by {
                assert(store.same_slot(&s0, i));
            }
            assert forall|j: int| #[trigger] parent_refs(store, j) == held_upto(
                &s0,
                child_refs_fn(),
                j,
                n0,
            ) by {
                lemma_held_same_values(&s0, store, child_refs_fn(), j, n0);
            }
            lemma_no_refs_beyond(&s0, n0);
            assert forall|i: int| 0 <= i < store.len() implies child_ok(
                store.len() as int,
                #[trigger] store.value(i).left,
            ) && child_ok(store.len() as int, store.value(i).right) by {
                if i < n0 {
                    assert(child_ok(n0 as int, s0.value(i).left));
                }
            }
            let rank = choose|rank: spec_fn(int) -> nat| ranks_ok(&s0, rank);
            assert forall|x: int, y: int|
                0 <= x < store.len() && #[trigger] is_child(store, x, y) implies rank(y) < rank(
                x,
            ) by {
                if x < n0 {
                    assert(is_child(&s0, x, y));
                }
            }
            assert(ranks_ok(store, rank));
            assert forall|j: int| 0 <= j < store.len() implies #[trigger] store.strong(j)
                >= parent_refs(store, j) by {
                if j < n0 {
                    assert(store.same_slot(&s0, j));
                    assert(s0.strong(j) >= parent_refs(&s0, j));
                }
            }
        }
        h
    }

    /// A second owning handle to the node of `h`.
    pub fn share(store: &mut RcStore<TreeNode2>, h: &Handle) -> (r: Handle)
        requires
            forest_wf(old(store)),
            old(store).is_live(*h),
            old(store).strong(h.index as int) < u64::MAX,
        ensures
            forest_wf(final(store)),
            r == *h,
            final(store).strong(h.index as int) == old(store).strong(h.index as int) + 1,
            final(store).counts_changed_at(old(store), h.index as int),
            forall|j: int| #[trigger] parent_refs(final(store), j) == parent_refs(old(store), j),
    {
        let ghost s0 = *store;
        let r = store.clone_handle(h);
        proof {
            assert forall|i: int| 0 <= i < s0.len() implies #[trigger] store.value(i) == s0.value(
                i,
            ) by {
                if i != h.index {
                    assert(store.same_slot(&s0, i));
                }
            }
            lemma_refs_same(&s0, store);
            lemma_same_shape(&s0, store);
            assert forall|j: int| 0 <= j < store.len() implies #[trigger] store.strong(j)
                >= parent_refs(store, j) by {
                if j != h.index {
                    assert(store.same_slot(&s0, j));
                }
                assert(s0.strong(j) >= parent_refs(&s0, j));
            }
        }
        r
    }

    /// Gives up an owning handle that no node holds.
    pub fn release(store: &mut RcStore<TreeNode2>, h: Handle)
        requires
            forest_wf(old(store)),
            h.index < old(store).len(),
            spare(old(store), h.index as int) >= 1,
        ensures
            forest_wf(final(store)),
            final(store).strong(h.index as int) == old(store).strong(h.index as int) - 1,
            final(store).counts_changed_at(old(store), h.index as int),
            forall|j: int| #[trigger] parent_refs(final(store), j) == parent_refs(old(store), j),
    {
        let ghost s0 = *store;
        let ghost hi = h.index as int;
        store.release(h);
        proof {
            assert forall|i: int| 0 <= i < s0.len() implies #[trigger] store.value(i) == s0.value(
                i,
            ) by {
                if i != hi {
                    assert(store.same_slot(&s0, i));
                }
            }
            lemma_refs_same(&s0, store);
            lemma_same_shape(&s0, store);
            assert forall|j: int| 0 <= j < store.len() implies #[trigger] store.strong(j)
                >= parent_refs(store, j) by {
                if j != hi {
                    assert(store.same_slot(&s0, j));
                    assert(s0.strong(j) >= parent_refs(&s0, j));
                }
            }
        }
    }

    /// A node that is a child of `x` and reaches `p` makes `x` reach `p`.
    proof fn lemma_reach_through(s: &RcStore<TreeNode2>, x: int, y: int, p: int)
        requires
            is_child(s, x, y),
            reaches(s, y, p),
        ensures
            reaches(s, x, p),
    {
        let path = choose|path: Seq<int>| is_path(s, path, y, p);
        let np = seq![x] + path;
        assert forall|k: int| 0 <= k < np.len() - 1 implies is_child(s, #[trigger] np[k], np[k + 1]) by {
            if k > 0 {
                assert(np[k] == path[k - 1]);
                assert(np[k + 1] == path[k]);
            }
        }
        assert(is_path(s, np, x, p));
    }

    /// The node at `p` changes one child link for a link to `new_child`, which
    /// does not reach `p`, and `old_child`, if any, is given up: the store
    /// stays well formed, and the counts move by those two handles.
    proof fn lemma_swap_child(
        s0: &RcStore<TreeNode2>,
        s3: &RcStore<TreeNode2>,
        p: int,
        old_child: Option<Handle>,
        new_child: Handle,
    )
        requires
            forest_wf(s0),
            0 <= p < s0.len(),
            s3.wf(),
            s3.len() == s0.len(),
            forall|i: int| 0 <= i < s0.len() && i != p ==> #[trigger] s3.value(i) == s0.value(i),
            child_ok(s0.len() as int, s3.value(p).left),
            child_ok(s0.len() as int, s3.value(p).right),
            forall|y: int|
                #[trigger] is_child(s3, p, y) ==> y == new_child.index || is_child(s0, p, y),
            !reaches(s0, new_child.index as int, p),
            forall|j: int|
                #[trigger] child_refs(s3.value(p), j) == child_refs(s0.value(p), j) + holds(
                    Some(new_child),
                    j,
                ) - holds(old_child, j),
            forall|j: int|
                0 <= j < s0.len() ==> #[trigger] s3.strong(j) == s0.strong(j) - holds(old_child, j),
            spare(s0, new_child.index as int) >= 1,
        ensures
            forest_wf(s3),
            forall|j: int|
                #[trigger] parent_refs(s3, j) == parent_refs(s0, j) + holds(Some(new_child), j)
                    - holds(old_child, j),
    {
        assert forall|j: int|
            #[trigger] parent_refs(s3, j) == parent_refs(s0, j) + holds(Some(new_child), j) - holds(
                old_child,
                j,
            ) by {
            lemma_held_update(s0, s3, child_refs_fn(), j, p, s0.len());
        }
        assert forall|i: int| 0 <= i < s3.len() implies child_ok(
            s3.len() as int,
            #[trigger] s3.value(i).left,
        ) && child_ok(s3.len() as int, s3.value(i).right) by {
            if i != p {
                assert(s3.value(i) == s0.value(i));
                assert(child_ok(s0.len() as int, s0.value(i).left));
            }
        }
        let r = forest_rank(s0);
        assert(ranks_ok(s0, r));
        let c = new_child.index as int;
        let nr = |x: int| if reaches(s0, x, p) {
            (r(x) + r(c) + 1) as nat
        } else {
            r(x)
        };
        assert(is_path(s0, seq![p], p, p));
        assert(reaches(s0, p, p));
        assert forall|x: int, y: int| 0 <= x < s3.len() && #[trigger] is_child(s3, x, y) implies nr(y)
            < nr(x) by {
            if x != p {
                assert(s3.value(x) == s0.value(x));
                assert(is_child(s0, x, y));
                if reaches(s0, y, p) {
                    Self::lemma_reach_through(s0, x, y, p);
                }
            } else if y != c {
                assert(is_child(s0, p, y));
            }
        }
        assert(ranks_ok(s3, nr));
        assert forall|j: int| 0 <= j < s3.len() implies #[trigger] s3.strong(j) >= parent_refs(
            s3,
            j,
        ) by {
            assert(s0.strong(j) >= parent_refs(s0, j));
            assert(parent_refs(s3, j) == parent_refs(s0, j) + holds(Some(new_child), j) - holds(
                old_child,
                j,
            ));
        }
    }

    /// Hangs `child` as the left child of `parent`, for every holder of a
    /// handle to `parent`. The node takes over the caller's handle to
    /// `child`, and the handle it held before, if any, is given up.
    pub fn set_left(store: &mut RcStore<TreeNode2>, parent: &Handle, child: Handle)
        requires
            forest_wf(old(store)),
            old(store).is_live(*parent),
            child.index < old(store).len(),
            !reaches(old(store), child.index as int, parent.index as int),
            spare(old(store), child.index as int) >= 1,
        ensures
            forest_wf(final(store)),
            final(store).len() == old(store).len(),
            final(store).value(parent.index as int) == (TreeNode2 {
                left: Some(child),
                ..old(store).value(parent.index as int)
            }),
            forall|j: int|
                0 <= j < old(store).len() && j != parent.index ==> #[trigger] final(store).value(j)
                    == old(store).value(j),
            forall|j: int|
                0 <= j < old(store).len() ==> #[trigger] final(store).strong(j) == old(store).strong(
                    j,
                ) - holds(old(store).value(parent.index as int).left, j),
            forall|j: int|
                #[trigger] parent_refs(final(store), j) == parent_refs(old(store), j) + holds(
                    Some(child),
                    j,
                ) - holds(old(store).value(parent.index as int).left, j),
    {
        let ghost s0 = *store;
        let ghost c = child;
        let TreeNode2 { value, left, right } = store.replace(
            parent,
            TreeNode2 { value: 0, left: None, right: None },
        );
        let ghost s1 = *store;
        store.replace(parent, TreeNode2 { value, left: Some(child), right });
        let ghost s2 = *store;
        proof {
            RcStore::lemma_same_except_trans(&s0, &s1, &s2, parent.index as int);
            lemma_children_live(&s0, parent.index as int);
            assert(s2.strong(parent.index as int) == s0.strong(parent.index as int));
        }
        let ghost gone = s0.value(parent.index as int).left;
        match left {
            Some(o) => {
                proof {
                    assert(ranks_ok(&s0, forest_rank(&s0)));
                    assert(is_child(&s0, parent.index as int, o.index as int));
                    assert(s2.same_slot(&s0, o.index as int));
                }
                let ghost oi = o.index as int;
                store.release(o);
                proof {
                    assert forall|i: int| 0 <= i < s2.len() implies #[trigger] store.value(i)
                        == s2.value(i) && store.strong(i) == s2.strong(i) - holds(gone, i) by {
                        if i != oi {
                            assert(store.same_slot(&s2, i));
                        }
                    }
                }
            },
            None => {
                assert(forall|i: int| 0 <= i < s2.len() ==> #[trigger] store.value(i)
                    == s2.value(i) && store.strong(i) == s2.strong(i) - holds(gone, i));
            },
        }
        proof {
            assert forall|i: int| 0 <= i < s0.len() && i != parent.index implies #[trigger] store.value(
                i,
            ) == s0.value(i) by {
                assert(s2.same_slot(&s0, i));
                assert(store.value(i) == s2.value(i));
            }
            assert forall|j: int| 0 <= j < s0.len() implies #[trigger] store.strong(j)
                == s0.strong(j) - holds(s0.value(parent.index as int).left, j) by {
                assert(store.value(j) == s2.value(j));
                if j != parent.index {
                    assert(s2.same_slot(&s0, j));
                }
            }
            assert(store.value(parent.index as int) == s2.value(parent.index as int));
            Self::lemma_swap_child(
                &s0,
                store,
                parent.index as int,
                s0.value(parent.index as int).left,
                c,
            );
        }
    }

    /// Hangs `child` as the right child of `parent`, for every holder of a
    /// handle to `parent`. The node takes over the caller's handle to
    /// `child`, and the handle it held before, if any, is given up.
    pub fn set_right(store: &mut RcStore<TreeNode2>, parent: &Handle, child: Handle)
        requires
            forest_wf(old(store)),
            old(store).is_live(*parent),
            child.index < old(store).len(),
            !reaches(old(store), child.index as int, parent.index as int),
            spare(old(store), child.index as int) >= 1,
        ensures
            forest_wf(final(store)),
            final(store).len() == old(store).len(),
            final(store).value(parent.index as int) == (TreeNode2 {
                right: Some(child),
                ..old(store).value(parent.index as int)
            }),
            forall|j: int|
                0 <= j < old(store).len() && j != parent.index ==> #[trigger] final(store).value(j)
                    == old(store).value(j),
            forall|j: int|
                0 <= j < old(store).len() ==> #[trigger] final(store).strong(j) == old(store).strong(
                    j,
                ) - holds(old(store).value(parent.index as int).right, j),
            forall|j: int|
                #[trigger] parent_refs(final(store), j) == parent_refs(old(store), j) + holds(
                    Some(child),
                    j,
                ) - holds(old(store).value(parent.index as int).right, j),
    {
        let ghost s0 = *store;
        let ghost c = child;
        let TreeNode2 { value, left, right } = store.replace(
            parent,
            TreeNode2 { value: 0, left: None, right: None },
        );
        let ghost s1 = *store;
        store.replace(parent, TreeNode2 { value, left, right: Some(child) });
        let ghost s2 = *store;
        proof {
            RcStore::lemma_same_except_trans(&s0, &s1, &s2, parent.index as int);
            lemma_children_live(&s0, parent.index as int);
            assert(s2.strong(parent.index as int) == s0.strong(parent.index as int));
        }
        let ghost gone = s0.value(parent.index as int).right;
        match right {
            Some(o) => {
                proof {
                    assert(ranks_ok(&s0, forest_rank(&s0)));
                    assert(is_child(&s0, parent.index as int, o.index as int));
                    assert(s2.same_slot(&s0, o.index as int));
                }
                let ghost oi = o.index as int;
                store.release(o);
                proof {
                    assert forall|i: int| 0 <= i < s2.len() implies #[trigger] store.value(i)
                        == s2.value(i) && store.strong(i) == s2.strong(i) - holds(gone, i) by {
                        if i != oi {
                            assert(store.same_slot(&s2, i));
                        }
                    }
                }
            },
            None => {
                assert(forall|i: int| 0 <= i < s2.len() ==> #[trigger] store.value(i)
                    == s2.value(i) && store.strong(i) == s2.strong(i) - holds(gone, i));
            },
        }
        proof {
            assert forall|i: int| 0 <= i < s0.len() && i != parent.index implies #[trigger] store.value(
                i,
            ) == s0.value(i) by {
                assert(s2.same_slot(&s0, i));
                assert(store.value(i) == s2.value(i));
            }
            assert forall|j: int| 0 <= j < s0.len() implies #[trigger] store.strong(j)
                == s0.strong(j) - holds(s0.value(parent.index as int).right, j) by {
                assert(store.value(j) == s2.value(j));
                if j != parent.index {
                    assert(s2.same_slot(&s0, j));
                }
            }
            assert(store.value(parent.index as int) == s2.value(parent.index as int));
            Self::lemma_swap_child(
                &s0,
                store,
                parent.index as int,
                s0.value(parent.index as int).right,
                c,
            );
        }
    }

    /// The values of the tree under a live node in order: left, node, right.
    fn values_under(store: &RcStore<TreeNode2>, node: &Handle) -> (r: Vec<i32>)
        requires
            forest_wf(store),
            store.is_live(*node),
        ensures
            r@ == inorder2(store, node.index as int),
        decreases forest_rank(store)(node.index as int),
    {
        let n = store.get(node);
        proof {
            lemma_children_live(store, node.index as int);
            let rank = forest_rank(store);
            assert(ranks_ok(store, rank));
            match &n.left {
                Some(c) => assert(is_child(store, node.index as int, c.index as int)),
                None => {},
            }
            match &n.right {
                Some(c) => assert(is_child(store, node.index as int, c.index as int)),
                None => {},
            }
        }
        let mut r = match &n.left {
            Some(c) => Self::values_under(store, c),
            None => Vec::new(),
        };
        r.push(n.value);
        let mut right = match &n.right {
            Some(c) => Self::values_under(store, c),
            None => Vec::new(),
        };
        r.append(&mut right);
        r
    }

    /// The values of the tree under `node` in order: left, node, right. The
    /// caller's handle to the root is given up.
    pub fn inorder(store: &mut RcStore<TreeNode2>, node: Option<Handle>) -> (r: Vec<i32>)
        requires
            forest_wf(old(store)),
            node matches Some(h) ==> h.index < old(store).len() && spare(old(store), h.index as int)
                >= 1,
        ensures
            forest_wf(final(store)),
            match node {
                Some(h) => r@ == inorder2(old(store), h.index as int) && final(store).strong(
                    h.index as int,
                ) == old(store).strong(h.index as int) - 1 && final(store).counts_changed_at(
                    old(store),
                    h.index as int,
                ),
                None => r@ == Seq::<i32>::empty() && *final(store) == *old(store),
            },
    {
        match node {
            Some(h) => {
                let r = Self::values_under(store, &h);
                Self::release(store, h);
                r
            },
            None => Vec::new(),
        }
    }
}

} // verus!
