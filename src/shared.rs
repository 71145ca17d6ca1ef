//! Immutable structures whose parts may be shared by several owners: a list
//! whose tail several lists hold, a tree whose subtree several parents hold,
//! and the counts that sharing produces.
use std::rc::Rc;
use vstd::prelude::*;
use crate::counted::{Handle, RcStore};

verus! {

/// A singly linked list whose tails are shared.
pub enum RcList {
    Cons(i32, Rc<RcList>),
    Nil,
}

impl RcList {
    /// The values of the list, from its head to its end.
    pub open spec fn values(&self) -> Seq<i32>
        decreases self,
    {
        match self {
            RcList::Cons(v, next) => seq![*v] + (**next).values(),
            RcList::Nil => Seq::empty(),
        }
    }

    /// The values of the list, from its head to its end.
    pub fn to_vec(&self) -> (r: Vec<i32>)
        ensures
            r@ == self.values(),
        decreases self,
    {
        match self {
            RcList::Cons(v, next) => {
                let mut rest = (**next).to_vec();
                let mut r: Vec<i32> = Vec::new();
                r.push(*v);
                r.append(&mut rest);
                r
            },
            RcList::Nil => Vec::new(),
        }
    }
}

/// Two lists made on one shared tail show that tail's values after their
/// own heads, so the shared part reads the same in both.
pub proof fn lemma_shared_tail(a: i32, b: i32, tail: Rc<RcList>)
    ensures
        RcList::Cons(a, tail).values() == seq![a] + (*tail).values(),
        RcList::Cons(b, tail).values() == seq![b] + (*tail).values(),
        RcList::Cons(a, tail).values().drop_first() == RcList::Cons(b, tail).values().drop_first(),
{
    assert((seq![a] + (*tail).values()).drop_first() =~= (*tail).values());
    assert((seq![b] + (*tail).values()).drop_first() =~= (*tail).values());
}

/// A binary tree whose subtrees may be shared between parents.
pub struct TreeNode1 {
    pub value: i32,
    pub left: Option<Rc<TreeNode1>>,
    pub right: Option<Rc<TreeNode1>>,
}

/// The values of a tree, left subtree first, then the node, then the right.
pub open spec fn inorder_of(node: Option<Rc<TreeNode1>>) -> Seq<i32>
    decreases node,
{
    match node {
        Some(n) => inorder_of(n.left) + seq![n.value] + inorder_of(n.right),
        None => Seq::empty(),
    }
}

impl TreeNode1 {
    /// A leaf.
    pub fn new(value: i32) -> (r: Self)
        ensures
            r.value == value,
            r.left is None,
            r.right is None,
    {
        TreeNode1 { value, left: None, right: None }
    }

    /// A node over the given subtrees, which it shares with their other
    /// holders.
    pub fn with_children(value: i32, left: Option<Rc<TreeNode1>>, right: Option<Rc<TreeNode1>>) -> (r: Self)
        ensures
            r.value == value,
            r.left == left,
            r.right == right,
    {
        TreeNode1 { value, left, right }
    }

    /// The values of the tree under `node` in order: left, node, right.
    pub fn inorder(node: Option<&Rc<TreeNode1>>) -> (r: Vec<i32>)
        ensures
            r@ == inorder_of(
                match node {
                    Some(n) => Some(*n),
                    None => None,
                },
            ),
        decreases node,
    {
        match node {
            Some(n) => {
                let mut r = TreeNode1::inorder(n.left.as_ref());
                r.push(n.value);
                let mut right = TreeNode1::inorder(n.right.as_ref());
                r.append(&mut right);
                r
            },
            None => Vec::new(),
        }
    }
}

/// A subtree held by two parents, on the left of one and on the right of
/// the other, reads the same under both: first under one, last under the
/// other.
pub proof fn lemma_shared_subtree(
    shared: Rc<TreeNode1>,
    a: i32,
    b: i32,
    a_right: Option<Rc<TreeNode1>>,
    b_left: Option<Rc<TreeNode1>>,
)
    ensures
        inorder_of(Some(Rc::new(TreeNode1 { value: a, left: Some(shared), right: a_right })))
            == inorder_of(Some(shared)) + (seq![a] + inorder_of(a_right)),
        inorder_of(Some(Rc::new(TreeNode1 { value: b, left: b_left, right: Some(shared) })))
            == (inorder_of(b_left) + seq![b]) + inorder_of(Some(shared)),
{
    let s = inorder_of(Some(shared));
    assert(s + seq![a] + inorder_of(a_right) =~= s + (seq![a] + inorder_of(a_right)));
}

/// `sub` is the tree `t` itself or a subtree somewhere below it.
pub open spec fn occurs_in(sub: Rc<TreeNode1>, t: Option<Rc<TreeNode1>>) -> bool
    decreases t,
{
    match t {
        Some(n) => n == sub || occurs_in(sub, n.left) || occurs_in(sub, n.right),
        None => false,
    }
}

/// Wherever a subtree occurs in a tree, its values appear in the tree's
/// in-order values as one unbroken block, the same in every tree that holds
/// it.
pub proof fn lemma_subtree_block(sub: Rc<TreeNode1>, t: Option<Rc<TreeNode1>>)
    requires
        occurs_in(sub, t),
    ensures
        exists|pre: Seq<i32>, post: Seq<i32>|
            inorder_of(t) == pre + inorder_of(Some(sub)) + post,
    decreases t,
{
    let s = inorder_of(Some(sub));
    match t {
        Some(n) => {
            let ghost nl = n.left;
            let ghost nr = n.right;
            let l = inorder_of(nl);
            let r = inorder_of(nr);
            if n == sub {
                assert(inorder_of(t) == Seq::<i32>::empty() + s + Seq::<i32>::empty());
            } else if occurs_in(sub, nl) {
                lemma_subtree_block(sub, nl);
                let (pre, post) = choose|pre: Seq<i32>, post: Seq<i32>| l == pre + s + post;
                assert(inorder_of(t) == pre + s + (post + seq![n.value] + r));
            } else {
                lemma_subtree_block(sub, nr);
                let (pre, post) = choose|pre: Seq<i32>, post: Seq<i32>| r == pre + s + post;
                assert(inorder_of(t) == (l + seq![n.value] + pre) + s + post);
            }
        },
        None => {},
    }
}

/// Makes a shared value and reads its owner count after each step: made,
/// cloned, cloned again in an inner scope, and that inner clone given up
/// when the scope ends.
pub fn demo_rc_counts() -> (r: Vec<u64>)
    ensures
        r@ == seq![1u64, 2, 3, 2],
{
    let mut store: RcStore<Vec<i32>> = RcStore::new();
    let data: Handle = store.insert(vec![1, 2, 3]);
    let mut counts: Vec<u64> = Vec::new();
    counts.push(store.strong_count(&data));
    let data_clone1 = store.clone_handle(&data);
    counts.push(store.strong_count(&data));
    {
        let data_clone2 = store.clone_handle(&data);
        counts.push(store.strong_count(&data));
        store.release(data_clone2);
    }
    counts.push(store.strong_count(&data));
    store.release(data_clone1);
    store.release(data);
    counts
}

} // verus!
