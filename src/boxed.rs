//! Structures whose links each have exactly one owner: a singly linked list
//! and a binary search tree.
use vstd::prelude::*;

verus! {

/// A singly linked list that owns its tail.
pub enum List {
    Cons(i32, Box<List>),
    Nil,
}

impl List {
    /// The values of the list, from its head to its end.
    pub open spec fn values(&self) -> Seq<i32>
        decreases self,
    {
        match self {
            List::Cons(v, next) => seq![*v] + next.values(),
            List::Nil => Seq::empty(),
        }
    }

    /// The empty list.
    pub fn new() -> (l: Self)
        ensures
            l.values() == Seq::<i32>::empty(),
    {
        List::Nil
    }

    /// A list with `value` in front of this one, which becomes its tail.
    pub fn prepend(self, value: i32) -> (l: Self)
        ensures
            l.values() == seq![value] + self.values(),
    {
        List::Cons(value, Box::new(self))
    }

    /// The values of the list, from its head to its end.
    pub fn to_vec(&self) -> (r: Vec<i32>)
        ensures
            r@ == self.values(),
        decreases self,
    {
        match self {
            List::Cons(v, next) => {
                let mut rest = next.to_vec();
                let mut r: Vec<i32> = Vec::new();
                r.push(*v);
                r.append(&mut rest);
                r
            },
            List::Nil => Vec::new(),
        }
    }
}

/// The list that prepending each of `xs` to `l` in turn gives.
pub open spec fn prepend_all(l: List, xs: Seq<i32>) -> List
    decreases xs.len(),
{
    if xs.len() == 0 {
        l
    } else {
        List::Cons(xs.last(), Box::new(prepend_all(l, xs.drop_last())))
    }
}

/// Prepending values one after another gives them back in reverse order,
/// ahead of what the list held.
pub proof fn lemma_prepend_reverses(l: List, xs: Seq<i32>)
    ensures
        prepend_all(l, xs).values() == xs.reverse() + l.values(),
    decreases xs.len(),
{
    if xs.len() > 0 {
        lemma_prepend_reverses(l, xs.drop_last());
        assert(xs.reverse() =~= seq![xs.last()] + xs.drop_last().reverse());
        assert(seq![xs.last()] + (xs.drop_last().reverse() + l.values()) =~= xs.reverse()
            + l.values());
    } else {
        assert(xs.reverse() + l.values() =~= l.values());
    }
}

/// A node of a binary search tree: smaller values go left, the others right.
pub struct TreeNode {
    pub value: i32,
    pub left: Option<Box<TreeNode>>,
    pub right: Option<Box<TreeNode>>,
}

/// The values under `t` in order: left subtree, node, right subtree.
pub open spec fn inorder_box(t: Option<Box<TreeNode>>) -> Seq<i32>
    decreases t,
{
    match t {
        Some(n) => inorder_box(n.left) + seq![n.value] + inorder_box(n.right),
        None => Seq::empty(),
    }
}

/// The set of values under `t`.
pub open spec fn elems(t: Option<Box<TreeNode>>) -> Set<i32>
    decreases t,
{
    match t {
        Some(n) => elems(n.left).union(elems(n.right)).insert(n.value),
        None => Set::empty(),
    }
}

/// Every value left of a node is smaller than it, and every value right of
/// it is at least as large, at every node.
pub open spec fn is_bst(t: Option<Box<TreeNode>>) -> bool
    decreases t,
{
    match t {
        Some(n) => is_bst(n.left) && is_bst(n.right) && (forall|y: i32|
            #[trigger] elems(n.left).contains(y) ==> y < n.value) && (forall|y: i32|
            #[trigger] elems(n.right).contains(y) ==> y >= n.value),
        None => true,
    }
}

/// The values of `s` never decrease.
pub open spec fn sorted(s: Seq<i32>) -> bool {
    forall|i: int, j: int| 0 <= i <= j < s.len() ==> s[i] <= s[j]
}

/// Each value of the in-order sequence is a value of the tree.
pub proof fn lemma_inorder_elems(t: Option<Box<TreeNode>>)
    ensures
        forall|k: int| 0 <= k < inorder_box(t).len() ==> elems(t).contains(#[trigger] inorder_box(t)[k]),
    decreases t,
{
    match t {
        Some(n) => {
            lemma_inorder_elems(n.left);
            lemma_inorder_elems(n.right);
            let l = inorder_box(n.left);
            let r = inorder_box(n.right);
            assert forall|k: int| 0 <= k < inorder_box(t).len() implies elems(t).contains(
                #[trigger] inorder_box(t)[k],
            ) by {
                if k < l.len() {
                    assert(inorder_box(t)[k] == l[k]);
                } else if k == l.len() {
                    assert(inorder_box(t)[k] == n.value);
                } else {
                    assert(inorder_box(t)[k] == r[k - l.len() - 1]);
                }
            }
        },
        None => {},
    }
}

/// A binary search tree lists its values in non-decreasing order.
pub proof fn lemma_bst_inorder_sorted(t: Option<Box<TreeNode>>)
    requires
        is_bst(t),
    ensures
        sorted(inorder_box(t)),
    decreases t,
{
    match t {
        Some(n) => {
            lemma_bst_inorder_sorted(n.left);
            lemma_bst_inorder_sorted(n.right);
            lemma_inorder_elems(n.left);
            lemma_inorder_elems(n.right);
            let l = inorder_box(n.left);
            let r = inorder_box(n.right);
            let s = inorder_box(t);
            assert forall|i: int, j: int| 0 <= i <= j < s.len() implies s[i] <= s[j] by {
                let li = l.len() as int;
                if i < li {
                    assert(s[i] == l[i]);
                    assert(elems(n.left).contains(l[i]));
                } else if i > li {
                    assert(s[i] == r[i - li - 1]);
                }
                if j < li {
                    assert(s[j] == l[j]);
                } else if j > li {
                    assert(s[j] == r[j - li - 1]);
                    assert(elems(n.right).contains(r[j - li - 1]));
                }
            }
        },
        None => {},
    }
}

/// The tree under `t` with `value` added: it goes left of a node whose value
/// is larger and right of one whose value is not, down to the first missing
/// child, where it becomes a leaf.
pub open spec fn bst_insert(t: Option<Box<TreeNode>>, value: i32) -> Box<TreeNode>
    decreases t,
{
    match t {
        Some(n) => if value < n.value {
            Box::new(TreeNode { value: n.value, left: Some(bst_insert(n.left, value)), right: n.right })
        } else {
            Box::new(TreeNode { value: n.value, left: n.left, right: Some(bst_insert(n.right, value)) })
        },
        None => Box::new(TreeNode { value, left: None, right: None }),
    }
}

/// Puts `value` into the tree under `t`, below the first missing child on
/// its way down.
fn insert_into(t: Option<Box<TreeNode>>, value: i32) -> (r: Box<TreeNode>)
    requires
        is_bst(t),
    ensures
        r == bst_insert(t, value),
        is_bst(Some(r)),
        elems(Some(r)) == elems(t).insert(value),
        inorder_box(Some(r)).to_multiset() == inorder_box(t).to_multiset().insert(value),
    decreases t,
{
    broadcast use vstd::seq_lib::lemma_multiset_commutative, vstd::multiset::group_multiset_axioms;

    match t {
        Some(n) => {
            let n = *n;
            let TreeNode { value: v, left, right } = n;
            if value < v {
                let l = insert_into(left, value);
                let r = Box::new(TreeNode { value: v, left: Some(l), right });
                assert(elems(Some(r)) =~= elems(t).insert(value));
                assert(inorder_box(Some(r)).to_multiset() =~= inorder_box(t).to_multiset().insert(
                    value,
                ));
                r
            } else {
                let rt = insert_into(right, value);
                let r = Box::new(TreeNode { value: v, left, right: Some(rt) });
                assert(elems(Some(r)) =~= elems(t).insert(value));
                assert(inorder_box(Some(r)).to_multiset() =~= inorder_box(t).to_multiset().insert(
                    value,
                ));
                r
            }
        },
        None => {
            let r = Box::new(TreeNode { value, left: None, right: None });
            assert(elems(Some(r)) =~= elems(t).insert(value));
            assert(inorder_box(r.left) == Seq::<i32>::empty());
            assert(inorder_box(Some(r)) =~= Seq::<i32>::empty().push(value));
            proof {
                Seq::<i32>::empty().to_multiset_ensures();
                assert(Seq::<i32>::empty().to_multiset() =~= vstd::multiset::Multiset::<i32>::empty());
            }
            assert(inorder_box(Some(r)).to_multiset() =~= inorder_box(t).to_multiset().insert(
                value,
            ));
            r
        },
    }
}

impl TreeNode {
    /// A tree of one node.
    pub fn new(value: i32) -> (r: Self)
        ensures
            r.value == value,
            r.left is None,
            r.right is None,
            is_bst(Some(Box::new(r))),
    {
        let r = TreeNode { value, left: None, right: None };
        assert(elems(r.left) =~= Set::<i32>::empty());
        assert(elems(r.right) =~= Set::<i32>::empty());
        assert(is_bst(r.left) && is_bst(r.right));
        assert(is_bst(Some(Box::new(r))));
        r
    }

    /// The tree with `value` added: it goes left of a node whose value is
    /// larger and right of one whose value is not, down to the first missing
    /// child. The tree stays a search tree.
    pub fn insert(self: Box<Self>, value: i32) -> (r: Box<Self>)
        requires
            is_bst(Some(self)),
        ensures
            r == bst_insert(Some(self), value),
            is_bst(Some(r)),
            elems(Some(r)) == elems(Some(self)).insert(value),
            inorder_box(Some(r)).to_multiset() == inorder_box(Some(self)).to_multiset().insert(
                value,
            ),
    {
        insert_into(Some(self), value)
    }

    /// The values of the tree in order: left subtree, node, right subtree.
    pub fn inorder(&self) -> (r: Vec<i32>)
        ensures
            r@ == inorder_box(Some(Box::new(*self))),
        decreases self,
    {
        let mut r: Vec<i32> = match &self.left {
            Some(l) => l.inorder(),
            None => Vec::new(),
        };
        assert(r@ == inorder_box(self.left));
        r.push(self.value);
        let mut right: Vec<i32> = match &self.right {
            Some(n) => n.inorder(),
            None => Vec::new(),
        };
        assert(right@ == inorder_box(self.right));
        r.append(&mut right);
        assert(r@ =~= inorder_box(self.left) + seq![self.value] + inorder_box(self.right));
        r
    }
}

} // verus!
