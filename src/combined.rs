//! Shared ownership together with mutation: two people who hold each other
//! (a cycle that keeps both alive), a graph whose edges do not own their
//! ends, and a cell on which a second write access is refused.
use vstd::prelude::*;
use crate::cell::{BorrowCell, BorrowError};
use crate::counted::{
    held_by, holds, lemma_held_counted, lemma_held_same_values, lemma_held_update, Handle, RcStore,
    WeakHandle,
};

verus! {

/// A person who may hold an owning handle to a friend. People live in an
/// `RcStore`.
pub struct Person {
    pub name: String,
    pub friend: Option<Handle>,
}

pub open spec fn friend_refs_fn() -> spec_fn(Person, int) -> nat {
    |p: Person, j: int| holds(p.friend, j)
}

/// How many owning handles to slot `j` the people of the store hold.
pub open spec fn friend_refs(s: &RcStore<Person>, j: int) -> nat {
    held_by(s, friend_refs_fn(), j)
}

/// The owning handles to slot `j` that no person holds: those of callers.
pub open spec fn person_spare(s: &RcStore<Person>, j: int) -> int {
    s.strong(j) - friend_refs(s, j)
}

/// Every friend is a slot of the store, and every slot has at least as many
/// owning handles as people hold to it.
pub open spec fn people_wf(s: &RcStore<Person>) -> bool {
    &&& s.wf()
    &&& forall|i: int|
        0 <= i < s.len() ==> (#[trigger] s.value(i).friend matches Some(h) ==> h.index < s.len())
    &&& forall|j: int| 0 <= j < s.len() ==> #[trigger] s.strong(j) >= friend_refs(s, j)
}

/// Two stores with the same people everywhere hold the same handles.
proof fn lemma_friend_refs_same(s0: &RcStore<Person>, s1: &RcStore<Person>)
    requires
        s1.len() == s0.len(),
        forall|i: int| 0 <= i < s0.len() ==> #[trigger] s1.value(i) == s0.value(i),
    ensures
        forall|j: int| #[trigger] friend_refs(s1, j) == friend_refs(s0, j),
{
    assert forall|j: int| #[trigger] friend_refs(s1, j) == friend_refs(s0, j) by {
        lemma_held_same_values(s0, s1, friend_refs_fn(), j, s0.len());
    }
}

/// People who are each other's friends stay live, whatever handles callers
/// still hold: each holds an owning handle to the other.
pub proof fn lemma_cycle_outlives_creators(s: &RcStore<Person>, a: Handle, b: Handle)
    requires
        people_wf(s),
        a.index < s.len(),
        b.index < s.len(),
        s.value(a.index as int).friend == Some(Handle { index: b.index }),
        s.value(b.index as int).friend == Some(Handle { index: a.index }),
    ensures
        s.is_live(a),
        s.is_live(b),
{
    lemma_held_counted(s, friend_refs_fn(), a.index as int, b.index as int, s.len());
    lemma_held_counted(s, friend_refs_fn(), b.index as int, a.index as int, s.len());
}

impl Person {
    /// A new person without a friend, behind its first owning handle.
    pub fn new(store: &mut RcStore<Person>, name: &str) -> (h: Handle)
        requires
            people_wf(old(store)),
        ensures
            people_wf(final(store)),
            h.index == old(store).len(),
            final(store).len() == old(store).len() + 1,
            final(store).value(h.index as int).name@ == name@,
            final(store).value(h.index as int).friend is None,
            final(store).strong(h.index as int) == 1,
            final(store).weak(h.index as int) == 0,
            person_spare(final(store), h.index as int) == 1,
            forall|j: int|
                0 <= j < old(store).len() ==> #[trigger] final(store).same_slot(old(store), j),
            forall|j: int|
                0 <= j < old(store).len() ==> #[trigger] person_spare(final(store), j)
                    == person_spare(old(store), j),
    {
        let ghost s0 = *store;
        let h = store.insert(Person { name: name.to_string(), friend: None });
        proof {
            let n0 = s0.len();
            assert forall|i: int| 0 <= i < n0 implies #[trigger] store.value(i) == s0.value(i) by {
                assert(store.same_slot(&s0, i));
            }
            Self::lemma_no_refs_to_new(&s0, n0);
            assert forall|j: int| 0 <= j <= n0 implies #[trigger] friend_refs(store, j)
                == friend_refs(&s0, j) by {
                lemma_held_same_values(&s0, store, friend_refs_fn(), j, n0);
                assert(store.value(n0 as int).friend is None);
                assert(crate::counted::held_upto(store, friend_refs_fn(), j, n0 + 1)
                    == crate::counted::held_upto(store, friend_refs_fn(), j, n0));
                if j == n0 {
                    Self::lemma_no_refs_to_new(&s0, n0);
                }
            }
            assert forall|i: int| 0 <= i < store.len() implies (
            #[trigger] store.value(i).friend matches Some(f) ==> f.index < store.len()) by {
                if i < n0 {
                    assert(s0.value(i).friend matches Some(f) ==> f.index < n0);
                }
            }
            assert forall|j: int| 0 <= j < store.len() implies #[trigger] store.strong(j)
                >= friend_refs(store, j) by {
                assert(friend_refs(store, j) == friend_refs(&s0, j));
                if j < n0 {
                    assert(store.same_slot(&s0, j));
                    assert(s0.strong(j) >= friend_refs(&s0, j));
                }
            }
            assert(friend_refs(store, n0 as int) == friend_refs(&s0, n0 as int));
            assert forall|j: int| 0 <= j < n0 implies #[trigger] person_spare(store, j)
                == person_spare(&s0, j) by {
                assert(store.same_slot(&s0, j));
            }
        }
        h
    }

    /// No person of a well-formed store holds the slot past its end.
    proof fn lemma_no_refs_to_new(s: &RcStore<Person>, n: nat)
        requires
            people_wf(s),
            n == s.len(),
        ensures
            friend_refs(s, n as int) == 0,
    {
        Self::lemma_no_refs_upto(s, n, n);
    }

    proof fn lemma_no_refs_upto(s: &RcStore<Person>, n: nat, k: nat)
        requires
            people_wf(s),
            n == s.len(),
            k <= n,
        ensures
            crate::counted::held_upto(s, friend_refs_fn(), n as int, k) == 0,
        decreases k,
    {
        if k > 0 {
            Self::lemma_no_refs_upto(s, n, (k - 1) as nat);
            assert(s.value(k - 1).friend matches Some(f) ==> f.index < n);
        }
    }

    /// A second owning handle to the person of `h`, for the caller.
    fn share(store: &mut RcStore<Person>, h: &Handle) -> (r: Handle)
        requires
            people_wf(old(store)),
            old(store).is_live(*h),
            old(store).strong(h.index as int) < u64::MAX,
        ensures
            people_wf(final(store)),
            r == *h,
            final(store).len() == old(store).len(),
            forall|i: int| 0 <= i < old(store).len() ==> #[trigger] final(store).value(i) == old(
                store,
            ).value(i),
            forall|j: int|
                0 <= j < old(store).len() ==> #[trigger] final(store).strong(j) == old(store).strong(
                    j,
                ) + holds(Some(*h), j),
            forall|j: int| #[trigger] friend_refs(final(store), j) == friend_refs(old(store), j),
    {
        let ghost s0 = *store;
        let r = store.clone_handle(h);
        proof {
            assert forall|i: int|
                #![trigger store.value(i)]
                #![trigger store.strong(i)]
                0 <= i < s0.len() implies store.value(i) == s0.value(i) && store.strong(i)
                == s0.strong(i) + holds(Some(*h), i) by {
                if i != h.index {
                    assert(store.same_slot(&s0, i));
                }
            }
            lemma_friend_refs_same(&s0, store);
            assert forall|j: int| 0 <= j < store.len() implies #[trigger] store.strong(j)
                >= friend_refs(store, j) by {
                assert(store.value(j) == s0.value(j));
                assert(s0.strong(j) >= friend_refs(&s0, j));
            }
            assert forall|i: int| 0 <= i < store.len() implies (
            #[trigger] store.value(i).friend matches Some(f) ==> f.index < store.len()) by {
                assert(store.value(i) == s0.value(i));
            }
        }
        r
    }

    /// Makes the person at `p` hold `friend`, a handle that the caller had
    /// spare, and gives up the friend handle it held before.
    fn set_friend(store: &mut RcStore<Person>, p: &Handle, friend: Handle)
        requires
            people_wf(old(store)),
            old(store).is_live(*p),
            friend.index < old(store).len(),
            person_spare(old(store), friend.index as int) >= 1,
        ensures
            people_wf(final(store)),
            final(store).len() == old(store).len(),
            final(store).value(p.index as int) == (Person {
                friend: Some(Handle { index: friend.index }),
                ..old(store).value(p.index as int)
            }),
            forall|i: int|
                0 <= i < old(store).len() && i != p.index ==> #[trigger] final(store).value(i)
                    == old(store).value(i),
            forall|j: int|
                0 <= j < old(store).len() ==> #[trigger] final(store).strong(j) == old(store).strong(
                    j,
                ) - holds(old(store).value(p.index as int).friend, j),
            forall|j: int|
                #[trigger] friend_refs(final(store), j) == friend_refs(old(store), j) + holds(
                    Some(friend),
                    j,
                ) - holds(old(store).value(p.index as int).friend, j),
    {
        let ghost s0 = *store;
        let ghost pi = p.index as int;
        let ghost fr = friend;
        let Person { name, friend: gone } = store.replace(
            p,
            Person { name: String::new(), friend: None },
        );
        let ghost s1 = *store;
        store.replace(p, Person { name, friend: Some(friend) });
        let ghost s2 = *store;
        let ghost old_friend = s0.value(pi).friend;
        proof {
            RcStore::lemma_same_except_trans(&s0, &s1, &s2, pi);
            assert(s2.strong(pi) == s0.strong(pi));
        }
        match gone {
            Some(o) => {
                let ghost oi = o.index as int;
                proof {
                    lemma_held_counted(&s0, friend_refs_fn(), oi, pi, s0.len());
                    assert(s0.strong(oi) >= friend_refs(&s0, oi));
                    if oi != pi {
                        assert(s2.same_slot(&s0, oi));
                    }
                }
                store.release(o);
                proof {
                    assert forall|i: int|
                        #![trigger store.value(i)]
                        #![trigger store.strong(i)]
                        0 <= i < s2.len() implies store.value(i) == s2.value(i) && store.strong(i)
                        == s2.strong(i) - holds(old_friend, i) by {
                        if i != oi {
                            assert(store.same_slot(&s2, i));
                        }
                    }
                }
            },
            None => {
                assert(forall|i: int|
                    #![trigger store.value(i)]
                    #![trigger store.strong(i)]
                    0 <= i < s2.len() ==> store.value(i) == s2.value(i) && store.strong(i)
                        == s2.strong(i) - holds(old_friend, i));
            },
        }
        proof {
            assert forall|i: int|
                #![trigger store.value(i)]
                #![trigger store.strong(i)]
                0 <= i < s0.len() implies store.value(i) == (if i == pi {
                s2.value(pi)
            } else {
                s0.value(i)
            }) && store.strong(i) == s0.strong(i) - holds(old_friend, i) by {
                assert(store.value(i) == s2.value(i));
                if i != pi {
                    assert(s2.same_slot(&s0, i));
                }
            }
            assert forall|j: int| #[trigger] friend_refs(store, j) == friend_refs(&s0, j) + holds(
                Some(fr),
                j,
            ) - holds(old_friend, j) by {
                lemma_held_update(&s0, store, friend_refs_fn(), j, pi, s0.len());
            }
            assert forall|j: int| 0 <= j < store.len() implies #[trigger] store.strong(j)
                >= friend_refs(store, j) by {
                assert(store.value(j) == store.value(j));
                assert(s0.strong(j) >= friend_refs(&s0, j));
            }
            assert forall|i: int| 0 <= i < store.len() implies (
            #[trigger] store.value(i).friend matches Some(f) ==> f.index < store.len()) by {
                assert(store.value(i) == store.value(i));
                if i != pi {
                    assert(s0.value(i).friend matches Some(f) ==> f.index < s0.len());
                }
            }
        }
    }

    /// Makes `a` hold an owning handle to `b` and `b` one to `a`, giving up
    /// the friend handles they held before. From then on each keeps the
    /// other live; the handles that callers hold are as they were.
    pub fn befriend(store: &mut RcStore<Person>, a: &Handle, b: &Handle)
        requires
            people_wf(old(store)),
            a.index < old(store).len(),
            b.index < old(store).len(),
            person_spare(old(store), a.index as int) >= 1,
            person_spare(old(store), b.index as int) >= 1,
            old(store).strong(a.index as int) + 2 <= u64::MAX,
            old(store).strong(b.index as int) + 2 <= u64::MAX,
        ensures
            people_wf(final(store)),
            final(store).len() == old(store).len(),
            final(store).value(a.index as int).friend == Some(Handle { index: b.index }),
            final(store).value(b.index as int).friend == Some(Handle { index: a.index }),
            final(store).value(a.index as int).name == old(store).value(a.index as int).name,
            final(store).value(b.index as int).name == old(store).value(b.index as int).name,
            forall|j: int|
                0 <= j < old(store).len() && j != a.index && j != b.index
                    ==> #[trigger] final(store).value(j) == old(store).value(j),
            forall|j: int|
                0 <= j < old(store).len() ==> #[trigger] person_spare(final(store), j)
                    == person_spare(old(store), j),
            final(store).strong(a.index as int) > 1,
            final(store).strong(b.index as int) > 1,
    {
        let ghost s0 = *store;
        let ghost sa = a.index as int;
        let ghost sb = b.index as int;
        let hb = Self::share(store, b);
        let ghost s1 = *store;
        Self::set_friend(store, a, hb);
        let ghost s2 = *store;
        proof {
            assert forall|j: int| 0 <= j < s0.len() implies #[trigger] person_spare(&s2, j)
                == person_spare(&s0, j) by {
                assert(s1.strong(j) == s0.strong(j) + holds(Some(*b), j));
                assert(friend_refs(&s1, j) == friend_refs(&s0, j));
                assert(s2.strong(j) == s1.strong(j) - holds(s1.value(sa).friend, j));
                assert(friend_refs(&s2, j) == friend_refs(&s1, j) + holds(Some(*b), j) - holds(
                    s1.value(sa).friend,
                    j,
                ));
            }
            assert(person_spare(&s2, sa) >= 1);
            assert(s2.strong(sa) >= friend_refs(&s2, sa) + 1);
        }
        let ha = Self::share(store, a);
        let ghost s3 = *store;
        Self::set_friend(store, b, ha);
        proof {
            assert forall|j: int| 0 <= j < s0.len() implies #[trigger] person_spare(store, j)
                == person_spare(&s0, j) by {
                assert(person_spare(&s2, j) == person_spare(&s0, j));
                assert(s3.strong(j) == s2.strong(j) + holds(Some(*a), j));
                assert(friend_refs(&s3, j) == friend_refs(&s2, j));
                assert(store.strong(j) == s3.strong(j) - holds(s3.value(sb).friend, j));
                assert(friend_refs(store, j) == friend_refs(&s3, j) + holds(Some(*a), j) - holds(
                    s3.value(sb).friend,
                    j,
                ));
            }
            assert(person_spare(store, sa) >= 1);
            assert(person_spare(store, sb) >= 1);
            if sa != sb {
                assert(store.value(sa) == s3.value(sa));
                assert(s3.value(sa) == s2.value(sa));
            }
            lemma_held_counted(store, friend_refs_fn(), sa, sb, store.len());
            lemma_held_counted(store, friend_refs_fn(), sb, sa, store.len());
        }
    }
}

/// A node of a graph whose edges do not own the node at their other end.
/// Nodes live in an `RcStore`.
pub struct GraphNode {
    pub name: String,
    pub neighbors: Vec<WeakHandle>,
}

/// Every edge ends at a slot of the store.
pub open spec fn graph_wf(s: &RcStore<GraphNode>) -> bool {
    &&& s.wf()
    &&& forall|i: int, k: int|
        0 <= i < s.len() && 0 <= k < s.value(i).neighbors@.len() ==> (
        #[trigger] s.value(i).neighbors@[k]).index < s.len()
}

/// The names of the nodes at the ends of `edges` that are live, in order.
pub open spec fn live_names(s: &RcStore<GraphNode>, edges: Seq<WeakHandle>) -> Seq<String>
    decreases edges.len(),
{
    if edges.len() == 0 {
        Seq::empty()
    } else {
        let w = edges.last();
        let rest = live_names(s, edges.drop_last());
        if s.strong(w.index as int) > 0 {
            rest.push(s.value(w.index as int).name)
        } else {
            rest
        }
    }
}

/// While every node at the end of an edge is live, every edge resolves: the
/// names read are those of all the neighbors, in the order of the edges.
pub proof fn lemma_live_edges_all_resolve(s: &RcStore<GraphNode>, edges: Seq<WeakHandle>)
    requires
        forall|k: int| 0 <= k < edges.len() ==> s.strong(#[trigger] edges[k].index as int) > 0,
    ensures
        live_names(s, edges) == edges.map_values(|w: WeakHandle| s.value(w.index as int).name),
    decreases edges.len(),
{
    let f = |w: WeakHandle| s.value(w.index as int).name;
    if edges.len() > 0 {
        let init = edges.drop_last();
        assert forall|k: int| 0 <= k < init.len() implies s.strong(
            #[trigger] init[k].index as int,
        ) > 0 by {
            assert(init[k] == edges[k]);
        }
        lemma_live_edges_all_resolve(s, init);
        assert(s.strong(edges[edges.len() - 1].index as int) > 0);
        assert(edges.map_values(f) =~= init.map_values(f).push(f(edges.last())));
    } else {
        assert(edges.map_values(f) =~= Seq::<String>::empty());
    }
}

impl GraphNode {
    /// A new node without neighbors, behind its first owning handle.
    pub fn new(store: &mut RcStore<GraphNode>, name: &str) -> (h: Handle)
        requires
            graph_wf(old(store)),
        ensures
            graph_wf(final(store)),
            h.index == old(store).len(),
            final(store).len() == old(store).len() + 1,
            final(store).value(h.index as int).name@ == name@,
            final(store).value(h.index as int).neighbors@.len() == 0,
            final(store).strong(h.index as int) == 1,
            final(store).weak(h.index as int) == 0,
            forall|j: int|
                0 <= j < old(store).len() ==> #[trigger] final(store).same_slot(old(store), j),
    {
        let ghost s0 = *store;
        let h = store.insert(GraphNode { name: name.to_string(), neighbors: Vec::new() });
        assert forall|i: int, k: int|
            0 <= i < store.len() && 0 <= k < store.value(i).neighbors@.len() implies (
            #[trigger] store.value(i).neighbors@[k]).index < store.len() by {
            if i < s0.len() {
                assert(store.same_slot(&s0, i));
            }
        }
        h
    }

    /// Appends to `node`'s neighbors a non-owning handle to the slot of `to`.
    fn add_neighbor(store: &mut RcStore<GraphNode>, node: &Handle, to: &Handle)
        requires
            graph_wf(old(store)),
            old(store).is_live(*node),
            old(store).is_live(*to),
            old(store).weak(to.index as int) < u64::MAX,
        ensures
            graph_wf(final(store)),
            final(store).len() == old(store).len(),
            final(store).value(node.index as int).name == old(store).value(node.index as int).name,
            final(store).value(node.index as int).neighbors@ == old(store).value(
                node.index as int,
            ).neighbors@.push(WeakHandle { index: to.index }),
            final(store).weak(to.index as int) == old(store).weak(to.index as int) + 1,
            forall|j: int|
                0 <= j < old(store).len() ==> #[trigger] final(store).strong(j) == old(store).strong(
                    j,
                ),
            forall|j: int|
                0 <= j < old(store).len() && j != node.index ==> #[trigger] final(store).value(j)
                    == old(store).value(j),
            forall|j: int|
                0 <= j < old(store).len() && j != to.index ==> #[trigger] final(store).weak(j)
                    == old(store).weak(j),
    {
        let ghost s0 = *store;
        let w = store.downgrade(to);
        let ghost s1 = *store;
        proof {
            if node.index != to.index {
                assert(s1.same_slot(&s0, node.index as int));
            }
        }
        let GraphNode { name, neighbors } = store.replace(
            node,
            GraphNode { name: String::new(), neighbors: Vec::new() },
        );
        let ghost s1a = *store;
        let mut neighbors = neighbors;
        neighbors.push(w);
        store.replace(node, GraphNode { name, neighbors });
        proof {
            RcStore::lemma_same_except_trans(&s1, &s1a, store, node.index as int);
            if node.index != to.index {
                assert(store.same_slot(&s1, to.index as int));
            }
            assert forall|j: int| 0 <= j < s0.len() implies store.strong(j) == s0.strong(j) && (j
                != node.index ==> store.value(j) == s0.value(j)) && (j != to.index ==> store.weak(
                j,
            ) == s0.weak(j)) by {
                if j != to.index {
                    assert(s1.same_slot(&s0, j));
                }
                if j != node.index {
                    assert(store.same_slot(&s1, j));
                }
            }
            assert(forall|j: int| 0 <= j < s0.len() ==> #[trigger] store.strong(j) == s0.strong(j));
            assert(forall|j: int|
                0 <= j < s0.len() && j != node.index ==> #[trigger] store.value(j) == s0.value(j));
            assert(forall|j: int|
                0 <= j < s0.len() && j != to.index ==> #[trigger] store.weak(j) == s0.weak(j));
            assert forall|i: int, k: int|
                0 <= i < store.len() && 0 <= k < store.value(i).neighbors@.len() implies (
                #[trigger] store.value(i).neighbors@[k]).index < store.len() by {
                if i != node.index {
                    assert(store.same_slot(&s1, i));
                    if i != to.index {
                        assert(s1.same_slot(&s0, i));
                    }
                    assert(store.value(i) == s0.value(i));
                } else if k < s0.value(i).neighbors@.len() {
                    assert(store.value(i).neighbors@[k] == s0.value(i).neighbors@[k]);
                }
            }
        }
    }

    /// Connects `a` and `b` both ways with non-owning handles: each appends
    /// the other to its neighbors, and no owner count changes.
    pub fn connect(store: &mut RcStore<GraphNode>, a: &Handle, b: &Handle)
        requires
            graph_wf(old(store)),
            old(store).is_live(*a),
            old(store).is_live(*b),
            old(store).weak(a.index as int) + 2 <= u64::MAX,
            old(store).weak(b.index as int) + 2 <= u64::MAX,
        ensures
            graph_wf(final(store)),
            final(store).len() == old(store).len(),
            a.index != b.index ==> final(store).value(a.index as int).neighbors@ == old(store).value(a.index as int).neighbors@.push(WeakHandle { index: b.index }),
            a.index != b.index ==> final(store).value(b.index as int).neighbors@ == old(store).value(b.index as int).neighbors@.push(WeakHandle { index: a.index }),
            a.index == b.index ==> final(store).value(a.index as int).neighbors@ == old(store).value(a.index as int).neighbors@.push(WeakHandle { index: a.index }).push(
                WeakHandle { index: a.index },
            ),
            final(store).value(a.index as int).name == old(store).value(a.index as int).name,
            final(store).value(b.index as int).name == old(store).value(b.index as int).name,
            a.index != b.index ==> final(store).weak(a.index as int) == old(store).weak(
                a.index as int,
            ) + 1 && final(store).weak(b.index as int) == old(store).weak(b.index as int) + 1,
            a.index == b.index ==> final(store).weak(a.index as int) == old(store).weak(
                a.index as int,
            ) + 2,
            forall|j: int|
                0 <= j < old(store).len() && j != a.index && j != b.index ==> #[trigger] final(store).weak(j) == old(store).weak(j),
            forall|j: int|
                0 <= j < old(store).len() ==> #[trigger] final(store).strong(j) == old(store).strong(
                    j,
                ),
            forall|j: int|
                0 <= j < old(store).len() && j != a.index && j != b.index ==> #[trigger] final(store).value(j) == old(store).value(j),
    {
        Self::add_neighbor(store, a, b);
        Self::add_neighbor(store, b, a);
    }

    /// The names of the neighbors of `node` whose non-owning handles resolve
    /// now, in the order they were connected; those already released are
    /// skipped.
    pub fn neighbor_names(store: &RcStore<GraphNode>, node: &Handle) -> (r: Vec<String>)
        requires
            graph_wf(store),
            store.is_live(*node),
        ensures
            r@ == live_names(store, store.value(node.index as int).neighbors@),
    {
        let n = store.get(node);
        let mut r: Vec<String> = Vec::new();
        let mut i: usize = 0;
        while i < n.neighbors.len()
            invariant
                graph_wf(store),
                *n == store.value(node.index as int),
                0 <= node.index < store.len(),
                i <= n.neighbors@.len(),
                r@ == live_names(store, n.neighbors@.subrange(0, i as int)),
            decreases n.neighbors@.len() - i,
        {
            let w = &n.neighbors[i];
            proof {
                assert(n.neighbors@.subrange(0, i + 1).drop_last() =~= n.neighbors@.subrange(
                    0,
                    i as int,
                ));
                assert(w.index < store.len());
            }
            if store.resolves(w) {
                let h = Handle { index: w.index };
                r.push(store.get(&h).name.clone());
            }
            i = i + 1;
        }
        assert(n.neighbors@.subrange(0, i as int) =~= n.neighbors@);
        r
    }
}

/// A cell on which a second write access is attempted while the first is
/// still held.
pub struct Trap {
    value: BorrowCell<i32>,
}

impl Trap {
    /// No access to the cell is left outstanding between calls.
    pub closed spec fn wf(&self) -> bool {
        self.value.is_idle()
    }

    /// The value held.
    pub closed spec fn current(&self) -> i32 {
        self.value.content()
    }

    pub fn new(x: i32) -> (t: Self)
        ensures
            t.wf(),
            t.current() == x,
    {
        Trap { value: BorrowCell::new(x) }
    }

    /// Takes the write access, then asks for it a second time while the
    /// first is held. The second request is refused when it is made; the
    /// first access is then given back, and the cell is as it was.
    pub fn double_mut_borrow(&mut self) -> (r: Result<(), BorrowError>)
        requires
            old(self).wf(),
        ensures
            r == Err::<(), BorrowError>(BorrowError::AlreadyMutablyBorrowed),
            final(self).wf(),
            final(self).current() == old(self).current(),
    {
        let first = self.value.borrow_mut();
        match first {
            Ok(()) => {
                let second = self.value.borrow_mut();
                self.value.release_mut();
                second
            },
            Err(e) => Err(e),
        }
    }
}

/// Sets a trap on the value 10 and springs it: the result is the refusal of
/// the second write access.
pub fn run_trap() -> (r: Result<(), BorrowError>)
    ensures
        r == Err::<(), BorrowError>(BorrowError::AlreadyMutablyBorrowed),
{
    let mut trap = Trap::new(10);
    trap.double_mut_borrow()
}

} // verus!
