//! A store of reference-counted values. Each slot holds a value with the
//! number of owning handles and of non-owning handles that point at it. The
//! value is live while at least one owning handle is; a non-owning handle
//! does not keep it live and resolves only while it is.
use vstd::prelude::*;

verus! {

/// An owning handle to a slot of an `RcStore`. It cannot be copied: a second
/// one comes from `RcStore::clone_handle`, which counts it.
#[derive(Debug, PartialEq, Eq, Structural)]
pub struct Handle {
    pub index: usize,
}

/// A non-owning handle to a slot of an `RcStore`.
#[derive(Clone, Copy, Debug, PartialEq, Eq, Structural)]
pub struct WeakHandle {
    pub index: usize,
}

pub struct RcStore<T> {
    values: Vec<T>,
    strong: Vec<u64>,
    weak: Vec<u64>,
}

impl<T> RcStore<T> {
    /// The three columns of the store have one entry per slot.
    pub closed spec fn wf(&self) -> bool {
        self.strong@.len() == self.values@.len() && self.weak@.len() == self.values@.len()
    }

    /// How many slots were ever allocated.
    pub closed spec fn len(&self) -> nat {
        self.values@.len()
    }

    /// The value of slot `i`.
    pub closed spec fn value(&self, i: int) -> T {
        self.values@[i]
    }

    /// The number of owning handles of slot `i`.
    pub closed spec fn strong(&self, i: int) -> nat {
        self.strong@[i] as nat
    }

    /// The number of non-owning handles of slot `i`.
    pub closed spec fn weak(&self, i: int) -> nat {
        self.weak@[i] as nat
    }

    /// The slot of `h` exists and at least one owning handle keeps it.
    pub open spec fn is_live(&self, h: Handle) -> bool {
        h.index < self.len() && self.strong(h.index as int) > 0
    }

    /// Slot `i` has the same value and counts in both stores.
    pub open spec fn same_slot(&self, other: &Self, i: int) -> bool {
        self.value(i) == other.value(i) && self.strong(i) == other.strong(i) && self.weak(i)
            == other.weak(i)
    }

    /// Every slot but `i` is the same in both stores, which have one length.
    pub open spec fn same_except(&self, other: &Self, i: int) -> bool {
        self.len() == other.len() && forall|j: int|
            0 <= j < self.len() && j != i ==> #[trigger] self.same_slot(other, j)
    }

    /// Slot `i` keeps its value and non-owning count, and every other slot
    /// is unchanged.
    pub open spec fn counts_changed_at(&self, other: &Self, i: int) -> bool {
        self.same_except(other, i) && self.value(i) == other.value(i) && self.weak(i)
            == other.weak(i)
    }

    /// Two changes confined to slot `i` make one.
    pub proof fn lemma_same_except_trans(s0: &Self, s1: &Self, s2: &Self, i: int)
        requires
            s1.same_except(s0, i),
            s2.same_except(s1, i),
        ensures
            s2.same_except(s0, i),
    {
        assert forall|j: int| 0 <= j < s2.len() && j != i implies #[trigger] s2.same_slot(s0, j) by {
            assert(s2.same_slot(s1, j));
            assert(s1.same_slot(s0, j));
        }
    }

    pub fn new() -> (s: Self)
        ensures
            s.wf(),
            s.len() == 0,
    {
        RcStore { values: Vec::new(), strong: Vec::new(), weak: Vec::new() }
    }

    /// Puts `value` in a new slot with one owning handle, which is returned.
    pub fn insert(&mut self, value: T) -> (h: Handle)
        requires
            old(self).wf(),
        ensures
            final(self).wf(),
            h.index == old(self).len(),
            final(self).len() == old(self).len() + 1,
            final(self).value(h.index as int) == value,
            final(self).strong(h.index as int) == 1,
            final(self).weak(h.index as int) == 0,
            forall|j: int| 0 <= j < old(self).len() ==> #[trigger] final(self).same_slot(old(self), j),
    {
        let index = self.values.len();
        self.values.push(value);
        self.strong.push(1);
        self.weak.push(0);
        Handle { index }
    }

    /// A second owning handle to the slot of `h`: its count goes up by one.
    pub fn clone_handle(&mut self, h: &Handle) -> (r: Handle)
        requires
            old(self).wf(),
            old(self).is_live(*h),
            old(self).strong(h.index as int) < u64::MAX,
        ensures
            final(self).wf(),
            r == *h,
            final(self).strong(h.index as int) == old(self).strong(h.index as int) + 1,
            final(self).counts_changed_at(old(self), h.index as int),
    {
        let c = self.strong[h.index];
        self.strong.set(h.index, c + 1);
        Handle { index: h.index }
    }

    /// Gives an owning handle up: the count of its slot goes down by one, and
    /// the slot is no longer live once that count is zero.
    pub fn release(&mut self, h: Handle)
        requires
            old(self).wf(),
            old(self).is_live(h),
        ensures
            final(self).wf(),
            final(self).strong(h.index as int) == old(self).strong(h.index as int) - 1,
            final(self).counts_changed_at(old(self), h.index as int),
    {
        let c = self.strong[h.index];
        self.strong.set(h.index, c - 1);
    }

    /// How many owning handles the slot of `h` has.
    pub fn strong_count(&self, h: &Handle) -> (r: u64)
        requires
            self.wf(),
            h.index < self.len(),
        ensures
            r == self.strong(h.index as int),
    {
        self.strong[h.index]
    }

    /// How many non-owning handles the slot of `h` has.
    pub fn weak_count(&self, h: &Handle) -> (r: u64)
        requires
            self.wf(),
            h.index < self.len(),
        ensures
            r == self.weak(h.index as int),
    {
        self.weak[h.index]
    }

    /// A non-owning handle to the slot of `h`.
    pub fn downgrade(&mut self, h: &Handle) -> (w: WeakHandle)
        requires
            old(self).wf(),
            old(self).is_live(*h),
            old(self).weak(h.index as int) < u64::MAX,
        ensures
            final(self).wf(),
            w.index == h.index,
            final(self).weak(h.index as int) == old(self).weak(h.index as int) + 1,
            final(self).same_except(old(self), h.index as int),
            final(self).value(h.index as int) == old(self).value(h.index as int),
            final(self).strong(h.index as int) == old(self).strong(h.index as int),
    {
        let c = self.weak[h.index];
        self.weak.set(h.index, c + 1);
        WeakHandle { index: h.index }
    }

    /// Turns a non-owning handle into an owning one. This succeeds exactly
    /// while the slot is live, and then adds one owning handle.
    pub fn upgrade(&mut self, w: &WeakHandle) -> (r: Option<Handle>)
        requires
            old(self).wf(),
            w.index < old(self).len(),
            old(self).strong(w.index as int) < u64::MAX,
        ensures
            final(self).wf(),
            old(self).strong(w.index as int) == 0 ==> r is None && *final(self) == *old(self),
            old(self).strong(w.index as int) > 0 ==> r == Some(Handle { index: w.index })
                && final(self).strong(w.index as int) == old(self).strong(w.index as int) + 1
                && final(self).counts_changed_at(old(self), w.index as int),
    {
        if self.strong[w.index] == 0 {
            None
        } else {
            let h = Handle { index: w.index };
            Some(self.clone_handle(&h))
        }
    }

    /// Whether a non-owning handle would resolve now.
    pub fn resolves(&self, w: &WeakHandle) -> (r: bool)
        requires
            self.wf(),
            w.index < self.len(),
        ensures
            r == (self.strong(w.index as int) > 0),
    {
        self.strong[w.index] > 0
    }

    /// The value that a live handle points at.
    pub fn get(&self, h: &Handle) -> (r: &T)
        requires
            self.wf(),
            self.is_live(*h),
        ensures
            *r == self.value(h.index as int),
    {
        &self.values[h.index]
    }

    /// Puts `value` in the slot of a live handle and hands back the value
    /// that was there. Every handle to the slot sees the new value.
    pub fn replace(&mut self, h: &Handle, value: T) -> (r: T)
        requires
            old(self).wf(),
            old(self).is_live(*h),
        ensures
            final(self).wf(),
            r == old(self).value(h.index as int),
            final(self).value(h.index as int) == value,
            final(self).strong(h.index as int) == old(self).strong(h.index as int),
            final(self).weak(h.index as int) == old(self).weak(h.index as int),
            final(self).same_except(old(self), h.index as int),
    {
        let mut v = value;
        self.values.set_and_swap(h.index, &mut v);
        v
    }
}

} // verus!

verus! {

/// Taking a second owning handle to a live slot and giving it back leaves
/// the store as it was, slot by slot. On the way the count of that slot was
/// one higher, so it never fell below one.
pub proof fn lemma_clone_release_balance<T>(
    s0: RcStore<T>,
    s1: RcStore<T>,
    s2: RcStore<T>,
    h: Handle,
)
    requires
        s0.wf(),
        s0.is_live(h),
        s1.strong(h.index as int) == s0.strong(h.index as int) + 1,
        s1.counts_changed_at(&s0, h.index as int),
        s2.strong(h.index as int) == s1.strong(h.index as int) - 1,
        s2.counts_changed_at(&s1, h.index as int),
    ensures
        s1.strong(h.index as int) >= 2,
        s2.is_live(h),
        s2.len() == s0.len(),
        forall|j: int| 0 <= j < s0.len() ==> #[trigger] s2.same_slot(&s0, j),
{
    assert forall|j: int| 0 <= j < s0.len() implies #[trigger] s2.same_slot(&s0, j) by {
        if j != h.index as int {
            assert(s2.same_slot(&s1, j));
            assert(s1.same_slot(&s0, j));
        }
    }
}

} // verus!

verus! {

/// 1 when `c` is an owning handle to slot `j`, else 0.
pub open spec fn holds(c: Option<Handle>, j: int) -> nat {
    match c {
        Some(h) => if h.index == j {
            1
        } else {
            0
        },
        None => 0,
    }
}

/// How many owning handles to slot `j` the values of the first `n` slots
/// hold, where `held(v, j)` counts those that the value `v` holds.
pub open spec fn held_upto<T>(s: &RcStore<T>, held: spec_fn(T, int) -> nat, j: int, n: nat) -> nat
    decreases n,
{
    if n == 0 {
        0
    } else {
        held_upto(s, held, j, (n - 1) as nat) + held(s.value(n - 1), j)
    }
}

/// How many owning handles to slot `j` the values of the store hold.
pub open spec fn held_by<T>(s: &RcStore<T>, held: spec_fn(T, int) -> nat, j: int) -> nat {
    held_upto(s, held, j, s.len())
}

/// Stores whose first `n` values agree hold the same handles there.
pub proof fn lemma_held_same_values<T>(
    s0: &RcStore<T>,
    s1: &RcStore<T>,
    held: spec_fn(T, int) -> nat,
    j: int,
    n: nat,
)
    requires
        n <= s0.len(),
        n <= s1.len(),
        forall|i: int| 0 <= i < n ==> #[trigger] s1.value(i) == s0.value(i),
    ensures
        held_upto(s1, held, j, n) == held_upto(s0, held, j, n),
    decreases n,
{
    if n > 0 {
        lemma_held_same_values(s0, s1, held, j, (n - 1) as nat);
        assert(s1.value(n - 1) == s0.value(n - 1));
    }
}

/// Changing the value of slot `p` alone changes the count by what the old
/// value held and the new one holds.
pub proof fn lemma_held_update<T>(
    s0: &RcStore<T>,
    s1: &RcStore<T>,
    held: spec_fn(T, int) -> nat,
    j: int,
    p: int,
    n: nat,
)
    requires
        0 <= p < n <= s0.len(),
        n <= s1.len(),
        forall|i: int| 0 <= i < n && i != p ==> #[trigger] s1.value(i) == s0.value(i),
    ensures
        held_upto(s1, held, j, n) == held_upto(s0, held, j, n) - held(s0.value(p), j) + held(
            s1.value(p),
            j,
        ),
    decreases n,
{
    if n - 1 == p {
        lemma_held_same_values(s0, s1, held, j, p as nat);
    } else {
        lemma_held_update(s0, s1, held, j, p, (n - 1) as nat);
        assert(s1.value(n - 1) == s0.value(n - 1));
    }
}

/// What the value of one slot holds is counted.
pub proof fn lemma_held_counted<T>(s: &RcStore<T>, held: spec_fn(T, int) -> nat, j: int, p: int, n: nat)
    requires
        0 <= p < n,
    ensures
        held_upto(s, held, j, n) >= held(s.value(p), j),
    decreases n,
{
    if n - 1 != p {
        lemma_held_counted(s, held, j, p, (n - 1) as nat);
    }
}

} // verus!
