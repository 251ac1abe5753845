//! Shared, reference-counted handles to values kept in a store.
//!
//! A value is created once with [`Sr::new`]; every [`Sr::clone`] hands out
//! another handle to the same value and raises its count, every
//! [`Sr::drop`] lowers it, and the value is freed when the count reaches
//! zero. A write through one handle is seen through all of its clones.
use vstd::prelude::*;

verus! {

/// What a store holds: for each slot either nothing (freed) or the value
/// together with the number of handles that refer to it.
pub type Slots<T> = Seq<Option<(T, u64)>>;

/// The store after a new value has been placed in a fresh slot with one handle.
pub open spec fn stored<T>(s: Slots<T>, val: T) -> Slots<T> {
    s.push(Some((val, 1u64)))
}

/// The store after another handle to slot `i` has been made.
pub open spec fn cloned<T>(s: Slots<T>, i: int) -> Slots<T> {
    s.update(i, Some((s[i]->Some_0.0, (s[i]->Some_0.1 + 1) as u64)))
}

/// The store after one handle to slot `i` has been given up: the slot is
/// freed when that was its last handle.
pub open spec fn dropped<T>(s: Slots<T>, i: int) -> Slots<T> {
    if s[i]->Some_0.1 <= 1 {
        s.update(i, None)
    } else {
        s.update(i, Some((s[i]->Some_0.0, (s[i]->Some_0.1 - 1) as u64)))
    }
}

/// The store after the value in slot `i` has been replaced by `val`.
pub open spec fn written<T>(s: Slots<T>, i: int, val: T) -> Slots<T> {
    s.update(i, Some((val, s[i]->Some_0.1)))
}

/// Slot `i` holds a value.
pub open spec fn is_live<T>(s: Slots<T>, i: int) -> bool {
    0 <= i < s.len() && s[i] is Some
}

/// The value held in slot `i`.
pub open spec fn value_at<T>(s: Slots<T>, i: int) -> T {
    s[i]->Some_0.0
}

/// The number of handles to slot `i`.
pub open spec fn count_at<T>(s: Slots<T>, i: int) -> u64 {
    s[i]->Some_0.1
}

/// Every value in the store is referred to by at least one handle.
pub open spec fn counts_positive<T>(s: Slots<T>) -> bool {
    forall|i: int| #![trigger s[i]] 0 <= i < s.len() && s[i] is Some ==> s[i]->Some_0.1 >= 1
}

/// The store in which shared values live.
pub struct SrStore<T> {
    slots: Vec<Option<(T, u64)>>,
}

impl<T> View for SrStore<T> {
    type V = Slots<T>;

    closed spec fn view(&self) -> Slots<T> {
        self.slots@
    }
}

impl<T> SrStore<T> {
    /// The store is well formed: no value is kept without a handle.
    pub open spec fn wf(&self) -> bool {
        counts_positive(self@)
    }

    /// An empty store.
    pub fn new() -> (store: Self)
        ensures
            store@ == Seq::<Option<(T, u64)>>::empty(),
            store.wf(),
    {
        SrStore { slots: Vec::new() }
    }

    /// Number of slots ever handed out, freed ones included.
    pub fn len(&self) -> (n: usize)
        ensures
            n == self@.len(),
    {
        self.slots.len()
    }

    /// Number of handles to the value behind `handle`.
    pub fn count(&self, handle: &Sr<T>) -> (n: u64)
        requires
            is_live(self@, handle@ as int),
        ensures
            n == count_at(self@, handle@ as int),
    {
        match &self.slots[handle.index] {
            Some(pair) => pair.1,
            None => 0,
        }
    }

    /// Whether the value behind `handle` is still held.
    pub fn is_live(&self, handle: &Sr<T>) -> (b: bool)
        ensures
            b == is_live(self@, handle@ as int),
    {
        handle.index < self.slots.len() && self.slots[handle.index].is_some()
    }
}

/// A handle to a shared value in an [`SrStore`].
pub struct Sr<T> {
    index: usize,
    marker: std::marker::PhantomData<T>,
}

impl<T> View for Sr<T> {
    type V = nat;

    /// The slot of the store that the handle refers to.
    closed spec fn view(&self) -> nat {
        self.index as nat
    }
}

impl<T> Sr<T> {
    /// Places `val` in a fresh slot of the store and returns its first handle.
    pub fn new(val: T, store: &mut SrStore<T>) -> (handle: Self)
        requires
            old(store).wf(),
        ensures
            final(store)@ == stored(old(store)@, val),
            handle@ == old(store)@.len(),
            final(store).wf(),
    {
        let index = store.slots.len();
        store.slots.push(Some((val, 1u64)));
        Sr { index, marker: std::marker::PhantomData }
    }

    /// Mutable access to the shared value.
    pub fn get_mut<'a>(&self, store: &'a mut SrStore<T>) -> (r: &'a mut T)
        requires
            old(store).wf(),
            is_live(old(store)@, self@ as int),
        ensures
            *r == value_at(old(store)@, self@ as int),
            final(store)@ == written(old(store)@, self@ as int, *final(r)),
            final(store).wf(),
    {
        let pair = store.slots[self.index].as_mut().unwrap();
        &mut pair.0
    }

    /// Shared access to the shared value.
    pub fn get_immut<'a>(&self, store: &'a SrStore<T>) -> (r: &'a T)
        requires
            is_live(store@, self@ as int),
        ensures
            *r == value_at(store@, self@ as int),
    {
        let pair = store.slots[self.index].as_ref().unwrap();
        &pair.0
    }

    /// Another handle to the same value; the value's count rises by one.
    pub fn clone(&self, store: &mut SrStore<T>) -> (other: Self)
        requires
            old(store).wf(),
            is_live(old(store)@, self@ as int),
            count_at(old(store)@, self@ as int) < u64::MAX,
        ensures
            other@ == self@,
            final(store)@ == cloned(old(store)@, self@ as int),
            final(store).wf(),
    {
        let pair = store.slots[self.index].as_mut().unwrap();
        pair.1 = pair.1 + 1;
        Sr { index: self.index, marker: std::marker::PhantomData }
    }

    /// Gives up this handle; the value is freed when it was the last one.
    pub fn drop(self, store: &mut SrStore<T>)
        requires
            old(store).wf(),
            is_live(old(store)@, self@ as int),
        ensures
            final(store)@ == dropped(old(store)@, self@ as int),
            final(store).wf(),
    {
        let pair = store.slots[self.index].as_mut().unwrap();
        if pair.1 <= 1 {
            store.slots.set(self.index, None);
        } else {
            pair.1 = pair.1 - 1;
        }
    }
}

/// A clone refers to the same value as the handle it was made from: the
/// value is unchanged by cloning, and a value written afterwards through
/// either handle is what both read.
pub proof fn lemma_clone_shares_value<T>(s: Slots<T>, i: int, val: T)
    requires
        counts_positive(s),
        is_live(s, i),
        count_at(s, i) < u64::MAX,
    ensures
        value_at(cloned(s, i), i) == value_at(s, i),
        is_live(written(cloned(s, i), i, val), i),
        value_at(written(cloned(s, i), i, val), i) == val,
        count_at(written(cloned(s, i), i, val), i) == count_at(s, i) + 1,
{
}

/// Making a handle and giving it up again leaves the store as it was.
pub proof fn lemma_clone_then_drop<T>(s: Slots<T>, i: int)
    requires
        counts_positive(s),
        is_live(s, i),
        count_at(s, i) < u64::MAX,
    ensures
        dropped(cloned(s, i), i) == s,
{
    assert(dropped(cloned(s, i), i) =~= s);
}

/// A new value whose only handle is given up is freed, and nothing else changes.
pub proof fn lemma_new_then_drop<T>(s: Slots<T>, val: T)
    ensures
        dropped(stored(s, val), s.len() as int) == s.push(None),
{
    assert(dropped(stored(s, val), s.len() as int) =~= s.push(None));
}

/// A value stays held as long as a handle other than the one given up remains.
pub proof fn lemma_drop_keeps_shared<T>(s: Slots<T>, i: int)
    requires
        counts_positive(s),
        is_live(s, i),
        count_at(s, i) >= 2,
    ensures
        is_live(dropped(s, i), i),
        value_at(dropped(s, i), i) == value_at(s, i),
        count_at(dropped(s, i), i) == count_at(s, i) - 1,
{
}

/// Cloning, giving up or writing through a handle to slot `i` leaves every
/// other slot as it was.
pub proof fn lemma_other_slots_untouched<T>(s: Slots<T>, i: int, j: int, val: T)
    requires
        is_live(s, i),
        0 <= j < s.len(),
        j != i,
    ensures
        cloned(s, i)[j] == s[j],
        dropped(s, i)[j] == s[j],
        written(s, i, val)[j] == s[j],
        cloned(s, i).len() == s.len(),
        dropped(s, i).len() == s.len(),
        written(s, i, val).len() == s.len(),
{
}

} // verus!
