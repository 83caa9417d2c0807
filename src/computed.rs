//! Memos: signals whose value is derived by a computation and re-derived
//! whenever a signal the computation read changes.
use vstd::prelude::*;

use crate::signal::Signal;
use crate::storage::{
    after_memo_insert, after_read, computed, Computation, SignalId, SignalStorage, StoreView, Subscriber,
    SubscriberId,
};

verus! {

/// A computed signal. Its value changes only by recomputation.
#[derive(Hash, Debug)]
pub struct Memo<T> {
    signal: Signal<T>,
}

impl<T> View for Memo<T> {
    type V = (SignalId, u32);

    closed spec fn view(&self) -> (SignalId, u32) {
        self.signal@
    }
}

impl<T> Clone for Memo<T> {
    fn clone(&self) -> (r: Self)
        ensures
            r == *self,
    {
        *self
    }
}

impl<T> Copy for Memo<T> {

}

impl<T> PartialEq for Memo<T> {
    fn eq(&self, other: &Self) -> (r: bool) {
        self.signal == other.signal
    }
}

impl<T> vstd::std_specs::cmp::PartialEqSpecImpl for Memo<T> {
    open spec fn obeys_eq_spec() -> bool {
        true
    }

    open spec fn eq_spec(&self, other: &Self) -> bool {
        self@ == other@
    }
}

impl<T> Eq for Memo<T> {

}

impl<T> Memo<T> {
    pub open spec fn is_valid_in(&self, v: StoreView<T>) -> bool {
        v.is_valid(self@.0, self@.1)
    }

    pub open spec fn value_in(&self, v: StoreView<T>) -> T {
        v.values[self@.0@ as int]
    }

    /// Creates a memo: runs `computation` once with the memo as observer,
    /// stores the result in a fresh slot, and subscribes the memo's
    /// recomputation to that slot. The memo starts idle and holds its
    /// computation's result on the values at creation.
    pub fn new<C: Computation<T>>(storage: &mut SignalStorage<T, C>, computation: C) -> (m: Self)
        requires
            old(storage).wf(),
            old(storage)@.len() < usize::MAX,
        ensures
            final(storage).wf(),
            m@.0@ == old(storage)@.len(),
            m.is_valid_in(final(storage)@),
            final(storage)@.len() == old(storage)@.len() + 1,
            final(storage)@.values == old(storage)@.values.push(m.value_in(final(storage)@)),
            final(storage)@.memos == old(storage)@.memos.push(true),
            final(storage)@.recomputing == old(storage)@.recomputing.push(false),
            final(storage)@.observer == old(storage)@.observer,
            final(storage)@.notified == old(storage)@.notified,
            final(storage)@ == after_memo_insert(old(storage)@, m@.0, computation),
            m.value_in(final(storage)@) == computed(computation, old(storage)@),
            final(storage).computations() == old(storage).computations().push(Some(computation)),
    {
        let id = storage.insert_memo(computation);
        let signal = Signal::from_slot(id);
        Memo { signal }
    }

    /// The backing signal.
    pub fn signal(&self) -> (s: Signal<T>)
        ensures
            s@ == self@,
    {
        self.signal
    }

    /// Reads the current value, recording the read for the current observer.
    pub fn get<C>(&self, storage: &mut SignalStorage<T, C>) -> (r: T) where T: Clone
        requires
            old(storage).wf(),
            self.is_valid_in(old(storage)@),
        ensures
            final(storage).wf(),
            final(storage)@ == after_read(old(storage)@, self@.0),
            cloned(self.value_in(old(storage)@), r),
    {
        self.signal.get(storage)
    }

    /// Reads the current value without recording the read.
    pub fn get_untracked<C>(&self, storage: &SignalStorage<T, C>) -> (r: T) where T: Clone
        requires
            storage.wf(),
            self.is_valid_in(storage@),
        ensures
            cloned(self.value_in(storage@), r),
    {
        self.signal.get_untracked(storage)
    }

    /// Reads the current value through `f`, recording the read.
    pub fn with<C, R, F: FnOnce(&T) -> R>(&self, storage: &mut SignalStorage<T, C>, f: F) -> (r: R)
        requires
            old(storage).wf(),
            self.is_valid_in(old(storage)@),
            f.requires((&self.value_in(old(storage)@),)),
        ensures
            final(storage).wf(),
            final(storage)@ == after_read(old(storage)@, self@.0),
            f.ensures((&self.value_in(old(storage)@),), r),
    {
        self.signal.with(storage, f)
    }

    /// Releases the memo's value and computation; the memo is no longer
    /// recomputed and its handles become stale.
    pub fn dispose<C>(&self, storage: &mut SignalStorage<T, C>)
        requires
            old(storage).wf(),
            self.is_valid_in(old(storage)@),
        ensures
            final(storage).wf(),
            !self.is_valid_in(final(storage)@),
            final(storage)@ == (StoreView {
                values: old(storage)@.values.update(
                    self@.0@ as int,
                    final(storage)@.values[self@.0@ as int],
                ),
                live: old(storage)@.live.update(self@.0@ as int, false),
                memos: old(storage)@.memos.update(self@.0@ as int, false),
                ..old(storage)@
            }),
    {
        self.signal.dispose(storage)
    }

    /// Registers a callback that is logged whenever the memo's subscribers run.
    pub fn subscribe<C>(&self, storage: &mut SignalStorage<T, C>) -> (sub: SubscriberId)
        requires
            old(storage).wf(),
            self.is_valid_in(old(storage)@),
            old(storage)@.callbacks < usize::MAX,
        ensures
            final(storage).wf(),
            sub@ == old(storage)@.callbacks,
            final(storage)@ == (StoreView {
                subscribers: old(storage)@.subscribers.update(
                    self@.0@ as int,
                    old(storage)@.subscribers_of(self@.0).push(Subscriber::Callback(sub)),
                ),
                callbacks: old(storage)@.callbacks + 1,
                ..old(storage)@
            }),
    {
        self.signal.subscribe(storage)
    }
}

} // verus!
