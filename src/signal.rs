//! Signal handles: copyable references to values held in a `SignalStorage`.
use std::marker::PhantomData;
use vstd::prelude::*;
use vstd::std_specs::cmp::PartialEqSpec;

use crate::storage::{
    after_notify, after_read, callback_ids, callbacks_only, cascade, inserted, written, Computation,
    SignalId,
    SignalStorage, StoreView, SubscriberId, Tracker,
};

verus! {

/// A handle to a value of type `T` held in a `SignalStorage`. Handles are
/// `Copy` and compare equal when both their id and generation match.
#[derive(Hash, Debug)]
pub struct Signal<T> {
    id: SignalId,
    generation: u32,
    _phantom: PhantomData<T>,
}

impl<T> View for Signal<T> {
    /// The slot id and the generation the handle carries.
    type V = (SignalId, u32);

    closed spec fn view(&self) -> (SignalId, u32) {
        (self.id, self.generation)
    }
}

impl<T> Clone for Signal<T> {
    fn clone(&self) -> (r: Self)
        ensures
            r == *self,
    {
        *self
    }
}

impl<T> Copy for Signal<T> {

}

impl<T> PartialEq for Signal<T> {
    fn eq(&self, other: &Self) -> (r: bool) {
        self.id == other.id && self.generation == other.generation
    }
}

impl<T> vstd::std_specs::cmp::PartialEqSpecImpl for Signal<T> {
    open spec fn obeys_eq_spec() -> bool {
        true
    }

    open spec fn eq_spec(&self, other: &Self) -> bool {
        self@ == other@
    }
}

impl<T> Eq for Signal<T> {

}

impl<T> Signal<T> {
    /// The handle refers to a live slot of the storage modelled by `v`.
    pub open spec fn is_valid_in(&self, v: StoreView<T>) -> bool {
        v.is_valid(self@.0, self@.1)
    }

    /// The value the handle refers to in the storage modelled by `v`.
    pub open spec fn value_in(&self, v: StoreView<T>) -> T {
        v.values[self@.0@ as int]
    }

    /// Allocates a signal holding `value`.
    pub fn new<C>(storage: &mut SignalStorage<T, C>, value: T) -> (s: Self)
        requires
            old(storage).wf(),
            old(storage)@.len() < usize::MAX,
        ensures
            final(storage).wf(),
            s@.0@ == old(storage)@.len(),
            s.is_valid_in(final(storage)@),
            s.value_in(final(storage)@) == value,
            final(storage)@ == inserted(old(storage)@, value, false),
    {
        let id = storage.insert(value);
        Signal { id, generation: 0, _phantom: PhantomData }
    }

    /// The handle of a slot created at generation 0.
    pub(crate) fn from_slot(id: SignalId) -> (s: Self)
        ensures
            s@ == (id, 0u32),
    {
        Signal { id, generation: 0, _phantom: PhantomData }
    }

    /// Reads the value, recording the read for the current observer.
    pub fn get<C>(&self, storage: &mut SignalStorage<T, C>) -> (r: T) where T: Clone
        requires
            old(storage).wf(),
            self.is_valid_in(old(storage)@),
        ensures
            final(storage).wf(),
            final(storage)@ == after_read(old(storage)@, self@.0),
            cloned(self.value_in(old(storage)@), r),
    {
        storage.track_read(self.id);
        storage.get(self.id, self.generation).unwrap().clone()
    }

    /// Reads the value without recording the read.
    pub fn get_untracked<C>(&self, storage: &SignalStorage<T, C>) -> (r: T) where T: Clone
        requires
            storage.wf(),
            self.is_valid_in(storage@),
        ensures
            cloned(self.value_in(storage@), r),
    {
        storage.get(self.id, self.generation).unwrap().clone()
    }

    /// Replaces the value, then invokes a snapshot of the signal's
    /// subscribers before returning.
    pub fn set<C: Computation<T>>(&self, storage: &mut SignalStorage<T, C>, value: T)
        requires
            old(storage).wf(),
            self.is_valid_in(old(storage)@),
        ensures
            final(storage).wf(),
            final(storage).computations() == old(storage).computations(),
            final(storage)@ == after_notify(
                old(storage).computations(),
                old(storage)@.len(),
                written(old(storage)@, self@.0, value),
                self@.0,
                old(storage)@.subscribers_of(self@.0),
            ),
            cascade(written(old(storage)@, self@.0, value), final(storage)@),
            !old(storage)@.memos[self@.0@ as int] ==> self.value_in(final(storage)@) == value,
            callbacks_only(old(storage)@.subscribers_of(self@.0))
                ==> final(storage)@ == (StoreView {
                notified: old(storage)@.notified + callback_ids(
                    old(storage)@.subscribers_of(self@.0),
                ),
                ..written(old(storage)@, self@.0, value)
            }),
    {
        let batch = storage.set(self.id, self.generation, value).unwrap();
        proof {
            storage.lemma_view_wf();
            assert forall|k: int| 0 <= k < batch@.len() implies storage@.subscriber_fits(
                self@.0@ as int,
                #[trigger] batch@[k],
            ) by {
                assert(storage@.subscriber_fits(self@.0@ as int, storage@.subscribers[self@.0@ as int][k]));
            }
        }
        storage.invoke(self.id, batch);
    }
}

impl<T> Signal<T> {
    /// Writes `value` only when it differs from the current value; returns
    /// whether it wrote. An equal value changes nothing and notifies nobody.
    pub fn set_if_changed<C: Computation<T>>(
        &self,
        storage: &mut SignalStorage<T, C>,
        value: T,
    ) -> (changed: bool) where T: PartialEq
        requires
            old(storage).wf(),
            self.is_valid_in(old(storage)@),
        ensures
            final(storage).wf(),
            T::obeys_eq_spec() ==> changed == !self.value_in(old(storage)@).eq_spec(&value),
            !changed ==> final(storage)@ == old(storage)@,
            final(storage).computations() == old(storage).computations(),
            changed ==> final(storage)@ == after_notify(
                old(storage).computations(),
                old(storage)@.len(),
                written(old(storage)@, self@.0, value),
                self@.0,
                old(storage)@.subscribers_of(self@.0),
            ),
            changed ==> cascade(written(old(storage)@, self@.0, value), final(storage)@),
            changed && !old(storage)@.memos[self@.0@ as int] ==> self.value_in(final(storage)@) == value,
            changed && callbacks_only(old(storage)@.subscribers_of(self@.0))
                ==> final(storage)@ == (StoreView {
                notified: old(storage)@.notified + callback_ids(
                    old(storage)@.subscribers_of(self@.0),
                ),
                ..written(old(storage)@, self@.0, value)
            }),
    {
        let changed = !storage.get(self.id, self.generation).unwrap().eq(&value);
        if changed {
            self.set(storage, value);
        }
        changed
    }

    /// Replaces the value by `f(value)`, then invokes a snapshot of the
    /// signal's subscribers.
    pub fn update<C: Computation<T>, F: FnOnce(T) -> T>(
        &self,
        storage: &mut SignalStorage<T, C>,
        f: F,
    )
        requires
            old(storage).wf(),
            self.is_valid_in(old(storage)@),
            f.requires((self.value_in(old(storage)@),)),
        ensures
            final(storage).wf(),
            final(storage).computations() == old(storage).computations(),
            exists|new_value: T|
                {
                    &&& f.ensures((self.value_in(old(storage)@),), new_value)
                    &&& final(storage)@ == after_notify(
                        old(storage).computations(),
                        old(storage)@.len(),
                        written(old(storage)@, self@.0, new_value),
                        self@.0,
                        old(storage)@.subscribers_of(self@.0),
                    )
                    &&& cascade(written(old(storage)@, self@.0, new_value), final(storage)@)
                    &&& !old(storage)@.memos[self@.0@ as int] ==> self.value_in(final(storage)@)
                        == new_value
                },
    {
        self.update_with(storage, move |v: T| -> (r: (T, ()))
            requires
                f.requires((v,)),
            ensures
                f.ensures((v,), r.0),
            { (f(v), ()) });
    }

    /// Replaces the value by the first component of `f(value)`, invokes a
    /// snapshot of the signal's subscribers, and returns the second
    /// component. The handle must be valid: a stale handle is a protocol
    /// fault, not an expected outcome.
    pub fn update_with<C: Computation<T>, R, F: FnOnce(T) -> (T, R)>(
        &self,
        storage: &mut SignalStorage<T, C>,
        f: F,
    ) -> (r: Option<R>)
        requires
            old(storage).wf(),
            self.is_valid_in(old(storage)@),
            f.requires((self.value_in(old(storage)@),)),
        ensures
            final(storage).wf(),
            final(storage).computations() == old(storage).computations(),
            r is Some,
            exists|new_value: T|
                {
                    &&& f.ensures((self.value_in(old(storage)@),), (new_value, r->Some_0))
                    &&& final(storage)@ == after_notify(
                        old(storage).computations(),
                        old(storage)@.len(),
                        written(old(storage)@, self@.0, new_value),
                        self@.0,
                        old(storage)@.subscribers_of(self@.0),
                    )
                    &&& cascade(written(old(storage)@, self@.0, new_value), final(storage)@)
                    &&& !old(storage)@.memos[self@.0@ as int] ==> self.value_in(final(storage)@)
                        == new_value
                },
    {
        match storage.update(self.id, self.generation, f) {
            Some((result, batch)) => {
                let ghost after_write = storage@;
                proof {
                    storage.lemma_view_wf();
                    assert forall|k: int| 0 <= k < batch@.len() implies storage@.subscriber_fits(
                        self@.0@ as int,
                        #[trigger] batch@[k],
                    ) by {
                        assert(storage@.subscriber_fits(
                            self@.0@ as int,
                            storage@.subscribers[self@.0@ as int][k],
                        ));
                    }
                }
                storage.invoke(self.id, batch);
                proof {
                    let nv = after_write.values[self@.0@ as int];
                    assert(after_write == written(old(storage)@, self@.0, nv));
                }
                Some(result)
            },
            None => None,
        }
    }

    /// Reads the value through `f`, recording the read for the current observer.
    pub fn with<C, R, F: FnOnce(&T) -> R>(&self, storage: &mut SignalStorage<T, C>, f: F) -> (r: R)
        requires
            old(storage).wf(),
            self.is_valid_in(old(storage)@),
            f.requires((&self.value_in(old(storage)@),)),
        ensures
            final(storage).wf(),
            final(storage)@ == after_read(old(storage)@, self@.0),
            f.ensures((&self.value_in(old(storage)@),), r),
    {
        storage.track_read(self.id);
        f(storage.get(self.id, self.generation).unwrap())
    }

    /// Reads the value through `f` without recording the read.
    pub fn with_untracked<C, R, F: FnOnce(&T) -> R>(
        &self,
        storage: &SignalStorage<T, C>,
        f: F,
    ) -> (r: R)
        requires
            storage.wf(),
            self.is_valid_in(storage@),
            f.requires((&self.value_in(storage@),)),
        ensures
            f.ensures((&self.value_in(storage@),), r),
    {
        f(storage.get(self.id, self.generation).unwrap())
    }

    /// Registers a callback on this signal; its id is logged each time the
    /// signal's subscribers are invoked.
    pub fn subscribe<C>(&self, storage: &mut SignalStorage<T, C>) -> (sub: SubscriberId)
        requires
            old(storage).wf(),
            self.is_valid_in(old(storage)@),
            old(storage)@.callbacks < usize::MAX,
        ensures
            final(storage).wf(),
            sub@ == old(storage)@.callbacks,
            final(storage)@ == (StoreView {
                subscribers: old(storage)@.subscribers.update(
                    self@.0@ as int,
                    old(storage)@.subscribers_of(self@.0).push(
                        crate::storage::Subscriber::Callback(sub),
                    ),
                ),
                callbacks: old(storage)@.callbacks + 1,
                ..old(storage)@
            }),
    {
        storage.subscribe(self.id)
    }

    /// Releases the value; this handle and all its copies become stale.
    pub fn dispose<C>(&self, storage: &mut SignalStorage<T, C>)
        requires
            old(storage).wf(),
            self.is_valid_in(old(storage)@),
        ensures
            final(storage).wf(),
            !self.is_valid_in(final(storage)@),
            final(storage)@ == (StoreView {
                values: old(storage)@.values.update(
                    self@.0@ as int,
                    final(storage)@.values[self@.0@ as int],
                ),
                live: old(storage)@.live.update(self@.0@ as int, false),
                memos: old(storage)@.memos.update(self@.0@ as int, false),
                ..old(storage)@
            }),
    {
        proof {
            storage.lemma_view_wf();
        }
        storage.dispose(self.id, self.generation);
    }

    /// A read-only view of the same slot.
    pub fn read_only(self) -> (r: ReadOnlySignal<T>)
        ensures
            r@ == self@,
    {
        ReadOnlySignal { inner: self }
    }

    /// Whether the handle refers to a live slot of `storage`.
    pub fn is_valid<C>(&self, storage: &SignalStorage<T, C>) -> (b: bool)
        requires
            storage.wf(),
        ensures
            b == self.is_valid_in(storage@),
    {
        storage.is_valid(self.id, self.generation)
    }

    /// The slot id of the handle.
    pub fn id(&self) -> (id: SignalId)
        ensures
            id == self@.0,
    {
        self.id
    }
}

impl Signal<bool> {
    /// Negates the value.
    pub fn toggle<C: Computation<bool>>(&self, storage: &mut SignalStorage<bool, C>)
        requires
            old(storage).wf(),
            self.is_valid_in(old(storage)@),
        ensures
            final(storage).wf(),
            final(storage).computations() == old(storage).computations(),
            final(storage)@ == after_notify(
                old(storage).computations(),
                old(storage)@.len(),
                written(old(storage)@, self@.0, !self.value_in(old(storage)@)),
                self@.0,
                old(storage)@.subscribers_of(self@.0),
            ),
            cascade(
                written(
                    old(storage)@,
                    self@.0,
                    !self.value_in(old(storage)@),
                ),
                final(storage)@,
            ),
            !old(storage)@.memos[self@.0@ as int] ==> self.value_in(final(storage)@)
                == !self.value_in(old(storage)@),
    {
        self.update(storage, |v: bool| -> (r: bool)
            ensures
                r == !v,
            { !v });
    }
}

/// A handle that reads and subscribes but cannot write.
#[derive(Hash, Debug)]
pub struct ReadOnlySignal<T> {
    inner: Signal<T>,
}

impl<T> View for ReadOnlySignal<T> {
    type V = (SignalId, u32);

    closed spec fn view(&self) -> (SignalId, u32) {
        self.inner@
    }
}

impl<T> Clone for ReadOnlySignal<T> {
    fn clone(&self) -> (r: Self)
        ensures
            r == *self,
    {
        *self
    }
}

impl<T> Copy for ReadOnlySignal<T> {

}

impl<T> PartialEq for ReadOnlySignal<T> {
    fn eq(&self, other: &Self) -> (r: bool) {
        self.inner == other.inner
    }
}

impl<T> vstd::std_specs::cmp::PartialEqSpecImpl for ReadOnlySignal<T> {
    open spec fn obeys_eq_spec() -> bool {
        true
    }

    open spec fn eq_spec(&self, other: &Self) -> bool {
        self@ == other@
    }
}

impl<T> Eq for ReadOnlySignal<T> {

}

impl<T> ReadOnlySignal<T> {
    pub open spec fn is_valid_in(&self, v: StoreView<T>) -> bool {
        v.is_valid(self@.0, self@.1)
    }

    pub open spec fn value_in(&self, v: StoreView<T>) -> T {
        v.values[self@.0@ as int]
    }

    /// Reads the value, recording the read for the current observer.
    pub fn get<C>(&self, storage: &mut SignalStorage<T, C>) -> (r: T) where T: Clone
        requires
            old(storage).wf(),
            self.is_valid_in(old(storage)@),
        ensures
            final(storage).wf(),
            final(storage)@ == after_read(old(storage)@, self@.0),
            cloned(self.value_in(old(storage)@), r),
    {
        self.inner.get(storage)
    }

    /// Reads the value without recording the read.
    pub fn get_untracked<C>(&self, storage: &SignalStorage<T, C>) -> (r: T) where T: Clone
        requires
            storage.wf(),
            self.is_valid_in(storage@),
        ensures
            cloned(self.value_in(storage@), r),
    {
        self.inner.get_untracked(storage)
    }

    /// Reads the value through `f`, recording the read for the current observer.
    pub fn with<C, R, F: FnOnce(&T) -> R>(&self, storage: &mut SignalStorage<T, C>, f: F) -> (r: R)
        requires
            old(storage).wf(),
            self.is_valid_in(old(storage)@),
            f.requires((&self.value_in(old(storage)@),)),
        ensures
            final(storage).wf(),
            final(storage)@ == after_read(old(storage)@, self@.0),
            f.ensures((&self.value_in(old(storage)@),), r),
    {
        self.inner.with(storage, f)
    }

    /// Reads the value through `f` without recording the read.
    pub fn with_untracked<C, R, F: FnOnce(&T) -> R>(
        &self,
        storage: &SignalStorage<T, C>,
        f: F,
    ) -> (r: R)
        requires
            storage.wf(),
            self.is_valid_in(storage@),
            f.requires((&self.value_in(storage@),)),
        ensures
            f.ensures((&self.value_in(storage@),), r),
    {
        self.inner.with_untracked(storage, f)
    }

    /// Registers a callback on the underlying signal.
    pub fn subscribe<C>(&self, storage: &mut SignalStorage<T, C>) -> (sub: SubscriberId)
        requires
            old(storage).wf(),
            self.is_valid_in(old(storage)@),
            old(storage)@.callbacks < usize::MAX,
        ensures
            final(storage).wf(),
            sub@ == old(storage)@.callbacks,
            final(storage)@ == (StoreView {
                subscribers: old(storage)@.subscribers.update(
                    self@.0@ as int,
                    old(storage)@.subscribers_of(self@.0).push(
                        crate::storage::Subscriber::Callback(sub),
                    ),
                ),
                callbacks: old(storage)@.callbacks + 1,
                ..old(storage)@
            }),
    {
        self.inner.subscribe(storage)
    }
}

impl<'a, T> Tracker<'a, T> {
    /// Whether `signal` refers to a live slot of the arena being read.
    pub fn is_live(&self, signal: &Signal<T>) -> (b: bool)
        ensures
            b == self.is_valid(signal@.0, signal@.1),
    {
        self.is_valid_handle(signal.id, signal.generation)
    }

    /// Tracked read of a signal during a computation.
    pub fn get(&mut self, signal: &Signal<T>) -> (r: T) where T: Clone
        requires
            old(self).is_valid(signal@.0, signal@.1),
        ensures
            final(self).values() == old(self).values(),
            final(self).live() == old(self).live(),
            final(self).generations() == old(self).generations(),
            final(self).reads() == old(self).reads().push(signal@.0),
            cloned(old(self).values()[signal@.0@ as int], r),
    {
        self.get_value(signal.id, signal.generation)
    }

    /// Untracked read of a signal during a computation.
    pub fn get_untracked(&self, signal: &Signal<T>) -> (r: T) where T: Clone
        requires
            self.is_valid(signal@.0, signal@.1),
        ensures
            cloned(self.values()[signal@.0@ as int], r),
    {
        self.get_value_untracked(signal.id, signal.generation)
    }

    /// Tracked read of a signal through `f` during a computation.
    pub fn with<R, F: FnOnce(&T) -> R>(&mut self, signal: &Signal<T>, f: F) -> (r: R)
        requires
            old(self).is_valid(signal@.0, signal@.1),
            f.requires((&old(self).values()[signal@.0@ as int],)),
        ensures
            final(self).values() == old(self).values(),
            final(self).live() == old(self).live(),
            final(self).generations() == old(self).generations(),
            final(self).reads() == old(self).reads().push(signal@.0),
            f.ensures((&old(self).values()[signal@.0@ as int],), r),
    {
        self.with_value(signal.id, signal.generation, f)
    }
}

/// `s` repeated `k` times.
pub open spec fn repeated<A>(s: Seq<A>, k: nat) -> Seq<A>
    decreases k,
{
    if k == 0 {
        Seq::empty()
    } else {
        repeated(s, (k - 1) as nat) + s
    }
}

proof fn lemma_repeated_count<A>(s: Seq<A>, k: nat, a: A)
    ensures
        repeated(s, k).to_multiset().count(a) == k * s.to_multiset().count(a),
    decreases k,
{
    if k == 0 {
        assert(repeated(s, k) =~= Seq::<A>::empty());
        assert(Seq::<A>::empty().to_multiset().count(a) == 0) by {
            Seq::<A>::empty().to_multiset_ensures();
        }
    } else {
        let shorter = repeated(s, (k - 1) as nat);
        let c = s.to_multiset().count(a);
        lemma_repeated_count(s, (k - 1) as nat, a);
        assert(repeated(s, k) == shorter + s);
        vstd::seq_lib::lemma_multiset_commutative(shorter, s);
        assert((shorter + s).to_multiset().count(a) == shorter.to_multiset().count(a) + c);
        assert(k * c == (k - 1) * c + c) by (nonlinear_arith);
    }
}

/// Writes to a signal whose subscribers are all callbacks: over `k` writes
/// (the models before and after each write, as `Signal::set` describes them)
/// the log grows by the callbacks' ids in registration order, once per
/// write, so a callback registered once is logged exactly `k` times.
pub proof fn lemma_writes_notify_each_callback<T>(
    trace: Seq<StoreView<T>>,
    id: SignalId,
    values: Seq<T>,
)
    requires
        trace.len() == values.len() + 1,
        callbacks_only(trace[0].subscribers_of(id)),
        forall|i: int|
            0 <= i < values.len() ==> #[trigger] trace[i + 1] == (StoreView {
                notified: trace[i].notified + callback_ids(trace[i].subscribers_of(id)),
                ..written(trace[i], id, values[i])
            }),
    ensures
        trace.last().subscribers_of(id) == trace[0].subscribers_of(id),
        trace.last().notified == trace[0].notified + repeated(
            callback_ids(trace[0].subscribers_of(id)),
            values.len(),
        ),
        forall|c: SubscriberId|
            #[trigger] repeated(
                callback_ids(trace[0].subscribers_of(id)),
                values.len(),
            ).to_multiset().count(c) == values.len() * callback_ids(
                trace[0].subscribers_of(id),
            ).to_multiset().count(c),
    decreases values.len(),
{
    let ids = callback_ids(trace[0].subscribers_of(id));
    let k = values.len();
    if k > 0 {
        let shorter = trace.drop_last();
        assert forall|i: int| 0 <= i < values.drop_last().len() implies #[trigger] shorter[i + 1] == (
        StoreView {
            notified: shorter[i].notified + callback_ids(shorter[i].subscribers_of(id)),
            ..written(shorter[i], id, values.drop_last()[i])
        }) by {
            assert(trace[i + 1] == shorter[i + 1]);
        }
        lemma_writes_notify_each_callback(shorter, id, values.drop_last());
        assert(trace[k as int] == trace.last());
        assert(trace.last().notified =~= trace[0].notified + repeated(ids, k));
    }
    assert forall|c: SubscriberId| #[trigger] repeated(ids, k).to_multiset().count(c) == k
        * ids.to_multiset().count(c) by {
        lemma_repeated_count(ids, k, c);
    }
}

} // verus!
