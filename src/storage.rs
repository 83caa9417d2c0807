//! The arena that owns every signal value, together with the subscriber
//! registry and the dependency tracker.
use vstd::prelude::*;

verus! {

/// Identifies a slot of a `SignalStorage`. Slots are never reused.
#[derive(Clone, Copy, PartialEq, Eq, Hash, Debug, Structural)]
pub struct SignalId {
    index: usize,
}

impl View for SignalId {
    type V = nat;

    closed spec fn view(&self) -> nat {
        self.index as nat
    }
}

/// Identifies a callback registered with `SignalStorage::subscribe`.
#[derive(Clone, Copy, PartialEq, Eq, Hash, Debug, Structural)]
pub struct SubscriberId {
    index: usize,
}

impl View for SubscriberId {
    type V = nat;

    closed spec fn view(&self) -> nat {
        self.index as nat
    }
}

/// One entry of a slot's subscriber list.
#[derive(Clone, Copy, PartialEq, Eq, Debug, Structural)]
pub enum Subscriber {
    /// Installed by dependency tracking: a change is forwarded to the
    /// subscribers of the observer that read the slot.
    Forward(SignalId),
    /// A memo's subscription to its own backing slot: re-runs its computation.
    Recompute(SignalId),
    /// A callback of the host; firing it appends its id to the notification log.
    Callback(SubscriberId),
}

/// A stored value with the generation that handles must present.
pub struct SignalValue<T> {
    value: Option<T>,
    generation: u32,
}

/// The mathematical model of a `SignalStorage`, one entry per slot.
pub struct StoreView<T> {
    pub values: Seq<T>,
    /// Whether the slot still holds its value, that is, was not disposed.
    pub live: Seq<bool>,
    pub generations: Seq<u32>,
    pub subscribers: Seq<Seq<Subscriber>>,
    /// For each observer, the slots it has read (a set kept as a sequence).
    pub dependencies: Seq<Seq<SignalId>>,
    /// Whether the slot backs a memo.
    pub memos: Seq<bool>,
    /// Whether the memo of the slot is in the middle of a recomputation.
    pub recomputing: Seq<bool>,
    pub observer: Option<SignalId>,
    /// Callbacks fired so far and not yet taken, in firing order.
    pub notified: Seq<SubscriberId>,
    /// Number of callback ids handed out.
    pub callbacks: nat,
}

/// Number of memos that are not recomputing.
pub open spec fn idle_count(flags: Seq<bool>) -> nat
    decreases flags.len(),
{
    if flags.len() == 0 {
        0
    } else {
        idle_count(flags.drop_last()) + if flags.last() {
            0nat
        } else {
            1nat
        }
    }
}

impl<T> StoreView<T> {
    /// Number of slots.
    pub open spec fn len(self) -> nat {
        self.values.len()
    }

    /// A handle with this id and generation refers to a live slot.
    pub open spec fn is_valid(self, id: SignalId, generation: u32) -> bool {
        id@ < self.len() && self.live[id@ as int] && self.generations[id@ as int] == generation
    }

    /// The subscribers of slot `id`, in registration order.
    pub open spec fn subscribers_of(self, id: SignalId) -> Seq<Subscriber> {
        self.subscribers[id@ as int]
    }

    /// `x` forwards its changes to observer `o`.
    pub open spec fn forwards(self, x: SignalId, o: SignalId) -> bool {
        self.subscribers[x@ as int].contains(Subscriber::Forward(o))
    }

    /// Observer `o` has read `x` in one of its computations.
    pub open spec fn has_read(self, o: SignalId, x: SignalId) -> bool {
        self.dependencies[o@ as int].contains(x)
    }

    /// Where a subscriber may stand: a forwarding subscription names a slot,
    /// a recomputation stands on its memo's own slot, a callback has an id
    /// already handed out.
    pub open spec fn subscriber_fits(self, x: int, s: Subscriber) -> bool {
        match s {
            Subscriber::Forward(o) => o@ < self.len(),
            Subscriber::Recompute(m) => m@ == x,
            Subscriber::Callback(c) => c@ < self.callbacks,
        }
    }

    /// The invariants of the arena: every subscriber fits its slot; a slot
    /// holds at most one forwarding subscription per observer, and holds one
    /// exactly when the observer has read the slot; an observer's dependency
    /// set holds distinct slots; a memo slot is live; the current observer
    /// names a slot.
    pub open spec fn wf(self) -> bool {
        &&& self.live.len() == self.len()
        &&& self.generations.len() == self.len()
        &&& self.subscribers.len() == self.len()
        &&& self.dependencies.len() == self.len()
        &&& self.memos.len() == self.len()
        &&& self.recomputing.len() == self.len()
        &&& forall|x: int, k: int|
            0 <= x < self.len() && 0 <= k < self.subscribers[x].len() ==> self.subscriber_fits(
                x,
                #[trigger] self.subscribers[x][k],
            )
        &&& forall|x: int, j: int, k: int|
            0 <= x < self.len() && 0 <= j < k < self.subscribers[x].len()
                && self.subscribers[x][j] is Forward ==> #[trigger] self.subscribers[x][j]
                != #[trigger] self.subscribers[x][k]
        &&& forall|x: SignalId, o: SignalId|
            #![trigger self.forwards(x, o)]
            #![trigger self.has_read(o, x)]
            x@ < self.len() && o@ < self.len() ==> (self.forwards(x, o) <==> self.has_read(o, x))
        &&& forall|o: int, k: int|
            0 <= o < self.len() && 0 <= k < self.dependencies[o].len() ==> (
            #[trigger] self.dependencies[o][k])@ < self.len()
        &&& forall|o: int, j: int, k: int|
            0 <= o < self.len() && 0 <= j < k < self.dependencies[o].len()
                ==> #[trigger] self.dependencies[o][j] != #[trigger] self.dependencies[o][k]
        &&& forall|i: int| 0 <= i < self.len() && #[trigger] self.memos[i] ==> self.live[i]
        &&& self.observer matches Some(o) ==> o@ < self.len()
    }
}

/// The model after a fresh slot holding `value` is appended.
pub open spec fn inserted<T>(v: StoreView<T>, value: T, memo: bool) -> StoreView<T> {
    StoreView {
        values: v.values.push(value),
        live: v.live.push(true),
        generations: v.generations.push(0),
        subscribers: v.subscribers.push(Seq::empty()),
        dependencies: v.dependencies.push(Seq::empty()),
        memos: v.memos.push(memo),
        recomputing: v.recomputing.push(false),
        ..v
    }
}

/// The model after a read of `id` under the current observer: the first
/// read of a slot by that observer records the dependency and installs
/// exactly one forwarding subscription; later reads change nothing.
pub open spec fn after_read<T>(v: StoreView<T>, id: SignalId) -> StoreView<T> {
    match v.observer {
        Some(o) => if !v.has_read(o, id) {
            StoreView {
                dependencies: v.dependencies.update(
                    o@ as int,
                    v.dependencies[o@ as int].push(id),
                ),
                subscribers: v.subscribers.update(
                    id@ as int,
                    v.subscribers[id@ as int].push(Subscriber::Forward(o)),
                ),
                ..v
            }
        } else {
            v
        },
        None => v,
    }
}

/// What a notification cascade may change: subscriber lists, dependency
/// sets, the values of memo slots and the notification log.
pub open spec fn cascade<T>(before: StoreView<T>, after: StoreView<T>) -> bool {
    &&& after.len() == before.len()
    &&& after.live == before.live
    &&& after.generations == before.generations
    &&& after.memos == before.memos
    &&& after.recomputing == before.recomputing
    &&& after.observer == before.observer
    &&& after.callbacks == before.callbacks
    &&& forall|i: int|
        0 <= i < before.len() && !before.memos[i] ==> after.values[i] == before.values[i]
}

/// The model right after slot `id` is overwritten with `value`, before
/// its subscribers run.
pub open spec fn written<T>(v: StoreView<T>, id: SignalId, value: T) -> StoreView<T> {
    StoreView { values: v.values.update(id@ as int, value), ..v }
}

/// The ids of the callbacks in a batch of subscribers.
pub open spec fn callback_ids(batch: Seq<Subscriber>) -> Seq<SubscriberId> {
    batch.map_values(|s: Subscriber| s->Callback_0)
}

/// Every entry of the batch is a host callback.
pub open spec fn callbacks_only(batch: Seq<Subscriber>) -> bool {
    forall|k: int| 0 <= k < batch.len() ==> (#[trigger] batch[k]) is Callback
}

/// The result of computation `c` on the arena modelled by `v`.
pub open spec fn computed<T, C: Computation<T>>(c: C, v: StoreView<T>) -> T {
    c.result(v.values, v.live, v.generations)
}

/// The slots computation `c` reads on the arena modelled by `v`, in order.
pub open spec fn computed_reads<T, C: Computation<T>>(c: C, v: StoreView<T>) -> Seq<SignalId> {
    c.reads(v.values, v.live, v.generations)
}

/// The model after the reads `reads` are tracked in order under the current
/// observer; reads that name no slot are skipped.
pub open spec fn after_reads<T>(v: StoreView<T>, reads: Seq<SignalId>) -> StoreView<T>
    decreases reads.len(),
{
    if reads.len() == 0 {
        v
    } else {
        let w = after_reads(v, reads.drop_last());
        if reads.last()@ < w.len() {
            after_read(w, reads.last())
        } else {
            w
        }
    }
}

/// The model after memo `m` is asked to recompute, in a storage of `n`
/// slots whose computations are `comps`. A memo that is already recomputing,
/// or a slot without computation, is left alone. Otherwise the memo is
/// flagged, its computation's reads are tracked with the memo as observer,
/// the previous observer is restored, its slot is written with the
/// computation's result, its subscribers are invoked, and the flag is
/// released.
pub open spec fn after_recompute<T, C: Computation<T>>(
    comps: Seq<Option<C>>,
    n: nat,
    v: StoreView<T>,
    m: SignalId,
) -> StoreView<T>
    decreases idle_count(v.recomputing), 0nat, 0nat,
{
    if m@ < n && m@ < v.recomputing.len() && m@ < comps.len() && !v.recomputing[m@ as int]
        && comps[m@ as int] is Some {
        let c = comps[m@ as int]->Some_0;
        let flags = v.recomputing.update(m@ as int, true);
        let with_reads = after_reads(
            StoreView { observer: Some(m), recomputing: flags, ..v },
            computed_reads(c, v),
        );
        let stored = StoreView {
            values: with_reads.values.update(m@ as int, computed(c, v)),
            observer: v.observer,
            recomputing: flags,
            ..with_reads
        };
        proof {
            lemma_idle_count_mark(v.recomputing, m@ as int);
        }
        let notified = after_notify(comps, n, stored, m, stored.subscribers[m@ as int]);
        StoreView { recomputing: v.recomputing, ..notified }
    } else {
        v
    }
}

/// The model after the subscribers `batch` of slot `source` are invoked in
/// order: a forwarding subscription recomputes its observer, a memo's own
/// subscription recomputes the memo, and a callback is appended to the log.
pub open spec fn after_notify<T, C: Computation<T>>(
    comps: Seq<Option<C>>,
    n: nat,
    v: StoreView<T>,
    source: SignalId,
    batch: Seq<Subscriber>,
) -> StoreView<T>
    decreases idle_count(v.recomputing), 1nat, batch.len(),
{
    if batch.len() == 0 {
        v
    } else {
        let done = after_notify(comps, n, v, source, batch.drop_last());
        let prev = StoreView { recomputing: v.recomputing, ..done };
        match batch.last() {
            Subscriber::Forward(o) => if o@ < n {
                after_recompute(comps, n, prev, o)
            } else {
                prev
            },
            Subscriber::Recompute(m) => if m == source && m@ < n {
                after_recompute(comps, n, prev, m)
            } else {
                prev
            },
            Subscriber::Callback(c) => StoreView { notified: prev.notified.push(c), ..prev },
        }
    }
}

/// The model after a memo slot `id` is appended for computation `c`: the
/// slot holds `c`'s result on the current values, `c`'s reads are tracked
/// with the new memo as observer, the previous observer is restored, and the
/// memo's recomputation is appended to the slot's subscribers.
pub open spec fn after_memo_insert<T, C: Computation<T>>(
    v: StoreView<T>,
    id: SignalId,
    c: C,
) -> StoreView<T> {
    let fresh = inserted(v, computed(c, v), true);
    let with_reads = after_reads(StoreView { observer: Some(id), ..fresh }, computed_reads(c, v));
    StoreView {
        observer: v.observer,
        subscribers: with_reads.subscribers.update(
            id@ as int,
            with_reads.subscribers[id@ as int].push(Subscriber::Recompute(id)),
        ),
        ..with_reads
    }
}

/// The arena: slot values with generations, each slot's subscribers, each
/// observer's dependency set, the memo computations and the current observer.
pub struct SignalStorage<T, C> {
    values: Vec<SignalValue<T>>,
    subscribers: Vec<Vec<Subscriber>>,
    dependencies: Vec<Vec<SignalId>>,
    computations: Vec<Option<C>>,
    recomputing: Vec<bool>,
    current_observer: Option<SignalId>,
    notified: Vec<SubscriberId>,
    callbacks: usize,
}

impl<T, C> View for SignalStorage<T, C> {
    type V = StoreView<T>;

    closed spec fn view(&self) -> StoreView<T> {
        StoreView {
            values: self.values@.map_values(|s: SignalValue<T>| s.value->Some_0),
            live: self.values@.map_values(|s: SignalValue<T>| s.value is Some),
            generations: self.values@.map_values(|s: SignalValue<T>| s.generation),
            subscribers: self.subscribers@.map_values(|v: Vec<Subscriber>| v@),
            dependencies: self.dependencies@.map_values(|v: Vec<SignalId>| v@),
            memos: self.computations@.map_values(|c: Option<C>| c is Some),
            recomputing: self.recomputing@,
            observer: self.current_observer,
            notified: self.notified@,
            callbacks: self.callbacks as nat,
        }
    }
}

impl<T, C> SignalStorage<T, C> {
    /// Well-formedness: the parallel vectors agree and the model is well formed.
    pub closed spec fn wf(&self) -> bool {
        &&& self.subscribers.len() == self.values.len()
        &&& self.dependencies.len() == self.values.len()
        &&& self.computations.len() == self.values.len()
        &&& self.recomputing.len() == self.values.len()
        &&& self@.wf()
    }

    /// The computation of each slot; `None` for a plain or disposed slot.
    pub closed spec fn computations(&self) -> Seq<Option<C>> {
        self.computations@
    }

    /// The model of a storage with no slots.
    pub open spec fn empty_view() -> StoreView<T> {
        StoreView {
            values: Seq::empty(),
            live: Seq::empty(),
            generations: Seq::empty(),
            subscribers: Seq::empty(),
            dependencies: Seq::empty(),
            memos: Seq::empty(),
            recomputing: Seq::empty(),
            observer: None,
            notified: Seq::empty(),
            callbacks: 0,
        }
    }

    /// Creates an empty storage.
    pub fn new() -> (s: Self)
        ensures
            s.wf(),
            s@ == Self::empty_view(),
    {
        let s = SignalStorage {
            values: Vec::new(),
            subscribers: Vec::new(),
            dependencies: Vec::new(),
            computations: Vec::new(),
            recomputing: Vec::new(),
            current_observer: None,
            notified: Vec::new(),
            callbacks: 0,
        };
        proof {
            assert(s@.values =~= Seq::empty());
            assert(s@.live =~= Seq::empty());
            assert(s@.generations =~= Seq::empty());
            assert(s@.subscribers =~= Seq::empty());
            assert(s@.dependencies =~= Seq::empty());
            assert(s@.memos =~= Seq::empty());
            assert(s@.recomputing =~= Seq::empty());
            assert(s@.notified =~= Seq::empty());
        }
        s
    }
}

impl<T, C> SignalStorage<T, C> {
    /// Number of slots.
    pub fn len(&self) -> (n: usize)
        requires
            self.wf(),
        ensures
            n == self@.len(),
    {
        self.values.len()
    }

    fn push_slot(&mut self, value: T, computation: Option<C>) -> (id: SignalId)
        requires
            old(self).wf(),
            old(self)@.len() < usize::MAX,
        ensures
            final(self).wf(),
            id@ == old(self)@.len(),
            final(self)@ == inserted(old(self)@, value, computation is Some),
            final(self).computations() == old(self).computations().push(computation),
    {
        let ghost old_view = self@;
        let id = SignalId { index: self.values.len() };
        let memo = computation.is_some();
        self.values.push(SignalValue { value: Some(value), generation: 0 });
        self.subscribers.push(Vec::new());
        self.dependencies.push(Vec::new());
        self.computations.push(computation);
        self.recomputing.push(false);
        proof {
            let nv = self@;
            let ev = inserted(old_view, value, memo);
            assert(nv.values =~= ev.values);
            assert(nv.live =~= ev.live);
            assert(nv.generations =~= ev.generations);
            assert(nv.subscribers =~= ev.subscribers);
            assert(nv.dependencies =~= ev.dependencies);
            assert(nv.memos =~= ev.memos);
            assert(nv.recomputing =~= ev.recomputing);
            let n = old_view.len();
            assert forall|x: SignalId, o: SignalId|
                #![trigger nv.forwards(x, o)]
                #![trigger nv.has_read(o, x)]
                x@ < nv.len() && o@ < nv.len() implies (nv.forwards(x, o) <==> nv.has_read(o, x)) by {
                if x@ == n {
                    assert(!nv.forwards(x, o));
                }
                if o@ == n {
                    assert(!nv.has_read(o, x));
                    if nv.forwards(x, o) {
                        let k = choose|k: int|
                            0 <= k < nv.subscribers[x@ as int].len()
                                && nv.subscribers[x@ as int][k] == Subscriber::Forward(o);
                        assert(old_view.subscriber_fits(x@ as int, old_view.subscribers[x@ as int][k]));
                    }
                }
                if x@ < n && o@ < n {
                    assert(old_view.forwards(x, o) <==> old_view.has_read(o, x));
                }
            }
        }
        id
    }

    /// Allocates a fresh slot holding `value` at generation 0.
    pub fn insert(&mut self, value: T) -> (id: SignalId)
        requires
            old(self).wf(),
            old(self)@.len() < usize::MAX,
        ensures
            final(self).wf(),
            id@ == old(self)@.len(),
            final(self)@.is_valid(id, 0),
            final(self)@ == inserted(old(self)@, value, false),
    {
        self.push_slot(value, None)
    }

    /// Number of callback ids handed out so far.
    pub fn callback_count(&self) -> (n: usize)
        requires
            self.wf(),
        ensures
            n == self@.callbacks,
    {
        self.callbacks
    }

    /// Whether a handle with this id and generation refers to a live slot.
    pub fn is_valid(&self, id: SignalId, generation: u32) -> (b: bool)
        requires
            self.wf(),
        ensures
            b == self@.is_valid(id, generation),
    {
        id.index < self.values.len() && self.values[id.index].value.is_some()
            && self.values[id.index].generation == generation
    }

    /// The stored value, if the handle is valid.
    pub fn get(&self, id: SignalId, generation: u32) -> (r: Option<&T>)
        requires
            self.wf(),
        ensures
            r == if self@.is_valid(id, generation) {
                Some(&self@.values[id@ as int])
            } else {
                None
            },
    {
        if self.is_valid(id, generation) {
            match &self.values[id.index].value {
                Some(v) => Some(v),
                None => None,
            }
        } else {
            None
        }
    }
}

impl<T, C> SignalStorage<T, C> {
    /// Replaces the stored value. On a valid handle, returns a snapshot of the
    /// slot's subscribers for the caller to invoke; otherwise changes nothing.
    pub fn set(&mut self, id: SignalId, generation: u32, value: T) -> (r: Option<Vec<Subscriber>>)
        requires
            old(self).wf(),
        ensures
            final(self).wf(),
            final(self).computations() == old(self).computations(),
            old(self)@.is_valid(id, generation) ==> {
                &&& r matches Some(snapshot)
                &&& snapshot@ == old(self)@.subscribers_of(id)
                &&& final(self)@ == written(old(self)@, id, value)
            },
            !old(self)@.is_valid(id, generation) ==> r is None && final(self)@ == old(self)@,
    {
        if !self.is_valid(id, generation) {
            return None;
        }
        let ghost old_view = self@;
        self.values.set(id.index, SignalValue { value: Some(value), generation });
        let snapshot = self.subscribers[id.index].clone();
        proof {
            assert(snapshot@ =~= old_view.subscribers_of(id));
            assert(self@.values =~= old_view.values.update(id@ as int, value));
            assert(self@.generations =~= old_view.generations);
            assert(self@.live =~= old_view.live);
            lemma_wf_same_graph(old_view, self@);
        }
        Some(snapshot)
    }

    /// Replaces the stored value by the first component of `f(value)` and
    /// returns the second, with a snapshot of the slot's subscribers.
    pub fn update<R, F: FnOnce(T) -> (T, R)>(&mut self, id: SignalId, generation: u32, f: F) -> (r:
        Option<(R, Vec<Subscriber>)>)
        requires
            old(self).wf(),
            old(self)@.is_valid(id, generation) ==> f.requires(
                (old(self)@.values[id@ as int],),
            ),
        ensures
            final(self).wf(),
            final(self).computations() == old(self).computations(),
            old(self)@.is_valid(id, generation) ==> {
                &&& r matches Some((res, snapshot))
                &&& snapshot@ == old(self)@.subscribers_of(id)
                &&& f.ensures(
                    (old(self)@.values[id@ as int],),
                    (final(self)@.values[id@ as int], res),
                )
                &&& final(self)@ == written(old(self)@, id, final(self)@.values[id@ as int])
            },
            !old(self)@.is_valid(id, generation) ==> r is None && final(self)@ == old(self)@,
    {
        if !self.is_valid(id, generation) {
            return None;
        }
        let ghost old_view = self@;
        let current = self.values[id.index].value.take();
        match current {
            Some(v) => {
                let (new_value, res) = f(v);
                self.values.set(id.index, SignalValue { value: Some(new_value), generation });
                let snapshot = self.subscribers[id.index].clone();
                proof {
                    assert(snapshot@ =~= old_view.subscribers_of(id));
                    assert(self@.values =~= old_view.values.update(id@ as int, new_value));
                    assert(self@.generations =~= old_view.generations);
                    assert(self@.live =~= old_view.live);
                    lemma_wf_same_graph(old_view, self@);
                }
                Some((res, snapshot))
            },
            None => None,
        }
    }
}

impl<T, C> SignalStorage<T, C> {
    /// Appends a callback to the slot's subscriber list and returns its id.
    pub fn subscribe(&mut self, id: SignalId) -> (sub: SubscriberId)
        requires
            old(self).wf(),
            id@ < old(self)@.len(),
            old(self)@.callbacks < usize::MAX,
        ensures
            final(self).wf(),
            final(self).computations() == old(self).computations(),
            sub@ == old(self)@.callbacks,
            final(self)@ == (StoreView {
                subscribers: old(self)@.subscribers.update(
                    id@ as int,
                    old(self)@.subscribers_of(id).push(Subscriber::Callback(sub)),
                ),
                callbacks: old(self)@.callbacks + 1,
                ..old(self)@
            }),
    {
        let ghost before = self@;
        let sub = SubscriberId { index: self.callbacks };
        self.subscribers[id.index].push(Subscriber::Callback(sub));
        self.callbacks = self.callbacks + 1;
        proof {
            let after = self@;
            let i = id@ as int;
            assert(after.subscribers =~= before.subscribers.update(
                i,
                before.subscribers_of(id).push(Subscriber::Callback(sub)),
            ));
            assert(after.values =~= before.values);
            assert(after.live =~= before.live);
            assert(after.generations =~= before.generations);
            assert(after.dependencies =~= before.dependencies);
            assert(after.memos =~= before.memos);
            assert forall|x: int, k: int|
                0 <= x < after.len() && 0 <= k < after.subscribers[x].len() implies after.subscriber_fits(
                x,
                #[trigger] after.subscribers[x][k],
            ) by {
                if x != i || k < before.subscribers[x].len() {
                    assert(before.subscriber_fits(x, before.subscribers[x][k]));
                }
            }
            assert forall|x: int, j: int, k: int|
                0 <= x < after.len() && 0 <= j < k < after.subscribers[x].len()
                    && after.subscribers[x][j] is Forward implies #[trigger] after.subscribers[x][j]
                != #[trigger] after.subscribers[x][k] by {
                if x == i && k == before.subscribers[x].len() {
                } else {
                    assert(before.subscribers[x][j] != before.subscribers[x][k]);
                }
            }
            assert forall|x: SignalId, o: SignalId|
                #![trigger after.forwards(x, o)]
                #![trigger after.has_read(o, x)]
                x@ < after.len() && o@ < after.len() implies (after.forwards(x, o)
                <==> after.has_read(o, x)) by {
                assert(before.forwards(x, o) <==> before.has_read(o, x));
                if x@ == i {
                    let s0 = before.subscribers[i];
                    assert(after.subscribers[i] == s0.push(Subscriber::Callback(sub)));
                    if after.forwards(x, o) {
                        let k = choose|k: int|
                            0 <= k < after.subscribers[i].len() && after.subscribers[i][k]
                                == Subscriber::Forward(o);
                        assert(s0[k] == Subscriber::Forward(o));
                    }
                    if before.forwards(x, o) {
                        let k = choose|k: int|
                            0 <= k < s0.len() && s0[k] == Subscriber::Forward(o);
                        assert(after.subscribers[i][k] == Subscriber::Forward(o));
                    }
                }
            }
        }
        sub
    }

    /// Makes `observer` the current observer and returns the previous one.
    pub fn set_observer(&mut self, observer: Option<SignalId>) -> (previous: Option<SignalId>)
        requires
            old(self).wf(),
            observer matches Some(o) ==> o@ < old(self)@.len(),
        ensures
            final(self).wf(),
            final(self).computations() == old(self).computations(),
            previous == old(self)@.observer,
            final(self)@ == (StoreView { observer, ..old(self)@ }),
    {
        let previous = self.current_observer;
        self.current_observer = observer;
        proof {
            let after = self@;
            let before = old(self)@;
            lemma_wf_same_graph(before, after);
        }
        previous
    }

    /// Hands out the callbacks fired since the last call, in firing order.
    pub fn take_notifications(&mut self) -> (fired: Vec<SubscriberId>)
        requires
            old(self).wf(),
        ensures
            final(self).wf(),
            final(self).computations() == old(self).computations(),
            fired@ == old(self)@.notified,
            final(self)@ == (StoreView { notified: Seq::empty(), ..old(self)@ }),
    {
        let mut fired = Vec::new();
        std::mem::swap(&mut fired, &mut self.notified);
        proof {
            let after = self@;
            let before = old(self)@;
            assert(after.notified =~= Seq::<SubscriberId>::empty());
            lemma_wf_same_graph(before, after);
        }
        fired
    }
}

impl<T, C> SignalStorage<T, C> {
    fn has_dependency(&self, observer: SignalId, id: SignalId) -> (b: bool)
        requires
            self.wf(),
            observer@ < self@.len(),
        ensures
            b == self@.has_read(observer, id),
    {
        let deps = &self.dependencies[observer.index];
        let mut k: usize = 0;
        while k < deps.len()
            invariant
                self.wf(),
                observer@ < self@.len(),
                deps@ == self@.dependencies[observer@ as int],
                k <= deps.len(),
                forall|j: int| 0 <= j < k ==> deps@[j] != id,
            decreases deps.len() - k,
        {
            if deps[k] == id {
                return true;
            }
            k = k + 1;
        }
        false
    }

    /// Records a read of `id` for the current observer, if there is one.
    pub fn track_read(&mut self, id: SignalId)
        requires
            old(self).wf(),
            id@ < old(self)@.len(),
        ensures
            final(self).wf(),
            final(self).computations() == old(self).computations(),
            final(self)@ == after_read(old(self)@, id),
    {
        let ghost before = self@;
        match self.current_observer {
            Some(o) => {
                if !self.has_dependency(o, id) {
                    self.dependencies[o.index].push(id);
                    self.subscribers[id.index].push(Subscriber::Forward(o));
                    proof {
                        assert(self@.dependencies =~= before.dependencies.update(
                            o@ as int,
                            before.dependencies[o@ as int].push(id),
                        ));
                        assert(self@.subscribers =~= before.subscribers.update(
                            id@ as int,
                            before.subscribers[id@ as int].push(Subscriber::Forward(o)),
                        ));
                        assert(self@.values =~= before.values);
                        assert(self@.live =~= before.live);
                        assert(self@.generations =~= before.generations);
                        assert(self@.memos =~= before.memos);
                        self.lemma_wf_after_tracking(before, id, o);
                    }
                }
            },
            None => {},
        }
    }

    proof fn lemma_wf_after_tracking(&self, before: StoreView<T>, id: SignalId, o: SignalId)
        requires
            before.wf(),
            id@ < before.len(),
            o@ < before.len(),
            !before.has_read(o, id),
            self.subscribers.len() == self.values.len(),
            self.dependencies.len() == self.values.len(),
            self.computations.len() == self.values.len(),
            self.recomputing.len() == self.values.len(),
            self@.values == before.values,
            self@.live == before.live,
            self@.generations == before.generations,
            self@.memos == before.memos,
            self@.recomputing == before.recomputing,
            self@.observer == before.observer,
            self@.notified == before.notified,
            self@.callbacks == before.callbacks,
            self@.dependencies == before.dependencies.update(
                o@ as int,
                before.dependencies[o@ as int].push(id),
            ),
            self@.subscribers == before.subscribers.update(
                id@ as int,
                before.subscribers[id@ as int].push(Subscriber::Forward(o)),
            ),
        ensures
            self.wf(),
            self@ == (StoreView {
                dependencies: before.dependencies.update(
                    o@ as int,
                    before.dependencies[o@ as int].push(id),
                ),
                subscribers: before.subscribers.update(
                    id@ as int,
                    before.subscribers[id@ as int].push(Subscriber::Forward(o)),
                ),
                ..before
            }),
    {
        let after = self@;
        let xi = id@ as int;
        let oi = o@ as int;
        assert(!before.forwards(id, o));
        assert forall|x: int, k: int|
            0 <= x < after.len() && 0 <= k < after.subscribers[x].len() implies after.subscriber_fits(
            x,
            #[trigger] after.subscribers[x][k],
        ) by {
            if x != xi || k < before.subscribers[x].len() {
                assert(before.subscriber_fits(x, before.subscribers[x][k]));
            }
        }
        assert forall|x: int, j: int, k: int|
            0 <= x < after.len() && 0 <= j < k < after.subscribers[x].len()
                && after.subscribers[x][j] is Forward implies #[trigger] after.subscribers[x][j]
            != #[trigger] after.subscribers[x][k] by {
            if x == xi && k == before.subscribers[x].len() {
                assert(after.subscribers[x][j] == before.subscribers[x][j]);
                if before.subscribers[x][j] == Subscriber::Forward(o) {
                    assert(before.forwards(id, o));
                }
            } else {
                assert(before.subscribers[x][j] != before.subscribers[x][k]);
            }
        }
        assert forall|p: int, k: int|
            0 <= p < after.len() && 0 <= k < after.dependencies[p].len() implies (
            #[trigger] after.dependencies[p][k])@ < after.len() by {
            if p != oi || k < before.dependencies[p].len() {
                assert(before.dependencies[p][k]@ < before.len());
            }
        }
        assert forall|p: int, j: int, k: int|
            0 <= p < after.len() && 0 <= j < k < after.dependencies[p].len()
                implies #[trigger] after.dependencies[p][j] != #[trigger] after.dependencies[p][k] by {
            if p == oi && k == before.dependencies[p].len() {
                assert(after.dependencies[p][j] == before.dependencies[p][j]);
                if before.dependencies[p][j] == id {
                    assert(before.has_read(o, id));
                }
            } else {
                assert(before.dependencies[p][j] != before.dependencies[p][k]);
            }
        }
        assert forall|x: SignalId, q: SignalId|
            #![trigger after.forwards(x, q)]
            #![trigger after.has_read(q, x)]
            x@ < after.len() && q@ < after.len() implies (after.forwards(x, q) <==> after.has_read(
                q,
                x,
            )) by {
            assert(before.forwards(x, q) <==> before.has_read(q, x));
            let sx = before.subscribers[x@ as int];
            let dq = before.dependencies[q@ as int];
            if x@ == xi {
                assert(after.subscribers[x@ as int] == sx.push(Subscriber::Forward(o)));
                if after.forwards(x, q) {
                    let k = choose|k: int|
                        0 <= k < after.subscribers[x@ as int].len() && after.subscribers[x@ as int][k]
                            == Subscriber::Forward(q);
                    if k < sx.len() {
                        assert(sx[k] == Subscriber::Forward(q));
                    }
                }
                if before.forwards(x, q) {
                    let k = choose|k: int| 0 <= k < sx.len() && sx[k] == Subscriber::Forward(q);
                    assert(after.subscribers[x@ as int][k] == Subscriber::Forward(q));
                }
                if q == o {
                    assert(after.subscribers[x@ as int][sx.len() as int] == Subscriber::Forward(q));
                }
            }
            if q@ == oi {
                assert(after.dependencies[q@ as int] == dq.push(id));
                if after.has_read(q, x) {
                    let k = choose|k: int|
                        0 <= k < after.dependencies[q@ as int].len() && after.dependencies[q@ as int][k]
                            == x;
                    if k < dq.len() {
                        assert(dq[k] == x);
                    }
                }
                if before.has_read(q, x) {
                    let k = choose|k: int| 0 <= k < dq.len() && dq[k] == x;
                    assert(after.dependencies[q@ as int][k] == x);
                }
                if x == id {
                    assert(after.dependencies[q@ as int][dq.len() as int] == x);
                }
            }
        }
    }
}

/// Read access to the arena while a memo computes; every tracked read is
/// recorded so that it can be attributed to the memo afterwards.
pub struct Tracker<'a, T> {
    values: &'a Vec<SignalValue<T>>,
    reads: Vec<SignalId>,
}

impl<'a, T> Tracker<'a, T> {
    /// The values of the arena being read.
    pub closed spec fn values(&self) -> Seq<T> {
        self.values@.map_values(|s: SignalValue<T>| s.value->Some_0)
    }

    /// Which slots of the arena still hold a value.
    pub closed spec fn live(&self) -> Seq<bool> {
        self.values@.map_values(|s: SignalValue<T>| s.value is Some)
    }

    /// The generation of each slot of the arena.
    pub closed spec fn generations(&self) -> Seq<u32> {
        self.values@.map_values(|s: SignalValue<T>| s.generation)
    }

    /// The reads recorded so far, in order.
    pub closed spec fn reads(&self) -> Seq<SignalId> {
        self.reads@
    }

    /// A handle with this id and generation refers to a live slot.
    pub open spec fn is_valid(&self, id: SignalId, generation: u32) -> bool {
        &&& id@ < self.values().len()
        &&& id@ < self.live().len()
        &&& id@ < self.generations().len()
        &&& self.live()[id@ as int]
        &&& self.generations()[id@ as int] == generation
    }

    fn new(values: &'a Vec<SignalValue<T>>) -> (t: Self)
        ensures
            t.reads().len() == 0,
            t.values == values,
    {
        Tracker { values, reads: Vec::new() }
    }

    fn into_reads(self) -> (r: Vec<SignalId>)
        ensures
            r@ == self.reads(),
    {
        self.reads
    }

    /// Whether a handle with this id and generation refers to a live slot.
    pub(crate) fn is_valid_handle(&self, id: SignalId, generation: u32) -> (b: bool)
        ensures
            b == self.is_valid(id, generation),
    {
        id.index < self.values.len() && self.values[id.index].value.is_some()
            && self.values[id.index].generation == generation
    }

    /// Tracked read: a clone of the value, with the read recorded.
    pub(crate) fn get_value(&mut self, id: SignalId, generation: u32) -> (r: T) where T: Clone
        requires
            old(self).is_valid(id, generation),
        ensures
            final(self).values() == old(self).values(),
            final(self).live() == old(self).live(),
            final(self).generations() == old(self).generations(),
            final(self).reads() == old(self).reads().push(id),
            cloned(old(self).values()[id@ as int], r),
    {
        proof {
            assert(self.values@[id@ as int].value is Some);
        }
        self.reads.push(id);
        self.values[id.index].value.as_ref().unwrap().clone()
    }

    /// Untracked read: a clone of the value, nothing recorded.
    pub(crate) fn get_value_untracked(&self, id: SignalId, generation: u32) -> (r: T) where T: Clone
        requires
            self.is_valid(id, generation),
        ensures
            cloned(self.values()[id@ as int], r),
    {
        proof {
            assert(self.values@[id@ as int].value is Some);
        }
        self.values[id.index].value.as_ref().unwrap().clone()
    }

    /// Tracked read through a callback on a reference to the value.
    pub(crate) fn with_value<R, F: FnOnce(&T) -> R>(
        &mut self,
        id: SignalId,
        generation: u32,
        f: F,
    ) -> (r: R)
        requires
            old(self).is_valid(id, generation),
            f.requires((&old(self).values()[id@ as int],)),
        ensures
            final(self).values() == old(self).values(),
            final(self).live() == old(self).live(),
            final(self).generations() == old(self).generations(),
            final(self).reads() == old(self).reads().push(id),
            f.ensures((&old(self).values()[id@ as int],), r),
    {
        proof {
            assert(self.values@[id@ as int].value is Some);
        }
        self.reads.push(id);
        f(self.values[id.index].value.as_ref().unwrap())
    }
}

/// How a memo derives its value: a pure function of the arena's values.
/// Reads made through the tracker become the memo's dependencies; the
/// computation cannot write to the arena.
pub trait Computation<T>: Sized {
    /// The value computed from the arena's values, liveness and
    /// generations. An implementation verified with Verus defines it; for
    /// others it stays abstract.
    closed spec fn result(&self, values: Seq<T>, live: Seq<bool>, generations: Seq<u32>) -> T {
        arbitrary()
    }

    /// The slots read through the tracker, in order, given the arena's
    /// values, liveness and generations. An implementation verified with
    /// Verus defines it; for others it stays abstract.
    closed spec fn reads(&self, values: Seq<T>, live: Seq<bool>, generations: Seq<u32>) -> Seq<
        SignalId,
    > {
        arbitrary()
    }

    fn compute(&self, tracker: &mut Tracker<'_, T>) -> (r: T)
        ensures
            r == self.result(
                old(tracker).values(),
                old(tracker).live(),
                old(tracker).generations(),
            ),
            final(tracker).reads() == old(tracker).reads() + self.reads(
                old(tracker).values(),
                old(tracker).live(),
                old(tracker).generations(),
            ),
            final(tracker).values() == old(tracker).values(),
            final(tracker).live() == old(tracker).live(),
            final(tracker).generations() == old(tracker).generations(),
    ;
}

/// Marking an idle memo as recomputing lowers the idle count by one.
pub proof fn lemma_idle_count_mark(flags: Seq<bool>, m: int)
    requires
        0 <= m < flags.len(),
        !flags[m],
    ensures
        idle_count(flags.update(m, true)) + 1 == idle_count(flags),
    decreases flags.len(),
{
    let g = flags.update(m, true);
    if m == flags.len() - 1 {
        assert(g.drop_last() =~= flags.drop_last());
    } else {
        assert(g.drop_last() =~= flags.drop_last().update(m, true));
        lemma_idle_count_mark(flags.drop_last(), m);
    }
}

impl<T, C> SignalStorage<T, C> {
    /// Tracks each read that names a slot of this storage.
    fn track_reads(&mut self, reads: &Vec<SignalId>)
        requires
            old(self).wf(),
        ensures
            final(self).wf(),
            final(self)@.len() == old(self)@.len(),
            final(self)@.values == old(self)@.values,
            final(self)@.live == old(self)@.live,
            final(self)@.generations == old(self)@.generations,
            final(self)@.memos == old(self)@.memos,
            final(self)@.recomputing == old(self)@.recomputing,
            final(self)@.observer == old(self)@.observer,
            final(self)@.notified == old(self)@.notified,
            final(self)@.callbacks == old(self)@.callbacks,
            final(self)@ == after_reads(old(self)@, reads@),
            final(self).computations() == old(self).computations(),
    {
        let mut k: usize = 0;
        while k < reads.len()
            invariant
                self.wf(),
                k <= reads.len(),
                self@.len() == old(self)@.len(),
                self@.values == old(self)@.values,
                self@.live == old(self)@.live,
                self@.generations == old(self)@.generations,
                self@.memos == old(self)@.memos,
                self@.recomputing == old(self)@.recomputing,
                self@.observer == old(self)@.observer,
                self@.notified == old(self)@.notified,
                self@.callbacks == old(self)@.callbacks,
                self@ == after_reads(old(self)@, reads@.take(k as int)),
                self.computations() == old(self).computations(),
            decreases reads.len() - k,
        {
            let id = reads[k];
            proof {
                assert(reads@.take(k + 1).drop_last() =~= reads@.take(k as int));
            }
            if id.index < self.values.len() {
                self.track_read(id);
            }
            k = k + 1;
        }
        proof {
            assert(reads@.take(reads@.len() as int) =~= reads@);
        }
    }

    /// Sets or clears the recomputing flag of memo slot `m`.
    fn mark_recomputing(&mut self, m: SignalId, flag: bool)
        requires
            old(self).wf(),
            m@ < old(self)@.len(),
        ensures
            final(self).wf(),
            final(self).computations() == old(self).computations(),
            final(self)@ == (StoreView {
                recomputing: old(self)@.recomputing.update(m@ as int, flag),
                ..old(self)@
            }),
    {
        self.recomputing.set(m.index, flag);
        proof {
            let after = self@;
            let before = old(self)@;
            lemma_wf_same_graph(before, after);
        }
    }

    /// Invokes a snapshot of `source`'s subscribers in order: a forwarding
    /// subscription recomputes its observer, a memo's own subscription
    /// recomputes the memo, and a callback is appended to the log.
    pub fn invoke(&mut self, source: SignalId, batch: Vec<Subscriber>) where C: Computation<T>
        requires
            old(self).wf(),
            source@ < old(self)@.len(),
            forall|k: int|
                0 <= k < batch@.len() ==> old(self)@.subscriber_fits(source@ as int, #[trigger] batch@[k]),
        ensures
            final(self).wf(),
            final(self).computations() == old(self).computations(),
            final(self)@ == after_notify(
                old(self).computations(),
                old(self)@.len(),
                old(self)@,
                source,
                batch@,
            ),
            cascade(old(self)@, final(self)@),
            callbacks_only(batch@) ==> final(self)@ == (StoreView {
                notified: old(self)@.notified + callback_ids(batch@),
                ..old(self)@
            }),
        decreases idle_count(old(self)@.recomputing), 1nat,
    {
        let mut k: usize = 0;
        while k < batch.len()
            invariant
                self.wf(),
                k <= batch.len(),
                source@ < old(self)@.len(),
                cascade(old(self)@, self@),
                forall|j: int|
                    0 <= j < batch@.len() ==> old(self)@.subscriber_fits(source@ as int, #[trigger] batch@[j]),
                callbacks_only(batch@) ==> self@ == (StoreView {
                    notified: old(self)@.notified + callback_ids(batch@.take(k as int)),
                    ..old(self)@
                }),
                self.computations() == old(self).computations(),
                self@ == after_notify(
                    old(self).computations(),
                    old(self)@.len(),
                    old(self)@,
                    source,
                    batch@.take(k as int),
                ),
            decreases batch.len() - k,
        {
            let ghost before = self@;
            let ghost entry = batch@[k as int];
            assert(old(self)@.subscriber_fits(source@ as int, entry));
            proof {
                assert(batch@.take(k + 1).drop_last() =~= batch@.take(k as int));
                assert(batch@.take(k + 1).last() == entry);
                assert((StoreView { recomputing: old(self)@.recomputing, ..self@ }) == self@);
            }
            match batch[k] {
                Subscriber::Forward(o) => {
                    self.recompute(o);
                },
                Subscriber::Recompute(m) => {
                    self.recompute(m);
                },
                Subscriber::Callback(c) => {
                    self.notified.push(c);
                    proof {
                        let after = self@;
                        assert(after.subscribers =~= before.subscribers);
                        assert(after.dependencies =~= before.dependencies);
                        assert(after.values =~= before.values);
                        assert(after.live =~= before.live);
                        assert(after.generations =~= before.generations);
                        assert(after.memos =~= before.memos);
                        lemma_wf_same_graph(before, after);
                        if callbacks_only(batch@) {
                            assert(callback_ids(batch@.take(k + 1)) =~= callback_ids(
                                batch@.take(k as int),
                            ).push(c));
                            assert(after.notified =~= old(self)@.notified + callback_ids(
                                batch@.take(k + 1),
                            ));
                        }
                    }
                },
            }
            k = k + 1;
        }
        proof {
            assert(batch@.take(batch@.len() as int) =~= batch@);
        }
    }

    /// Invokes a snapshot of the subscribers of `id`.
    pub fn notify_subscribers(&mut self, id: SignalId) where C: Computation<T>
        requires
            old(self).wf(),
            id@ < old(self)@.len(),
        ensures
            final(self).wf(),
            final(self).computations() == old(self).computations(),
            final(self)@ == after_notify(
                old(self).computations(),
                old(self)@.len(),
                old(self)@,
                id,
                old(self)@.subscribers_of(id),
            ),
            cascade(old(self)@, final(self)@),
            callbacks_only(old(self)@.subscribers_of(id)) ==> final(self)@ == (StoreView {
                notified: old(self)@.notified + callback_ids(old(self)@.subscribers_of(id)),
                ..old(self)@
            }),
    {
        let batch = self.subscribers[id.index].clone();
        proof {
            assert(batch@ =~= self@.subscribers_of(id));
        }
        self.invoke(id, batch);
    }

    /// Re-runs the computation of memo `m` unless it is already recomputing,
    /// records its reads as dependencies, and writes the new value, which
    /// notifies the memo's subscribers. The recomputing flag is released
    /// before returning.
    fn recompute(&mut self, m: SignalId) where C: Computation<T>
        requires
            old(self).wf(),
            m@ < old(self)@.len(),
        ensures
            final(self).wf(),
            final(self).computations() == old(self).computations(),
            final(self)@ == after_recompute(
                old(self).computations(),
                old(self)@.len(),
                old(self)@,
                m,
            ),
            cascade(old(self)@, final(self)@),
        decreases idle_count(old(self)@.recomputing), 0nat,
    {
        if self.recomputing[m.index] {
            return;
        }
        let (value, reads) = match &self.computations[m.index] {
            Some(computation) => {
                let mut tracker = Tracker::new(&self.values);
                let value = computation.compute(&mut tracker);
                (value, tracker.into_reads())
            },
            None => {
                return;
            },
        };
        let ghost start = self@;
        proof {
            assert(value == computed(self.computations()[m@ as int]->Some_0, start));
            assert(reads@ == computed_reads(self.computations()[m@ as int]->Some_0, start));
        }
        self.mark_recomputing(m, true);
        proof {
            lemma_idle_count_mark(start.recomputing, m@ as int);
        }
        let ghost comps = self.computations();
        let ghost c = comps[m@ as int]->Some_0;
        let ghost flags = start.recomputing.update(m@ as int, true);
        let previous = self.set_observer(Some(m));
        proof {
            assert(self@ == (StoreView { observer: Some(m), recomputing: flags, ..start }));
        }
        self.track_reads(&reads);
        let ghost with_reads = self@;
        self.set_observer(previous);
        let generation = self.values[m.index].generation;
        let ghost before_write = self@;
        proof {
            self.lemma_view_wf();
            assert(self@.memos[m@ as int]);
        }
        match self.set(m, generation, value) {
            Some(batch) => {
                proof {
                    assert forall|k: int| 0 <= k < batch@.len() implies before_write.subscriber_fits(
                        m@ as int,
                        #[trigger] batch@[k],
                    ) by {
                        assert(before_write.subscriber_fits(m@ as int, before_write.subscribers[m@ as int][k]));
                    }
                }
                proof {
                    let stored = StoreView {
                        values: with_reads.values.update(m@ as int, computed(c, start)),
                        observer: start.observer,
                        recomputing: flags,
                        ..with_reads
                    };
                    assert(self@ == stored);
                    assert(batch@ == stored.subscribers[m@ as int]);
                }
                self.invoke(m, batch);
            },
            None => {},
        }
        let ghost notified = self@;
        self.mark_recomputing(m, false);
        proof {
            assert(self@.recomputing =~= old(self)@.recomputing);
        }
    }
}

impl<T, C> SignalStorage<T, C> {
    /// Allocates a memo slot: runs `computation` once, stores its result in a
    /// fresh slot, records the reads as the memo's dependencies (the memo being
    /// the observer), restores the previous observer, and subscribes the memo's
    /// recomputation to its own slot.
    pub fn insert_memo(&mut self, computation: C) -> (id: SignalId) where C: Computation<T>
        requires
            old(self).wf(),
            old(self)@.len() < usize::MAX,
        ensures
            final(self).wf(),
            id@ == old(self)@.len(),
            final(self)@.len() == old(self)@.len() + 1,
            final(self)@.is_valid(id, 0),
            final(self)@.values == old(self)@.values.push(final(self)@.values[id@ as int]),
            final(self)@.memos == old(self)@.memos.push(true),
            final(self)@.recomputing == old(self)@.recomputing.push(false),
            final(self)@.observer == old(self)@.observer,
            final(self)@.notified == old(self)@.notified,
            final(self)@.callbacks == old(self)@.callbacks,
            final(self).computations() == old(self).computations().push(Some(computation)),
            final(self)@ == after_memo_insert(old(self)@, id, computation),
            final(self)@.values[id@ as int] == computed(computation, old(self)@),
    {
        let ghost start = self@;
        let (value, reads) = {
            let mut tracker = Tracker::new(&self.values);
            let value = computation.compute(&mut tracker);
            (value, tracker.into_reads())
        };
        let ghost c = computation;
        let id = self.push_slot(value, Some(computation));
        let previous = self.set_observer(Some(id));
        proof {
            let fresh = inserted(start, computed(c, start), true);
            assert(self@ == (StoreView { observer: Some(id), ..fresh }));
            assert(reads@ == computed_reads(c, start));
            lemma_after_reads_frame(self@, id, reads@);
        }
        self.track_reads(&reads);
        self.set_observer(previous);
        self.add_recompute(id);
        id
    }

    /// Appends memo `m`'s recomputation to the subscribers of its own slot.
    fn add_recompute(&mut self, m: SignalId)
        requires
            old(self).wf(),
            m@ < old(self)@.len(),
        ensures
            final(self).wf(),
            final(self).computations() == old(self).computations(),
            final(self)@ == (StoreView {
                subscribers: old(self)@.subscribers.update(
                    m@ as int,
                    old(self)@.subscribers_of(m).push(Subscriber::Recompute(m)),
                ),
                ..old(self)@
            }),
    {
        let ghost before = self@;
        self.subscribers[m.index].push(Subscriber::Recompute(m));
        proof {
            let after = self@;
            let i = m@ as int;
            assert(after.subscribers =~= before.subscribers.update(
                i,
                before.subscribers_of(m).push(Subscriber::Recompute(m)),
            ));
            assert(after.values =~= before.values);
            assert(after.live =~= before.live);
            assert(after.generations =~= before.generations);
            assert(after.dependencies =~= before.dependencies);
            assert(after.memos =~= before.memos);
            assert forall|x: int, k: int|
                0 <= x < after.len() && 0 <= k < after.subscribers[x].len() implies after.subscriber_fits(
                x,
                #[trigger] after.subscribers[x][k],
            ) by {
                if x != i || k < before.subscribers[x].len() {
                    assert(before.subscriber_fits(x, before.subscribers[x][k]));
                }
            }
            assert forall|x: int, j: int, k: int|
                0 <= x < after.len() && 0 <= j < k < after.subscribers[x].len()
                    && after.subscribers[x][j] is Forward implies #[trigger] after.subscribers[x][j]
                != #[trigger] after.subscribers[x][k] by {
                if x == i && k == before.subscribers[x].len() {
                } else {
                    assert(before.subscribers[x][j] != before.subscribers[x][k]);
                }
            }
            assert forall|x: SignalId, o: SignalId|
                #![trigger after.forwards(x, o)]
                #![trigger after.has_read(o, x)]
                x@ < after.len() && o@ < after.len() implies (after.forwards(x, o)
                <==> after.has_read(o, x)) by {
                assert(before.forwards(x, o) <==> before.has_read(o, x));
                if x@ == i {
                    let s0 = before.subscribers[i];
                    if after.forwards(x, o) {
                        let k = choose|k: int|
                            0 <= k < after.subscribers[i].len() && after.subscribers[i][k]
                                == Subscriber::Forward(o);
                        assert(s0[k] == Subscriber::Forward(o));
                    }
                    if before.forwards(x, o) {
                        let k = choose|k: int| 0 <= k < s0.len() && s0[k] == Subscriber::Forward(o);
                        assert(after.subscribers[i][k] == Subscriber::Forward(o));
                    }
                }
            }
        }
    }
}

impl<T, C> SignalStorage<T, C> {
    /// A well-formed storage has a well-formed model, with one computation
    /// entry per slot, present exactly on memo slots.
    pub proof fn lemma_view_wf(&self)
        requires
            self.wf(),
        ensures
            self@.wf(),
            self.computations().len() == self@.len(),
            forall|i: int|
                0 <= i < self@.len() ==> (#[trigger] self@.memos[i] <==> self.computations()[i] is Some),
    {
    }
}

/// However often an observer reads a slot, across any number of
/// computations, the slot holds at most one forwarding subscription to that
/// observer, and it holds one exactly when the observer has read the slot.
pub proof fn lemma_single_forwarding<T>(v: StoreView<T>, x: SignalId, o: SignalId)
    requires
        v.wf(),
        x@ < v.len(),
        o@ < v.len(),
    ensures
        forall|j: int, k: int|
            0 <= j < v.subscribers_of(x).len() && 0 <= k < v.subscribers_of(x).len()
                && v.subscribers_of(x)[j] == Subscriber::Forward(o) && v.subscribers_of(x)[k]
                == Subscriber::Forward(o) ==> j == k,
        v.has_read(o, x) <==> exists|k: int|
            0 <= k < v.subscribers_of(x).len() && v.subscribers_of(x)[k] == Subscriber::Forward(o),
{
    let subs = v.subscribers_of(x);
    assert forall|j: int, k: int|
        0 <= j < subs.len() && 0 <= k < subs.len() && subs[j] == Subscriber::Forward(o)
            && subs[k] == Subscriber::Forward(o) implies j == k by {
        if j < k {
            assert(v.subscribers[x@ as int][j] != v.subscribers[x@ as int][k]);
        } else if k < j {
            assert(v.subscribers[x@ as int][k] != v.subscribers[x@ as int][j]);
        }
    }
    assert(v.forwards(x, o) <==> v.has_read(o, x));
}

/// A plain signal reads back the value it was created with, and after a
/// write, whatever notifications follow, it reads back the written value.
pub proof fn lemma_round_trip<T>(
    v: StoreView<T>,
    id: SignalId,
    value: T,
    next: T,
    after: StoreView<T>,
)
    requires
        v.wf(),
        id@ == v.len(),
        cascade(written(inserted(v, value, false), id, next), after),
    ensures
        inserted(v, value, false).values[id@ as int] == value,
        after.values[id@ as int] == next,
{
    let created = inserted(v, value, false);
    assert(!created.memos[id@ as int]);
    assert(written(created, id, next).values[id@ as int] == next);
}

/// Well-formedness depends only on the subscriber lists, the dependency
/// sets, the observer, the number of callbacks and the number of slots.
proof fn lemma_wf_same_graph<T>(before: StoreView<T>, after: StoreView<T>)
    requires
        before.wf(),
        after.len() == before.len(),
        after.live.len() == before.len(),
        after.generations.len() == before.len(),
        after.memos.len() == before.len(),
        after.recomputing.len() == before.len(),
        after.subscribers == before.subscribers,
        after.dependencies == before.dependencies,
        after.observer matches Some(o) ==> o@ < before.len(),
        after.callbacks == before.callbacks,
        forall|i: int| 0 <= i < after.len() && #[trigger] after.memos[i] ==> after.live[i],
    ensures
        after.wf(),
{
    assert forall|x: SignalId, o: SignalId|
        #![trigger after.forwards(x, o)]
        #![trigger after.has_read(o, x)]
        x@ < after.len() && o@ < after.len() implies (after.forwards(x, o) <==> after.has_read(o, x)) by {
        assert(before.forwards(x, o) <==> before.has_read(o, x));
    }
}

impl<T, C> SignalStorage<T, C> {
    /// Releases the value of a slot, and the computation of a memo slot;
    /// afterwards every handle to the slot is stale. Ids are never reused,
    /// so a stale handle can never reach another value. Subscriber lists and
    /// dependency sets are left as they are.
    pub fn dispose(&mut self, id: SignalId, generation: u32) -> (disposed: bool)
        requires
            old(self).wf(),
        ensures
            final(self).wf(),
            !disposed ==> final(self).computations() == old(self).computations(),
            disposed ==> final(self).computations() == old(self).computations().update(
                id@ as int,
                None,
            ),
            disposed == old(self)@.is_valid(id, generation),
            !disposed ==> final(self)@ == old(self)@,
            disposed ==> final(self)@ == (StoreView {
                values: old(self)@.values.update(id@ as int, final(self)@.values[id@ as int]),
                live: old(self)@.live.update(id@ as int, false),
                memos: old(self)@.memos.update(id@ as int, false),
                ..old(self)@
            }),
    {
        if !self.is_valid(id, generation) {
            return false;
        }
        let ghost before = self@;
        self.values.set(id.index, SignalValue { value: None, generation });
        self.computations.set(id.index, None);
        proof {
            let after = self@;
            let i = id@ as int;
            assert(after.values =~= before.values.update(i, after.values[i]));
            assert(after.live =~= before.live.update(i, false));
            assert(after.memos =~= before.memos.update(i, false));
            assert(after.generations =~= before.generations);
            assert(after.subscribers =~= before.subscribers);
            assert(after.dependencies =~= before.dependencies);
            lemma_wf_same_graph(before, after);
        }
        true
    }
}

/// Tracking reads under observer `o` changes only subscriber lists, by
/// appending forwarding subscriptions to `o`, and dependency sets.
proof fn lemma_after_reads_frame<T>(v: StoreView<T>, o: SignalId, reads: Seq<SignalId>)
    requires
        v.observer == Some(o),
        o@ < v.len(),
        v.subscribers.len() == v.len(),
        v.dependencies.len() == v.len(),
    ensures
        after_reads(v, reads).len() == v.len(),
        after_reads(v, reads).values == v.values,
        after_reads(v, reads).memos == v.memos,
        after_reads(v, reads).recomputing == v.recomputing,
        after_reads(v, reads).observer == v.observer,
        after_reads(v, reads).notified == v.notified,
        after_reads(v, reads).subscribers.len() == v.len(),
        after_reads(v, reads).dependencies.len() == v.len(),
        forall|k: int|
            0 <= k < after_reads(v, reads).subscribers[o@ as int].len() ==> {
                let e = #[trigger] after_reads(v, reads).subscribers[o@ as int][k];
                e == Subscriber::Forward(o) || (k < v.subscribers[o@ as int].len() && e
                    == v.subscribers[o@ as int][k])
            },
    decreases reads.len(),
{
    if reads.len() > 0 {
        lemma_after_reads_frame(v, o, reads.drop_last());
    }
}

/// A write to a signal whose only subscriber is the forwarding subscription
/// of an idle memo, whose own only subscriber is its recomputation, leaves
/// the memo holding its computation's result on the values after the write:
/// the memo is recomputed exactly once and nothing else is notified.
pub proof fn lemma_write_recomputes_memo<T, C: Computation<T>>(
    comps: Seq<Option<C>>,
    v: StoreView<T>,
    s: SignalId,
    m: SignalId,
    value: T,
)
    requires
        v.wf(),
        comps.len() == v.len(),
        s@ < m@ < v.len(),
        comps[m@ as int] is Some,
        !v.recomputing[m@ as int],
        v.subscribers_of(s) == seq![Subscriber::Forward(m)],
        v.subscribers_of(m) == seq![Subscriber::Recompute(m)],
    ensures
        ({
            let w = written(v, s, value);
            let after = after_notify(comps, v.len(), w, s, v.subscribers_of(s));
            &&& after.values[m@ as int] == computed(comps[m@ as int]->Some_0, w)
            &&& after.recomputing == v.recomputing
            &&& after.notified == v.notified
        }),
{
    let w = written(v, s, value);
    let n = v.len();
    let batch = v.subscribers_of(s);
    let c = comps[m@ as int]->Some_0;
    assert(batch.drop_last() =~= Seq::<Subscriber>::empty());
    let prev = StoreView { recomputing: w.recomputing, ..w };
    assert(prev == w);
    let flags = w.recomputing.update(m@ as int, true);
    let start = StoreView { observer: Some(m), recomputing: flags, ..w };
    lemma_after_reads_frame(start, m, computed_reads(c, w));
    let with_reads = after_reads(start, computed_reads(c, w));
    let stored = StoreView {
        values: with_reads.values.update(m@ as int, computed(c, w)),
        observer: w.observer,
        recomputing: flags,
        ..with_reads
    };
    let sb = stored.subscribers[m@ as int];
    assert(start.subscribers[m@ as int] == seq![Subscriber::Recompute(m)]);
    assert forall|k: int| 0 <= k < sb.len() implies #[trigger] sb[k] == Subscriber::Forward(m)
        || sb[k] == Subscriber::Recompute(m) by {
        assert(with_reads.subscribers[m@ as int][k] == sb[k]);
    }
    lemma_notify_flagged_self(comps, n, stored, m, sb);
    assert(after_recompute(comps, n, w, m) == (StoreView { recomputing: w.recomputing, ..stored }));
    assert(after_notify(comps, n, w, s, batch.drop_last()) == w);
    assert(batch.last() == Subscriber::Forward(m));
    assert(after_notify(comps, n, w, s, batch) == after_recompute(comps, n, w, m));
    assert(stored.values[m@ as int] == computed(c, w));
}

/// Invoking, for a memo that is recomputing, subscribers that all name the
/// memo itself changes nothing.
proof fn lemma_notify_flagged_self<T, C: Computation<T>>(
    comps: Seq<Option<C>>,
    n: nat,
    v: StoreView<T>,
    m: SignalId,
    batch: Seq<Subscriber>,
)
    requires
        m@ < n,
        m@ < v.recomputing.len(),
        v.recomputing[m@ as int],
        forall|k: int|
            0 <= k < batch.len() ==> #[trigger] batch[k] == Subscriber::Forward(m) || batch[k]
                == Subscriber::Recompute(m),
    ensures
        after_notify(comps, n, v, m, batch) == v,
    decreases batch.len(),
{
    if batch.len() > 0 {
        lemma_notify_flagged_self(comps, n, v, m, batch.drop_last());
        assert((StoreView { recomputing: v.recomputing, ..v }) == v);
        assert(after_recompute(comps, n, v, m) == v);
        assert(batch.last() == Subscriber::Forward(m) || batch.last() == Subscriber::Recompute(m));
    }
}

} // verus!
