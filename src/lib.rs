//! Fine-grained reactive state.
//!
//! A [`SignalStorage`] is an arena that owns every value. [`Signal`],
//! [`ReadOnlySignal`] and [`Memo`] are small copyable handles into it (a slot
//! id and a generation), and every operation takes the storage it works on.
//!
//! A memo's value comes from a [`Computation`], which reads signals through a
//! [`Tracker`]; each read is recorded as a dependency of the memo, and the
//! first read of a slot installs one forwarding subscription on it.
//! A write replaces the value, takes a snapshot of the slot's subscribers and
//! invokes it before returning: a forwarding subscription recomputes its
//! observer, a memo's subscription to its own slot recomputes it (unless it is
//! already recomputing, which is what bounds every cascade), and host callbacks are appended, by id, to a log that
//! the host drains with [`SignalStorage::take_notifications`] and runs.
//!
//! Host callbacks are logged rather than called because they are closures of
//! the host, which a verified arena cannot hold; the log keeps their order.
//! One storage holds values of one type `T`; a host with several value types
//! uses one storage per type, or a type of its own that covers them.
mod computed;
mod signal;
mod storage;

pub use computed::Memo;
pub use signal::{lemma_writes_notify_each_callback, repeated, ReadOnlySignal, Signal};
pub use storage::{
    after_memo_insert, after_notify, after_read, after_reads, after_recompute, callback_ids,
    callbacks_only, cascade, computed, computed_reads, idle_count, inserted, lemma_round_trip,
    lemma_single_forwarding, lemma_write_recomputes_memo, written, Computation, SignalId,
    SignalStorage, StoreView, Subscriber, SubscriberId, Tracker,
};
