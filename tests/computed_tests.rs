use std::cell::Cell;
use std::rc::Rc;

use gpui_signals::{Computation, Memo, Signal, SignalStorage, Tracker};

/// The value of `count`, doubled.
struct Doubled {
    count: Signal<i32>,
}

impl Computation<i32> for Doubled {
    fn compute(&self, tracker: &mut Tracker<'_, i32>) -> i32 {
        tracker.get(&self.count) * 2
    }
}

#[test]
fn test_memo_basic() {
    let mut storage = SignalStorage::<i32, Doubled>::new();
    let count = Signal::new(&mut storage, 5);
    let doubled = Memo::new(&mut storage, Doubled { count });

    assert_eq!(doubled.get(&mut storage), 10);
}

#[test]
fn test_memo_with_manual_updates() {
    let mut storage = SignalStorage::<i32, Doubled>::new();
    let count = Signal::new(&mut storage, 5);
    let initial = count.get(&mut storage) * 2;
    let doubled_signal = Signal::new(&mut storage, initial);

    assert_eq!(doubled_signal.get(&mut storage), 10);

    count.set(&mut storage, 10);
    let next = count.get(&mut storage) * 2;
    doubled_signal.set(&mut storage, next);
    assert_eq!(doubled_signal.get(&mut storage), 20);
}

#[test]
fn test_create_signal() {
    let mut storage = SignalStorage::<i32, Doubled>::new();
    let signal = Signal::new(&mut storage, 42);
    assert_eq!(signal.get(&mut storage), 42);
}

#[test]
fn test_create_memo() {
    let mut storage = SignalStorage::<i32, Doubled>::new();
    let count = Signal::new(&mut storage, 5);
    let doubled = Memo::new(&mut storage, Doubled { count });
    assert_eq!(doubled.get(&mut storage), 10);
}

#[test]
fn memo_follows_its_source() {
    let mut storage = SignalStorage::<i32, Doubled>::new();
    let s = Signal::new(&mut storage, 5);
    let d = Memo::new(&mut storage, Doubled { count: s });
    assert_eq!(d.get(&mut storage), 10);
    s.set(&mut storage, 10);
    assert_eq!(d.get(&mut storage), 20);
    s.update(&mut storage, |v| v - 13);
    assert_eq!(d.get_untracked(&storage), -6);
    assert_eq!(d.with(&mut storage, |v| *v + 1), -5);
}

/// Reads `source` several times and counts its own runs.
struct Counting {
    source: Signal<i32>,
    reads: usize,
    runs: Rc<Cell<u32>>,
}

impl Computation<i32> for Counting {
    fn compute(&self, tracker: &mut Tracker<'_, i32>) -> i32 {
        self.runs.set(self.runs.get() + 1);
        let mut total = 0;
        for _ in 0..self.reads {
            total += tracker.get(&self.source);
        }
        total
    }
}

#[test]
fn repeated_reads_install_one_subscription() {
    let mut storage = SignalStorage::<i32, Counting>::new();
    let source = Signal::new(&mut storage, 1);
    let runs = Rc::new(Cell::new(0));
    let memo = Memo::new(&mut storage, Counting { source, reads: 3, runs: runs.clone() });
    assert_eq!(runs.get(), 1);
    assert_eq!(memo.get(&mut storage), 3);
    for v in 2..=5 {
        source.set(&mut storage, v);
        assert_eq!(memo.get(&mut storage), 3 * v);
    }
    // one run at creation, then exactly one per write
    assert_eq!(runs.get(), 5);
}

#[test]
fn recompute_flag_is_released_after_each_write() {
    let mut storage = SignalStorage::<i32, Counting>::new();
    let source = Signal::new(&mut storage, 0);
    let runs = Rc::new(Cell::new(0));
    let memo = Memo::new(&mut storage, Counting { source, reads: 1, runs: runs.clone() });
    let sub = memo.subscribe(&mut storage);
    // writing the memo's own backing signal re-triggers its recomputation once
    memo.signal().set(&mut storage, 100);
    assert_eq!(memo.get(&mut storage), 0);
    assert_eq!(runs.get(), 2);
    source.set(&mut storage, 7);
    assert_eq!(memo.get(&mut storage), 7);
    assert_eq!(runs.get(), 3);
    assert!(storage.take_notifications().contains(&sub));
}

/// Either the doubled value of a signal or one more than a memo's value.
enum Chain {
    Double(Signal<i32>),
    PlusOne(Memo<i32>),
    Untracked(Signal<i32>),
}

impl Computation<i32> for Chain {
    fn compute(&self, tracker: &mut Tracker<'_, i32>) -> i32 {
        match self {
            Chain::Double(s) => tracker.get(s) * 2,
            Chain::PlusOne(m) => tracker.get(&m.signal()) + 1,
            Chain::Untracked(s) => tracker.get_untracked(s),
        }
    }
}

#[test]
fn memo_of_memo_is_kept_current() {
    let mut storage = SignalStorage::<i32, Chain>::new();
    let s = Signal::new(&mut storage, 1);
    let doubled = Memo::new(&mut storage, Chain::Double(s));
    let plus_one = Memo::new(&mut storage, Chain::PlusOne(doubled));
    assert_eq!(plus_one.get(&mut storage), 3);
    s.set(&mut storage, 4);
    assert_eq!(doubled.get(&mut storage), 8);
    assert_eq!(plus_one.get(&mut storage), 9);
}

#[test]
fn untracked_read_does_not_subscribe() {
    let mut storage = SignalStorage::<i32, Chain>::new();
    let s = Signal::new(&mut storage, 1);
    let copy = Memo::new(&mut storage, Chain::Untracked(s));
    assert_eq!(copy.get(&mut storage), 1);
    s.set(&mut storage, 2);
    assert_eq!(copy.get(&mut storage), 1);
}

#[test]
fn memo_handles_compare_by_identity() {
    let mut storage = SignalStorage::<i32, Chain>::new();
    let s = Signal::new(&mut storage, 1);
    let a = Memo::new(&mut storage, Chain::Double(s));
    let b = Memo::new(&mut storage, Chain::Double(s));
    let a2 = a;
    assert_eq!(a, a2);
    assert_ne!(a, b);
    assert_eq!(a.signal(), a2.signal());
}

#[test]
fn disposed_memo_stops_recomputing() {
    let mut storage = SignalStorage::<i32, Counting>::new();
    let source = Signal::new(&mut storage, 1);
    let runs = Rc::new(Cell::new(0));
    let other_runs = Rc::new(Cell::new(0));
    let memo = Memo::new(&mut storage, Counting { source, reads: 1, runs: runs.clone() });
    let other = Memo::new(&mut storage, Counting { source, reads: 2, runs: other_runs.clone() });
    memo.dispose(&mut storage);
    assert!(!memo.signal().is_valid(&storage));
    source.set(&mut storage, 5);
    assert_eq!(runs.get(), 1);
    assert_eq!(other_runs.get(), 2);
    assert_eq!(other.get(&mut storage), 10);
}

#[test]
fn memo_callback_fires_once_per_dependency_write() {
    let mut storage = SignalStorage::<i32, Doubled>::new();
    let s = Signal::new(&mut storage, 1);
    let d = Memo::new(&mut storage, Doubled { count: s });
    let sub = d.subscribe(&mut storage);
    s.set(&mut storage, 2);
    assert_eq!(storage.take_notifications(), vec![sub]);
    assert_eq!(d.get_untracked(&storage), 4);
}

/// `b` when `flag` is non-zero, otherwise `a`.
struct Switch {
    flag: Signal<i32>,
    a: Signal<i32>,
    b: Signal<i32>,
}

impl Computation<i32> for Switch {
    fn compute(&self, tracker: &mut Tracker<'_, i32>) -> i32 {
        if tracker.get(&self.flag) != 0 {
            tracker.get(&self.b)
        } else {
            tracker.get(&self.a)
        }
    }
}

#[test]
fn dependencies_are_retracked_on_recomputation() {
    let mut storage = SignalStorage::<i32, Switch>::new();
    let flag = Signal::new(&mut storage, 0);
    let a = Signal::new(&mut storage, 1);
    let b = Signal::new(&mut storage, 10);
    let m = Memo::new(&mut storage, Switch { flag, a, b });
    assert_eq!(m.get(&mut storage), 1);
    flag.set(&mut storage, 1);
    assert_eq!(m.get(&mut storage), 10);
    b.set(&mut storage, 20);
    assert_eq!(m.get(&mut storage), 20);
}

/// `base`, plus the value of a signal handed over later, if any.
struct Late {
    base: Signal<i32>,
    late: Rc<Cell<Option<Signal<i32>>>>,
}

impl Computation<i32> for Late {
    fn compute(&self, tracker: &mut Tracker<'_, i32>) -> i32 {
        let mut total = tracker.get(&self.base);
        if let Some(late) = self.late.get() {
            if tracker.is_live(&late) {
                total += tracker.get(&late);
            }
        }
        total
    }
}

#[test]
fn reads_of_newer_slots_are_tracked() {
    let mut storage = SignalStorage::<i32, Late>::new();
    let base = Signal::new(&mut storage, 1);
    let late = Rc::new(Cell::new(None));
    let m = Memo::new(&mut storage, Late { base, late: late.clone() });
    let newer = Signal::new(&mut storage, 10);
    late.set(Some(newer));
    base.set(&mut storage, 2);
    assert_eq!(m.get(&mut storage), 12);
    newer.set(&mut storage, 20);
    assert_eq!(m.get(&mut storage), 22);
}

#[test]
fn a_memo_reading_its_own_slot_terminates() {
    let mut storage = SignalStorage::<i32, Late>::new();
    let base = Signal::new(&mut storage, 1);
    let late = Rc::new(Cell::new(None));
    let m = Memo::new(&mut storage, Late { base, late: late.clone() });
    late.set(Some(m.signal()));
    base.set(&mut storage, 2);
    assert_eq!(m.get(&mut storage), 3);
    base.set(&mut storage, 5);
    assert_eq!(m.get(&mut storage), 8);
}
