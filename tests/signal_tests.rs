use gpui_signals::{Computation, Signal, SignalStorage, Tracker};

/// Computation type for storages that hold plain signals only.
struct NoMemo;

impl<T> Computation<T> for NoMemo {
    fn compute(&self, _tracker: &mut Tracker<'_, T>) -> T {
        unreachable!("these storages hold no memos")
    }
}

#[test]
fn test_signal_creation() {
    let mut storage = SignalStorage::<i32, NoMemo>::new();
    let signal = Signal::new(&mut storage, 42);
    assert_eq!(signal.get(&mut storage), 42);
}

#[test]
fn test_signal_set() {
    let mut storage = SignalStorage::<i32, NoMemo>::new();
    let signal = Signal::new(&mut storage, 0);
    signal.set(&mut storage, 10);
    assert_eq!(signal.get(&mut storage), 10);
}

#[test]
fn test_signal_update() {
    let mut storage = SignalStorage::<i32, NoMemo>::new();
    let signal = Signal::new(&mut storage, 5);
    signal.update(&mut storage, |n| n * 2);
    assert_eq!(signal.get(&mut storage), 10);
}

#[test]
fn test_signal_update_with() {
    let mut storage = SignalStorage::<i32, NoMemo>::new();
    let signal = Signal::new(&mut storage, 5);
    let result = signal.update_with(&mut storage, |n| {
        let n = n + 2;
        (n, n)
    });
    assert_eq!(result, Some(7));
    assert_eq!(signal.get(&mut storage), 7);
}

#[test]
fn test_signal_with() {
    let mut storage = SignalStorage::<String, NoMemo>::new();
    let signal = Signal::new(&mut storage, String::from("hello"));
    let len = signal.with(&mut storage, |s| s.len());
    assert_eq!(len, 5);
}

#[test]
fn test_signal_subscribe() {
    let mut storage = SignalStorage::<i32, NoMemo>::new();
    let signal = Signal::new(&mut storage, 0);
    let sub = signal.subscribe(&mut storage);

    signal.set(&mut storage, 1);
    signal.set(&mut storage, 2);
    signal.set(&mut storage, 3);

    let count = storage.take_notifications().iter().filter(|s| **s == sub).count();
    assert_eq!(count, 3);
}

#[test]
fn test_read_only_signal() {
    let mut storage = SignalStorage::<i32, NoMemo>::new();
    let signal = Signal::new(&mut storage, 42);
    let read_only = signal.read_only();
    assert_eq!(read_only.get(&mut storage), 42);
}

#[test]
fn test_signal_add_assign() {
    let mut storage = SignalStorage::<i32, NoMemo>::new();
    let signal = Signal::new(&mut storage, 5);
    signal.update(&mut storage, |v| v + 3);
    assert_eq!(signal.get(&mut storage), 8);
}

#[test]
fn test_signal_toggle() {
    let mut storage = SignalStorage::<bool, NoMemo>::new();
    let signal = Signal::new(&mut storage, false);
    signal.toggle(&mut storage);
    assert!(signal.get(&mut storage));
    signal.toggle(&mut storage);
    assert!(!signal.get(&mut storage));
}

#[test]
fn test_signal_set_if_changed() {
    let mut storage = SignalStorage::<i32, NoMemo>::new();
    let signal = Signal::new(&mut storage, 5);
    assert!(!signal.set_if_changed(&mut storage, 5));
    assert_eq!(signal.get(&mut storage), 5);
    assert!(signal.set_if_changed(&mut storage, 6));
    assert_eq!(signal.get(&mut storage), 6);
}

#[test]
fn test_signal_eq() {
    let mut storage = SignalStorage::<i32, NoMemo>::new();
    let s1 = Signal::new(&mut storage, 10);
    let s2 = s1;
    let s3 = Signal::new(&mut storage, 10);

    assert_eq!(s1, s2);
    assert_ne!(s1, s3);
}

#[test]
fn round_trip_through_set() {
    let mut storage = SignalStorage::<i64, NoMemo>::new();
    let signal = Signal::new(&mut storage, -7);
    assert_eq!(signal.get(&mut storage), -7);
    for v in [0i64, i64::MAX, i64::MIN, 3] {
        signal.set(&mut storage, v);
        assert_eq!(signal.get(&mut storage), v);
        assert_eq!(signal.get_untracked(&storage), v);
    }
}

#[test]
fn callbacks_fire_once_per_write_in_registration_order() {
    let mut storage = SignalStorage::<i32, NoMemo>::new();
    let signal = Signal::new(&mut storage, 0);
    let a = signal.subscribe(&mut storage);
    let b = signal.subscribe(&mut storage);
    let c = signal.subscribe(&mut storage);
    assert!(storage.take_notifications().is_empty());

    signal.set(&mut storage, 1);
    signal.set(&mut storage, 2);
    assert_eq!(storage.take_notifications(), vec![a, b, c, a, b, c]);
}

#[test]
fn callback_registered_later_misses_earlier_writes() {
    let mut storage = SignalStorage::<i32, NoMemo>::new();
    let signal = Signal::new(&mut storage, 0);
    let first = signal.subscribe(&mut storage);
    signal.set(&mut storage, 1);
    let second = signal.subscribe(&mut storage);
    signal.set(&mut storage, 2);
    assert_eq!(storage.take_notifications(), vec![first, first, second]);
}

#[test]
fn unchanged_value_notifies_nobody() {
    let mut storage = SignalStorage::<i32, NoMemo>::new();
    let signal = Signal::new(&mut storage, 5);
    let sub = signal.subscribe(&mut storage);
    assert!(!signal.set_if_changed(&mut storage, 5));
    assert!(storage.take_notifications().is_empty());
    assert!(signal.set_if_changed(&mut storage, 6));
    assert_eq!(storage.take_notifications(), vec![sub]);
}

#[test]
fn toggle_scenario() {
    let mut storage = SignalStorage::<bool, NoMemo>::new();
    let flag = Signal::new(&mut storage, false);
    flag.toggle(&mut storage);
    assert_eq!(flag.get(&mut storage), true);
    flag.toggle(&mut storage);
    assert_eq!(flag.get(&mut storage), false);
}

#[test]
fn with_untracked_and_read_only_views() {
    let mut storage = SignalStorage::<String, NoMemo>::new();
    let signal = Signal::new(&mut storage, String::from("abc"));
    let view = signal.read_only();
    assert_eq!(signal.with_untracked(&storage, |s| s.len()), 3);
    assert_eq!(view.with(&mut storage, |s| s.clone()), "abc");
    assert_eq!(view.with_untracked(&storage, |s| s.to_uppercase()), "ABC");
    assert_eq!(view.get_untracked(&storage), "abc");
    let sub = view.subscribe(&mut storage);
    signal.set(&mut storage, String::from("xy"));
    assert_eq!(storage.take_notifications(), vec![sub]);
}

#[test]
fn disposed_signal_handles_go_stale() {
    let mut storage = SignalStorage::<i32, NoMemo>::new();
    let signal = Signal::new(&mut storage, 4);
    let copy = signal;
    assert!(copy.is_valid(&storage));
    signal.dispose(&mut storage);
    assert!(!copy.is_valid(&storage));
    let fresh = Signal::new(&mut storage, 4);
    assert_ne!(fresh, signal);
    assert_eq!(fresh.get(&mut storage), 4);
}
