use gpui_signals::{Computation, SignalStorage, Tracker};

struct NoMemo;

impl Computation<i32> for NoMemo {
    fn compute(&self, _tracker: &mut Tracker<'_, i32>) -> i32 {
        unreachable!("this storage holds no memos")
    }
}

#[test]
fn test_insert_and_get() {
    let mut storage = SignalStorage::<i32, NoMemo>::new();
    let id = storage.insert(42i32);
    assert_eq!(storage.get(id, 0), Some(&42));
}

#[test]
fn test_update() {
    let mut storage = SignalStorage::<i32, NoMemo>::new();
    let id = storage.insert(10i32);
    let (_, batch) = storage.update(id, 0, |value| (value + 5, ())).unwrap();
    storage.invoke(id, batch);
    assert_eq!(storage.get(id, 0), Some(&15));
}

#[test]
fn test_subscribe_and_notify() {
    let mut storage = SignalStorage::<i32, NoMemo>::new();
    let id = storage.insert(0i32);
    let sub = storage.subscribe(id);

    let batch = storage.set(id, 0, 10).unwrap();
    storage.invoke(id, batch);
    assert!(storage.take_notifications().contains(&sub));
}

#[test]
fn wrong_generation_is_rejected() {
    let mut storage = SignalStorage::<i32, NoMemo>::new();
    let id = storage.insert(1i32);
    assert_eq!(storage.get(id, 1), None);
    assert!(storage.set(id, 1, 5).is_none());
    assert!(storage.update(id, 3, |v| (v, ())).is_none());
    assert_eq!(storage.get(id, 0), Some(&1));
    assert!(!storage.is_valid(id, 1));
    assert!(storage.is_valid(id, 0));
}

#[test]
fn fresh_slots_get_fresh_ids() {
    let mut storage = SignalStorage::<i32, NoMemo>::new();
    let a = storage.insert(1);
    let b = storage.insert(2);
    assert_ne!(a, b);
    assert_eq!(storage.len(), 2);
    assert_eq!(storage.get(b, 0), Some(&2));
}

#[test]
fn observer_is_swapped_and_restored() {
    let mut storage = SignalStorage::<i32, NoMemo>::new();
    let a = storage.insert(1);
    let b = storage.insert(2);
    assert_eq!(storage.set_observer(Some(b)), None);
    storage.track_read(a);
    assert_eq!(storage.set_observer(None), Some(b));
    // the tracked read installed a forwarding subscription from a to b
    let batch = storage.set(a, 0, 3).unwrap();
    assert_eq!(batch.len(), 1);
    storage.track_read(a);
    let batch = storage.set(a, 0, 4).unwrap();
    assert_eq!(batch.len(), 1);
}

#[test]
fn disposed_slot_is_stale() {
    let mut storage = SignalStorage::<i32, NoMemo>::new();
    let a = storage.insert(1);
    let b = storage.insert(2);
    assert!(storage.dispose(a, 0));
    assert!(!storage.dispose(a, 0));
    assert_eq!(storage.get(a, 0), None);
    assert!(storage.set(a, 0, 5).is_none());
    assert!(!storage.is_valid(a, 0));
    assert_eq!(storage.get(b, 0), Some(&2));
    let c = storage.insert(3);
    assert_ne!(a, c);
    assert_eq!(storage.get(c, 0), Some(&3));
}
