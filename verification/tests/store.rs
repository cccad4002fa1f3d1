use timeline::{Handle, Store};

#[test]
fn insert_names_the_entry_by_slot_and_serial() {
    let mut store = Store::new();
    let a = store.insert(0, 5, "a");
    let b = store.insert(1, 3, "b");
    assert_eq!((a.serial, b.serial), (0, 1));
    assert!(a.slot != b.slot);
    let t = store.take(b).unwrap();
    assert_eq!((t.handle, t.time, t.value, t.cancelled), (b, 3, "b", false));
    let t = store.take(a).unwrap();
    assert_eq!((t.handle, t.time, t.value, t.cancelled), (a, 5, "a", false));
}

#[test]
fn take_removes_the_entry() {
    let mut store = Store::new();
    let a = store.insert(7, 1, 'a');
    assert!(store.take(a).is_some());
    assert!(store.take(a).is_none());
    assert!(!store.cancel(a));
}

#[test]
fn take_of_an_unknown_handle_yields_nothing() {
    let mut store = Store::new();
    assert!(store.take(Handle { slot: 0, serial: 0 }).is_none());
    let a = store.insert(4, 1, 'a');
    assert!(store.take(Handle { slot: a.slot, serial: 5 }).is_none());
    assert!(store.take(Handle { slot: a.slot + 1, serial: 4 }).is_none());
    assert_eq!(store.take(a).unwrap().value, 'a');
}

#[test]
fn cancel_marks_only_the_named_entry() {
    let mut store = Store::new();
    let a = store.insert(0, 1, 'a');
    let b = store.insert(1, 2, 'b');
    assert!(store.cancel(a));
    assert!(store.cancel(a));
    assert!(!store.cancel(Handle { slot: a.slot, serial: 9 }));
    assert!(!store.cancel(Handle { slot: 17, serial: 0 }));
    let t = store.take(a).unwrap();
    assert_eq!((t.time, t.value, t.cancelled), (1, 'a', true));
    let t = store.take(b).unwrap();
    assert_eq!((t.time, t.value, t.cancelled), (2, 'b', false));
}

#[test]
fn a_slot_is_used_again_under_a_new_handle() {
    let mut store = Store::new();
    let a = store.insert(0, 1, 'a');
    let b = store.insert(1, 1, 'b');
    store.take(a).unwrap();
    let c = store.insert(2, 1, 'c');
    assert_eq!(c.slot, a.slot);
    assert!(c != a);
    assert!(!store.cancel(a));
    assert!(store.take(a).is_none());
    let d = store.insert(3, 1, 'd');
    assert!(d.slot != b.slot && d.slot != c.slot);
    assert_eq!(store.take(c).unwrap().value, 'c');
    assert_eq!(store.take(b).unwrap().value, 'b');
    assert_eq!(store.take(d).unwrap().value, 'd');
}

#[test]
fn freed_slots_are_handed_out_once_each() {
    let mut store = Store::new();
    let mut handles = Vec::new();
    for serial in 0..50u64 {
        handles.push(store.insert(serial, 0, serial));
    }
    for h in handles.iter().step_by(2) {
        assert_eq!(store.take(*h).unwrap().value, h.serial);
    }
    let mut again = Vec::new();
    for serial in 50..100u64 {
        again.push(store.insert(serial, 0, serial));
    }
    let mut slots: Vec<usize> =
        handles.iter().skip(1).step_by(2).chain(again.iter()).map(|h| h.slot).collect();
    slots.sort();
    slots.dedup();
    assert_eq!(slots.len(), 75);
    for h in handles.iter().skip(1).step_by(2).chain(again.iter()) {
        assert_eq!(store.take(*h).unwrap().value, h.serial);
    }
}
