use timeline::{Handle, Key, Queue};

fn key(time: i64, serial: u64) -> Key {
    Key { time, handle: Handle { slot: serial as usize, serial } }
}

fn drain(q: &mut Queue) -> Vec<(i64, u64)> {
    let mut out = Vec::new();
    while let Some(k) = q.pop_min() {
        assert_eq!(k.handle.slot, k.handle.serial as usize);
        out.push((k.time, k.handle.serial));
    }
    out
}

#[test]
fn empty_queue_yields_nothing() {
    let mut q = Queue::new();
    assert_eq!(q.len(), 0);
    assert!(q.is_empty());
    assert!(q.peek_min().is_none());
    assert!(q.pop_min().is_none());
    assert!(q.is_empty());
}

#[test]
fn before_orders_by_time_then_serial() {
    assert!(key(1, 9).before(&key(2, 0)));
    assert!(!key(2, 0).before(&key(1, 9)));
    assert!(key(2, 3).before(&key(2, 4)));
    assert!(!key(2, 4).before(&key(2, 3)));
    assert!(!key(2, 3).before(&key(2, 3)));
    assert!(key(-5, 0).before(&key(0, 0)));
    let a = Key { time: 1, handle: Handle { slot: 0, serial: 1 } };
    let b = Key { time: 1, handle: Handle { slot: 8, serial: 1 } };
    assert!(!a.before(&b) && !b.before(&a));
}

#[test]
fn pop_min_yields_keys_in_order() {
    let mut q = Queue::new();
    q.insert(key(3, 0));
    q.insert(key(1, 1));
    q.insert(key(2, 2));
    assert_eq!(q.len(), 3);
    assert_eq!(drain(&mut q), vec![(1, 1), (2, 2), (3, 0)]);
    assert!(q.is_empty());
}

#[test]
fn equal_times_leave_in_order_of_serial() {
    let mut q = Queue::new();
    q.insert(key(5, 4));
    q.insert(key(5, 2));
    q.insert(key(5, 3));
    q.insert(key(4, 9));
    q.insert(key(5, 1));
    assert_eq!(drain(&mut q), vec![(4, 9), (5, 1), (5, 2), (5, 3), (5, 4)]);
}

#[test]
fn peek_min_does_not_remove() {
    let mut q = Queue::new();
    q.insert(key(7, 0));
    q.insert(key(6, 1));
    let k = q.peek_min().unwrap();
    assert_eq!((k.time, k.handle), (6, Handle { slot: 1, serial: 1 }));
    assert_eq!(q.len(), 2);
    let k = q.pop_min().unwrap();
    assert_eq!((k.time, k.handle.serial), (6, 1));
    assert_eq!(q.peek_min().unwrap().time, 7);
    assert_eq!(q.len(), 1);
}

#[test]
fn insert_while_draining_keeps_order() {
    let mut q = Queue::new();
    for (i, t) in [10i64, 30, 20, 50, 40].iter().enumerate() {
        q.insert(key(*t, i as u64));
    }
    assert_eq!(q.pop_min().unwrap().time, 10);
    q.insert(key(25, 5));
    q.insert(key(5, 6));
    assert_eq!(q.pop_min().unwrap().time, 5);
    assert_eq!(q.pop_min().unwrap().time, 20);
    q.insert(key(25, 7));
    assert_eq!(drain(&mut q), vec![(25, 5), (25, 7), (30, 1), (40, 4), (50, 3)]);
}

#[test]
fn many_keys_leave_sorted() {
    let mut q = Queue::new();
    let mut x: u64 = 99;
    let mut expected: Vec<(i64, u64)> = Vec::new();
    for serial in 0..1000u64 {
        x = x.wrapping_mul(6364136223846793005).wrapping_add(1442695040888963407);
        let time = ((x >> 33) % 200) as i64 - 100;
        q.insert(key(time, serial));
        expected.push((time, serial));
    }
    assert_eq!(q.len(), 1000);
    expected.sort();
    assert_eq!(drain(&mut q), expected);
}

#[test]
fn extreme_times_are_ordered() {
    let mut q = Queue::new();
    q.insert(key(i64::MAX, 0));
    q.insert(key(i64::MIN, 1));
    q.insert(key(0, u64::MAX));
    assert_eq!(drain(&mut q), vec![(i64::MIN, 1), (0, u64::MAX), (i64::MAX, 0)]);
}
