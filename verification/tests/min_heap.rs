use raster_retrace::keyed_heap::KeyedHeap;
use raster_retrace::min_heap::{HeapValue, MinHeap, NodeHandle};

#[test]
fn heap_new_is_empty() {
    let mut heap: MinHeap<u32, u32> = MinHeap::new();
    assert!(heap.is_empty());
    assert_eq!(heap.pop_min(), None);
    assert_eq!(heap.pop_min_with_value(), None);
    let mut heap: MinHeap<i64, u8> = MinHeap::with_capacity(16);
    assert!(heap.is_empty());
    assert_eq!(heap.pop_min(), None);
}

#[test]
fn heap_pops_in_key_order() {
    let mut heap: MinHeap<u32, usize> = MinHeap::new();
    let keys = [50u32, 20, 90, 10, 70, 30, 80, 40, 60, 0];
    for (i, k) in keys.iter().enumerate() {
        heap.insert(*k, i);
    }
    assert!(!heap.is_empty());
    let mut popped = vec![];
    while let Some((key, data)) = heap.pop_min_with_value() {
        assert_eq!(keys[data], key);
        popped.push(key);
    }
    assert_eq!(popped, vec![0, 10, 20, 30, 40, 50, 60, 70, 80, 90]);
    assert!(heap.is_empty());
}

#[test]
fn heap_pop_min_returns_payload() {
    let mut heap: MinHeap<i32, char> = MinHeap::new();
    heap.insert(3, 'c');
    heap.insert(-1, 'a');
    heap.insert(2, 'b');
    assert_eq!(heap.pop_min(), Some('a'));
    assert_eq!(heap.pop_min(), Some('b'));
    assert_eq!(heap.pop_min(), Some('c'));
    assert_eq!(heap.pop_min(), None);
}

#[test]
fn heap_keeps_duplicate_keys() {
    let mut heap: MinHeap<u8, u32> = MinHeap::new();
    heap.insert(7, 1);
    heap.insert(7, 2);
    heap.insert(7, 3);
    let mut seen = vec![];
    while let Some((key, data)) = heap.pop_min_with_value() {
        assert_eq!(key, 7);
        seen.push(data);
    }
    seen.sort();
    assert_eq!(seen, vec![1, 2, 3]);
}

#[test]
fn heap_remove_by_handle() {
    let mut heap: MinHeap<u32, u32> = MinHeap::new();
    let mut handles = vec![];
    for k in 0..20u32 {
        handles.push(heap.insert((k * 7) % 20, k));
    }
    // take out every third entry, wherever it is in the tree
    for k in (0..20usize).step_by(3) {
        heap.remove(handles[k]);
    }
    let mut popped = vec![];
    while let Some((key, data)) = heap.pop_min_with_value() {
        assert_eq!((data * 7) % 20, key);
        assert!(data % 3 != 0);
        popped.push(key);
    }
    let mut expected: Vec<u32> = (0..20u32).filter(|k| k % 3 != 0).map(|k| (k * 7) % 20).collect();
    expected.sort();
    assert_eq!(popped, expected);
}

#[test]
fn heap_removed_payload_is_not_popped() {
    let mut heap: MinHeap<u32, &'static str> = MinHeap::new();
    let a = heap.insert(1, "a");
    heap.insert(2, "b");
    heap.remove(a);
    assert_eq!(heap.pop_min(), Some("b"));
    assert_eq!(heap.pop_min(), None);
}

#[test]
fn heap_handles_stay_valid() {
    let mut heap: MinHeap<u32, u32> = MinHeap::new();
    let a = heap.insert(10, 100);
    let b = heap.insert(5, 50);
    let c = heap.insert(20, 200);
    assert!(a != b && b != c && a != c);
    assert!(a != NodeHandle::invalid());
    assert!(!a.is_invalid());
    assert!(NodeHandle::invalid().is_invalid());
    assert_eq!(heap.node_value(a), 10);
    assert_eq!(heap.node_data(a), 100);
    assert_eq!(heap.node_value(c), 20);
    assert_eq!(heap.pop_min(), Some(50));
    // the other handles still name their entries
    assert_eq!(heap.node_value(a), 10);
    assert_eq!(heap.node_data(c), 200);
    // a released slot is used again
    let d = heap.insert(15, 150);
    assert_eq!(d, b);
    assert_eq!(heap.node_value(d), 15);
    assert_eq!(heap.pop_min_with_value(), Some((10, 100)));
    assert_eq!(heap.pop_min_with_value(), Some((15, 150)));
    assert_eq!(heap.pop_min_with_value(), Some((20, 200)));
}

#[test]
fn heap_contains_node_handle() {
    let mut heap: MinHeap<u32, u32> = MinHeap::new();
    assert!(!heap.contains_node_handle(&NodeHandle::invalid()));
    let a = heap.insert(4, 40);
    let b = heap.insert(2, 20);
    assert!(heap.contains_node_handle(&a));
    assert!(heap.contains_node_handle(&b));
    assert_eq!(heap.pop_min(), Some(20));
    assert!(heap.contains_node_handle(&a));
    assert!(!heap.contains_node_handle(&b));
    heap.remove(a);
    assert!(!heap.contains_node_handle(&a));
    assert!(!heap.contains_node_handle(&NodeHandle::invalid()));
}

#[test]
fn heap_value_update_moves_entry() {
    let mut heap: MinHeap<i32, u32> = MinHeap::new();
    let a = heap.insert(10, 1);
    let b = heap.insert(20, 2);
    let c = heap.insert(30, 3);
    heap.node_value_update(c, 5);
    assert_eq!(heap.node_value(c), 5);
    heap.node_value_update(a, 25);
    assert_eq!(heap.node_value(a), 25);
    heap.node_value_update(b, 20);
    assert_eq!(heap.node_value(b), 20);
    assert_eq!(heap.pop_min_with_value(), Some((5, 3)));
    assert_eq!(heap.pop_min_with_value(), Some((20, 2)));
    assert_eq!(heap.pop_min_with_value(), Some((25, 1)));
}

#[test]
fn heap_value_update_with_data() {
    let mut heap: MinHeap<u16, u32> = MinHeap::new();
    let a = heap.insert(10, 1);
    heap.insert(20, 2);
    heap.node_value_update_with_data(a, 30, 9);
    assert_eq!(heap.node_data(a), 9);
    assert_eq!(heap.node_value(a), 30);
    // the same key again: the payload still changes
    heap.node_value_update_with_data(a, 30, 7);
    assert_eq!(heap.node_data(a), 7);
    assert_eq!(heap.pop_min_with_value(), Some((20, 2)));
    assert_eq!(heap.pop_min_with_value(), Some((30, 7)));
}

#[test]
fn heap_insert_or_update() {
    let mut heap: MinHeap<u64, u32> = MinHeap::new();
    let mut handle = NodeHandle::invalid();
    heap.insert_or_update(&mut handle, 40, 4);
    assert!(handle != NodeHandle::invalid());
    let first = handle;
    heap.insert(10, 1);
    heap.insert_or_update(&mut handle, 5, 6);
    assert_eq!(handle, first);
    assert_eq!(heap.pop_min_with_value(), Some((5, 6)));
    assert_eq!(heap.pop_min_with_value(), Some((10, 1)));
    assert_eq!(heap.pop_min_with_value(), None);
}

#[test]
fn heap_many_operations_keep_order() {
    // a fixed pseudo-random mix of inserts, removals and updates
    let mut heap: MinHeap<u32, usize> = MinHeap::new();
    let mut live: Vec<(NodeHandle, u32, usize)> = vec![];
    let mut state: u32 = 12345;
    let mut next = || {
        state = state.wrapping_mul(1664525).wrapping_add(1013904223);
        state >> 8
    };
    for step in 0..400usize {
        let r = next() % 4;
        if r < 2 || live.is_empty() {
            let key = next() % 1000;
            let h = heap.insert(key, step);
            live.push((h, key, step));
        } else if r == 2 {
            let at = (next() as usize) % live.len();
            let (h, _, _) = live.swap_remove(at);
            heap.remove(h);
        } else {
            let at = (next() as usize) % live.len();
            let key = next() % 1000;
            heap.node_value_update(live[at].0, key);
            live[at].1 = key;
        }
        for (h, key, data) in &live {
            assert_eq!(heap.node_value(*h), *key);
            assert_eq!(heap.node_data(*h), *data);
        }
    }
    let mut expected: Vec<u32> = live.iter().map(|e| e.1).collect();
    expected.sort();
    let mut popped = vec![];
    while let Some((key, _)) = heap.pop_min_with_value() {
        popped.push(key);
    }
    assert_eq!(popped, expected);
}

#[test]
fn heap_value_less_is_strict() {
    assert!(3u32.less(&4));
    assert!(!4u32.less(&4));
    assert!(!5u32.less(&4));
    assert!((-3i64).less(&2));
    assert!(!0usize.less(&0));
    assert!(1u8.less(&2));
    assert!((-1i8).less(&0));
    assert!(7u16.less(&8));
    assert!((-7i16).less(&-6));
    assert!(1u64.less(&2));
    assert!((-9isize).less(&9));
    assert!((-9i32).less(&9));
}

#[test]
fn keyed_heap_one_entry_per_slot() {
    let mut heap: KeyedHeap<u32, char> = KeyedHeap::new(4);
    assert!(heap.is_empty());
    assert!(!heap.contains(0));
    heap.update(0, 30, 'a');
    heap.update(1, 10, 'b');
    heap.update(2, 20, 'c');
    assert!(heap.contains(0) && heap.contains(1) && heap.contains(2) && !heap.contains(3));
    assert!(!heap.contains(4));
    // a second entry for a slot takes the place of the first
    heap.update(1, 40, 'd');
    heap.clear(2);
    assert!(!heap.contains(2));
    heap.clear(2);
    assert_eq!(heap.pop_min(), Some((30, 0, 'a')));
    assert!(!heap.contains(0));
    assert_eq!(heap.pop_min(), Some((40, 1, 'd')));
    assert_eq!(heap.pop_min(), None);
    assert!(heap.is_empty());
}

#[test]
fn keyed_heap_update_below_limit() {
    let mut heap: KeyedHeap<u32, u8> = KeyedHeap::new(3);
    heap.update_below(0, 5, 0, 10);
    heap.update_below(1, 10, 1, 10);
    heap.update_below(2, 9, 2, 10);
    assert!(heap.contains(0));
    assert!(!heap.contains(1));
    assert!(heap.contains(2));
    // a key at or above the limit takes the entry out
    heap.update_below(0, 11, 0, 10);
    assert!(!heap.contains(0));
    assert_eq!(heap.pop_min(), Some((9, 2, 2)));
    assert_eq!(heap.pop_min(), None);
}
