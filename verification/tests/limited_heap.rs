use pathmap::limited_heap::LimitedHeap;

#[test]
fn test_keep_top_3_largest_integers() {
    let mut top3 = LimitedHeap::<_, _, false>::new(3);
    for x in [10, 90, 45, 120, 15, 7, 200, 60] {
        top3.insert(x, x);
    }
    // The internal heap should have just 3 items: 90, 120, 200 (in some order).
    assert_eq!(top3.len(), 3);

    // The 'top' is the smallest of the largest 3, i.e. 90
    assert_eq!(top3.peek().map(|(k, _)| k), Some(&90));

    let mut items = top3.as_slice().to_vec();
    // The heap is popped in arbitrary order, but let's just check the set of keys.
    items.sort_by_key(|(k, _)| *k);
    let keys: Vec<i32> = items.iter().map(|&(_, v)| v).collect();
    assert_eq!(keys, vec![90, 120, 200]);
}

#[test]
fn test_keep_bottom_3_smallest_integers() {
    let mut bottom3 = LimitedHeap::<_, _, true>::new(3);
    for x in [10, 90, 45, 120, 15, 7, 200, 60] {
        bottom3.insert(x, x);
    }
    // Should keep [7, 10, 15].
    assert_eq!(bottom3.len(), 3);

    // 'top' is the largest of those 3, i.e. 15.
    assert_eq!(bottom3.peek().map(|(k, _)| k), Some(&15));

    let mut items = bottom3.as_slice().to_vec();
    items.sort_by_key(|(k, _)| *k);
    let keys: Vec<i32> = items.into_iter().map(|(_, v)| v).collect();
    assert_eq!(keys, vec![7, 10, 15]);
}

#[test]
fn test_insert_less_than_capacity() {
    // Capacity is 5, but only 3 items inserted.
    let mut heap = LimitedHeap::<_, _, false>::new(5);
    for x in [2, 1, 3] {
        heap.insert(x, x);
    }
    // All should be kept, since we never exceeded capacity.
    assert_eq!(heap.len(), 3);
    let mut items = heap.as_slice().to_vec();
    items.sort_by_key(|&(k, _)| k);
    let keys: Vec<i32> = items.into_iter().map(|(_, v)| v).collect();
    assert_eq!(keys, vec![1, 2, 3]);
}

#[test]
fn test_keys_and_values_differ() {
    // Suppose we keep the top 2 items by string length, but store the original strings as `value`.
    let mut heap = LimitedHeap::<&str, usize, false>::new(2);
    let words = ["hi", "hello", "rustacean", "bye"];
    for w in words {
        heap.insert(w, w.len());
    }
    // We want the top 2 by length => "rustacean" (9), "hello" (5).
    assert_eq!(heap.len(), 2);

    // The 'top' is the smaller of the two biggest lengths => 5 ("hello").
    assert_eq!(heap.peek().map(|(k, _)| k), Some(&"hello"));

    let mut items = heap.as_slice().to_vec();
    items.sort_by_key(|&(_, k)| k);
    // The shortest of the kept set first => (hello, 5), then (rustacean, 9).
    assert_eq!(items[0].0, "hello");
    assert_eq!(items[1].0, "rustacean");
}

#[test]
fn limited_heap_zero_capacity_keeps_nothing() {
    let mut heap = LimitedHeap::<u32, u32, false>::new(0);
    heap.insert(1, 1);
    assert!(heap.is_empty());
    assert_eq!(heap.peek(), None);
}

#[test]
fn limited_heap_insert_lazy_skips_unkept_values() {
    let mut heap = LimitedHeap::<String, u32, true>::new(1);
    heap.insert_lazy(5, || "five".to_string());
    heap.insert_lazy(9, || panic!("a larger key is not kept when the smallest are kept"));
    heap.insert_lazy(2, || "two".to_string());
    assert_eq!(heap.as_slice(), &[("two".to_string(), 2)]);
}

#[test]
fn limited_heap_insert_lazy_without_room_calls_nothing() {
    let mut heap = LimitedHeap::<String, u32, false>::new(0);
    heap.insert_lazy(1, || panic!("a heap that holds nothing keeps no value"));
    assert!(heap.is_empty());
}

#[test]
fn limited_heap_replaces_the_last_ranked_entry() {
    let mut heap = LimitedHeap::<char, i32, false>::new(2);
    heap.insert('a', 3);
    heap.insert('b', 1);
    heap.insert('c', 2);
    let mut items = heap.as_slice().to_vec();
    items.sort();
    assert_eq!(items, vec![('a', 3), ('c', 2)]);
    heap.insert('d', 0);
    assert_eq!(heap.len(), 2);
    assert_eq!(heap.peek(), Some(&('c', 2)));
}
