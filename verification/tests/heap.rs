use rex_core::heap::{FloatValue, Heap, Value};

#[test]
fn heap_string_interning() {
    let mut heap = Heap::new();
    let id1 = heap.intern("hello");
    let id2 = heap.intern("hello");
    let id3 = heap.intern("world");
    assert_eq!(id1, id2);
    assert_ne!(id1, id3);
    assert_eq!(heap.resolve_str(id1), "hello");
    assert_eq!(heap.resolve_str(id3), "world");
}

#[test]
fn heap_array_mutation() {
    let mut heap = Heap::new();
    let arr = heap.alloc_array(vec![Value::integer(1), Value::integer(2), Value::integer(3)]);
    assert_eq!(heap.array_len(arr), 3);
    assert_eq!(heap.array_get(arr, 0).as_i64(), Some(1));

    heap.array_set(arr, 1, Value::integer(20));
    assert_eq!(heap.array_get(arr, 1).as_i64(), Some(20));

    heap.array_push(arr, Value::integer(4));
    assert_eq!(heap.array_len(arr), 4);
}

#[test]
fn heap_object_mutation() {
    let mut heap = Heap::new();
    let k_x = heap.intern("x");
    let k_y = heap.intern("y");
    let obj = heap.alloc_object(vec![(k_x, Value::integer(1))]);

    assert_eq!(heap.object_get(obj, k_x).as_i64(), Some(1));
    assert!(heap.object_get(obj, k_y).is_none());

    // Update existing key
    heap.object_set(obj, k_x, Value::integer(2));
    assert_eq!(heap.object_get(obj, k_x).as_i64(), Some(2));

    // Insert new key
    heap.object_set(obj, k_y, Value::integer(3));
    assert_eq!(heap.object_get(obj, k_y).as_i64(), Some(3));
    assert_eq!(heap.object_len(obj), 2);

    // Delete
    heap.object_delete(obj, k_x);
    assert_eq!(heap.object_len(obj), 1);
    assert!(heap.object_get(obj, k_x).is_none());
}

#[test]
fn value_handles_are_copy() {
    let mut heap = Heap::new();
    let arr = heap.alloc_array(vec![Value::integer(1)]);
    let alias = arr; // Copy, not move
    heap.array_push(arr, Value::integer(2));
    // Both see the same array
    assert_eq!(heap.array_len(alias), 2);
}

#[test]
fn heap_out_of_range_reads_give_none() {
    let mut heap = Heap::new();
    let arr = heap.alloc_array(vec![Value::integer(7)]);
    assert!(heap.array_get(arr, 5).is_none());
    heap.array_set(arr, 5, Value::integer(1));
    assert_eq!(heap.array_len(arr), 1);
    // Non-array and non-object handles read as empty.
    assert_eq!(heap.array_len(Value::integer(3)), 0);
    assert!(heap.array_items(Value::null()).is_empty());
    assert_eq!(heap.object_len(arr), 0);
    assert!(heap.object_get(arr, 0).is_none());
}

#[test]
fn heap_object_pairs_keep_insertion_order() {
    let mut heap = Heap::new();
    let a = heap.intern("a");
    let b = heap.intern("b");
    let c = heap.intern("c");
    let obj = heap.alloc_object(vec![]);
    heap.object_set(obj, b, Value::integer(1));
    heap.object_set(obj, a, Value::integer(2));
    heap.object_set(obj, c, Value::integer(3));
    heap.object_set(obj, a, Value::integer(4));
    let keys: Vec<u32> = heap.object_pairs(obj).iter().map(|p| p.0).collect();
    assert_eq!(keys, vec![b, a, c]);
    assert_eq!(heap.object_get(obj, a).as_i64(), Some(4));
    heap.object_delete(obj, b);
    let keys: Vec<u32> = heap.object_pairs(obj).iter().map(|p| p.0).collect();
    assert_eq!(keys, vec![a, c]);
}

#[test]
fn heap_decimals_and_blobs() {
    let mut heap = Heap::new();
    let d = heap.alloc_decimal(314, -2);
    let blob = heap.alloc_blob(vec![1, 2, 3]);
    assert!(!heap.is_blob(d));
    assert!(heap.is_blob(blob));
    assert_eq!(heap.blob_data(blob), Some(&[1u8, 2, 3][..]));
    assert_eq!(heap.blob_data(d), None);
    assert_eq!(heap.blob_data(Value::integer(1)), None);
    let _ = FloatValue::Decimal { sig: 314, exp: -2 };
    let s = heap.intern_value("k");
    assert_eq!(s.string_id(), Some(0));
}

#[test]
fn value_to_key_uses_string_ids_and_interns_integers() {
    let mut heap = Heap::new();
    let a = heap.intern("a");
    assert_eq!(heap.value_to_key(Value::string(a)), Some(a));
    let k = heap.value_to_key(Value::integer(-12)).unwrap();
    assert_eq!(heap.resolve_str(k), "-12");
    assert_eq!(heap.value_to_key(Value::integer(-12)), Some(k));
    // Other values are refused and intern nothing.
    assert_eq!(heap.value_to_key(Value::bool(true)), None);
    assert_eq!(heap.value_to_key(Value::null()), None);
    let arr = heap.alloc_array(vec![]);
    assert_eq!(heap.value_to_key(arr), None);
    assert_eq!(heap.intern("b"), 2);
    // an integer key and the string of its digits are the same key
    let s = heap.intern("7");
    assert_eq!(heap.value_to_key(Value::integer(7)), Some(s));
}

#[test]
fn heap_value_as_str() {
    let mut heap = Heap::new();
    let v = heap.intern_value("hello");
    assert_eq!(v.as_str(&heap), Some("hello"));
    assert_eq!(Value::integer(3).as_str(&heap), None);
}
