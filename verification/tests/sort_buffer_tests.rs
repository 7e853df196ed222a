use bezy::sort_buffer::SortBuffer;

fn contents(b: &SortBuffer<u32>) -> Vec<u32> {
    let mut out = Vec::new();
    let mut it = b.iter();
    while let Some(x) = it.next() {
        out.push(*x);
    }
    out
}

#[test]
fn sort_buffer_new_is_empty() {
    let b: SortBuffer<u32> = SortBuffer::new();
    assert_eq!(b.len(), 0);
    assert!(b.is_empty());
    assert!(b.get(0).is_none());
    let d: SortBuffer<u32> = SortBuffer::default();
    assert!(d.is_empty());
}

#[test]
fn sort_buffer_insert_in_order_and_middle() {
    let mut b = SortBuffer::new();
    b.insert(0, 10u32);
    b.insert(1, 30);
    b.insert(1, 20);
    b.insert(0, 5);
    assert_eq!(contents(&b), vec![5, 10, 20, 30]);
    assert_eq!(b.get(2), Some(&20));
    assert_eq!(b.len(), 4);
}

#[test]
fn sort_buffer_insert_past_end_is_ignored() {
    let mut b = SortBuffer::new();
    b.insert(0, 1u32);
    b.insert(5, 2);
    assert_eq!(contents(&b), vec![1]);
}

#[test]
fn sort_buffer_delete_returns_entry() {
    let mut b = SortBuffer::from_sorts(vec![1u32, 2, 3, 4]);
    assert_eq!(b.delete(1), Some(2));
    assert_eq!(contents(&b), vec![1, 3, 4]);
    assert_eq!(b.delete(3), None);
    assert_eq!(contents(&b), vec![1, 3, 4]);
    assert_eq!(b.delete(2), Some(4));
    assert_eq!(b.delete(0), Some(1));
    assert_eq!(contents(&b), vec![3]);
}

#[test]
fn sort_buffer_delete_undoes_insert() {
    let mut b = SortBuffer::from_sorts(vec![7u32, 8, 9]);
    b.insert(2, 100);
    assert_eq!(contents(&b), vec![7, 8, 100, 9]);
    assert_eq!(b.delete(2), Some(100));
    assert_eq!(contents(&b), vec![7, 8, 9]);
}

#[test]
fn sort_buffer_get_mut_updates() {
    let mut b = SortBuffer::from_sorts(vec![1u32, 2, 3]);
    b.insert(1, 9);
    if let Some(x) = b.get_mut(2) {
        *x = 42;
    }
    assert!(b.get_mut(4).is_none());
    assert_eq!(contents(&b), vec![1, 9, 42, 3]);
}

#[test]
fn sort_buffer_grows_past_initial_capacity() {
    let mut b = SortBuffer::new();
    for i in 0..3000u32 {
        b.insert(i as usize, i);
    }
    assert_eq!(b.len(), 3000);
    let v = contents(&b);
    for i in 0..3000u32 {
        assert_eq!(v[i as usize], i);
    }
}

#[test]
fn sort_buffer_long_gap_move_keeps_order() {
    // Fill the buffer until the gap is a single slot, then insert at the
    // front: every entry has to move across the small gap.
    let mut b = SortBuffer::new();
    for i in 0..1023u32 {
        b.insert(i as usize, i);
    }
    b.insert(0, 5000);
    let v = contents(&b);
    assert_eq!(v.len(), 1024);
    assert_eq!(v[0], 5000);
    for i in 0..1023u32 {
        assert_eq!(v[i as usize + 1], i);
    }
    b.insert(1024, 6000);
    b.insert(3, 7000);
    let v = contents(&b);
    assert_eq!(v[3], 7000);
    assert_eq!(v[1025], 6000);
    assert_eq!(v[4], 2);
}

#[test]
fn sort_buffer_clear_and_to_vec() {
    let mut b = SortBuffer::from_sorts(vec![3u32, 1, 2]);
    b.insert(1, 8);
    assert_eq!(b.to_vec(), vec![3, 8, 1, 2]);
    b.clear();
    assert!(b.is_empty());
    assert_eq!(b.to_vec(), Vec::<u32>::new());
    b.insert(0, 4);
    assert_eq!(b.to_vec(), vec![4]);
}

#[test]
fn sort_buffer_from_large_vec() {
    let v: Vec<u32> = (0..2000).collect();
    let b = SortBuffer::from_sorts(v.clone());
    assert_eq!(b.to_vec(), v);
}
