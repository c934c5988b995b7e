use falcompress::offset_vec::OffsetVec;

#[test]
fn new_hides_existing_elements() {
    let v = OffsetVec::new(vec![1u8, 2, 3]);
    assert_eq!(v.len(), 0);
    assert!(v.is_empty());
    assert_eq!(v.as_slice(), &[] as &[u8]);
}

#[test]
fn push_and_pop_stay_above_offset() {
    let mut v = OffsetVec::new(vec![9u8]);
    v.push(1);
    v.push(2);
    assert_eq!(v.len(), 2);
    assert_eq!(v.pop(), Some(2));
    assert_eq!(v.pop(), Some(1));
    // the offset region is never popped
    assert_eq!(v.pop(), None);
    assert_eq!(v.into_inner(), vec![9u8]);
}

#[test]
fn truncate_and_clear_keep_offset_region() {
    let mut v = OffsetVec::new(vec![9u8, 8]);
    v.push(1);
    v.push(2);
    v.push(3);
    v.truncate(5);
    assert_eq!(v.len(), 3);
    v.truncate(1);
    assert_eq!(v.as_slice(), &[1u8]);
    v.clear();
    assert_eq!(v.len(), 0);
    assert_eq!(v.into_inner(), vec![9u8, 8]);
}

#[test]
fn insert_remove_swap_remove_index_from_offset() {
    let mut v = OffsetVec::new(vec![0u8]);
    v.push(10);
    v.push(30);
    v.insert(1, 20);
    assert_eq!(v.as_slice(), &[10u8, 20, 30]);
    assert_eq!(v.remove(0), 10);
    assert_eq!(v.as_slice(), &[20u8, 30]);
    v.push(40);
    assert_eq!(v.swap_remove(0), 20);
    assert_eq!(v.as_slice(), &[40u8, 30]);
}

#[test]
fn append_and_split_off() {
    let mut v = OffsetVec::new(vec![7u8]);
    let mut other = vec![1u8, 2, 3, 4];
    v.append(&mut other);
    assert!(other.is_empty());
    assert_eq!(v.len(), 4);
    let tail = v.split_off(2);
    assert_eq!(tail, vec![3u8, 4]);
    assert_eq!(v.as_slice(), &[1u8, 2]);
}

#[test]
fn extend_resize_and_reserve() {
    let mut v = OffsetVec::new(vec![5u8]);
    v.extend_from_slice(&[1, 2]);
    assert_eq!(v.as_slice(), &[1u8, 2]);
    v.resize(4, 9);
    assert_eq!(v.as_slice(), &[1u8, 2, 9, 9]);
    v.resize(1, 0);
    assert_eq!(v.as_slice(), &[1u8]);
    v.reserve(100);
    assert!(v.try_reserve(100).is_ok());
    assert_eq!(v.as_slice(), &[1u8]);
    assert_eq!(v.into_inner(), vec![5u8, 1]);
}
