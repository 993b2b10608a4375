use wgpu_remote::pool::sparse_bit_set::SparseBitSet;

#[test]
fn empty() {
    let empty = SparseBitSet::default();
    assert!(!empty.contains(0));
    assert!(!empty.contains(63));
    assert!(!empty.contains(64));
    assert!(empty.largest_member().is_none());
}

#[test]
fn one_chunk_at_zero() {
    let mut set = SparseBitSet::default();
    assert!(!set.insert(0));
    assert!(!set.insert(63));
    assert!(!set.insert(1));

    assert!(set.insert(63));

    assert_eq!(set.largest_member(), Some(63));
    assert_eq!(
        (0..256).filter(|&n| set.contains(n)).collect::<Vec<_>>(),
        vec![0, 1, 63]
    );
}

#[test]
fn one_chunk_later() {
    let mut set = SparseBitSet::default();
    set.insert(256);
    set.insert(270);
    set.insert(256 + 63);

    assert_eq!(
        (0..500).filter(|&n| set.contains(n)).collect::<Vec<_>>(),
        vec![256, 270, 256 + 63]
    );
}

#[test]
fn two_chunks() {
    let mut set = SparseBitSet::default();
    set.insert(0);
    set.insert(63);
    set.insert(1);
    set.insert(256);

    println!("{set:?}");
    assert_eq!(
        (0..300).filter(|&n| set.contains(n)).collect::<Vec<_>>(),
        vec![0, 1, 63, 256]
    );
}

#[test]
fn remove() {
    let mut set = SparseBitSet::default();
    assert!(!set.insert(65));
    assert!(!set.insert(256));
    assert!(!set.remove(64));
    assert!(set.remove(65));

    println!("{set:?}");
    assert_eq!(
        (0..300).filter(|&n| set.contains(n)).collect::<Vec<_>>(),
        vec![256]
    );
}
