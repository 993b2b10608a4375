use wgpu_remote::pool::freemap::FreeMap;
use wgpu_remote::pool::sparse_bit_set::SparseBitSet;
use wgpu_remote::transport::{shared_memory_size, SHARED_MEMORY_ALIGNMENT};
use wgpu_remote::webidl::parse_webidl;

#[test]
fn members_list_the_last_bit_of_a_chunk() {
    let mut set = SparseBitSet::default();
    set.insert(63);
    set.insert(64);
    set.insert(127);
    set.insert(2);
    assert!(set.contains(63) && set.contains(127));
    assert_eq!(set.members(), vec![2, 63, 64, 127]);
}

#[test]
fn free_ranges_list_a_block_at_the_last_bit_of_a_chunk() {
    let mut freemap = FreeMap::new(1024);
    for size in [512, 256, 128, 64, 32, 16] {
        assert!(freemap.allocate(size).is_some());
    }
    assert_eq!(freemap.freelists()[0].members(), vec![63]);
    assert_eq!(freemap.free_ranges(), vec![1008..1024]);
}

#[test]
fn largest_member_across_chunks() {
    let mut set = SparseBitSet::default();
    set.insert(5);
    set.insert(130);
    set.insert(64);
    assert_eq!(set.largest_member(), Some(130));
    assert!(set.remove(130));
    assert!(!set.remove(130));
    assert_eq!(set.largest_member(), Some(64));
    set.remove(64);
    set.remove(5);
    assert_eq!(set.largest_member(), None);
    set.insert(usize::MAX);
    assert_eq!(set.largest_member(), Some(usize::MAX));
    assert!(set.contains(usize::MAX));
}

#[test]
fn freemap_of_the_smallest_pool() {
    let mut freemap = FreeMap::new(16);
    assert_eq!(freemap.freelists().len(), 1);
    assert_eq!(freemap.free_ranges(), vec![0..16]);
    assert_eq!(freemap.allocate(17), None);
    assert_eq!(freemap.allocate(0), Some(0..16));
    assert_eq!(freemap.allocate(0), None);
}

#[test]
fn freemap_prefers_the_greatest_index() {
    let mut freemap = FreeMap::new(128);
    let a = freemap.allocate(32).unwrap();
    let b = freemap.allocate(32).unwrap();
    assert_eq!((a.clone(), b.clone()), (0..32, 32..64));
    freemap.free(a);
    // Free blocks of 32 bytes: 0..32 only; of 64 bytes: 64..128.
    assert_eq!(freemap.allocate(16), Some(0..16));
    assert_eq!(freemap.free_ranges(), vec![16..32, 64..128]);
}

#[test]
fn shared_memory_sizes() {
    assert_eq!(SHARED_MEMORY_ALIGNMENT, 8);
    assert_eq!(shared_memory_size(0), Some(8));
    assert_eq!(shared_memory_size(1), Some(8));
    assert_eq!(shared_memory_size(9), Some(16));
    assert_eq!(shared_memory_size(128), Some(128));
    assert_eq!(shared_memory_size(usize::MAX), None);
    assert_eq!(shared_memory_size(usize::MAX - 7), Some(usize::MAX - 7));
}

#[test]
fn webidl_definitions_parse() {
    let source = "interface Window {\n    readonly attribute Storage sessionStorage;\n};\n";
    let (definitions, remaining) = parse_webidl(source).expect("valid WebIDL");
    assert!(definitions.contains("sessionStorage"));
    assert!(definitions.contains("Window"));
    assert_ne!(definitions, source);
    assert_eq!(remaining.trim(), "");

    let (_, remaining) = parse_webidl("interface A {};\nnot webidl at all").expect("a prefix parses");
    assert_eq!(remaining.trim(), "not webidl at all");
}
