use wgpu_remote::{Block, Pool, SlicePtr};

const BASE: usize = 0x10000;

fn pool_of(len: usize) -> Pool {
    Pool::new(Block::new(SlicePtr { addr: BASE, len }))
}

#[test]
fn pool_allocates_subblocks_of_its_block() {
    let mut pool = pool_of(128);
    let small = pool.allocate(10).expect("room for a small block");
    assert_eq!(small.bytes_mut(), SlicePtr { addr: BASE, len: 16 });
    assert_eq!(small.len(), 16);
    let large = pool.allocate(64).expect("room for a large block");
    assert_eq!(large.bytes_mut(), SlicePtr { addr: BASE + 64, len: 64 });
    let medium = pool.allocate(20).expect("room for a medium block");
    assert_eq!(medium.bytes_mut(), SlicePtr { addr: BASE + 32, len: 32 });
}

#[test]
fn pool_exhausts_and_recovers() {
    let mut pool = pool_of(128);
    let whole = pool.allocate(100).expect("the whole pool");
    assert_eq!(whole.bytes_mut(), SlicePtr { addr: BASE, len: 128 });
    assert!(pool.allocate(1).is_none());
    pool.free(whole);
    let again = pool.allocate(128).expect("the whole pool again");
    assert_eq!(again.bytes_mut(), SlicePtr { addr: BASE, len: 128 });
}

#[test]
fn pool_free_coalesces_neighbours() {
    let mut pool = pool_of(64);
    let a = pool.allocate(16).unwrap();
    let b = pool.allocate(16).unwrap();
    let c = pool.allocate(32).unwrap();
    assert!(pool.allocate(16).is_none());
    pool.free(b);
    pool.free(a);
    pool.free(c);
    let whole = pool.allocate(64).expect("the pieces merge back");
    assert_eq!(whole.bytes_mut(), SlicePtr { addr: BASE, len: 64 });
}

#[test]
fn pool_request_too_large() {
    let mut pool = pool_of(200);
    assert!(pool.allocate(129).is_none());
    assert!(pool.allocate(usize::MAX).is_none());
    assert!(pool.allocate(128).is_some());
}
