use wgpu_remote::{Block, SlicePtr};

/// `Block` implements `Send`.
#[test]
fn block_is_send() {
    fn require_send<T: Send>(_t: T) {}
    let block = Block::new(SlicePtr { addr: 0x1000, len: 0 });
    require_send(block);
}
