use wgpu_remote::pool::slice_utils::{ptr_subslice, ptr_subslice_range};
use wgpu_remote::SlicePtr;

#[test]
fn subslice_of_uninit() {
    let bytes = std::mem::MaybeUninit::<[u8; 10]>::uninit();
    let full_slice = SlicePtr { addr: bytes.as_ptr() as usize, len: 10 };
    let subrange = ptr_subslice(full_slice, 2..8);
    assert_eq!(subrange.len, 6);
}

#[test]
fn subslice_range_of_uninit() {
    let bytes = [0_u8; 10];
    let full_slice = SlicePtr { addr: bytes.as_ptr() as usize, len: bytes.len() };
    let partial = &bytes[2..8];
    let partial_slice = SlicePtr { addr: partial.as_ptr() as usize, len: partial.len() };
    assert_eq!(ptr_subslice_range(full_slice, partial_slice), 2..8);
}
