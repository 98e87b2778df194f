use kmem::frame::FrameAllocator;
use kmem::perm::perm_of_port;
use kmem::space::{AddressSpace, MapError};

#[test]
fn map_reports_overlap() {
    let mut alloc = FrameAllocator::new(4);
    let mut space = AddressSpace::new();
    let perm = perm_of_port(0x3);
    assert_eq!(space.map(10, 12, perm, &mut alloc), Ok(()));
    assert_eq!(space.map(11, 13, perm, &mut alloc), Err(MapError::Overlap));
    assert_eq!(space.pages.len(), 2);
    assert_eq!(alloc.frames_available(), 2);
}

#[test]
fn map_reports_out_of_frames() {
    let mut alloc = FrameAllocator::new(1);
    let mut space = AddressSpace::new();
    let perm = perm_of_port(0x3);
    assert_eq!(space.map(10, 12, perm, &mut alloc), Err(MapError::OutOfFrames));
    assert_eq!(space.pages.len(), 0);
    assert_eq!(alloc.frames_available(), 1);
}

#[test]
fn unmap_reports_not_mapped() {
    let mut alloc = FrameAllocator::new(4);
    let mut space = AddressSpace::new();
    let perm = perm_of_port(0x3);
    assert_eq!(space.unmap(10, 11, &mut alloc), Err(MapError::NotMapped));
    assert_eq!(space.map(10, 12, perm, &mut alloc), Ok(()));
    assert_eq!(space.unmap(10, 13, &mut alloc), Err(MapError::NotMapped));
    assert_eq!(space.unmap(10, 12, &mut alloc), Ok(()));
    assert_eq!(space.pages.len(), 0);
    assert_eq!(alloc.frames_available(), 4);
}

#[test]
fn translate_tracks_backing_frames() {
    let mut alloc = FrameAllocator::new(4);
    let mut space = AddressSpace::new();
    let perm = perm_of_port(0x3);
    assert_eq!(space.map(2, 4, perm, &mut alloc), Ok(()));
    // the allocator hands out its highest free frame first
    assert_eq!(space.translate(2 * 4096 + 7), Some(3 * 4096 + 7));
    assert_eq!(space.translate(3 * 4096), Some(2 * 4096));
    assert_eq!(space.translate(4 * 4096), None);
    assert_eq!(space.translate(0), None);
}
