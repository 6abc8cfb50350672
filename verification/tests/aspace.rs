use axmm::PAGE_SIZE;
use axmm::aspace::AddrSpace;
use axmm::flags::MappingFlags;
use axmm::frames::FramePool;

fn rw() -> MappingFlags {
    MappingFlags::new(true, true, false, false)
}

fn ro() -> MappingFlags {
    MappingFlags::new(true, false, false, false)
}

#[test]
fn lazy_alloc_fault_and_access() {
    // AddrSpace over [0x1000_0000, 0x1001_0000); two lazily populated pages.
    let mut pool = FramePool::new(0x8000_0000, 16);
    let mut a = AddrSpace::new_empty(0x1000_0000, 0x1_0000, &mut pool).unwrap();
    a.map_alloc(0x1000_0000, 0x2000, rw(), false, PAGE_SIZE, &mut pool)
        .unwrap();
    // a read fault on a previously unmapped address is resolved
    assert!(a.handle_page_fault(0x1000_0000, ro(), &mut pool));
    // the mapped range grants read/write access; past it there is a gap
    assert!(a.can_access_range(0x1000_0000, 0x2000, rw()));
    assert!(!a.can_access_range(0x1000_2000, 0x1000, rw()));
    // a fault outside any region is a real fault
    assert!(!a.handle_page_fault(0x1000_8000, ro(), &mut pool));
}

#[test]
fn populated_region_never_faults_lazily() {
    let mut pool = FramePool::new(0x8000_0000, 16);
    let mut a = AddrSpace::new_empty(0x1000_0000, 0x1_0000, &mut pool).unwrap();
    a.map_alloc(0x1000_0000, 0x2000, rw(), true, PAGE_SIZE, &mut pool)
        .unwrap();
    let free_before = pool.num_frames_exec();
    // both pages are mapped eagerly: faults are already satisfied
    assert!(a.handle_page_fault(0x1000_0000, ro(), &mut pool));
    assert!(a.handle_page_fault(0x1000_1000, rw(), &mut pool));
    let _ = free_before;
    // write fault against a region without write permission fails
    a.map_alloc(0x1000_4000, 0x1000, ro(), false, PAGE_SIZE, &mut pool)
        .unwrap();
    assert!(!a.handle_page_fault(0x1000_4000, rw(), &mut pool));
}

#[test]
fn find_free_area_first_fit() {
    let mut pool = FramePool::new(0x8000_0000, 16);
    let mut a = AddrSpace::new_empty(0x1000_0000, 0x10_0000, &mut pool).unwrap();
    a.map_alloc(0x1000_2000, 0x2000, rw(), false, PAGE_SIZE, &mut pool)
        .unwrap();
    a.map_alloc(0x1000_5000, 0x1000, rw(), false, PAGE_SIZE, &mut pool)
        .unwrap();
    // the gap below the first region is too small for two pages: the first
    // fit is the gap between the regions
    let x = a
        .find_free_area(0x1000_1000, 0x1000, 0x1000_0000, 0x1010_0000, PAGE_SIZE)
        .unwrap();
    assert_eq!(x, 0x1000_1000);
    let y = a
        .find_free_area(0x1000_1000, 0x2000, 0x1000_0000, 0x1010_0000, PAGE_SIZE)
        .unwrap();
    assert_eq!(y, 0x1000_6000);
    // no fit within a tight limit
    assert!(a
        .find_free_area(0x1000_0000, 0x2000, 0x1000_0000, 0x1000_1000, PAGE_SIZE)
        .is_none());
}

#[test]
fn map_errors() {
    let mut pool = FramePool::new(0x8000_0000, 16);
    let mut a = AddrSpace::new_empty(0x1000_0000, 0x1_0000, &mut pool).unwrap();
    // out of range
    assert_eq!(
        a.map_alloc(0x2000_0000, 0x1000, rw(), false, PAGE_SIZE, &mut pool),
        Err(axmm::AxError::InvalidInput)
    );
    // misaligned
    assert_eq!(
        a.map_alloc(0x1000_0800, 0x1000, rw(), false, PAGE_SIZE, &mut pool),
        Err(axmm::AxError::InvalidInput)
    );
    a.map_alloc(0x1000_0000, 0x2000, rw(), false, PAGE_SIZE, &mut pool)
        .unwrap();
    // overlap
    assert_eq!(
        a.map_alloc(0x1000_1000, 0x2000, rw(), false, PAGE_SIZE, &mut pool),
        Err(axmm::AxError::AlreadyExists)
    );
    // eager population fails when the pool is dry
    let mut tiny = FramePool::new(0x9000_0000, 2);
    let mut b = AddrSpace::new_empty(0, 0x1_0000, &mut tiny).unwrap();
    assert_eq!(
        b.map_alloc(0x0, 0x4000, rw(), true, PAGE_SIZE, &mut tiny),
        Err(axmm::AxError::NoMemory)
    );
}

#[test]
fn read_write_round_trip() {
    let mut pool = FramePool::new(0x8000_0000, 16);
    let mut a = AddrSpace::new_empty(0x1000_0000, 0x1_0000, &mut pool).unwrap();
    a.map_alloc(0x1000_0000, 0x2000, rw(), true, PAGE_SIZE, &mut pool)
        .unwrap();
    let data = vec![1u8, 2, 3, 4, 5];
    a.write(0x1000_0ffe, &data, &mut pool).unwrap();
    let mut out = vec![0u8; 5];
    a.read(0x1000_0ffe, &mut out, &pool).unwrap();
    assert_eq!(out, data);
    // an unmapped page is a bad address
    let mut buf = vec![0u8; 1];
    assert_eq!(
        a.read(0x1000_4000, &mut buf, &pool),
        Err(axmm::AxError::BadAddress)
    );
    // out of the virtual range
    assert_eq!(
        a.read(0x2000_0000, &mut buf, &pool),
        Err(axmm::AxError::InvalidInput)
    );
}

#[test]
fn cow_write_fault_isolates_sharers() {
    let mut pool = FramePool::new(0x8000_0000, 16);
    let mut a = AddrSpace::new_empty(0x1000_0000, 0x1_0000, &mut pool).unwrap();
    a.map_alloc(0x1000_0000, 0x1000, rw(), true, PAGE_SIZE, &mut pool)
        .unwrap();
    let data = vec![0xaau8; 8];
    a.write(0x1000_0000, &data, &mut pool).unwrap();
    let (pa, _) = a.page_table().query(0x1000_0000).unwrap();
    assert_eq!(pool.ref_count(pa), 1);

    // a second address space shares the same frame read-only
    let mut b = AddrSpace::new_empty(0x9000_0000, 0x1_0000, &mut pool).unwrap();
    b.map_linear(0x9000_0000, pa, 0x1000, ro(), PAGE_SIZE)
        .unwrap();
    pool.inc_ref(pa);
    assert_eq!(pool.ref_count(pa), 2);

    // before either side writes, both read the same bytes
    let mut via_a = vec![0u8; 8];
    let mut via_b = vec![0u8; 8];
    a.read(0x1000_0000, &mut via_a, &pool).unwrap();
    b.read(0x9000_0000, &mut via_b, &pool).unwrap();
    assert_eq!(via_a, data);
    assert_eq!(via_b, data);

    // a write fault in the first space copies the frame and releases one
    // reference to the shared one
    assert!(a.handle_page_fault(0x1000_0000, rw(), &mut pool));
    let (pa2, _) = a.page_table().query(0x1000_0000).unwrap();
    assert_ne!(pa2, pa);
    assert_eq!(pool.ref_count(pa), 1);
    assert_eq!(pool.ref_count(pa2), 1);

    // the copy holds the same bytes; writes no longer reach the sharer
    a.read(0x1000_0000, &mut via_a, &pool).unwrap();
    assert_eq!(via_a, data);
    let newdata = vec![0x55u8; 8];
    a.write(0x1000_0000, &newdata, &mut pool).unwrap();
    b.read(0x9000_0000, &mut via_b, &pool).unwrap();
    assert_eq!(via_b, data);

    // releasing both mappings returns the frames to the pool
    a.unmap(0x1000_0000, 0x1000, &mut pool).unwrap();
    assert_eq!(pool.ref_count(pa2), 0);
    pool.dec_ref(pa);
    b.unmap(0x9000_0000, 0x1000, &mut pool).unwrap();
    assert_eq!(pool.ref_count(pa), 0);
}

#[test]
fn unmap_shrinks_and_splits_regions() {
    let mut pool = FramePool::new(0x8000_0000, 16);
    let mut a = AddrSpace::new_empty(0x1000_0000, 0x1_0000, &mut pool).unwrap();
    a.map_alloc(0x1000_0000, 0x4000, rw(), true, PAGE_SIZE, &mut pool)
        .unwrap();
    // punch a hole in the middle: the region splits in two
    a.unmap(0x1000_1000, 0x1000, &mut pool).unwrap();
    assert!(a.can_access_range(0x1000_0000, 0x1000, rw()));
    assert!(!a.can_access_range(0x1000_1000, 0x1000, ro()));
    assert!(a.can_access_range(0x1000_2000, 0x2000, rw()));
    // a fault in the hole is a real fault
    assert!(!a.handle_page_fault(0x1000_1000, ro(), &mut pool));
    // clearing releases everything
    a.clear(&mut pool);
    assert!(!a.can_access_range(0x1000_0000, 0x1000, ro()));
}

#[test]
fn populate_area_fills_lazy_regions() {
    let mut pool = FramePool::new(0x8000_0000, 16);
    let mut a = AddrSpace::new_empty(0x1000_0000, 0x1_0000, &mut pool).unwrap();
    a.map_alloc(0x1000_0000, 0x3000, rw(), false, PAGE_SIZE, &mut pool)
        .unwrap();
    assert!(a.page_table().query(0x1000_1000).is_err());
    a.populate_area(0x1000_0000, 0x3000, rw(), &mut pool).unwrap();
    assert!(a.page_table().query(0x1000_0000).is_ok());
    assert!(a.page_table().query(0x1000_1000).is_ok());
    assert!(a.page_table().query(0x1000_2000).is_ok());
    // an uncovered range reports no memory
    assert_eq!(
        a.populate_area(0x1000_4000, 0x1000, rw(), &mut pool),
        Err(axmm::AxError::NoMemory)
    );
}

#[test]
fn map_linear_translates_by_offset() {
    let mut pool = FramePool::new(0x8000_0000, 16);
    let mut a = AddrSpace::new_empty(0x9000_0000, 0x1_0000, &mut pool).unwrap();
    a.map_linear(0x9000_2000, 0x8000_2000, 0x2000, ro(), PAGE_SIZE)
        .unwrap();
    let (pa, fl) = a.page_table().query(0x9000_3000).unwrap();
    assert_eq!(pa, 0x8000_3000);
    assert!(fl.contains(ro()));
    assert!(!fl.contains(rw()));
}

#[test]
fn protect_rewrites_flags_and_is_idempotent() {
    let mut pool = FramePool::new(0x8000_0000, 16);
    let mut a = AddrSpace::new_empty(0x1000_0000, 0x1_0000, &mut pool).unwrap();
    a.map_alloc(0x1000_0000, 0x4000, rw(), false, PAGE_SIZE, &mut pool)
        .unwrap();
    // drop write permission on the middle two pages: the region splits
    a.protect(0x1000_1000, 0x2000, ro(), &mut pool).unwrap();
    assert!(a.can_access_range(0x1000_0000, 0x1000, rw()));
    assert!(a.can_access_range(0x1000_1000, 0x2000, ro()));
    assert!(!a.can_access_range(0x1000_1000, 0x1000, rw()));
    assert!(a.can_access_range(0x1000_3000, 0x1000, rw()));
    // the pages of the protected range carry the new flags
    let (_, fl) = a.page_table().query(0x1000_1000).unwrap();
    assert!(!fl.write);
    // a second protect with identical flags succeeds and changes nothing
    a.protect(0x1000_1000, 0x2000, ro(), &mut pool).unwrap();
    assert!(a.can_access_range(0x1000_1000, 0x2000, ro()));
    assert!(!a.can_access_range(0x1000_1000, 0x1000, rw()));
    let (_, fl2) = a.page_table().query(0x1000_1000).unwrap();
    assert!(!fl2.write);
    // protecting an uncovered range reports no memory and rewrites nothing
    assert_eq!(
        a.protect(0x1000_8000, 0x1000, ro(), &mut pool),
        Err(axmm::AxError::NoMemory)
    );
    // an invalid range is rejected outright
    assert_eq!(
        a.protect(0x2000_0000, 0x1000, ro(), &mut pool),
        Err(axmm::AxError::InvalidInput)
    );
}

#[test]
fn protect_to_writable_copies_shared_frames() {
    let mut pool = FramePool::new(0x8000_0000, 16);
    let mut a = AddrSpace::new_empty(0x1000_0000, 0x1_0000, &mut pool).unwrap();
    a.map_alloc(0x1000_0000, 0x1000, rw(), true, PAGE_SIZE, &mut pool)
        .unwrap();
    let data = vec![0x5au8; 8];
    a.write(0x1000_0000, &data, &mut pool).unwrap();
    let (pa, _) = a.page_table().query(0x1000_0000).unwrap();

    // drop write permission, then share the frame read-only with a second
    // address space
    a.protect(0x1000_0000, 0x1000, ro(), &mut pool).unwrap();
    let mut b = AddrSpace::new_empty(0x9000_0000, 0x1_0000, &mut pool).unwrap();
    b.map_linear(0x9000_0000, pa, 0x1000, ro(), PAGE_SIZE)
        .unwrap();
    pool.inc_ref(pa);
    assert_eq!(pool.ref_count(pa), 2);

    // granting write back resolves the sharing eagerly: the population pass
    // inside protect copies the frame instead of making the shared one
    // writable on both sides
    a.protect(0x1000_0000, 0x1000, rw(), &mut pool).unwrap();
    let (pa2, fl) = a.page_table().query(0x1000_0000).unwrap();
    assert_ne!(pa2, pa);
    assert!(fl.write);
    assert_eq!(pool.ref_count(pa), 1);
    assert_eq!(pool.ref_count(pa2), 1);

    // the copy holds the shared bytes, and writing through it no longer
    // reaches the sharer
    let mut via_a = vec![0u8; 8];
    a.read(0x1000_0000, &mut via_a, &pool).unwrap();
    assert_eq!(via_a, data);
    let newdata = vec![0xc3u8; 8];
    a.write(0x1000_0000, &newdata, &mut pool).unwrap();
    let mut via_b = vec![0u8; 8];
    b.read(0x9000_0000, &mut via_b, &pool).unwrap();
    assert_eq!(via_b, data);
}
