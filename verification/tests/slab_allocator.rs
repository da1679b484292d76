use std::collections::HashSet;

use ov6::slab_allocator::SlabAllocator;

struct Data {
    _data: [u64; 4],
}

impl Data {
    fn zeroed() -> Self {
        Self { _data: [0; 4] }
    }
}

fn heap() -> Vec<Data> {
    (0..100).map(|_| Data::zeroed()).collect()
}

fn allocator_for(heap: &[Data]) -> SlabAllocator<Data> {
    let start = heap.as_ptr().addr() as u64;
    let end = start + size_of_val(heap) as u64;
    SlabAllocator::new(start..end)
}

#[test]
fn test_page_allocator() {
    let heap = heap();
    let mut allocator = allocator_for(&heap);

    let ptr0 = allocator.allocate().unwrap();
    assert_eq!(ptr0 % align_of::<Data>() as u64, 0);
    let ptr1 = allocator.allocate().unwrap();
    assert_eq!(ptr1 % align_of::<Data>() as u64, 0);
    assert_ne!(ptr0, ptr1);
    allocator.deallocate(ptr0);
    allocator.deallocate(ptr1);
}

#[test]
fn test_all_pages() {
    let heap = heap();
    let mut allocator = allocator_for(&heap);

    let mut pages = vec![];
    let mut addrs = HashSet::new();

    // allocate all pages
    for _ in 0..100 {
        let page = allocator.allocate().unwrap();
        assert_eq!(page % align_of::<Data>() as u64, 0, "page is not aligned");
        assert!(addrs.insert(page), "page is duplicated");
        pages.push(page);
    }

    // fail to allocate one more page
    assert!(allocator.allocate().is_none());

    // free one page and allocate one page
    let page = pages.pop().unwrap();
    allocator.deallocate(page);
    let page = allocator.allocate().unwrap();
    assert_eq!(page % align_of::<Data>() as u64, 0);
    pages.push(page);

    // free all pages
    for page in pages {
        allocator.deallocate(page);
    }
}

#[test]
fn pieces_come_from_the_range_and_the_last_freed_comes_first() {
    let mut allocator: SlabAllocator<u64> = SlabAllocator::new(0x1000..0x1020);
    let mut all: Vec<u64> = (0..4).map(|_| allocator.allocate().unwrap()).collect();
    assert_eq!(allocator.allocate(), None);
    allocator.deallocate(0x1008);
    assert_eq!(allocator.allocate(), Some(0x1008));
    all.sort();
    assert_eq!(all, [0x1000, 0x1008, 0x1010, 0x1018]);
}

#[test]
fn an_empty_range_has_no_pieces() {
    let mut allocator: SlabAllocator<u64> = SlabAllocator::new(0x1000..0x1000);
    assert_eq!(allocator.allocate(), None);
}
