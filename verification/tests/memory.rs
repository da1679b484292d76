use ov6::error::KernelError;
use ov6::interrupt::trap::TrapFrame;
use ov6::memory::addr::{Bound, PageRound, PhysAddr, PhysPageNum, VirtAddr, VirtAddrBounds, VA_MAX};
use ov6::memory::layout::{kstack, TRAMPOLINE};
use ov6::memory::page_manager::{Page, PageFrameAllocator, PageManager, PageState, Ram};
use ov6::memory::page_table::dump::{dump_pagetable, flags_text, DumpLine};
use ov6::memory::page_table::entry::PtEntryFlags;
use ov6::memory::page_table::{MapTarget, PageTable};
use ov6::memory::validated::{
    AsGenericSliceOfSlice, AsVirtAddrRange, GenericMutSlice, GenericSlice, GenericSliceOfSlice,
    TryAsVirtAddrRange, Validate,
};
use ov6::memory::vm_user::UserPageTable;
use ov6::syscall::{UserMutSlice, UserRef, UserSlice};

const BASE: u64 = 0x8000_0000;
const PAGES: u64 = 40;
const PAGE: u64 = 4096;

fn manager() -> PageManager {
    let ram = Ram {
        base: BASE,
        bytes: vec![0; (PAGES * PAGE) as usize],
    };
    PageManager::new(PhysAddr(BASE)..PhysAddr(BASE + PAGES * PAGE), ram)
}

fn va(addr: u64) -> VirtAddr {
    VirtAddr::new(addr).unwrap()
}

fn user_rw() -> PtEntryFlags {
    PtEntryFlags::urw()
}

fn user_r() -> PtEntryFlags {
    PtEntryFlags {
        w: false,
        ..PtEntryFlags::urw()
    }
}

fn table(m: &mut PageManager) -> PageTable {
    PageTable::try_allocate(m).unwrap()
}

fn map(pt: &mut PageTable, m: &mut PageManager, start: u64, pages: u64, flags: PtEntryFlags) {
    pt.map_addrs(
        va(start),
        MapTarget::allocate_new_zeroed(),
        pages * PAGE,
        flags,
        m,
    )
    .unwrap();
}

// addresses

#[test]
fn addresses_are_rounded_to_pages() {
    assert_eq!(0x1001u64.page_roundup(), 0x2000);
    assert_eq!(0x1000u64.page_roundup(), 0x1000);
    assert_eq!(0x1fffu64.page_rounddown(), 0x1000);
    assert!(0x3000u64.is_page_aligned());
    assert!(!0x3001u64.is_page_aligned());
    assert_eq!(0x20_0001u64.level_page_roundup(1), 0x40_0000);
    assert_eq!(0x3f_ffffu64.level_page_rounddown(1), 0x20_0000);
    assert!(0x4000_0000u64.is_level_page_aligned(2));
    assert_eq!(va(0x1001).page_roundup(), va(0x2000));
    assert_eq!(PhysAddr(0x1fff).page_rounddown(), PhysAddr(0x1000));
}

#[test]
fn virtual_addresses_are_limited() {
    assert_eq!(VirtAddr::new(VA_MAX).unwrap().addr(), 0x40_0000_0000);
    assert_eq!(
        VirtAddr::new(VA_MAX + 1).unwrap_err(),
        KernelError::TooLargeVirtualAddress(VA_MAX + 1)
    );
    assert_eq!(va(0x1000).byte_add(0x10).unwrap(), va(0x1010));
    assert!(matches!(
        va(VA_MAX).byte_add(1),
        Err(KernelError::TooLargeVirtualAddress(_))
    ));
    assert_eq!(va(0x1010).byte_sub(0x10).unwrap(), va(0x1000));
    assert_eq!(
        va(0).byte_sub(1).unwrap_err(),
        KernelError::VirtualAddressUnderflow
    );
    assert_eq!(va(5).checked_sub(va(3)), Some(2));
    assert_eq!(va(3).checked_sub(va(5)), None);
}

#[test]
fn the_parts_of_a_virtual_address() {
    let a = va((3 << 30) | (5 << 21) | (7 << 12) | 9);
    assert_eq!(a.level_idx(2), 3);
    assert_eq!(a.level_idx(1), 5);
    assert_eq!(a.level_idx(0), 7);
    assert_eq!(a.with_level_idx(1, 6).addr(), (3 << 30) | (6 << 21) | (7 << 12) | 9);
}

#[test]
fn ranges_of_addresses_become_inclusive() {
    let range = VirtAddr::range_inclusive(VirtAddrBounds::range(va(0x1000), va(0x2000))).unwrap();
    assert_eq!((range.first, range.last), (va(0x1000), va(0x1fff)));
    assert!(VirtAddr::range_inclusive(VirtAddrBounds::range(va(0x1000), va(0x1000))).is_none());
    let all = VirtAddr::range_inclusive(VirtAddrBounds {
        start: Bound::Unbounded,
        end: Bound::Unbounded,
    })
    .unwrap();
    assert_eq!(all.first, va(0));
}

#[test]
fn page_numbers_and_addresses_belong_together() {
    assert_eq!(PhysAddr(0x8000_1234).phys_page_num().value(), 0x8_0001);
    assert_eq!(PhysPageNum::new(0x8_0001).phys_addr(), PhysAddr(0x8000_1000));
    assert_eq!(PhysAddr(u64::MAX).byte_add(1), None);
    assert_eq!(PhysAddr(1).byte_add(1), Some(PhysAddr(2)));
}

#[test]
fn kernel_stacks_lie_below_the_trampoline_and_apart() {
    assert_eq!(kstack(0).addr(), TRAMPOLINE - 0x5000);
    assert_eq!(kstack(1).addr(), TRAMPOLINE - 0xa000);
}

// pages

#[test]
fn the_counts_of_the_pages_take_up_part_of_the_range() {
    let m = manager();
    let info = m.info();
    assert_eq!(info.page_size, PAGE);
    assert_eq!(info.total_pages, PAGES - 1);
    assert_eq!(info.free_pages, PAGES - 1);
    assert!(m.is_heap_addr(PhysAddr(BASE + PAGE)));
    assert!(!m.is_heap_addr(PhysAddr(BASE)));
    assert!(!m.is_heap_addr(PhysAddr(BASE + PAGES * PAGE)));
    assert_eq!(m.page_index(PhysAddr(BASE + 2 * PAGE)), 1);
}

#[test]
fn pages_are_allocated_and_released() {
    let mut m = manager();
    let before = m.info().free_pages;
    let page = Page::allocate(&mut m).unwrap();
    assert_eq!(page.ref_count(&m), 1);
    assert_eq!(m.info().free_pages, before - 1);
    assert!(m.bytes(page.pa, PAGE).iter().all(|b| *b == 5));
    assert_eq!(page.increment_ref(&mut m), 1);
    assert_eq!(page.ref_count(&m), 2);
    let pa = page.into_raw();
    Page::from_raw(&m, pa).release(&mut m);
    assert_eq!(m.ref_count(pa), 1);
    Page::from_raw(&m, pa).release(&mut m);
    assert_eq!(m.ref_count(pa), 0);
    assert_eq!(m.info().free_pages, before);
    let zeroed = Page::alloc_zeroed(&mut m).unwrap();
    assert_eq!(zeroed.pa, pa);
    assert!(m.bytes(pa, PAGE).iter().all(|b| *b == 0));
    let own = Page::alloc_non_shareable_page(&mut m).unwrap();
    assert_eq!(own.ref_count(&m), u32::MAX);
}

#[test]
fn there_are_only_so_many_pages() {
    let mut m = manager();
    for _ in 0..PAGES - 1 {
        Page::allocate(&mut m).unwrap();
    }
    assert_eq!(Page::allocate(&mut m).unwrap_err(), KernelError::NoFreePage);
}

#[test]
fn page_frames_are_never_shared() {
    let mut m = manager();
    let pa = PageFrameAllocator.allocate(&mut m, 4096, 4096).unwrap();
    assert_eq!(m.ref_count(pa), u32::MAX);
    PageFrameAllocator.deallocate(&mut m, pa, 4096, 4096);
    assert_eq!(m.ref_count(pa), 0);
}

#[test]
fn the_mark_of_a_page_is_taken_off() {
    let mut marked = PageState::new();
    marked.mark_non_shareable();
    assert_eq!(marked.try_unmark_non_shareable(), Ok(0));
    assert_eq!(marked.ref_count, 0);
    let mut fresh = PageState::new();
    assert_eq!(fresh.try_unmark_non_shareable(), Err(u32::MAX));
    assert_eq!(fresh.ref_count, 0);
    fresh.increment_ref();
    assert_eq!(fresh.try_unmark_non_shareable(), Err(u32::MAX));
    assert_eq!(fresh.ref_count, 1);
}

#[test]
fn pages_are_copied() {
    let mut m = manager();
    let a = Page::alloc_zeroed(&mut m).unwrap();
    let b = Page::alloc_zeroed(&mut m).unwrap();
    m.write_bytes(PhysAddr(a.pa.0 + 10), &[1, 2, 3]);
    m.copy_page(a.pa, b.pa);
    assert_eq!(&m.bytes(b.pa, 14)[9..], &[0, 1, 2, 3, 0]);
    m.bytes_mut(b.pa, 1)[0] = 9;
    assert_eq!(m.bytes(b.pa, 1), &[9]);
    assert_eq!(m.bytes(a.pa, 1), &[0]);
}

// page tables

#[test]
fn the_register_value_of_a_table() {
    let mut m = manager();
    let pt = table(&mut m);
    assert!(m.bytes(pt.0.pa, PAGE).iter().all(|b| *b == 0));
    assert_eq!(pt.satp(), 0x8000_0000_0000_0000 + (pt.0.pa.0 >> 12));
}

#[test]
fn mapped_addresses_are_found() {
    let mut m = manager();
    let mut pt = table(&mut m);
    map(&mut pt, &mut m, 0x1000, 2, user_rw());
    let (level, leaf) = pt.find_leaf_entry(va(0x1234)).unwrap();
    assert_eq!(level, 0);
    assert!(leaf.flags.contains(user_rw()));
    assert_eq!(m.ref_count(leaf.pa), 1);
    assert!(matches!(
        pt.find_leaf_entry(va(0x3000)),
        Err(KernelError::VirtualPageNotMapped(_))
    ));
}

#[test]
fn large_pieces_are_mapped_by_large_pages() {
    let mut m = manager();
    let mut pt = table(&mut m);
    pt.map_addrs(
        va(0x1f_f000),
        MapTarget::fixed_addr(PhysAddr(0x9f_f000)),
        0x20_2000,
        user_rw(),
        &mut m,
    )
    .unwrap();
    assert_eq!(pt.find_leaf_entry(va(0x1f_f000)).unwrap().0, 0);
    let (level, leaf) = pt.find_leaf_entry(va(0x20_0000)).unwrap();
    assert_eq!(level, 1);
    assert_eq!(leaf.pa, PhysAddr(0xa0_0000));
    assert_eq!(pt.find_leaf_entry(va(0x40_0000)).unwrap().0, 0);
    assert!(pt.find_leaf_entry(va(0x40_1000)).is_err());
}

#[test]
fn access_is_validated() {
    let mut m = manager();
    let mut pt = table(&mut m);
    map(&mut pt, &mut m, 0x1000, 1, user_rw());
    map(&mut pt, &mut m, 0x2000, 1, user_r());
    let range = |a, b| VirtAddrBounds::range(va(a), va(b));
    assert_eq!(pt.validate(range(0x1000, 0x3000), user_r()), Ok(()));
    assert_eq!(
        pt.validate(range(0x1000, 0x3000), user_rw()),
        Err(KernelError::InaccessiblePage(va(0x2000)))
    );
    assert_eq!(
        pt.validate(range(0x1000, 0x3001), user_r()),
        Err(KernelError::VirtualPageNotMapped(va(0x3000)))
    );
}

#[test]
fn unmapping_releases_pages() {
    let mut m = manager();
    let mut pt = table(&mut m);
    map(&mut pt, &mut m, 0x1000, 3, user_rw());
    let free = m.info().free_pages;
    pt.unmap_addrs(va(0x1000), 2 * PAGE, &mut m).unwrap();
    assert_eq!(m.info().free_pages, free + 2);
    assert!(pt.find_leaf_entry(va(0x1000)).is_err());
    assert!(pt.find_leaf_entry(va(0x3000)).is_ok());
    assert!(pt.unmap_addrs(va(VA_MAX), 1, &mut m).is_err());
}

#[test]
fn freeing_a_table_releases_everything() {
    let mut m = manager();
    let before = m.info().free_pages;
    let mut pt = table(&mut m);
    map(&mut pt, &mut m, 0x1000, 3, user_rw());
    assert!(m.info().free_pages < before);
    pt.free(&mut m);
    assert_eq!(m.info().free_pages, before);
}

#[test]
fn a_clone_shares_pages_until_they_are_written() {
    let mut m = manager();
    let mut parent = table(&mut m);
    map(&mut parent, &mut m, 0x1000, 1, user_rw());
    let page = parent.find_leaf_entry(va(0x1000)).unwrap().1.pa;
    m.write_bytes(page, b"shared");

    let mut child = table(&mut m);
    child
        .clone_pages_from(
            &mut parent,
            VirtAddrBounds::range(va(0x1000), va(0x2000)),
            user_rw(),
            &mut m,
        )
        .unwrap();
    let leaf = child.find_leaf_entry(va(0x1000)).unwrap().1;
    assert_eq!(leaf.pa, page);
    assert!(!leaf.flags.w && leaf.flags.c);
    let leaf = parent.find_leaf_entry(va(0x1000)).unwrap().1;
    assert!(!leaf.flags.w && leaf.flags.c);
    assert_eq!(m.ref_count(page), 2);

    child.fetch_chunk_mut(va(0x1000), user_rw(), &mut m).unwrap()[0] = b'S';
    let copy = child.find_leaf_entry(va(0x1000)).unwrap().1;
    assert_ne!(copy.pa, page);
    assert!(copy.flags.w && !copy.flags.c);
    assert_eq!(m.ref_count(page), 1);
    assert_eq!(&child.fetch_chunk(va(0x1000), user_r(), &m).unwrap()[..6], b"Shared");
    assert_eq!(&parent.fetch_chunk(va(0x1000), user_r(), &m).unwrap()[..6], b"shared");

    // the parent is now the only owner, and gets the page back as its own
    parent.request_user_write(va(0x1000), &mut m).unwrap();
    let leaf = parent.find_leaf_entry(va(0x1000)).unwrap().1;
    assert_eq!(leaf.pa, page);
    assert!(leaf.flags.w && !leaf.flags.c);
}

#[test]
fn a_page_that_cannot_be_written_stays_so() {
    let mut m = manager();
    let mut pt = table(&mut m);
    map(&mut pt, &mut m, 0x1000, 1, user_r());
    assert_eq!(
        pt.request_user_write(va(0x1000), &mut m),
        Err(KernelError::InaccessiblePage(va(0x1000)))
    );
    assert_eq!(
        pt.request_user_write(va(0x5000), &mut m),
        Err(KernelError::VirtualPageNotMapped(va(0x5000)))
    );
    assert_eq!(
        pt.fetch_chunk(va(0x1000), user_rw(), &m).unwrap_err(),
        KernelError::InaccessiblePage(va(0x1000))
    );
}

#[test]
fn a_chunk_goes_to_the_end_of_the_page() {
    let mut m = manager();
    let mut pt = table(&mut m);
    map(&mut pt, &mut m, 0x1000, 2, user_rw());
    assert_eq!(pt.fetch_chunk(va(0x1ff0), user_r(), &m).unwrap().len(), 16);
}

#[test]
fn mapping_fails_without_pages() {
    let mut m = manager();
    let mut pt = table(&mut m);
    let res = pt.map_addrs(
        va(0x1000),
        MapTarget::allocate_new_zeroed(),
        (PAGES + 1) * PAGE,
        user_rw(),
        &mut m,
    );
    assert_eq!(res, Err(KernelError::NoFreePage));
}

/// Leaves `pages` pages free.
fn leave_free(m: &mut PageManager, pages: u64) {
    while m.info().free_pages > pages {
        Page::allocate(m).unwrap();
    }
}

#[test]
fn mapping_takes_the_pages_it_needs() {
    // two pages in two tables of one table
    for free in 0..7 {
        let mut m = manager();
        let mut pt = table(&mut m);
        leave_free(&mut m, free);
        let res = pt.map_addrs(
            va(0x1f_f000),
            MapTarget::allocate_new_zeroed(),
            2 * PAGE,
            user_rw(),
            &mut m,
        );
        if free < 5 {
            assert_eq!(res, Err(KernelError::NoFreePage));
            assert_eq!(m.info().free_pages, 0);
        } else {
            assert_eq!(res, Ok(()));
            assert_eq!(m.info().free_pages, free - 5);
        }
    }
}

#[test]
fn a_large_page_needs_no_last_table() {
    for free in 0..5 {
        let mut m = manager();
        let mut pt = table(&mut m);
        leave_free(&mut m, free);
        let res = pt.map_addrs(
            va(0x1f_f000),
            MapTarget::fixed_addr(PhysAddr(0x9f_f000)),
            0x20_2000,
            user_rw(),
            &mut m,
        );
        if free < 3 {
            assert_eq!(res, Err(KernelError::NoFreePage));
        } else {
            assert_eq!(res, Ok(()));
            assert_eq!(m.info().free_pages, free - 3);
        }
    }
}

#[test]
fn sharing_takes_tables_only() {
    for free in 0..6 {
        let mut m = manager();
        let mut parent = table(&mut m);
        map(&mut parent, &mut m, 0x1f_f000, 2, user_rw());
        map(&mut parent, &mut m, 0x20_5000, 1, user_rw());
        let pages = [0x1f_f000, 0x20_0000, 0x20_5000]
            .map(|x| parent.find_leaf_entry(va(x)).unwrap().1.pa);
        let mut child = table(&mut m);
        leave_free(&mut m, free);
        let res = child.clone_pages_from(
            &mut parent,
            VirtAddrBounds::range(va(0x1000), va(0x20_6000)),
            user_rw(),
            &mut m,
        );
        let counts = pages.map(|pa| m.ref_count(pa));
        if free < 2 {
            assert_eq!(res, Err(KernelError::NoFreePage));
            assert_eq!(m.info().free_pages, 0);
            assert_eq!(counts, [2, 1, 1]);
            assert!(child.find_leaf_entry(va(0x1f_f000)).is_err());
        } else if free < 3 {
            assert_eq!(res, Err(KernelError::NoFreePage));
            assert_eq!(m.info().free_pages, 0);
            assert_eq!(counts, [2, 2, 1]);
            assert!(child.find_leaf_entry(va(0x1f_f000)).is_ok());
        } else {
            assert_eq!(res, Ok(()));
            assert_eq!(m.info().free_pages, free - 3);
            assert_eq!(counts, [2, 2, 2]);
        }
    }
}

#[test]
fn the_dump_joins_neighbouring_pages() {
    let mut m = manager();
    let mut pt = table(&mut m);
    pt.map_addrs(
        va(0x1000),
        MapTarget::fixed_addr(PhysAddr(0x5000)),
        2 * PAGE,
        user_rw(),
        &mut m,
    )
    .unwrap();
    let lines = dump_pagetable(&pt);
    assert_eq!(lines.len(), 3);
    assert!(matches!(lines[0], DumpLine::NonLeaf { level: 2, index: 0, .. }));
    assert!(matches!(lines[1], DumpLine::NonLeaf { level: 1, index: 0, .. }));
    let DumpLine::Leaves { start_index, end_index, start_pa, .. } = &lines[2] else {
        panic!("not a line of pages");
    };
    assert_eq!((*start_index, *end_index, *start_pa), (1, 3, PhysAddr(0x5000)));
    let text: String = flags_text(user_rw()).into_iter().collect();
    assert_eq!(text, "rw-u----");
}

#[test]
fn flags_have_the_bits_of_the_hardware() {
    assert_eq!(user_rw().bits(), 0x16);
    assert_eq!(user_rw().with_valid().bits(), 0x17);
    assert_eq!(user_rw().shared_flags().bits(), 0x112);
    assert_eq!(user_rw().shared_flags().effective_flags().bits(), 0x116);
    assert_eq!(user_rw().shared_flags().owned_flags().bits(), 0x16);
    assert_eq!(PtEntryFlags::empty().bits(), 0);
    assert!(!PtEntryFlags::empty().intersects_rwx());
}

#[test]
fn map_targets_move_on() {
    let fixed = MapTarget::fixed_addr(PhysAddr(0x20_0000));
    assert!(fixed.is_page_aligned());
    assert!(fixed.is_level_page_aligned(1));
    assert!(!fixed.is_level_page_aligned(2));
    assert_eq!(fixed.level_offset(2), 0x20_0000);
    assert!(matches!(
        fixed.byte_add(0x1000),
        Some(MapTarget::FixedAddr { addr: PhysAddr(0x20_1000) })
    ));
    assert!(MapTarget::allocate_new_zeroed().allocate_new());
    assert!(fixed.allocate_new());
    assert!(!MapTarget::allocated_addr(true, false).allocate_new());
}

// user memory

fn user_table(m: &mut PageManager) -> UserPageTable {
    let mut pt = table(m);
    map(&mut pt, m, 0, 3, user_rw());
    UserPageTable {
        pt,
        program_break: 3 * PAGE,
        trapframe: TrapFrame::new(),
    }
}

#[test]
fn user_slices_are_validated() {
    let mut m = manager();
    let pt = user_table(&mut m);
    let s: UserSlice<u32> = UserSlice::from_raw_parts(0x1000, 4);
    let checked = s.validate(&pt).unwrap();
    assert_eq!(checked.as_va_range(), va(0x1000)..va(0x1010));
    assert_eq!((checked.addr(), checked.len(), checked.size()), (0x1000, 4, 16));
    assert_eq!(checked.nth(1).addr(), 0x1004);
    assert_eq!(checked.skip(1).take(2).size(), 8);
    let beyond: UserSlice<u32> = UserSlice::from_raw_parts(0x2ffc, 2);
    assert!(beyond.validate(&pt).is_err());
    let huge: UserSlice<u32> = UserSlice::from_raw_parts(VA_MAX, 1);
    assert!(huge.try_as_va_range().is_err());
    let out: UserMutSlice<u8> = UserMutSlice::from_raw_parts(0x2000, 0x1000);
    assert_eq!(out.validate(&pt).unwrap().len(), 0x1000);
}

#[test]
fn user_bytes_are_copied_across_pages() {
    let mut m = manager();
    let pt = user_table(&mut m);
    let first = pt.pt.find_leaf_entry(va(0)).unwrap().1.pa;
    let second = pt.pt.find_leaf_entry(va(0x1000)).unwrap().1.pa;
    m.write_bytes(PhysAddr(first.0 + 0xffe), &[1, 2]);
    m.write_bytes(second, &[3, 4]);
    assert_eq!(pt.copy_u2k_bytes(va(0xffe), 4, &m), [1, 2, 3, 4]);
}

#[test]
fn slices_of_slices_are_read_from_user_memory() {
    let mut m = manager();
    let pt = user_table(&mut m);
    let page = pt.pt.find_leaf_entry(va(0x1000)).unwrap().1.pa;
    m.write_bytes(page, &0x2000u64.to_le_bytes());
    m.write_bytes(PhysAddr(page.0 + 8), &7u64.to_le_bytes());
    m.write_bytes(PhysAddr(page.0 + 16), &0x2100u64.to_le_bytes());
    m.write_bytes(PhysAddr(page.0 + 24), &9u64.to_le_bytes());
    let outer: UserSlice<ov6::memory::validated::Validated<UserSlice<u8>>> =
        UserSlice::from_raw_parts(0x1000, 2);
    let outer = outer.validate(&pt).unwrap();
    let list = outer.as_generic_slice_of_slice(&pt);
    assert_eq!(list.len(), 2);
    let GenericSlice::User(_, s) = list.nth(1, &m) else {
        panic!("not a user slice");
    };
    assert_eq!((s.addr(), s.len()), (0x2100, 9));
}

#[test]
fn kernel_slices_take_the_same_form() {
    let mut m = manager();
    let pt = user_table(&mut m);
    let names: &[&[u8]] = &[b"a", b"bcd"];
    let list: GenericSliceOfSlice<u8> = names.as_generic_slice_of_slice(&pt);
    assert_eq!(list.nth(1, &m).skip(1).len(), 2);
    let mut bytes = [1u8, 2, 3];
    let mut s = GenericMutSlice::Kernel(&mut bytes);
    let GenericMutSlice::Kernel(rest) = s.skip_mut(2) else {
        panic!("not a kernel slice");
    };
    assert_eq!(rest, &[3]);
}

#[test]
fn a_reference_covers_its_value() {
    let x: u64 = 3;
    let r = UserRef::new(&x);
    assert_eq!(r.addr(), std::ptr::from_ref(&x).addr() as u64);
    assert_eq!(r.size(), 8);
    assert_eq!(r.as_bytes().len(), 8);
}
