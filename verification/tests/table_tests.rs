use iris_mmu::mmu::addr::{AddressRange, PhysicalAddr, VirtualAddr};
use iris_mmu::mmu::pte::PagePermissions;
use iris_mmu::mmu::table::AddressSpace;
use iris_mmu::mmu::{MapError, PageTableUpdate};

const PPN_MASK: u64 = 0xfff_ffff_ffff;

/// A software Sv39 walk over the tables of `space`.
fn walk(space: &AddressSpace, v: usize) -> Option<(u64, u8)> {
    let base = space.root_ppn();
    let frame = |e: u64| ((e >> 10) & PPN_MASK) * 4096;
    let perms = |e: u64| ((e >> 1) & 7) as u8;
    let e2 = space.entry_value(0, (v >> 30) & 0x1ff);
    if e2 & 1 == 0 {
        return None;
    }
    if e2 & 0xe != 0 {
        return Some((frame(e2) + (v as u64 % 0x4000_0000), perms(e2)));
    }
    let c1 = (((e2 >> 10) & PPN_MASK) - base) as usize;
    let e1 = space.entry_value(c1, (v >> 21) & 0x1ff);
    if e1 & 1 == 0 {
        return None;
    }
    if e1 & 0xe != 0 {
        return Some((frame(e1) + (v as u64 % 0x20_0000), perms(e1)));
    }
    let c0 = (((e1 >> 10) & PPN_MASK) - base) as usize;
    let e0 = space.entry_value(c0, (v >> 12) & 0x1ff);
    if e0 & 1 == 1 && e0 & 0xe != 0 {
        Some((frame(e0) + (v as u64 % 0x1000), perms(e0)))
    } else {
        None
    }
}

fn vrange(start: usize, end: usize) -> AddressRange<VirtualAddr> {
    AddressRange::new(VirtualAddr::new(start), VirtualAddr::new(end))
}

fn prange(start: u64, end: u64) -> AddressRange<PhysicalAddr> {
    AddressRange::new(PhysicalAddr::new(start), PhysicalAddr::new(end))
}

fn rw() -> PagePermissions {
    PagePermissions::read() | PagePermissions::write()
}

#[test]
fn fresh_space_maps_nothing() {
    let space = AddressSpace::new(0x80000, 16);
    assert_eq!(space.table_count(), 1);
    assert_eq!(space.root_ppn(), 0x80000);
    assert_eq!(space.table_address(0).get(), 0x8000_0000);
    for v in [0usize, 0x1000, 0x8000_0000, 0x7f_ffff_f000] {
        assert_eq!(walk(&space, v), None);
    }
}

#[test]
fn unaligned_virtual_start_is_refused() {
    let mut space = AddressSpace::new(0x80000, 16);
    let r = space.map_range(vrange(0x1001, 0x3000), prange(0x1000, 0x3000), rw());
    assert!(matches!(r, Err(MapError::VirtualUnaligned(a)) if a.get() == 0x1001));
    assert_eq!(space.table_count(), 1);
}

#[test]
fn unaligned_virtual_end_is_refused() {
    let mut space = AddressSpace::new(0x80000, 16);
    let r = space.map_range(vrange(0x1000, 0x3001), prange(0x1000, 0x3000), rw());
    assert!(matches!(r, Err(MapError::VirtualUnaligned(a)) if a.get() == 0x3001));
}

#[test]
fn unaligned_physical_bounds_are_refused() {
    let mut space = AddressSpace::new(0x80000, 16);
    let r = space.map_range(vrange(0x1000, 0x3000), prange(0x1800, 0x3000), rw());
    assert!(matches!(r, Err(MapError::PhysicalUnaligned(a)) if a.get() == 0x1800));
    let r = space.map_range(vrange(0x1000, 0x3000), prange(0x1000, 0x3800), rw());
    assert!(matches!(r, Err(MapError::PhysicalUnaligned(a)) if a.get() == 0x3800));
}

#[test]
fn ranges_of_different_lengths_are_refused() {
    let mut space = AddressSpace::new(0x80000, 16);
    let r = space.map_range(vrange(0x1000, 0x3000), prange(0x1000, 0x4000), rw());
    assert!(matches!(r, Err(MapError::MismatchedLength(v, p))
        if v.size() == 0x2000 && p.size() == 0x3000));
    assert_eq!(walk(&space, 0x1000), None);
}

#[test]
fn empty_range_changes_nothing() {
    let mut space = AddressSpace::new(0x80000, 16);
    let r = space.map_range(vrange(0x5000, 0x5000), prange(0x8000_0000, 0x8000_0000), rw());
    assert!(matches!(r, Ok(PageTableUpdate::NoChange)));
    assert_eq!(space.table_count(), 1);
}

#[test]
fn one_huge_page_needs_no_new_table() {
    let mut space = AddressSpace::new(0x80000, 16);
    let r = space.map_range(vrange(0x4000_0000, 0x8000_0000), prange(0x8000_0000, 0xc000_0000), rw());
    assert!(matches!(r, Ok(PageTableUpdate::One(a)) if a.get() == 0x4000_0000));
    assert_eq!(space.table_count(), 1);
    assert_eq!(walk(&space, 0x4000_1234), Some((0x8000_1234, 3)));
    assert_eq!(walk(&space, 0x7fff_ffff), Some((0xbfff_ffff, 3)));
    assert_eq!(walk(&space, 0x8000_0000), None);
    assert_eq!(walk(&space, 0x3fff_ffff), None);
}

#[test]
fn a_large_page_then_a_small_one() {
    let mut space = AddressSpace::new(0x80000, 16);
    let r = space.map_range(
        vrange(0x20_0000, 0x40_1000),
        prange(0x8020_0000, 0x8040_1000),
        PagePermissions::read(),
    );
    assert!(matches!(r, Ok(PageTableUpdate::Many)));
    // One large page under a new level-1 table, then one small page under a
    // new level-0 table.
    assert_eq!(space.table_count(), 3);
    for v in [0x20_0000usize, 0x30_0abc, 0x3f_ffff, 0x40_0000, 0x40_0fff] {
        assert_eq!(walk(&space, v), Some((0x8000_0000 + v as u64, 1)));
    }
    assert_eq!(walk(&space, 0x1f_ffff), None);
    assert_eq!(walk(&space, 0x40_1000), None);
}

#[test]
fn a_small_page_then_a_large_one_then_a_small_one() {
    let mut space = AddressSpace::new(0x80000, 16);
    let r = space.map_range(
        vrange(0x1f_f000, 0x40_1000),
        prange(0x801f_f000, 0x8040_1000),
        PagePermissions::read(),
    );
    assert!(matches!(r, Ok(PageTableUpdate::Many)));
    // A small page up to the 2 MiB boundary, a large page, and a small page
    // again: one level-1 table and two level-0 tables.
    assert_eq!(space.table_count(), 4);
    assert!(large_leaf_at(&space, 0x30_0000));
    for v in [0x1f_f000usize, 0x1f_ffff, 0x20_0000, 0x30_0abc, 0x3f_ffff, 0x40_0000, 0x40_0fff] {
        assert_eq!(walk(&space, v), Some((0x8000_0000 + v as u64, 1)));
    }
    assert_eq!(walk(&space, 0x1f_efff), None);
    assert_eq!(walk(&space, 0x40_1000), None);
}

#[test]
fn one_small_page_in_a_fresh_space() {
    let mut space = AddressSpace::new(0x80000, 16);
    let r = space.map_range(vrange(0x1000, 0x2000), prange(0x9000, 0xa000), rw());
    assert!(matches!(r, Ok(PageTableUpdate::Many)));
    assert_eq!(space.table_count(), 3);
    let r = space.map_range(vrange(0x2000, 0x3000), prange(0xa000, 0xb000), rw());
    assert!(matches!(r, Ok(PageTableUpdate::One(a)) if a.get() == 0x2000));
    assert_eq!(space.table_count(), 3);
    assert_eq!(walk(&space, 0x1abc), Some((0x9abc, 3)));
    assert_eq!(walk(&space, 0x2abc), Some((0xaabc, 3)));
}

#[test]
fn mapping_twice_conflicts_and_changes_nothing() {
    let mut space = AddressSpace::new(0x80000, 16);
    space.map_range(vrange(0x1000, 0x3000), prange(0x9000, 0xb000), rw()).unwrap();
    let r = space.map_range(vrange(0x1000, 0x3000), prange(0x20000, 0x22000), PagePermissions::read());
    assert!(matches!(r, Err(MapError::Conflict(page))
        if page.start.get() == 0x1000 && page.end.get() == 0x2000));
    assert_eq!(walk(&space, 0x1000), Some((0x9000, 3)));
    assert_eq!(walk(&space, 0x2000), Some((0xa000, 3)));
}

#[test]
fn huge_page_over_a_table_conflicts() {
    let mut space = AddressSpace::new(0x80000, 16);
    space.map_range(vrange(0x1000, 0x2000), prange(0x9000, 0xa000), rw()).unwrap();
    let r = space.map_range(vrange(0, 0x4000_0000), prange(0, 0x4000_0000), rw());
    assert!(matches!(r, Err(MapError::Conflict(page))
        if page.start.get() == 0 && page.end.get() == 0x4000_0000));
    assert_eq!(walk(&space, 0x1000), Some((0x9000, 3)));
    assert_eq!(walk(&space, 0x10_0000), None);
}

#[test]
fn a_refused_range_keeps_what_was_mapped_before_the_conflict() {
    let mut space = AddressSpace::new(0x80000, 16);
    space.map_range(vrange(0x2000, 0x3000), prange(0x2000, 0x3000), rw()).unwrap();
    let r = space.map_range(vrange(0x1000, 0x4000), prange(0x11000, 0x14000), PagePermissions::read());
    assert!(matches!(r, Err(MapError::Conflict(page)) if page.start.get() == 0x2000));
    assert_eq!(walk(&space, 0x1000), Some((0x11000, 1)));
    assert_eq!(walk(&space, 0x2000), Some((0x2000, 3)));
    assert_eq!(walk(&space, 0x3000), None);
}

#[test]
fn refused_permissions_change_nothing() {
    let mut space = AddressSpace::new(0x80000, 16);
    let r = space.map_range(vrange(0x1000, 0x2000), prange(0x9000, 0xa000), PagePermissions::write());
    assert!(matches!(r, Err(MapError::InvalidPermissions(e)) if e.permissions() == PagePermissions::write()));
    assert_eq!(space.table_count(), 1);
    assert_eq!(walk(&space, 0x1000), None);
}

#[test]
fn running_out_of_table_frames() {
    let mut space = AddressSpace::new(0x80000, 2);
    let r = space.map_range(vrange(0x1000, 0x2000), prange(0x9000, 0xa000), rw());
    assert!(matches!(r, Err(MapError::TableMemoryExhausted)));
    assert_eq!(space.table_count(), 1);
    let r = space.map_range(vrange(0x20_0000, 0x40_0000), prange(0x20_0000, 0x40_0000), rw());
    assert!(matches!(r, Ok(PageTableUpdate::Many)));
    assert_eq!(space.table_count(), 2);
}

#[test]
fn a_range_longer_than_the_sv39_space_conflicts_with_itself() {
    let mut space = AddressSpace::new(0x80000, 16);
    let end: usize = 0x80_0000_0000 + 0x4000_0000;
    let r = space.map_range(vrange(0, end), prange(0, end as u64), rw());
    assert!(matches!(r, Err(MapError::Conflict(page))
        if page.start.get() == 0x80_0000_0000 && page.end.get() == end));
    assert_eq!(walk(&space, 0x4000_0000), Some((0x4000_0000, 3)));
}

#[test]
fn identity_mapping_maps_addresses_to_themselves() {
    let mut space = AddressSpace::new(0x80000, 16);
    let r = space.identity_map_range(vrange(0x8020_0000, 0x8040_3000), rw());
    assert!(r.is_ok());
    for v in [0x8020_0000usize, 0x8030_0000, 0x8040_0000, 0x8040_2fff] {
        assert_eq!(walk(&space, v), Some((v as u64, 3)));
    }
    assert_eq!(walk(&space, 0x8040_3000), None);
}

#[test]
fn global_mappings_are_all_made() {
    let mappings = [
        (vrange(0x8020_0000, 0x8020_4000), PagePermissions::read() | PagePermissions::execute()),
        (vrange(0x8020_4000, 0x8020_6000), PagePermissions::read()),
        (vrange(0x8020_6000, 0x8040_0000), rw()),
    ];
    let space = AddressSpace::new_with_global_mappings(&mappings, 0x90000, 16).unwrap();
    assert_eq!(walk(&space, 0x8020_0123), Some((0x8020_0123, 5)));
    assert_eq!(walk(&space, 0x8020_4123), Some((0x8020_4123, 1)));
    assert_eq!(walk(&space, 0x8030_0000), Some((0x8030_0000, 3)));
    assert_eq!(walk(&space, 0x8040_0000), None);
}

#[test]
fn overlapping_global_mappings_are_refused() {
    let mappings = [
        (vrange(0x1000, 0x3000), rw()),
        (vrange(0x2000, 0x4000), PagePermissions::read()),
    ];
    let r = AddressSpace::new_with_global_mappings(&mappings, 0x90000, 16);
    assert!(matches!(r, Err(MapError::Conflict(page)) if page.start.get() == 0x2000));
}

#[test]
fn aliases_beyond_39_bits_map_alike() {
    let mut space = AddressSpace::new(0x80000, 16);
    space.map_range(vrange(0x1000, 0x2000), prange(0x9000, 0xa000), rw()).unwrap();
    assert_eq!(walk(&space, 0x1234), Some((0x9234, 3)));
    assert_eq!(walk(&space, 0x80_0000_1234), walk(&space, 0x1234));
    assert_eq!(walk(&space, 0xffff_ff80_0000_1234), walk(&space, 0x1234));
}

#[test]
fn physical_addresses_are_cut_to_56_bits() {
    let mut space = AddressSpace::new(0x80000, 16);
    let high: u64 = 0x100_0000_0000_0000;
    space.map_range(vrange(0x1000, 0x2000), prange(high + 0x5000, high + 0x6000), rw()).unwrap();
    assert_eq!(walk(&space, 0x1010), Some((0x5010, 3)));
}

/// Whether the page that serves `v` is a 2 MiB one.
fn large_leaf_at(space: &AddressSpace, v: usize) -> bool {
    let base = space.root_ppn();
    let e2 = space.entry_value(0, (v >> 30) & 0x1ff);
    if e2 & 1 == 0 || e2 & 0xe != 0 {
        return false;
    }
    let c1 = (((e2 >> 10) & PPN_MASK) - base) as usize;
    let e1 = space.entry_value(c1, (v >> 21) & 0x1ff);
    e1 & 1 == 1 && e1 & 0xe != 0
}

#[test]
fn a_large_page_once_both_addresses_are_aligned() {
    let mut space = AddressSpace::new(0x80000, 16);
    let r = space.map_range(vrange(0x1000, 0x40_0000), prange(0x1000, 0x40_0000), rw());
    assert!(matches!(r, Ok(PageTableUpdate::Many)));
    assert!(large_leaf_at(&space, 0x20_0000));
    assert!(!large_leaf_at(&space, 0x1000));
    assert_eq!(space.table_count(), 3);
    assert_eq!(walk(&space, 0x1f_f000), Some((0x1f_f000, 3)));
    assert_eq!(walk(&space, 0x3f_ffff), Some((0x3f_ffff, 3)));
}

#[test]
fn small_pages_where_the_physical_address_is_not_aligned() {
    let mut space = AddressSpace::new(0x80000, 16);
    let r = space.map_range(vrange(0x20_0000, 0x40_0000), prange(0x20_1000, 0x40_1000), rw());
    assert!(r.is_ok());
    assert!(!large_leaf_at(&space, 0x20_0000));
    assert_eq!(walk(&space, 0x20_0000), Some((0x20_1000, 3)));
}

#[test]
fn a_huge_page_needs_no_table_frame() {
    let mut space = AddressSpace::new(0x80000, 1);
    let r = space.map_range(vrange(0x4000_0000, 0x8000_0000), prange(0x8000_0000, 0xc000_0000), PagePermissions::read());
    assert!(matches!(r, Ok(PageTableUpdate::One(a)) if a.get() == 0x4000_0000));
    assert_eq!(space.table_count(), 1);
    assert_eq!(walk(&space, 0x4000_1234), Some((0x8000_1234, 1)));
}

#[test]
fn running_out_of_frames_keeps_the_pages_before() {
    let mut space = AddressSpace::new(0x80000, 3);
    let r = space.map_range(vrange(0x3f_f000, 0x40_1000), prange(0x3f_f000, 0x40_1000), rw());
    assert!(matches!(r, Err(MapError::TableMemoryExhausted)));
    assert_eq!(walk(&space, 0x3f_f000), Some((0x3f_f000, 3)));
    assert_eq!(walk(&space, 0x40_0000), None);
    assert_eq!(space.table_count(), 3);
}

#[test]
fn a_range_listed_twice_conflicts_at_the_second() {
    let mappings = [
        (vrange(0x1000, 0x2000), PagePermissions::read()),
        (vrange(0x1000, 0x2000), PagePermissions::read()),
    ];
    let r = AddressSpace::new_with_global_mappings(&mappings, 0x90000, 3);
    assert!(matches!(r, Err(MapError::Conflict(page))
        if page.start.get() == 0x1000 && page.end.get() == 0x2000));
}

#[test]
fn the_first_failing_global_mapping_gives_the_error() {
    let mappings = [
        (vrange(0x1000, 0x2000), PagePermissions::write()),
        (vrange(0x1001, 0x2000), PagePermissions::read()),
    ];
    let r = AddressSpace::new_with_global_mappings(&mappings, 0x90000, 16);
    assert!(matches!(r, Err(MapError::InvalidPermissions(_))));
}

/// The number of leaf entries in all tables of `space`.
fn leaf_count(space: &AddressSpace) -> usize {
    let mut n = 0;
    for t in 0..space.table_count() {
        for i in 0..512 {
            let e = space.entry_value(t, i);
            if e & 1 == 1 && e & 0xe != 0 {
                n += 1;
            }
        }
    }
    n
}

#[test]
fn fewest_pages_for_an_unaligned_start() {
    let mut space = AddressSpace::new(0x80000, 16);
    space.map_range(vrange(0x1000, 0x40_0000), prange(0x1000, 0x40_0000), rw()).unwrap();
    // 511 small pages up to 2 MiB, then one large page.
    assert_eq!(leaf_count(&space), 512);
}

#[test]
fn fewest_pages_with_a_huge_page_in_the_middle() {
    let mut space = AddressSpace::new(0x80000, 16);
    space
        .map_range(vrange(0x3fe0_0000, 0x8020_0000), prange(0x3fe0_0000, 0x8020_0000), rw())
        .unwrap();
    // One large page, one huge page, one large page.
    assert_eq!(leaf_count(&space), 3);
    assert!(large_leaf_at(&space, 0x3fe0_0000));
    assert_eq!(walk(&space, 0x5000_0000), Some((0x5000_0000, 3)));
}

#[test]
fn mapping_from_the_same_space_gives_the_same_answer() {
    let mut a = AddressSpace::new(0x80000, 3);
    let mut b = AddressSpace::new(0x80000, 3);
    for space in [&mut a, &mut b] {
        space.map_range(vrange(0x1000, 0x2000), prange(0x1000, 0x2000), rw()).unwrap();
    }
    let ra = a.map_range(vrange(0x1f_f000, 0x40_2000), prange(0x1f_f000, 0x40_2000), rw());
    let rb = b.map_range(vrange(0x1f_f000, 0x40_2000), prange(0x1f_f000, 0x40_2000), rw());
    assert!(matches!(ra, Err(MapError::TableMemoryExhausted)));
    assert!(matches!(rb, Err(MapError::TableMemoryExhausted)));
    assert_eq!(a.table_count(), b.table_count());
    for v in [0x1000usize, 0x1f_f000, 0x20_0000, 0x40_0000, 0x40_1000] {
        assert_eq!(walk(&a, v), walk(&b, v));
    }
}

/// Every entry of every table of `space`, as (table, index, value).
fn entries(space: &AddressSpace) -> Vec<(usize, usize, u64)> {
    let mut all = Vec::new();
    for t in 0..space.table_count() {
        for i in 0..512 {
            all.push((t, i, space.entry_value(t, i)));
        }
    }
    all
}

#[test]
fn valid_entries_are_never_rewritten() {
    let mut space = AddressSpace::new(0x80000, 16);
    space.map_range(vrange(0x2000, 0x3000), prange(0x2000, 0x3000), rw()).unwrap();
    space.map_range(vrange(0x4000_0000, 0x8000_0000), prange(0x4000_0000, 0x8000_0000), rw()).unwrap();
    let before = entries(&space);
    let r = space.map_range(vrange(0x1000, 0x4000), prange(0x11000, 0x14000), PagePermissions::read());
    assert!(r.is_err());
    let r = space.map_range(vrange(0x4000_0000, 0x4000_1000), prange(0x1000, 0x2000), rw());
    assert!(matches!(r, Err(MapError::Conflict(_))));
    space.map_range(vrange(0x80_0000, 0xa0_0000), prange(0x80_0000, 0xa0_0000), rw()).unwrap();
    for (t, i, e) in before {
        if e & 1 == 1 {
            assert_eq!(space.entry_value(t, i), e);
        }
    }
}
