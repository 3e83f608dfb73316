use iris_mmu::mmu::addr::{AddressRange, PhysicalAddr, VirtualAddr};
use iris_mmu::mmu::pte::PagePermissions;
use iris_mmu::mmu::{AddressSpaceId, MapError, MemoryManager, PageTableUpdate, TlbFlush};

fn vrange(start: usize, end: usize) -> AddressRange<VirtualAddr> {
    AddressRange::new(VirtualAddr::new(start), VirtualAddr::new(end))
}

fn frames() -> AddressRange<PhysicalAddr> {
    AddressRange::new(PhysicalAddr::new(0x8800_0000), PhysicalAddr::new(0x8801_0000))
}

fn entry_of(mm: &MemoryManager, v: usize) -> u64 {
    let space = mm.kernel_address_space();
    let base = space.root_ppn();
    let e2 = space.entry_value(0, (v >> 30) & 0x1ff);
    if e2 & 0xf == 1 {
        let c1 = (((e2 >> 10) & 0xfff_ffff_ffff) - base) as usize;
        let e1 = space.entry_value(c1, (v >> 21) & 0x1ff);
        if e1 & 0xf == 1 {
            let c0 = (((e1 >> 10) & 0xfff_ffff_ffff) - base) as usize;
            return space.entry_value(c0, (v >> 12) & 0x1ff);
        }
        return e1;
    }
    e2
}

#[test]
fn kernel_address_space_id() {
    assert_eq!(AddressSpaceId::kernel().get(), 0);
    assert_eq!(AddressSpaceId::kernel(), AddressSpaceId::kernel());
}

#[test]
fn combining_updates() {
    let a = VirtualAddr::new(0x1000);
    assert!(matches!(PageTableUpdate::NoChange + PageTableUpdate::NoChange, PageTableUpdate::NoChange));
    assert!(matches!(PageTableUpdate::NoChange + PageTableUpdate::One(a), PageTableUpdate::One(x) if x == a));
    assert!(matches!(PageTableUpdate::One(a) + PageTableUpdate::NoChange, PageTableUpdate::One(x) if x == a));
    assert!(matches!(PageTableUpdate::One(a) + PageTableUpdate::One(a), PageTableUpdate::Many));
    assert!(matches!(PageTableUpdate::Many + PageTableUpdate::NoChange, PageTableUpdate::Many));
    assert!(matches!(PageTableUpdate::default(), PageTableUpdate::NoChange));
}

#[test]
fn combining_updates_is_associative_on_examples() {
    let a = VirtualAddr::new(0x1000);
    let left = (PageTableUpdate::NoChange + PageTableUpdate::One(a)) + PageTableUpdate::NoChange;
    let right = PageTableUpdate::NoChange + (PageTableUpdate::One(a) + PageTableUpdate::NoChange);
    assert!(matches!(left, PageTableUpdate::One(x) if x == a));
    assert!(matches!(right, PageTableUpdate::One(x) if x == a));
}

#[test]
fn flush_requests() {
    let asid = AddressSpaceId::kernel();
    assert_eq!(PageTableUpdate::NoChange.flush(asid), TlbFlush::Nothing);
    assert_eq!(
        PageTableUpdate::One(VirtualAddr::new(0x5000)).flush(asid),
        TlbFlush::Page { asid: 0, addr: 0x5000 }
    );
    assert_eq!(PageTableUpdate::Many.flush(asid), TlbFlush::AddressSpace { asid: 0 });
    PageTableUpdate::Many.do_not_flush();
}

#[test]
fn memory_manager_with_global_mappings() {
    let mm = MemoryManager::new_with_global_mappings(
        vec![
            (vrange(0x8020_0000, 0x8020_2000), PagePermissions::read() | PagePermissions::execute()),
            (vrange(0x8020_2000, 0x8020_3000), PagePermissions::read()),
        ],
        frames(),
    )
    .unwrap();
    assert_eq!(mm.kernel_root_ppn(), 0x88000);
    assert_eq!(entry_of(&mm, 0x8020_0000), (0x80200 << 10) | (5 << 1) | 1);
    assert_eq!(entry_of(&mm, 0x8020_2000), (0x80202 << 10) | (1 << 1) | 1);
}

#[test]
fn memory_manager_refuses_a_bad_global_mapping() {
    let r = MemoryManager::new_with_global_mappings(
        vec![(vrange(0x8020_0010, 0x8020_2000), PagePermissions::read())],
        frames(),
    );
    assert!(matches!(r, Err(MapError::VirtualUnaligned(a)) if a.get() == 0x8020_0010));
}

#[test]
fn identity_mapping_in_the_kernel_space() {
    let mut mm = MemoryManager::new_with_global_mappings(vec![], frames()).unwrap();
    let update = mm.identity_map_kernel(vrange(0x9000_0000, 0x9000_1000), PagePermissions::read()).unwrap();
    assert!(matches!(update, PageTableUpdate::Many));
    assert_eq!(entry_of(&mm, 0x9000_0000), (0x90000 << 10) | (1 << 1) | 1);
    let again = mm.identity_map_kernel(vrange(0x9000_0000, 0x9000_1000), PagePermissions::read());
    assert!(matches!(again, Err(MapError::Conflict(_))));
}

#[test]
fn mmio_is_mapped_read_write() {
    let mut mm = MemoryManager::new_with_global_mappings(vec![], frames()).unwrap();
    let range = AddressRange::new(PhysicalAddr::new(0x10_0000), PhysicalAddr::new(0x10_1000));
    let update = mm.map_kernel_mmio(range).unwrap();
    assert!(matches!(update, PageTableUpdate::Many));
    assert_eq!(entry_of(&mm, 0x10_0000), (0x100 << 10) | (3 << 1) | 1);
}

#[test]
fn accumulating_updates_in_place() {
    let mut update = PageTableUpdate::default();
    update += PageTableUpdate::NoChange;
    assert!(matches!(update, PageTableUpdate::NoChange));
    update += PageTableUpdate::One(VirtualAddr::new(0x2000));
    assert!(matches!(update, PageTableUpdate::One(a) if a.get() == 0x2000));
    update += PageTableUpdate::One(VirtualAddr::new(0x3000));
    assert!(matches!(update, PageTableUpdate::Many));
}

#[test]
fn a_global_range_listed_twice_is_a_conflict() {
    let r = MemoryManager::new_with_global_mappings(
        vec![(vrange(0x1000, 0x2000), PagePermissions::read()), (vrange(0x1000, 0x2000), PagePermissions::read())],
        frames(),
    );
    assert!(matches!(r, Err(MapError::Conflict(page)) if page.start.get() == 0x1000 && page.end.get() == 0x2000));
}

#[test]
fn a_kernel_gigabyte_in_one_page() {
    let mut mm = MemoryManager::new_with_global_mappings(vec![], frames()).unwrap();
    let r = mm.identity_map_kernel(vrange(0x4000_0000, 0x8000_0000), PagePermissions::read());
    assert!(matches!(r, Ok(PageTableUpdate::One(a)) if a.get() == 0x4000_0000));
}

fn prange(start: u64, end: u64) -> AddressRange<PhysicalAddr> {
    AddressRange::new(PhysicalAddr::new(start), PhysicalAddr::new(end))
}

#[test]
fn mmio_is_identity_read_write() {
    let mut a = MemoryManager::new_with_global_mappings(vec![], frames()).unwrap();
    let mut b = MemoryManager::new_with_global_mappings(vec![], frames()).unwrap();
    let ra = a.map_kernel_mmio(prange(0x1000_0000, 0x1000_2000));
    let rb = b.identity_map_kernel(vrange(0x1000_0000, 0x1000_2000), PagePermissions::read() | PagePermissions::write());
    assert!(matches!(ra, Ok(PageTableUpdate::Many)));
    assert!(matches!(rb, Ok(PageTableUpdate::Many)));
    for v in [0x1000_0000usize, 0x1000_1000, 0x1000_2000] {
        assert_eq!(entry_of(&a, v), entry_of(&b, v));
    }
    assert_eq!(entry_of(&a, 0x1000_1000), (0x10001 << 10) | (3 << 1) | 1);
}
