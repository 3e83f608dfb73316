use iris_mmu::mmu::addr::{AddressRange, PageType, PhysicalAddr, VirtualAddr};

#[test]
fn page_type_sizes() {
    assert_eq!(PageType::Small.size(), 4096);
    assert_eq!(PageType::Large.size(), 2 * 1024 * 1024);
    assert_eq!(PageType::Huge.size(), 1024 * 1024 * 1024);
}

#[test]
fn physical_page_number() {
    assert_eq!(PhysicalAddr::new(0x8020_1234).ppn(), 0x80201);
    assert_eq!(PhysicalAddr::new(0xfff).ppn(), 0);
    assert_eq!(PhysicalAddr::new(0x8020_1234).get(), 0x8020_1234);
}

#[test]
fn page_number_names_its_page() {
    let a = PhysicalAddr::new(0x8020_1234);
    assert_eq!(PhysicalAddr::from_ppn(a.ppn()).get(), 0x8020_1000);
    assert_eq!(PhysicalAddr::from_ppn(0x80200).get(), 0x8020_0000);
}

#[test]
fn virtual_table_indices() {
    let v = VirtualAddr::new(0x8020_1000);
    assert_eq!(v.vpn2(), 2);
    assert_eq!(v.vpn1(), 1);
    assert_eq!(v.vpn0(), 1);
    let w = VirtualAddr::new(0x7f_ffff_ffff);
    assert_eq!(w.vpn2(), 511);
    assert_eq!(w.vpn1(), 511);
    assert_eq!(w.vpn0(), 511);
}

#[test]
fn indices_and_offset_rebuild_the_sv39_bits() {
    let v: usize = 0xffff_ffc0_8765_4321;
    let a = VirtualAddr::new(v);
    let rebuilt = (a.vpn2() << 30) | (a.vpn1() << 21) | (a.vpn0() << 12) | (v & 0xfff);
    assert_eq!(rebuilt, v & 0x7f_ffff_ffff);
}

#[test]
fn alignment_checks() {
    assert!(PhysicalAddr::new(0x4000_0000).is_aligned(PageType::Huge));
    assert!(!PhysicalAddr::new(0x4000_1000).is_aligned(PageType::Large));
    assert!(PhysicalAddr::new(0x4000_1000).is_aligned(PageType::Small));
    assert!(VirtualAddr::new(0x20_0000).is_aligned(PageType::Large));
    assert!(!VirtualAddr::new(0x20_0010).is_aligned(PageType::Small));
    assert!(VirtualAddr::new(0).is_aligned(PageType::Huge));
}

#[test]
fn offsets_move_both_ways() {
    let a = VirtualAddr::new(0x1000);
    assert_eq!(a.offset(0x2000).get(), 0x3000);
    assert_eq!(a.offset(-0x1000).get(), 0);
    assert_eq!(a.offset(0x2000).offset(-0x2000), a);
    let p = PhysicalAddr::new(0x8000_0000);
    assert_eq!(p.offset(4096).get(), 0x8000_1000);
    assert_eq!(p.offset(-4096).get(), 0x7fff_f000);
}

#[test]
fn identity_mapping_round_trips() {
    let p = PhysicalAddr::new(0x8020_0000);
    assert_eq!(p.identity_mapped_virtual().get(), 0x8020_0000);
    assert_eq!(p.identity_mapped_virtual().identity_mapped_physical(), p);
    let range = AddressRange::new(VirtualAddr::new(0x1000), VirtualAddr::new(0x5000));
    let back = range.identity_mapped_physical().identity_mapped_virtual();
    assert_eq!(back.start, range.start);
    assert_eq!(back.end, range.end);
}

#[test]
fn pages_span_their_size() {
    let page = PhysicalAddr::new(0x8000_0000).page(PageType::Large);
    assert_eq!(page.start.get(), 0x8000_0000);
    assert_eq!(page.end.get(), 0x8020_0000);
    assert_eq!(page.size(), PageType::Large.size());
    let vpage = VirtualAddr::new(0x4000_0000).page(PageType::Huge);
    assert_eq!(vpage.size(), PageType::Huge.size());
}

#[test]
fn range_sizes() {
    let r = AddressRange::new(VirtualAddr::new(0x1000), VirtualAddr::new(0x3000));
    assert_eq!(r.size(), 0x2000);
    let backwards = AddressRange::new(VirtualAddr::new(0x3000), VirtualAddr::new(0x1000));
    assert_eq!(backwards.size(), 0);
    let p = AddressRange::new(PhysicalAddr::new(0x8000_0000), PhysicalAddr::new(0x8000_1000));
    assert_eq!(p.size(), 0x1000);
}

#[test]
fn aligned_end_rounds_up_to_the_page() {
    let r = AddressRange::new(VirtualAddr::new(0x1000), VirtualAddr::new(0x1001));
    let a = r.with_aligned_end(PageType::Small);
    assert_eq!(a.start.get(), 0x1000);
    assert_eq!(a.end.get(), 0x2000);
    let exact = AddressRange::new(VirtualAddr::new(0x1000), VirtualAddr::new(0x3000));
    assert_eq!(exact.with_aligned_end(PageType::Small).end.get(), 0x3000);
    let big = AddressRange::new(VirtualAddr::new(0), VirtualAddr::new(0x20_0001));
    assert_eq!(big.with_aligned_end(PageType::Large).end.get(), 0x40_0000);
    let p = AddressRange::new(PhysicalAddr::new(0x8000_0000), PhysicalAddr::new(0x8000_0fff));
    assert_eq!(p.with_aligned_end(PageType::Small).end.get(), 0x8000_1000);
}

#[test]
fn conversions_to_and_from_usize() {
    let v = VirtualAddr::from(0x1234usize);
    assert_eq!(v.get(), 0x1234);
    assert_eq!(usize::from(v), 0x1234);
    assert_eq!(usize::from(PhysicalAddr::new(0x8000_0000)), 0x8000_0000);
}
