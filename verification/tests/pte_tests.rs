use iris_mmu::mmu::addr::PhysicalAddr;
use iris_mmu::mmu::pte::{PagePermissions, PteSlot, PteValue};

#[test]
fn leaf_entry_encoding() {
    let perms = PagePermissions::read() | PagePermissions::write();
    let pte = PteValue::leaf(PhysicalAddr::new(0x8020_0000), perms).unwrap();
    assert_eq!(pte.bits(), (0x80200u64 << 10) | (3 << 1) | 1);
    assert!(pte.is_valid());
    assert!(pte.is_leaf());
    assert_eq!(pte.ppn(), 0x80200);
    assert_eq!(pte.permissions(), perms);
}

#[test]
fn leaf_entries_for_every_allowed_combination() {
    let r = PagePermissions::read();
    let w = PagePermissions::write();
    let x = PagePermissions::execute();
    for perms in [r, r | w, x, r | x, r | w | x] {
        let pte = PteValue::leaf(PhysicalAddr::new(0x1000), perms).unwrap();
        assert_eq!(pte.permissions(), perms);
        assert_eq!(pte.ppn(), 1);
    }
}

#[test]
fn refused_leaf_permissions() {
    let w = PagePermissions::write();
    let x = PagePermissions::execute();
    for perms in [PagePermissions::empty(), w, w | x] {
        let err = PteValue::leaf(PhysicalAddr::new(0x1000), perms).unwrap_err();
        assert_eq!(err.permissions(), perms);
    }
}

#[test]
fn table_pointer_encoding() {
    let pte = PteValue::non_leaf(PhysicalAddr::new(0x8040_0000));
    assert_eq!(pte.bits(), (0x80400u64 << 10) | 1);
    assert!(pte.is_valid());
    assert!(!pte.is_leaf());
    assert_eq!(pte.ppn(), 0x80400);
}

#[test]
fn unmapped_entries() {
    assert!(!PteValue::unmapped().is_valid());
    assert_eq!(PteValue::unmapped().bits(), 0);
    assert!(!PteSlot::unmapped().load().is_valid());
    let pte = PteValue::non_leaf(PhysicalAddr::new(0x2000));
    assert_eq!(PteSlot::new(pte).load(), pte);
}

#[test]
fn permission_sets() {
    let rw = PagePermissions::read().union(PagePermissions::write());
    assert_eq!(rw.bits(), 3);
    assert!(rw.contains(PagePermissions::read()));
    assert!(!rw.contains(PagePermissions::execute()));
    assert!(PagePermissions::empty().is_empty());
    assert_eq!(PagePermissions::all().bits(), 7);
    assert_eq!(PagePermissions::from_bits_truncate(0xff).bits(), 7);
}
