//! Sv39 page-table entries and the permissions that a leaf entry grants.
use vstd::prelude::*;

use crate::mmu::addr::PhysicalAddr;

verus! {

/// Bit of a page-table entry that marks it valid.
pub const PTE_VALID: u64 = 1;

/// Mask of the 44-bit physical page number, once shifted down by 10 bits.
pub const PPN_MASK: u64 = 0xfff_ffff_ffff;

/// Physical addresses that an Sv39 entry can name lie below this bound (56 bits).
pub const PHYSICAL_LIMIT: u64 = 0x100_0000_0000_0000;

/// `PagePermissions` bit that grants reads.
pub const READ_BIT: u8 = 1;

/// `PagePermissions` bit that grants writes.
pub const WRITE_BIT: u8 = 2;

/// `PagePermissions` bit that grants instruction fetches.
pub const EXECUTE_BIT: u8 = 4;

/// Whether the entry's valid bit is set.
pub open spec fn pte_valid(bits: u64) -> bool {
    bits & 1u64 == 1u64
}

/// Whether the entry maps a page (one of R, W, X is set) rather than a table.
pub open spec fn pte_leaf(bits: u64) -> bool {
    bits & 0xeu64 != 0u64
}

/// The physical page number held in bits 10..54 of the entry.
pub open spec fn pte_ppn(bits: u64) -> u64 {
    (bits >> 10u64) & 0xfff_ffff_ffffu64
}

/// The R, W, X bits of the entry, as `PagePermissions` bits.
pub open spec fn pte_permissions(bits: u64) -> u8 {
    ((bits >> 1u64) & 7u64) as u8
}

/// Whether a valid entry points at a table rather than mapping a page.
pub open spec fn is_table_ptr(bits: u64) -> bool {
    pte_valid(bits) && !pte_leaf(bits)
}

/// The entry that maps the page whose first physical page number is `ppn`.
pub open spec fn leaf_bits(ppn: u64, permissions: u8) -> u64 {
    (ppn << 10u64) | ((permissions as u64) << 1u64) | 1u64
}

/// The entry that points at the table held in physical page `ppn`.
pub open spec fn table_bits(ppn: u64) -> u64 {
    (ppn << 10u64) | 1u64
}

/// Whether a raw entry has one of the forms that page tables hold: all
/// zero; a pointer at a table, whose low ten bits are the valid bit alone
/// and whose bits from 54 up are clear; or a leaf, whose low ten bits are
/// the valid bit and R/W/X bits that a leaf may carry, so that U, G, A, D
/// and the two bits kept for software are clear.
pub open spec fn pte_well_formed(bits: u64) -> bool {
    ||| bits == 0u64
    ||| bits & 0x3ffu64 == 1u64 && bits >> 54u64 == 0u64
    ||| bits & 0x3f1u64 == 1u64 && pte_leaf(bits) && leaf_permissions_allowed(pte_permissions(bits))
}

/// Permissions that a leaf entry may carry: readable or executable, and
/// writable only when also readable (the other combinations are reserved).
pub open spec fn leaf_permissions_allowed(bits: u8) -> bool {
    &&& bits & 5u8 != 0u8
    &&& (bits & 2u8 != 0u8 ==> bits & 1u8 != 0u8)
}

/// The physical address of the first byte named by the page number that an
/// entry built from `addr` holds.
pub open spec fn encoded_frame(addr: u64) -> int {
    ((addr >> 12u64) & 0xfff_ffff_ffffu64) * 4096
}

/// For a page-aligned frame, the address that an entry names plus an offset
/// within the page is the intended address, cut to the 56 bits that Sv39
/// can name.
pub proof fn lemma_frame_offset(p: u64, size: u64, off: u64)
    requires
        size == 4096 || size == 0x20_0000 || size == 0x4000_0000,
        p % size == 0,
        off < size,
        p + off <= u64::MAX,
    ensures
        encoded_frame(p) + off == (p + off) as int % PHYSICAL_LIMIT as int,
{
    assert(size == 4096u64 || size == 0x20_0000u64 || size == 0x4000_0000u64 ==> (p % size == 0 && off
        < size ==> ((p >> 12u64) & 0xfff_ffff_ffffu64) * 4096 + off == (p + off) % 0x100_0000_0000_0000))
        by (bit_vector);
}

/// What the forms of `pte_well_formed` say of each bit: an entry of one of
/// them that is not valid is zero; the U, G, A, D bits and the two bits kept
/// for software are clear; a pointer at a table is the valid bit and its
/// page number alone; a leaf is the valid bit, its permissions and what
/// stands from bit 10 up.
pub proof fn lemma_well_formed_bits(e: u64)
    requires
        pte_well_formed(e),
    ensures
        e & 0x3f0u64 == 0u64,
        !pte_valid(e) ==> e == 0u64,
        is_table_ptr(e) ==> e == table_bits(pte_ppn(e)),
        pte_valid(e) && pte_leaf(e) ==> e == leaf_bits(e >> 10u64, pte_permissions(e))
            && leaf_permissions_allowed(pte_permissions(e)),
{
    assert({
        &&& (e == 0u64 || (e & 0x3ffu64 == 1u64 && e >> 54u64 == 0u64) || e & 0x3f1u64 == 1u64)
            ==> e & 0x3f0u64 == 0u64
        &&& e == 0u64 ==> e & 1u64 != 1u64
        &&& (e & 0x3ffu64 == 1u64 && e >> 54u64 == 0u64) ==> e & 1u64 == 1u64 && e & 0xeu64 == 0u64
            && e == (((e >> 10u64) & 0xfff_ffff_ffffu64) << 10u64) | 1u64
        &&& e & 0x3f1u64 == 1u64 ==> e & 1u64 == 1u64 && e == ((e >> 10u64) << 10u64) | (((e
            >> 1u64) & 7u64) << 1u64) | 1u64
        &&& (e >> 1u64) & 7u64 <= 7u64
    }) by (bit_vector);
}

/// A set of page permissions, made of `READ`, `WRITE` and `EXECUTE`.
#[derive(Clone, Copy, PartialEq, Eq, Debug, Structural)]
pub struct PagePermissions {
    bits: u8,
}

impl View for PagePermissions {
    type V = u8;

    closed spec fn view(&self) -> u8 {
        self.bits
    }
}

impl PagePermissions {
    #[verifier::type_invariant]
    closed spec fn inv(self) -> bool {
        self.bits < 8
    }

    /// Reads are allowed.
    pub fn read() -> (r: Self)
        ensures
            r@ == READ_BIT,
    {
        Self { bits: READ_BIT }
    }

    /// Writes are allowed.
    pub fn write() -> (r: Self)
        ensures
            r@ == WRITE_BIT,
    {
        Self { bits: WRITE_BIT }
    }

    /// Instruction fetches are allowed.
    pub fn execute() -> (r: Self)
        ensures
            r@ == EXECUTE_BIT,
    {
        Self { bits: EXECUTE_BIT }
    }

    /// The set with no permission.
    pub fn empty() -> (r: Self)
        ensures
            r@ == 0,
    {
        Self { bits: 0 }
    }

    /// The set with every permission.
    pub fn all() -> (r: Self)
        ensures
            r@ == 7,
    {
        Self { bits: 7 }
    }

    /// The permissions whose bits are set in `bits`; other bits are dropped.
    pub fn from_bits_truncate(bits: u8) -> (r: Self)
        ensures
            r@ == bits & 7u8,
    {
        assert(bits & 7u8 < 8) by (bit_vector);
        Self { bits: bits & 7 }
    }

    pub fn bits(&self) -> (r: u8)
        ensures
            r == self@,
            r < 8,
    {
        proof {
            use_type_invariant(self);
        }
        self.bits
    }

    /// The permission bits of `read() | write()`.
    pub open spec fn spec_read_write() -> PagePermissions {
        Self::spec_from_bits(3)
    }

    /// The permissions with the given bits.
    pub closed spec fn spec_from_bits(bits: u8) -> PagePermissions {
        PagePermissions { bits }
    }

    /// The permissions granted by `self` or by `other`.
    pub fn union(self, other: Self) -> (r: Self)
        ensures
            r@ == self@ | other@,
            r == Self::spec_from_bits(self@ | other@),
    {
        proof {
            use_type_invariant(&self);
            use_type_invariant(&other);
        }
        let a = self.bits;
        let b = other.bits;
        assert(a < 8 && b < 8 ==> a | b < 8) by (bit_vector);
        Self { bits: a | b }
    }

    /// Whether every permission of `other` is in `self`.
    pub fn contains(&self, other: Self) -> (r: bool)
        ensures
            r == (self@ & other@ == other@),
    {
        self.bits & other.bits == other.bits
    }

    pub fn is_empty(&self) -> (r: bool)
        ensures
            r == (self@ == 0),
    {
        self.bits == 0
    }
}

impl core::ops::BitOr for PagePermissions {
    type Output = Self;

    fn bitor(self, other: Self) -> (r: Self)
        ensures
            r == Self::spec_from_bits(self@ | other@),
    {
        self.union(other)
    }
}

impl vstd::std_specs::ops::BitOrSpecImpl for PagePermissions {
    open spec fn obeys_bitor_spec() -> bool {
        true
    }

    open spec fn bitor_req(self, rhs: PagePermissions) -> bool {
        true
    }

    open spec fn bitor_spec(self, rhs: PagePermissions) -> PagePermissions {
        Self::spec_from_bits(self@ | rhs@)
    }
}

/// The permissions that a leaf entry was asked to carry, which no leaf may.
#[derive(Clone, Copy, PartialEq, Eq, Debug, Structural)]
pub struct InvalidPermissions {
    permissions: PagePermissions,
}

impl InvalidPermissions {
    pub fn permissions(&self) -> (r: PagePermissions)
        ensures
            r == self.spec_permissions(),
    {
        self.permissions
    }

    pub closed spec fn spec_permissions(self) -> PagePermissions {
        self.permissions
    }

    /// The refusal is the permissions that it names.
    pub proof fn lemma_same_permissions(a: Self, b: Self)
        requires
            a.spec_permissions() == b.spec_permissions(),
        ensures
            a == b,
    {
    }
}

/// The value of a page-table entry.
#[derive(Clone, Copy, PartialEq, Eq, Debug, Structural)]
pub struct PteValue(u64);

impl View for PteValue {
    type V = u64;

    closed spec fn view(&self) -> u64 {
        self.0
    }
}

impl PteValue {
    /// The entry that maps nothing.
    pub fn unmapped() -> (r: Self)
        ensures
            r@ == 0,
            !pte_valid(r@),
    {
        assert(!(0u64 & 1u64 == 1u64)) by (bit_vector);
        PteValue(0)
    }

    /// The entry with the given raw bits.
    pub fn from_bits(bits: u64) -> (r: Self)
        ensures
            r@ == bits,
    {
        PteValue(bits)
    }

    pub fn bits(self) -> (r: u64)
        ensures
            r == self@,
    {
        self.0
    }

    /// The entry that maps the page at `addr` with the given permissions;
    /// refused when no leaf may carry those permissions.
    pub fn leaf(addr: PhysicalAddr, permissions: PagePermissions) -> (r: Result<
        Self,
        InvalidPermissions,
    >)
        ensures
            match r {
                Ok(pte) => {
                    &&& leaf_permissions_allowed(permissions@)
                    &&& pte@ == leaf_bits(addr@ >> 12u64, permissions@)
                    &&& pte_valid(pte@)
                    &&& pte_leaf(pte@)
                    &&& pte_ppn(pte@) * 4096 == encoded_frame(addr@)
                    &&& pte_permissions(pte@) == permissions@
                    &&& pte_well_formed(pte@)
                },
                Err(e) => {
                    &&& !leaf_permissions_allowed(permissions@)
                    &&& e.spec_permissions() == permissions
                },
            },
    {
        let p = permissions.bits();
        if p & 5 == 0 || (p & 2 != 0 && p & 1 == 0) {
            return Err(InvalidPermissions { permissions });
        }
        let a = addr.get();
        let ppn = addr.ppn();
        let bits = (ppn << 10) | ((p as u64) << 1) | 1;
        assert(p < 8 && p & 5u8 != 0u8 && ppn == a >> 12u64 && bits == (ppn << 10u64) | ((p as u64)
            << 1u64) | 1u64 ==> {
            &&& bits & 1u64 == 1u64
            &&& bits & 0xeu64 != 0u64
            &&& ((bits >> 10u64) & 0xfff_ffff_ffffu64) == ((a >> 12u64) & 0xfff_ffff_ffffu64)
            &&& ((bits >> 1u64) & 7u64) as u8 == p
            &&& bits & 0x3f1u64 == 1u64
        }) by (bit_vector);
        Ok(PteValue(bits))
    }

    /// The entry that points at the page table held at `addr`.
    pub fn non_leaf(addr: PhysicalAddr) -> (r: Self)
        ensures
            r@ == table_bits(addr@ >> 12u64),
            pte_valid(r@),
            !pte_leaf(r@),
            pte_ppn(r@) == (addr@ >> 12u64) & 0xfff_ffff_ffffu64,
            addr@ < PHYSICAL_LIMIT ==> pte_well_formed(r@),
    {
        let a = addr.get();
        let ppn = addr.ppn();
        let bits = (ppn << 10) | 1;
        assert(ppn == a >> 12u64 && bits == (ppn << 10u64) | 1u64 ==> {
            &&& bits & 1u64 == 1u64
            &&& bits & 0xeu64 == 0u64
            &&& ((bits >> 10u64) & 0xfff_ffff_ffffu64) == ((a >> 12u64) & 0xfff_ffff_ffffu64)
            &&& bits & 0x3ffu64 == 1u64
            &&& (a < 0x100_0000_0000_0000u64 ==> bits >> 54u64 == 0u64)
        }) by (bit_vector);
        PteValue(bits)
    }

    pub fn is_valid(self) -> (r: bool)
        ensures
            r == pte_valid(self@),
    {
        self.0 & PTE_VALID == PTE_VALID
    }

    /// Whether a valid entry maps a page rather than pointing at a table.
    pub fn is_leaf(self) -> (r: bool)
        ensures
            r == pte_leaf(self@),
    {
        self.0 & 0xe != 0
    }

    /// The physical page number that the entry holds.
    pub fn ppn(self) -> (r: u64)
        ensures
            r == pte_ppn(self@),
            r <= PPN_MASK,
    {
        let b = self.0;
        assert((b >> 10u64) & 0xfff_ffff_ffffu64 <= 0xfff_ffff_ffffu64) by (bit_vector);
        (b >> 10) & PPN_MASK
    }

    /// The permissions that a leaf entry grants.
    pub fn permissions(self) -> (r: PagePermissions)
        ensures
            r@ == pte_permissions(self@),
    {
        let b = self.0;
        assert(((b >> 1u64) & 7u64) as u8 & 7u8 == ((b >> 1u64) & 7u64) as u8) by (bit_vector);
        PagePermissions::from_bits_truncate(((b >> 1) & 7) as u8)
    }
}

/// One slot of a page table.
pub struct PteSlot(u64);

impl View for PteSlot {
    type V = u64;

    closed spec fn view(&self) -> u64 {
        self.0
    }
}

impl PteSlot {
    pub fn new(value: PteValue) -> (r: Self)
        ensures
            r@ == value@,
    {
        Self(value.bits())
    }

    pub fn unmapped() -> (r: Self)
        ensures
            r@ == 0,
            !pte_valid(r@),
    {
        Self::new(PteValue::unmapped())
    }

    pub fn load(&self) -> (r: PteValue)
        ensures
            r@ == self@,
    {
        PteValue::from_bits(self.0)
    }
}

} // verus!
