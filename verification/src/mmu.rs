//! The kernel's address spaces: errors, TLB maintenance requests and the
//! memory manager that owns the page tables.
use vstd::prelude::*;

pub mod addr;
pub mod pte;
pub mod table;
pub mod range_laws;
pub mod uniqueness;

use std::collections::BTreeMap;

use crate::mmu::addr::{
    identity_physical, identity_virtual, AddressRange, PhysicalAddr, VirtualAddr,
};
use crate::mmu::pte::{InvalidPermissions, PagePermissions, PHYSICAL_LIMIT};
use crate::mmu::uniqueness::lemma_map_range_result_unique;
use crate::mmu::table::{
    global_tables, holds_mappings, map_range_result, mappings_consistent, mappings_fit, refused_at, AddressSpace,
    TABLE_PPN_LIMIT,
};

verus! {

/// The identifier of an address space (its ASID).
#[derive(Copy, Clone, Debug, PartialEq, Eq, PartialOrd, Ord, Structural)]
pub struct AddressSpaceId(u16);

impl View for AddressSpaceId {
    type V = u16;

    closed spec fn view(&self) -> u16 {
        self.0
    }
}

impl AddressSpaceId {
    /// The address space of the kernel.
    pub fn kernel() -> (r: Self)
        ensures
            r@ == 0,
    {
        Self(0)
    }

    pub fn get(self) -> (r: u16)
        ensures
            r == self@,
    {
        self.0
    }
}

/// Why a mapping request was refused.
#[derive(Debug, Clone)]
pub enum MapError {
    /// The virtual address is not aligned to the page size.
    VirtualUnaligned(VirtualAddr),
    /// The physical address is not aligned to the page size.
    PhysicalUnaligned(PhysicalAddr),
    /// The virtual and the physical range differ in length.
    MismatchedLength(AddressRange<VirtualAddr>, AddressRange<PhysicalAddr>),
    /// The range is already mapped in this address space.
    Conflict(AddressRange<VirtualAddr>),
    /// No leaf entry may carry the requested permissions.
    InvalidPermissions(InvalidPermissions),
    /// Every frame set aside for page tables already holds one.
    TableMemoryExhausted,
}

/// Which TLB entries a change of the page tables makes stale.
#[derive(Debug)]
pub enum PageTableUpdate {
    /// No page table updates were performed.
    NoChange,
    /// One page is affected: a single leaf PTE was created or updated.
    One(VirtualAddr),
    /// Many pages are affected: a non-leaf PTE or multiple leaf PTEs were created or updated.
    Many,
}

impl PageTableUpdate {
    /// The pages that two successive changes affect together.
    pub open spec fn combine(self, other: Self) -> Self {
        match (self, other) {
            (PageTableUpdate::NoChange, u) => u,
            (u, PageTableUpdate::NoChange) => u,
            _ => PageTableUpdate::Many,
        }
    }

    /// Drops the request without flushing anything.
    pub fn do_not_flush(self) {
    }

    /// The TLB flush that makes this change visible in address space `asid`.
    pub fn flush(self, asid: AddressSpaceId) -> (r: TlbFlush)
        ensures
            r == match self {
                PageTableUpdate::NoChange => TlbFlush::Nothing,
                PageTableUpdate::One(addr) => TlbFlush::Page { asid: asid@, addr: addr@ },
                PageTableUpdate::Many => TlbFlush::AddressSpace { asid: asid@ },
            },
    {
        match self {
            PageTableUpdate::NoChange => TlbFlush::Nothing,
            PageTableUpdate::One(addr) => TlbFlush::Page { asid: asid.get(), addr: addr.get() },
            PageTableUpdate::Many => TlbFlush::AddressSpace { asid: asid.get() },
        }
    }
}

/// No change is the identity of `combine`, on both sides.
pub proof fn lemma_combine_identity(u: PageTableUpdate)
    ensures
        PageTableUpdate::NoChange.combine(u) == u,
        u.combine(PageTableUpdate::NoChange) == u,
{
}

/// Combining changes does not depend on how they are grouped.
pub proof fn lemma_combine_associative(a: PageTableUpdate, b: PageTableUpdate, c: PageTableUpdate)
    ensures
        a.combine(b).combine(c) == a.combine(b.combine(c)),
{
}

/// Two changes that each touch something together touch many pages.
pub proof fn lemma_combine_two_changes(a: PageTableUpdate, b: PageTableUpdate)
    requires
        !(a is NoChange),
        !(b is NoChange),
    ensures
        a.combine(b) == PageTableUpdate::Many,
{
}

/// A TLB flush: the instruction `sfence.vma` with the operands it needs.
#[derive(Debug, Clone, Copy, PartialEq, Eq, Structural)]
pub enum TlbFlush {
    /// Nothing to flush.
    Nothing,
    /// Flush the translation of one page in one address space.
    Page { asid: u16, addr: usize },
    /// Flush every translation of one address space.
    AddressSpace { asid: u16 },
}

/// Owns the page tables of every address space; the kernel's always exists.
pub struct MemoryManager {
    address_spaces: BTreeMap<u16, AddressSpace>,
    _global_mappings: Vec<(AddressRange<VirtualAddr>, PagePermissions)>,
}

impl MemoryManager {
    /// The kernel's address space exists and its tables are well formed.
    pub closed spec fn wf(&self) -> bool {
        &&& self.address_spaces@.contains_key(0u16)
        &&& self.address_spaces@[0u16].wf()
    }

    /// In a well-formed manager the kernel's address space is well formed.
    pub proof fn lemma_kernel_space_wf(&self)
        requires
            self.wf(),
        ensures
            self.kernel_space().wf(),
            self.space_ids().contains(0u16),
            self.spaces().contains_key(0u16),
            self.spaces()[0u16] == self.kernel_space(),
            self.space_ids() == self.spaces().dom(),
    {
    }

    /// The kernel's address space.
    pub closed spec fn kernel_space(&self) -> AddressSpace {
        self.address_spaces@[0u16]
    }

    /// The identifiers of the address spaces that the manager holds.
    pub closed spec fn space_ids(&self) -> Set<u16> {
        self.address_spaces@.dom()
    }

    /// The address spaces that the manager holds, by identifier.
    pub closed spec fn spaces(&self) -> Map<u16, AddressSpace> {
        self.address_spaces@
    }

    /// The mappings that every address space starts with.
    pub closed spec fn global_mappings(&self) -> Seq<(AddressRange<VirtualAddr>, PagePermissions)> {
        self._global_mappings@
    }

    /// A memory manager whose kernel address space holds the given identity
    /// mappings, with its page tables in the frames of `table_frames`.
    /// Refused with the first mapping that fails.
    pub fn new_with_global_mappings(
        global_mappings: Vec<(AddressRange<VirtualAddr>, PagePermissions)>,
        table_frames: AddressRange<PhysicalAddr>,
    ) -> (r: Result<Self, MapError>)
        requires
            table_frames.start@ % 4096 == 0,
            table_frames.start@ + 4096 <= table_frames.end@ <= PHYSICAL_LIMIT,
        ensures
            match r {
                Ok(mm) => {
                    &&& mm.wf()
                    &&& mm.space_ids() == set![0u16]
                    &&& mm.global_mappings() == global_mappings@
                    &&& holds_mappings(mm.kernel_space(), global_mappings@)
                    &&& mappings_consistent(global_mappings@)
                    &&& mm.kernel_space().num_tables() == 1 + global_tables(
                        global_mappings@,
                        global_mappings@.len() as int,
                    )
                    &&& mm.kernel_space().spec_base_ppn() == table_frames.start@ / 4096
                    &&& mm.kernel_space().spec_capacity() == (table_frames.end@
                        - table_frames.start@) / 4096
                },
                Err(e) => exists|i: int|
                    0 <= i < global_mappings@.len() && #[trigger] refused_at(
                        global_mappings@,
                        i,
                        ((table_frames.end@ - table_frames.start@) / 4096) as u64,
                        e,
                    ),
            },
            mappings_fit(
                global_mappings@,
                ((table_frames.end@ - table_frames.start@) / 4096) as u64,
            ) ==> r is Ok,
    {
        let base_ppn = table_frames.start.ppn();
        let capacity = (table_frames.end.get() - table_frames.start.get()) / 4096;
        proof {
            let s = table_frames.start@ as int;
            let e = table_frames.end@ as int;
            assert(s / 4096 + (e - s) / 4096 <= e / 4096) by (nonlinear_arith)
                requires
                    s % 4096 == 0,
                    s <= e,
            ;
            assert(e / 4096 <= TABLE_PPN_LIMIT);
        }
        let space = match AddressSpace::new_with_global_mappings(
            global_mappings.as_slice(),
            base_ppn,
            capacity,
        ) {
            Ok(space) => space,
            Err(e) => return Err(e),
        };
        let address_spaces = Self::spaces_with_kernel(space);
        Ok(Self { address_spaces, _global_mappings: global_mappings })
    }

    /// The table of address spaces that holds only the kernel's.
    fn spaces_with_kernel(space: AddressSpace) -> (r: BTreeMap<u16, AddressSpace>)
        ensures
            r@ == Map::<u16, AddressSpace>::empty().insert(0u16, space),
    {
        proof {
            broadcast use vstd::laws_cmp::group_laws_cmp;

        }
        let mut address_spaces = BTreeMap::new();
        address_spaces.insert(AddressSpaceId::kernel().get(), space);
        address_spaces
    }

    /// The kernel's address space.
    pub fn kernel_address_space(&self) -> (r: &AddressSpace)
        requires
            self.wf(),
        ensures
            *r == self.kernel_space(),
    {
        proof {
            broadcast use vstd::laws_cmp::group_laws_cmp;

        }
        self.address_spaces.get(&AddressSpaceId::kernel().get()).expect(
            "kernel address space should exist",
        )
    }

    /// Takes the kernel's address space out, to be put back with
    /// `restore_kernel_address_space`.
    fn take_kernel_address_space(&mut self) -> (r: AddressSpace)
        requires
            old(self).wf(),
        ensures
            r == old(self).kernel_space(),
            final(self).address_spaces@ == old(self).address_spaces@.remove(0u16),
            final(self)._global_mappings == old(self)._global_mappings,
    {
        proof {
            broadcast use vstd::laws_cmp::group_laws_cmp;

        }
        self.address_spaces.remove(&AddressSpaceId::kernel().get()).expect(
            "kernel address space should exist",
        )
    }

    fn restore_kernel_address_space(&mut self, space: AddressSpace)
        ensures
            final(self).address_spaces@ == old(self).address_spaces@.insert(0u16, space),
            final(self)._global_mappings == old(self)._global_mappings,
    {
        proof {
            broadcast use vstd::laws_cmp::group_laws_cmp;

        }
        self.address_spaces.insert(AddressSpaceId::kernel().get(), space);
    }

    /// Maps the physical range to the same virtual addresses in the kernel's
    /// address space, readable and writable.
    pub fn map_kernel_mmio(&mut self, range: AddressRange<PhysicalAddr>) -> (r: Result<
        PageTableUpdate,
        MapError,
    >)
        requires
            old(self).wf(),
        ensures
            final(self).wf(),
            final(self).global_mappings() == old(self).global_mappings(),
            final(self).spaces() == old(self).spaces().insert(0u16, final(self).kernel_space()),
            final(self).kernel_space().same_frame(&old(self).kernel_space()),
            final(self).kernel_space().keeps_valid_entries(&old(self).kernel_space()),
            map_range_result(
                old(self).kernel_space(),
                final(self).kernel_space(),
                identity_virtual(range),
                identity_physical(identity_virtual(range)),
                PagePermissions::spec_read_write(),
                r,
            ),
    {
        let permissions = PagePermissions::read() | PagePermissions::write();
        assert(1u8 | 2u8 == 3u8) by (bit_vector);
        self.identity_map_kernel(range.identity_mapped_virtual(), permissions)
    }

    /// Maps the virtual range to the same physical addresses in the kernel's
    /// address space.
    pub fn identity_map_kernel(
        &mut self,
        range: AddressRange<VirtualAddr>,
        permissions: PagePermissions,
    ) -> (r: Result<PageTableUpdate, MapError>)
        requires
            old(self).wf(),
        ensures
            final(self).wf(),
            final(self).global_mappings() == old(self).global_mappings(),
            final(self).spaces() == old(self).spaces().insert(0u16, final(self).kernel_space()),
            final(self).kernel_space().same_frame(&old(self).kernel_space()),
            final(self).kernel_space().keeps_valid_entries(&old(self).kernel_space()),
            map_range_result(
                old(self).kernel_space(),
                final(self).kernel_space(),
                range,
                identity_physical(range),
                permissions,
                r,
            ),
    {
        let mut space = self.take_kernel_address_space();
        let r = space.identity_map_range(range, permissions);
        self.restore_kernel_address_space(space);
        r
    }

    /// The page number of the kernel's root page table, as `satp` takes it.
    pub fn kernel_root_ppn(&self) -> (r: u64)
        requires
            self.wf(),
        ensures
            r == self.kernel_space().spec_base_ppn(),
    {
        self.kernel_address_space().root_ppn()
    }
}

/// Mapping device memory is mapping its addresses to themselves, readable
/// and writable: from the same manager, `map_kernel_mmio(range)` and
/// `identity_map_kernel` of the same addresses with `read() | write()`
/// (the requests below are what the two promise) give the same result, the
/// same translations and as many tables in the kernel's address space.
pub proof fn lemma_mmio_is_identity_read_write(
    old: MemoryManager,
    after_mmio: MemoryManager,
    after_identity: MemoryManager,
    range: AddressRange<PhysicalAddr>,
    r_mmio: Result<PageTableUpdate, MapError>,
    r_identity: Result<PageTableUpdate, MapError>,
)
    requires
        map_range_result(
            old.kernel_space(),
            after_mmio.kernel_space(),
            identity_virtual(range),
            identity_physical(identity_virtual(range)),
            PagePermissions::spec_read_write(),
            r_mmio,
        ),
        map_range_result(
            old.kernel_space(),
            after_identity.kernel_space(),
            identity_virtual(range),
            identity_physical(identity_virtual(range)),
            PagePermissions::spec_read_write(),
            r_identity,
        ),
    ensures
        r_mmio == r_identity,
        forall|v: usize| #[trigger] after_mmio.kernel_space().lookup(v) == after_identity.kernel_space().lookup(v),
        after_mmio.kernel_space().num_tables() == after_identity.kernel_space().num_tables(),
{
    lemma_map_range_result_unique(
        old.kernel_space(),
        after_mmio.kernel_space(),
        after_identity.kernel_space(),
        identity_virtual(range),
        identity_physical(identity_virtual(range)),
        PagePermissions::spec_read_write(),
        r_mmio,
        r_identity,
    );
}

impl core::default::Default for PageTableUpdate {
    fn default() -> (r: Self)
        ensures
            r == PageTableUpdate::NoChange,
    {
        PageTableUpdate::NoChange
    }
}

impl core::ops::Add<PageTableUpdate> for PageTableUpdate {
    type Output = Self;

    fn add(self, other: Self) -> (r: Self)
        ensures
            r == self.combine(other),
    {
        match (self, other) {
            (PageTableUpdate::NoChange, u) => u,
            (u, PageTableUpdate::NoChange) => u,
            _ => PageTableUpdate::Many,
        }
    }
}

impl core::ops::AddAssign<PageTableUpdate> for PageTableUpdate {
    fn add_assign(&mut self, other: PageTableUpdate)
        ensures
            *final(self) == old(self).combine(other),
    {
        let mut current = PageTableUpdate::NoChange;
        core::mem::swap(&mut current, self);
        *self = current + other;
    }
}

impl vstd::std_specs::ops::AddSpecImpl<PageTableUpdate> for PageTableUpdate {
    open spec fn obeys_add_spec() -> bool {
        true
    }

    open spec fn add_req(self, rhs: PageTableUpdate) -> bool {
        true
    }

    open spec fn add_spec(self, rhs: PageTableUpdate) -> PageTableUpdate {
        self.combine(rhs)
    }
}

} // verus!
