//! Sv39 page tables and the address space that they form.
//!
//! The tables of an address space live in consecutive physical frames set
//! aside for them: table `t` occupies the frame whose page number is
//! `base_ppn + t`, and table 0 is the root.
use vstd::prelude::*;

use core::ops::AddAssign;

use crate::mmu::addr::{
    aliases, covers, identity_physical, lemma_covered_has_alias, lemma_in_page,
    lemma_near_addresses_differ, lemma_same_sv39, lemma_with_indices, span, sv39_bits, vpn0_of,
    vpn1_of, vpn2_of, with_low_indices, with_vpn0, AddressRange, PageType, PhysicalAddr,
    VirtualAddr,
};
use crate::mmu::pte::{
    encoded_frame, is_table_ptr, leaf_permissions_allowed, lemma_frame_offset, pte_leaf,
    pte_permissions, pte_ppn, pte_valid, pte_well_formed, leaf_bits, table_bits,
    lemma_well_formed_bits, PagePermissions, PteSlot, PteValue, PHYSICAL_LIMIT,
};
use crate::mmu::{MapError, PageTableUpdate};

verus! {

/// Number of entries in a page table.
pub const ENTRIES_PER_TABLE: usize = 512;

/// Page numbers of page-table frames stay below this bound (44 bits).
pub const TABLE_PPN_LIMIT: u64 = 0x1000_0000_0000;

/// One 4 KiB page table.
pub struct PageTable {
    entries: Vec<PteSlot>,
}

impl PageTable {
    /// The raw value of entry `i`.
    pub closed spec fn pte(&self, i: int) -> u64 {
        self.entries@[i]@
    }

    pub closed spec fn num_entries(&self) -> int {
        self.entries@.len() as int
    }

    /// A table whose entries map nothing.
    pub fn new() -> (r: Self)
        ensures
            r.num_entries() == 512,
            forall|i: int| 0 <= i < 512 ==> #[trigger] r.pte(i) == 0,
    {
        let mut entries: Vec<PteSlot> = Vec::with_capacity(ENTRIES_PER_TABLE);
        let mut k: usize = 0;
        while k < ENTRIES_PER_TABLE
            invariant
                k <= ENTRIES_PER_TABLE,
                entries@.len() == k,
                forall|i: int| 0 <= i < k ==> (#[trigger] entries@[i])@ == 0,
            decreases ENTRIES_PER_TABLE - k,
        {
            entries.push(PteSlot::unmapped());
            k = k + 1;
        }
        Self { entries }
    }

    pub fn entry(&self, idx: usize) -> (r: &PteSlot)
        requires
            idx < self.num_entries(),
        ensures
            r@ == self.pte(idx as int),
    {
        &self.entries[idx]
    }

    /// Writes `value` into entry `idx`.
    pub fn store(&mut self, idx: usize, value: PteValue)
        requires
            idx < old(self).num_entries(),
        ensures
            final(self).num_entries() == old(self).num_entries(),
            final(self).pte(idx as int) == value@,
            forall|j: int|
                0 <= j < old(self).num_entries() && j != idx ==> #[trigger] final(self).pte(j)
                    == old(self).pte(j),
    {
        self.entries.set(idx, PteSlot::new(value));
    }
}

/// The page tables of one address space.
pub struct AddressSpace {
    tables: Vec<PageTable>,
    base_ppn: u64,
    capacity: u64,
    /// For each table: its level (2 for the root, 0 for the last level) and
    /// the slot (table, index) that is the only one allowed to point at it.
    shape: Ghost<Seq<(nat, int, int)>>,
}

impl AddressSpace {
    pub closed spec fn num_tables(&self) -> int {
        self.tables@.len() as int
    }

    /// The raw value of entry `i` of table `t`.
    pub closed spec fn pte(&self, t: int, i: int) -> u64 {
        self.tables@[t].pte(i)
    }

    /// Page number of the first frame set aside for page tables.
    pub closed spec fn spec_base_ppn(&self) -> u64 {
        self.base_ppn
    }

    /// Number of frames set aside for page tables.
    pub closed spec fn spec_capacity(&self) -> u64 {
        self.capacity
    }

    /// The table that a pointer entry designates.
    closed spec fn child(&self, e: u64) -> int {
        pte_ppn(e) as int - self.base_ppn as int
    }

    closed spec fn level(&self, t: int) -> nat {
        self.shape@[t].0
    }

    closed spec fn parent(&self, t: int) -> (int, int) {
        (self.shape@[t].1, self.shape@[t].2)
    }

    closed spec fn nonempty(&self, t: int) -> bool {
        exists|j: int| 0 <= j < 512 && pte_valid(#[trigger] self.pte(t, j))
    }

    closed spec fn points_well(&self, t: int, i: int) -> bool {
        let c = self.child(self.pte(t, i));
        &&& 1 <= c < self.num_tables()
        &&& self.level(t) >= 1
        &&& self.level(c) + 1 == self.level(t)
        &&& self.parent(c) == (t, i)
        &&& self.nonempty(c)
    }

    /// The tables form a tree below the root: every pointer names a table of
    /// the next level down that only this pointer names, and that maps
    /// something.
    pub closed spec fn wf(&self) -> bool {
        &&& 1 <= self.num_tables() <= self.capacity
        &&& self.base_ppn + self.capacity <= TABLE_PPN_LIMIT
        &&& self.shape@.len() == self.num_tables()
        &&& self.level(0) == 2
        &&& forall|t: int|
            #![trigger self.tables@[t]]
            0 <= t < self.num_tables() ==> self.tables@[t].num_entries() == 512 && self.level(t)
                <= 2
        &&& forall|t: int, i: int|
            0 <= t < self.num_tables() && 0 <= i < 512 && is_table_ptr(#[trigger] self.pte(t, i))
                ==> self.points_well(t, i)
        &&& self.entries_well_formed()
    }

    /// Every entry of every table is zero, a bare pointer at a table, or a
    /// leaf with no bit set beyond the valid bit, its permissions and its
    /// page number.
    #[verifier::opaque]
    closed spec fn entries_well_formed(&self) -> bool {
        forall|t: int, i: int|
            0 <= t < self.num_tables() && 0 <= i < 512 ==> pte_well_formed(
                #[trigger] self.pte(t, i),
            )
    }

    /// What an Sv39 walk from the root finds for virtual address `v`: the
    /// physical address, the permissions, and the size of the page that
    /// serves it.
    pub closed spec fn walk(&self, v: usize) -> Option<(int, u8, nat)> {
        let e2 = self.pte(0, vpn2_of(v) as int);
        if !pte_valid(e2) {
            None
        } else if pte_leaf(e2) {
            Some((pte_ppn(e2) * 4096 + v as int % 0x4000_0000, pte_permissions(e2), 0x4000_0000))
        } else {
            let c1 = self.child(e2);
            let e1 = self.pte(c1, vpn1_of(v) as int);
            if !pte_valid(e1) {
                None
            } else if pte_leaf(e1) {
                Some((pte_ppn(e1) * 4096 + v as int % 0x20_0000, pte_permissions(e1), 0x20_0000))
            } else {
                let c0 = self.child(e1);
                let e0 = self.pte(c0, vpn0_of(v) as int);
                if pte_valid(e0) && pte_leaf(e0) {
                    Some((pte_ppn(e0) * 4096 + v as int % 4096, pte_permissions(e0), 4096))
                } else {
                    None
                }
            }
        }
    }

    /// What the tables map virtual address `v` to: the physical address and
    /// the permissions, as an Sv39 walk from the root finds them.
    pub closed spec fn lookup(&self, v: usize) -> Option<(int, u8)> {
        match self.walk(v) {
            Some((pa, perms, _)) => Some((pa, perms)),
            None => None,
        }
    }

    /// The size of the page that serves virtual address `v`, if any.
    pub closed spec fn page_size_at(&self, v: usize) -> Option<nat> {
        match self.walk(v) {
            Some((_, _, size)) => Some(size),
            None => None,
        }
    }

    /// Whether the walk for `v` reads entry `i` of table `t`.
    closed spec fn reads(&self, v: usize, t: int, i: int) -> bool {
        let e2 = self.pte(0, vpn2_of(v) as int);
        let c1 = self.child(e2);
        let e1 = self.pte(c1, vpn1_of(v) as int);
        ||| t == 0 && i == vpn2_of(v)
        ||| is_table_ptr(e2) && t == c1 && i == vpn1_of(v)
        ||| is_table_ptr(e2) && is_table_ptr(e1) && t == self.child(e1) && i == vpn0_of(v)
    }

    /// A change of one entry leaves the walks that do not read it alone.
    proof fn lemma_lookup_frame(&self, new: &Self, t: int, i: int)
        requires
            self.wf(),
            new.base_ppn == self.base_ppn,
            new.num_tables() >= self.num_tables(),
            forall|t2: int, i2: int|
                0 <= t2 < self.num_tables() && 0 <= i2 < 512 && (t2 != t || i2 != i)
                    ==> #[trigger] new.pte(t2, i2) == self.pte(t2, i2),
        ensures
            forall|v: usize| !self.reads(v, t, i) ==> #[trigger] new.walk(v) == self.walk(v),
            forall|v: usize| !self.reads(v, t, i) ==> #[trigger] new.lookup(v) == self.lookup(v),
    {
        assert forall|v: usize| !self.reads(v, t, i) implies #[trigger] new.walk(v) == self.walk(
            v,
        ) by {
            let e2 = self.pte(0, vpn2_of(v) as int);
            lemma_vpn_bounds(v);
            if is_table_ptr(e2) {
                assert(self.points_well(0, vpn2_of(v) as int));
                let c1 = self.child(e2);
                let e1 = self.pte(c1, vpn1_of(v) as int);
                if is_table_ptr(e1) {
                    assert(self.points_well(c1, vpn1_of(v) as int));
                }
            }
        }
    }
}

impl AddressSpace {
    /// Every entry that was valid in `old` holds the same value in `self`:
    /// no mapping is overwritten or removed.
    #[verifier::opaque]
    pub open spec fn keeps_valid_entries(&self, old: &Self) -> bool {
        &&& self.num_tables() >= old.num_tables()
        &&& forall|t: int, i: int|
            0 <= t < old.num_tables() && 0 <= i < 512 && pte_valid(#[trigger] old.pte(t, i))
                ==> self.pte(t, i) == old.pte(t, i)
    }

    /// A space keeps its own valid entries.
    pub proof fn lemma_keeps_valid_entries_refl(&self)
        ensures
            self.keeps_valid_entries(self),
    {
        reveal(AddressSpace::keeps_valid_entries);
    }

    /// Keeping the valid entries carries over from one change to the next.
    pub proof fn lemma_keeps_valid_entries_trans(&self, mid: &Self, old: &Self)
        requires
            mid.keeps_valid_entries(old),
            self.keeps_valid_entries(mid),
        ensures
            self.keeps_valid_entries(old),
    {
        reveal(AddressSpace::keeps_valid_entries);
        assert forall|t: int, i: int|
            0 <= t < old.num_tables() && 0 <= i < 512 && pte_valid(#[trigger] old.pte(t, i))
                implies self.pte(t, i) == old.pte(t, i) by {
            assert(mid.pte(t, i) == old.pte(t, i));
        }
    }

    /// Every entry of a well-formed space is zero or has its valid bit set;
    /// none sets the U, G, A or D bit or a bit kept for software; a pointer
    /// at a table is the valid bit and the table's page number alone; a leaf
    /// is the valid bit, permissions that a leaf may carry, and its page
    /// number.
    pub proof fn lemma_entries_well_formed(&self)
        requires
            self.wf(),
        ensures
            forall|t: int, i: int|
                0 <= t < self.num_tables() && 0 <= i < 512 ==> {
                    let e = #[trigger] self.pte(t, i);
                    &&& e & 0x3f0u64 == 0u64
                    &&& !pte_valid(e) ==> e == 0u64
                    &&& is_table_ptr(e) ==> e == table_bits(pte_ppn(e))
                    &&& pte_valid(e) && pte_leaf(e) ==> e == leaf_bits(
                        e >> 10u64,
                        pte_permissions(e),
                    ) && leaf_permissions_allowed(pte_permissions(e))
                },
    {
        reveal(AddressSpace::entries_well_formed);
        assert forall|t: int, i: int| 0 <= t < self.num_tables() && 0 <= i < 512 implies {
            let e = #[trigger] self.pte(t, i);
            &&& e & 0x3f0u64 == 0u64
            &&& !pte_valid(e) ==> e == 0u64
            &&& is_table_ptr(e) ==> e == table_bits(pte_ppn(e))
            &&& pte_valid(e) && pte_leaf(e) ==> e == leaf_bits(e >> 10u64, pte_permissions(e))
                && leaf_permissions_allowed(pte_permissions(e))
        } by {
            lemma_well_formed_bits(self.pte(t, i));
        }
    }

    /// Whether the two spaces agree on everything but the page-table entries.
    pub closed spec fn same_frame(&self, other: &Self) -> bool {
        &&& self.base_ppn == other.base_ppn
        &&& self.capacity == other.capacity
    }

    /// An address space whose root table maps nothing, with `capacity` frames
    /// for page tables starting at page number `base_ppn`.
    pub fn new(base_ppn: u64, capacity: u64) -> (r: Self)
        requires
            1 <= capacity,
            base_ppn + capacity <= TABLE_PPN_LIMIT,
        ensures
            r.wf(),
            r.num_tables() == 1,
            r.spec_base_ppn() == base_ppn,
            r.spec_capacity() == capacity,
            forall|v: usize| #[trigger] r.lookup(v) is None,
    {
        let root = PageTable::new();
        let mut tables: Vec<PageTable> = Vec::new();
        tables.push(root);
        let ghost shape = seq![(2nat, 0int, 0int)];
        let r = Self { tables, base_ppn, capacity, shape: Ghost(shape) };
        proof {
            lemma_zero_invalid();
            reveal(AddressSpace::entries_well_formed);
        }
        assert(r.tables@[0].num_entries() == 512);
        assert forall|v: usize| #[trigger] r.lookup(v) is None by {
            lemma_vpn_bounds(v);
        }
        r
    }

    /// The page number of the frame that holds the root table.
    pub fn root_ppn(&self) -> (r: u64)
        ensures
            r == self.spec_base_ppn(),
    {
        self.base_ppn
    }

    /// The number of page tables in use.
    pub fn table_count(&self) -> (r: usize)
        ensures
            r == self.num_tables(),
    {
        self.tables.len()
    }

    /// The raw value of entry `i` of table `t`.
    pub fn entry_value(&self, t: usize, i: usize) -> (r: u64)
        requires
            self.wf(),
            t < self.num_tables(),
            i < ENTRIES_PER_TABLE,
        ensures
            r == self.pte(t as int, i as int),
    {
        self.tables[t].entry(i).load().bits()
    }

    /// The physical address of the frame that holds table `t`.
    pub fn table_address(&self, t: usize) -> (r: PhysicalAddr)
        requires
            self.wf(),
            t < self.spec_capacity(),
        ensures
            r@ == (self.spec_base_ppn() + t) * 4096,
            (r@ >> 12u64) & 0xfff_ffff_ffffu64 == self.spec_base_ppn() + t,
    {
        let ppn = self.base_ppn + t as u64;
        let a = PhysicalAddr::from_ppn(ppn);
        let x = a.get();
        assert(ppn < 0x1000_0000_0000u64 && x == ppn * 4096 ==> (x >> 12u64) & 0xfff_ffff_ffffu64
            == ppn) by (bit_vector);
        a
    }

    /// The table that the pointer in entry `i` of table `t` designates.
    fn child_index(&self, t: usize, i: usize, e: PteValue) -> (c: usize)
        requires
            self.wf(),
            t < self.num_tables(),
            i < 512,
            e@ == self.pte(t as int, i as int),
            is_table_ptr(e@),
        ensures
            c == self.child(e@),
            self.points_well(t as int, i as int),
    {
        assert(self.points_well(t as int, i as int));
        let ppn = e.ppn();
        let n = self.tables.len();
        assert(ppn - self.base_ppn < n);
        (ppn - self.base_ppn) as usize
    }

    /// Writes `value` into entry `i` of table `t`.
    fn set_pte(&mut self, t: usize, i: usize, value: PteValue)
        requires
            old(self).wf(),
            t < old(self).num_tables(),
            i < 512,
        ensures
            final(self).same_frame(old(self)),
            final(self).shape == old(self).shape,
            final(self).num_tables() == old(self).num_tables(),
            forall|t2: int|
                #![trigger final(self).tables@[t2]]
                0 <= t2 < old(self).num_tables() ==> final(self).tables@[t2].num_entries() == 512,
            final(self).pte(t as int, i as int) == value@,
            forall|t2: int, i2: int|
                0 <= t2 < old(self).num_tables() && 0 <= i2 < 512 && (t2 != t || i2 != i)
                    ==> #[trigger] final(self).pte(t2, i2) == old(self).pte(t2, i2),
    {
        let mut table = PageTable { entries: Vec::new() };
        self.tables.set_and_swap(t, &mut table);
        assert(table.num_entries() == 512);
        table.store(i, value);
        self.tables.set_and_swap(t, &mut table);
        assert forall|t2: int|
            #![trigger self.tables@[t2]]
            0 <= t2 < old(self).num_tables() implies self.tables@[t2].num_entries() == 512 by {
            assert(old(self).tables@[t2].num_entries() == 512);
        }
        assert forall|t2: int, i2: int|
            0 <= t2 < old(self).num_tables() && 0 <= i2 < 512 && (t2 != t || i2 != i)
                implies #[trigger] self.pte(t2, i2) == old(self).pte(t2, i2) by {
            if t2 != t {
                assert(self.tables@[t2] == old(self).tables@[t2]);
            }
        }
    }

    /// Appends a table that maps nothing, at the given level and owned by the
    /// given slot, and returns its index.
    fn push_table(&mut self, level: Ghost<nat>, parent: Ghost<(int, int)>) -> (c: usize)
        requires
            old(self).wf(),
            old(self).num_tables() < old(self).spec_capacity(),
            level@ <= 1,
        ensures
            c == old(self).num_tables(),
            final(self).wf(),
            final(self).same_frame(old(self)),
            final(self).num_tables() == c + 1,
            final(self).shape@ == old(self).shape@.push((level@, parent@.0, parent@.1)),
            forall|t: int, i: int|
                0 <= t < c && 0 <= i < 512 ==> #[trigger] final(self).pte(t, i) == old(self).pte(
                    t,
                    i,
                ),
            forall|i: int| 0 <= i < 512 ==> #[trigger] final(self).pte(c as int, i) == 0,
            forall|t: int, i: int|
                0 <= t < final(self).num_tables() && 0 <= i < 512 && is_table_ptr(
                    #[trigger] final(self).pte(t, i),
                ) ==> final(self).child(final(self).pte(t, i)) < c,
            forall|v: usize| #[trigger] final(self).walk(v) == old(self).walk(v),
            forall|v: usize| #[trigger] final(self).lookup(v) == old(self).lookup(v),
    {
        let c = self.tables.len();
        let table = PageTable::new();
        self.tables.push(table);
        let ghost shape = self.shape@.push((level@, parent@.0, parent@.1));
        self.shape = Ghost(shape);
        assert forall|t: int, i: int|
            0 <= t < c && 0 <= i < 512 implies #[trigger] self.pte(t, i) == old(self).pte(t, i) by {
            assert(self.tables@[t] == old(self).tables@[t]);
        }
        assert forall|t: int, i: int|
            0 <= t < self.num_tables() && 0 <= i < 512 && is_table_ptr(#[trigger] self.pte(t, i))
                implies self.points_well(t, i) && self.child(self.pte(t, i)) < c by {
            if t < c {
                assert(old(self).pte(t, i) == self.pte(t, i));
                assert(old(self).points_well(t, i));
                let ch = old(self).child(old(self).pte(t, i));
                let j = choose|j: int| 0 <= j < 512 && pte_valid(#[trigger] old(self).pte(ch, j));
                assert(self.pte(ch, j) == old(self).pte(ch, j));
            } else {
                assert(self.pte(t, i) == 0);
                lemma_zero_invalid();
            }
        }
        assert forall|t: int|
            #![trigger self.tables@[t]]
            0 <= t < self.num_tables() implies self.tables@[t].num_entries() == 512 && self.level(t)
                <= 2 by {
            if t < c {
                assert(old(self).tables@[t] == self.tables@[t]);
            }
        }
        assert(1 <= self.num_tables() <= self.capacity);
        assert(self.base_ppn + self.capacity <= TABLE_PPN_LIMIT);
        assert(self.shape@.len() == self.num_tables());
        assert(self.level(0) == 2);
        assert(self.entries_well_formed()) by {
            reveal(AddressSpace::entries_well_formed);
            assert forall|t: int, i: int|
                0 <= t < self.num_tables() && 0 <= i < 512 implies pte_well_formed(
                    #[trigger] self.pte(t, i),
                ) by {
                if t < c {
                    assert(self.pte(t, i) == old(self).pte(t, i));
                }
            }
        }
        assert(self.wf());
        proof {
            old(self).lemma_lookup_frame(self, -1, -1);
            assert forall|v: usize| #[trigger] self.walk(v) == old(self).walk(v) by {
                assert(!old(self).reads(v, -1, -1));
            }
        }
        c
    }
}

impl AddressSpace {
    closed spec fn root_entry(&self, va: usize) -> u64 {
        self.pte(0, vpn2_of(va) as int)
    }

    closed spec fn l1_table(&self, va: usize) -> int {
        self.child(self.root_entry(va))
    }

    closed spec fn l1_entry(&self, va: usize) -> u64 {
        self.pte(self.l1_table(va), vpn1_of(va) as int)
    }

    closed spec fn l0_table(&self, va: usize) -> int {
        self.child(self.l1_entry(va))
    }

    closed spec fn l0_entry(&self, va: usize) -> u64 {
        self.pte(self.l0_table(va), vpn0_of(va) as int)
    }

    /// The entry that a page of the given type at `va` occupies: the one at
    /// the level of the walk that serves pages of that size.
    pub closed spec fn page_entry(&self, va: usize, page_type: PageType) -> u64 {
        match page_type {
            PageType::Huge => self.root_entry(va),
            PageType::Large => self.l1_entry(va),
            PageType::Small => self.l0_entry(va),
        }
    }

    /// Whether a page of the given type can be mapped at `va`: no valid leaf
    /// lies on the way down, and the slot of the new leaf is empty.
    pub closed spec fn slot_free(&self, va: usize, page_type: PageType) -> bool {
        let e2 = self.root_entry(va);
        let e1 = self.l1_entry(va);
        let e0 = self.l0_entry(va);
        match page_type {
            PageType::Huge => !pte_valid(e2),
            PageType::Large => !pte_valid(e2) || (!pte_leaf(e2) && !pte_valid(e1)),
            PageType::Small => !pte_valid(e2) || (!pte_leaf(e2) && (!pte_valid(e1) || (!pte_leaf(
                e1,
            ) && !pte_valid(e0)))),
        }
    }

    /// How many new tables mapping a page of the given type at `va` takes.
    pub closed spec fn tables_needed(&self, va: usize, page_type: PageType) -> nat {
        match page_type {
            PageType::Huge => 0,
            PageType::Large => if !pte_valid(self.root_entry(va)) {
                1
            } else {
                0
            },
            PageType::Small => if !pte_valid(self.root_entry(va)) {
                2
            } else if !pte_valid(self.l1_entry(va)) {
                1
            } else {
                0
            },
        }
    }

    /// `self` maps the page of the given type at `va` to the frame at `pa`
    /// with permission bits `perms`, and maps every other address as `old` does.
    #[verifier::opaque]
    pub closed spec fn maps_page_over(
        &self,
        old: &Self,
        va: usize,
        page_type: PageType,
        pa: u64,
        perms: u8,
    ) -> bool {
        forall|v: usize| #[trigger]
            self.walk(v) == if covers(va, page_type, v) {
                Some(
                    (
                        encoded_frame(pa) + v as int % page_type.bytes() as int,
                        perms,
                        page_type.bytes(),
                    ),
                )
            } else {
                old.walk(v)
            }
    }

    /// A write into an empty slot keeps the tree well formed when the new
    /// value is a leaf, or a pointer that fits the tree.
    proof fn lemma_store_keeps_wf(&self, new: &Self, t: int, i: int)
        requires
            self.wf(),
            new.same_frame(self),
            new.shape == self.shape,
            new.num_tables() == self.num_tables(),
            0 <= t < self.num_tables(),
            0 <= i < 512,
            forall|t2: int|
                #![trigger new.tables@[t2]]
                0 <= t2 < self.num_tables() ==> new.tables@[t2].num_entries() == 512,
            forall|t2: int, i2: int|
                0 <= t2 < self.num_tables() && 0 <= i2 < 512 && (t2 != t || i2 != i)
                    ==> #[trigger] new.pte(t2, i2) == self.pte(t2, i2),
            !pte_valid(self.pte(t, i)),
            pte_valid(new.pte(t, i)),
            is_table_ptr(new.pte(t, i)) ==> new.points_well(t, i),
            pte_well_formed(new.pte(t, i)),
        ensures
            new.wf(),
    {
        assert(new.entries_well_formed()) by {
            reveal(AddressSpace::entries_well_formed);
            assert forall|t2: int, i2: int|
                0 <= t2 < new.num_tables() && 0 <= i2 < 512 implies pte_well_formed(
                    #[trigger] new.pte(t2, i2),
                ) by {
                if t2 != t || i2 != i {
                    assert(new.pte(t2, i2) == self.pte(t2, i2));
                }
            }
        }
        assert forall|t2: int|
            #![trigger new.tables@[t2]]
            0 <= t2 < new.num_tables() implies new.tables@[t2].num_entries() == 512 && new.level(t2)
                <= 2 by {
            assert(self.tables@[t2].num_entries() == 512);
        }
        assert forall|t2: int, i2: int|
            0 <= t2 < new.num_tables() && 0 <= i2 < 512 && is_table_ptr(#[trigger] new.pte(t2, i2))
                implies new.points_well(t2, i2) by {
            if t2 != t || i2 != i {
                assert(self.pte(t2, i2) == new.pte(t2, i2));
                assert(self.points_well(t2, i2));
                let ch = self.child(self.pte(t2, i2));
                let j = choose|j: int| 0 <= j < 512 && pte_valid(#[trigger] self.pte(ch, j));
                if ch == t && j == i {
                } else {
                    assert(new.pte(ch, j) == self.pte(ch, j));
                }
                assert(pte_valid(new.pte(ch, j)));
            }
        }
    }

    /// A table that no pointer names is read by no walk.
    proof fn lemma_unreachable(&self, c: int)
        requires
            self.wf(),
            c != 0,
            forall|t: int, i: int|
                0 <= t < self.num_tables() && 0 <= i < 512 && is_table_ptr(#[trigger] self.pte(t, i))
                    ==> self.child(self.pte(t, i)) != c,
        ensures
            forall|v: usize, i: int| !#[trigger] self.reads(v, c, i),
    {
        assert forall|v: usize, i: int| !#[trigger] self.reads(v, c, i) by {
            lemma_vpn_bounds(v);
            let e2 = self.pte(0, vpn2_of(v) as int);
            if is_table_ptr(e2) {
                assert(self.points_well(0, vpn2_of(v) as int));
                let c1 = self.child(e2);
                let e1 = self.pte(c1, vpn1_of(v) as int);
                if is_table_ptr(e1) {
                    assert(self.points_well(c1, vpn1_of(v) as int));
                }
            }
        }
    }

    /// The walks that read the root entry of `va` are those of the addresses
    /// in the same 1 GiB region.
    proof fn lemma_reads_root(&self, va: usize)
        requires
            self.wf(),
        ensures
            forall|v: usize|
                #[trigger] self.reads(v, 0, vpn2_of(va) as int) <==> vpn2_of(v) == vpn2_of(va),
    {
        assert forall|v: usize|
            #[trigger] self.reads(v, 0, vpn2_of(va) as int) <==> vpn2_of(v) == vpn2_of(va) by {
            lemma_vpn_bounds(v);
            let e2 = self.pte(0, vpn2_of(v) as int);
            if is_table_ptr(e2) {
                assert(self.points_well(0, vpn2_of(v) as int));
                let c1 = self.child(e2);
                let e1 = self.pte(c1, vpn1_of(v) as int);
                if is_table_ptr(e1) {
                    assert(self.points_well(c1, vpn1_of(v) as int));
                }
            }
        }
    }

    /// The walks that read the level-1 entry of `va` are those of the
    /// addresses in the same 2 MiB region.
    proof fn lemma_reads_l1(&self, va: usize)
        requires
            self.wf(),
            is_table_ptr(self.root_entry(va)),
        ensures
            forall|v: usize|
                #[trigger] self.reads(v, self.l1_table(va), vpn1_of(va) as int) <==> (vpn2_of(v)
                    == vpn2_of(va) && vpn1_of(v) == vpn1_of(va)),
    {
        lemma_vpn_bounds(va);
        assert(self.points_well(0, vpn2_of(va) as int));
        assert forall|v: usize|
            #[trigger] self.reads(v, self.l1_table(va), vpn1_of(va) as int) <==> (vpn2_of(v)
                == vpn2_of(va) && vpn1_of(v) == vpn1_of(va)) by {
            lemma_vpn_bounds(v);
            let e2 = self.pte(0, vpn2_of(v) as int);
            if is_table_ptr(e2) {
                assert(self.points_well(0, vpn2_of(v) as int));
                let c1 = self.child(e2);
                let e1 = self.pte(c1, vpn1_of(v) as int);
                if is_table_ptr(e1) {
                    assert(self.points_well(c1, vpn1_of(v) as int));
                }
            }
        }
    }

    /// The walks that read the level-0 entry of `va` are those of the
    /// addresses in the same 4 KiB page.
    proof fn lemma_reads_l0(&self, va: usize)
        requires
            self.wf(),
            is_table_ptr(self.root_entry(va)),
            is_table_ptr(self.l1_entry(va)),
        ensures
            forall|v: usize|
                #[trigger] self.reads(v, self.l0_table(va), vpn0_of(va) as int) <==> covers(
                    va,
                    PageType::Small,
                    v,
                ),
    {
        lemma_vpn_bounds(va);
        assert(self.points_well(0, vpn2_of(va) as int));
        assert(self.points_well(self.l1_table(va), vpn1_of(va) as int));
        assert forall|v: usize|
            #[trigger] self.reads(v, self.l0_table(va), vpn0_of(va) as int) <==> covers(
                va,
                PageType::Small,
                v,
            ) by {
            lemma_vpn_bounds(v);
            let e2 = self.pte(0, vpn2_of(v) as int);
            if is_table_ptr(e2) {
                assert(self.points_well(0, vpn2_of(v) as int));
                let c1 = self.child(e2);
                let e1 = self.pte(c1, vpn1_of(v) as int);
                if is_table_ptr(e1) {
                    assert(self.points_well(c1, vpn1_of(v) as int));
                }
            }
        }
    }
}

impl AddressSpace {
    /// Nothing in a page whose slot is free is mapped yet.
    proof fn lemma_free_slot_unmapped(&self, va: usize, page_type: PageType)
        requires
            self.wf(),
        ensures
            self.slot_free(va, page_type) ==> forall|v: usize|
                covers(va, page_type, v) ==> (#[trigger] self.lookup(v)) is None,
    {
    }

    /// Maps a single page without alignment checks.
    ///
    /// The walk down to the slot of the new leaf is checked first, and the
    /// tables are changed only once the request is known to succeed.
    #[verifier::spinoff_prover]
    #[verifier::rlimit(50)]
    fn map_page(
        &mut self,
        page_type: PageType,
        virtual_addr: VirtualAddr,
        physical_addr: PhysicalAddr,
        permissions: PagePermissions,
    ) -> (r: Result<PageTableUpdate, MapError>)
        requires
            old(self).wf(),
            virtual_addr@ + page_type.bytes() <= usize::MAX,
        ensures
            final(self).wf(),
            final(self).same_frame(old(self)),
            final(self).keeps_valid_entries(old(self)),
            match r {
                Ok(update) => {
                    &&& old(self).slot_free(virtual_addr@, page_type)
                    &&& leaf_permissions_allowed(permissions@)
                    &&& old(self).num_tables() + old(self).tables_needed(virtual_addr@, page_type)
                        <= old(self).spec_capacity()
                    &&& final(self).num_tables() == old(self).num_tables() + old(self).tables_needed(virtual_addr@, page_type)
                    &&& update == if old(self).tables_needed(virtual_addr@, page_type) == 0 {
                        PageTableUpdate::One(virtual_addr)
                    } else {
                        PageTableUpdate::Many
                    }
                    &&& final(self).maps_page_over(
                        old(self),
                        virtual_addr@,
                        page_type,
                        physical_addr@,
                        permissions@,
                    )
                    &&& final(self).page_entry(virtual_addr@, page_type) == leaf_bits(
                        physical_addr@ >> 12u64,
                        permissions@,
                    )
                    &&& forall|v: usize|
                        covers(virtual_addr@, page_type, v) ==> (#[trigger] old(self).lookup(
                            v,
                        )) is None
                },
                Err(e) => {
                    &&& *final(self) == *old(self)
                    &&& match e {
                        MapError::Conflict(range) => {
                            &&& !old(self).slot_free(virtual_addr@, page_type)
                            &&& range.start == virtual_addr
                            &&& range.end@ == virtual_addr@ + page_type.bytes()
                        },
                        MapError::InvalidPermissions(ip) => {
                            &&& old(self).slot_free(virtual_addr@, page_type)
                            &&& !leaf_permissions_allowed(permissions@)
                            &&& ip.spec_permissions() == permissions
                        },
                        MapError::TableMemoryExhausted => {
                            &&& old(self).slot_free(virtual_addr@, page_type)
                            &&& leaf_permissions_allowed(permissions@)
                            &&& old(self).num_tables() + old(self).tables_needed(
                                virtual_addr@,
                                page_type,
                            ) > old(self).spec_capacity()
                        },
                        _ => false,
                    }
                },
            },
    {
        let ghost va = virtual_addr@;
        let ghost pa = physical_addr@;
        let ghost perms = permissions@;
        proof {
            lemma_vpn_bounds(va);
            lemma_zero_invalid();
            old(self).lemma_free_slot_unmapped(va, page_type);
        }
        reveal(AddressSpace::maps_page_over);
        reveal(AddressSpace::keeps_valid_entries);
        let i2 = virtual_addr.vpn2();
        let i1 = virtual_addr.vpn1();
        let i0 = virtual_addr.vpn0();
        let e2 = self.tables[0].entry(i2).load();
        match page_type {
            PageType::Huge => {
                if e2.is_valid() {
                    return Err(MapError::Conflict(virtual_addr.page(page_type)));
                }
                let leaf = match PteValue::leaf(physical_addr, permissions) {
                    Ok(p) => p,
                    Err(e) => return Err(MapError::InvalidPermissions(e)),
                };
                self.set_pte(0, i2, leaf);
                proof {
                    old(self).lemma_store_keeps_wf(self, 0, i2 as int);
                    old(self).lemma_lookup_frame(self, 0, i2 as int);
                    old(self).lemma_reads_root(va);
                    assert forall|v: usize| #[trigger]
                        self.walk(v) == if covers(va, page_type, v) {
                            Some((encoded_frame(pa) + v as int % page_type.bytes() as int, perms, page_type.bytes()))
                        } else {
                            old(self).walk(v)
                        } by {
                        lemma_vpn_bounds(v);
                        if covers(va, page_type, v) {
                            assert(old(self).reads(v, 0, i2 as int));
                        }
                    }
                }
                proof {
                    assert(old(self).slot_free(va, page_type));
                    assert(self.maps_page_over(old(self), va, page_type, pa, perms));
                }
                Ok(PageTableUpdate::One(virtual_addr))
            },
            PageType::Large => {
                if e2.is_valid() {
                    if e2.is_leaf() {
                        return Err(MapError::Conflict(virtual_addr.page(page_type)));
                    }
                    let c1 = self.child_index(0, i2, e2);
                    let e1 = self.tables[c1].entry(i1).load();
                    if e1.is_valid() {
                        return Err(MapError::Conflict(virtual_addr.page(page_type)));
                    }
                    let leaf = match PteValue::leaf(physical_addr, permissions) {
                        Ok(p) => p,
                        Err(e) => return Err(MapError::InvalidPermissions(e)),
                    };
                    self.set_pte(c1, i1, leaf);
                    proof {
                        old(self).lemma_store_keeps_wf(self, c1 as int, i1 as int);
                        old(self).lemma_lookup_frame(self, c1 as int, i1 as int);
                        old(self).lemma_reads_l1(va);
                    }
                    proof {
                        assert(old(self).slot_free(va, page_type));
                        assert(self.maps_page_over(old(self), va, page_type, pa, perms));
                    }
                    Ok(PageTableUpdate::One(virtual_addr))
                } else {
                    let leaf = match PteValue::leaf(physical_addr, permissions) {
                        Ok(p) => p,
                        Err(e) => return Err(MapError::InvalidPermissions(e)),
                    };
                    if self.tables.len() as u64 >= self.capacity {
                        return Err(MapError::TableMemoryExhausted);
                    }
                    let ghost s0 = *self;
                    let c1 = self.push_table(Ghost(1), Ghost((0, i2 as int)));
                    let ghost s1 = *self;
                    self.set_pte(c1, i1, leaf);
                    let ghost s2 = *self;
                    proof {
                        s1.lemma_store_keeps_wf(&s2, c1 as int, i1 as int);
                        s1.lemma_unreachable(c1 as int);
                        s1.lemma_lookup_frame(&s2, c1 as int, i1 as int);
                    }
                    let frame = self.table_address(c1);
                    let ptr = PteValue::non_leaf(frame);
                    self.set_pte(0, i2, ptr);
                    proof {
                        assert(self.pte(c1 as int, i1 as int) == s2.pte(c1 as int, i1 as int));
                        s2.lemma_store_keeps_wf(self, 0, i2 as int);
                        s2.lemma_lookup_frame(self, 0, i2 as int);
                        s2.lemma_reads_root(va);
                        lemma_zero_invalid();
                        assert forall|v: usize| #[trigger]
                            self.walk(v) == if covers(va, page_type, v) {
                                Some((encoded_frame(pa) + v as int % page_type.bytes() as int, perms, page_type.bytes()))
                            } else {
                                old(self).walk(v)
                            } by {
                            assert(s1.walk(v) == s0.walk(v));
                            assert(s2.walk(v) == s1.walk(v));
                            lemma_vpn_bounds(v);
                            if vpn2_of(v) == vpn2_of(va) {
                                assert(s2.reads(v, 0, i2 as int));
                                if vpn1_of(v) != vpn1_of(va) {
                                    assert(self.pte(c1 as int, vpn1_of(v) as int) == s1.pte(
                                        c1 as int,
                                        vpn1_of(v) as int,
                                    ));
                                }
                            }
                        }
                    }
                    proof {
                        assert(old(self).slot_free(va, page_type));
                        assert(self.maps_page_over(old(self), va, page_type, pa, perms));
                    }
                    Ok(PageTableUpdate::Many)
                }
            },
            PageType::Small => {
                if e2.is_valid() {
                    if e2.is_leaf() {
                        return Err(MapError::Conflict(virtual_addr.page(page_type)));
                    }
                    let c1 = self.child_index(0, i2, e2);
                    let e1 = self.tables[c1].entry(i1).load();
                    if e1.is_valid() {
                        if e1.is_leaf() {
                            return Err(MapError::Conflict(virtual_addr.page(page_type)));
                        }
                        let c0 = self.child_index(c1, i1, e1);
                        let e0 = self.tables[c0].entry(i0).load();
                        if e0.is_valid() {
                            return Err(MapError::Conflict(virtual_addr.page(page_type)));
                        }
                        let leaf = match PteValue::leaf(physical_addr, permissions) {
                            Ok(p) => p,
                            Err(e) => return Err(MapError::InvalidPermissions(e)),
                        };
                        self.set_pte(c0, i0, leaf);
                        proof {
                            old(self).lemma_store_keeps_wf(self, c0 as int, i0 as int);
                            old(self).lemma_lookup_frame(self, c0 as int, i0 as int);
                            old(self).lemma_reads_l0(va);
                            assert forall|v: usize| #[trigger]
                                self.walk(v) == if covers(va, page_type, v) {
                                    Some(
                                        (
                                            encoded_frame(pa) + v as int % page_type.bytes() as int,
                                            perms,
                                            page_type.bytes(),
                                        ),
                                    )
                                } else {
                                    old(self).walk(v)
                                } by {
                                lemma_vpn_bounds(v);
                                if covers(va, page_type, v) {
                                    assert(old(self).reads(v, c0 as int, i0 as int));
                                }
                            }
                        }
                        proof {
                            assert(old(self).slot_free(va, page_type));
                            assert(self.maps_page_over(old(self), va, page_type, pa, perms));
                        }
                        Ok(PageTableUpdate::One(virtual_addr))
                    } else {
                        let leaf = match PteValue::leaf(physical_addr, permissions) {
                            Ok(p) => p,
                            Err(e) => return Err(MapError::InvalidPermissions(e)),
                        };
                        if self.tables.len() as u64 >= self.capacity {
                            return Err(MapError::TableMemoryExhausted);
                        }
                        let ghost s0 = *self;
                        proof {
                            assert(s0.points_well(0, i2 as int));
                        }
                        let c0 = self.push_table(Ghost(0), Ghost((c1 as int, i1 as int)));
                        let ghost s1 = *self;
                        self.set_pte(c0, i0, leaf);
                        let ghost s2 = *self;
                        proof {
                            s1.lemma_store_keeps_wf(&s2, c0 as int, i0 as int);
                            s1.lemma_unreachable(c0 as int);
                            s1.lemma_lookup_frame(&s2, c0 as int, i0 as int);
                            assert(s2.pte(0, i2 as int) == s0.pte(0, i2 as int));
                            assert(s2.level(c1 as int) == 1);
                        }
                        let frame = self.table_address(c0);
                        let ptr = PteValue::non_leaf(frame);
                        self.set_pte(c1, i1, ptr);
                        proof {
                            assert(self.pte(c0 as int, i0 as int) == s2.pte(c0 as int, i0 as int));
                            s2.lemma_store_keeps_wf(self, c1 as int, i1 as int);
                            s2.lemma_lookup_frame(self, c1 as int, i1 as int);
                            s2.lemma_reads_l1(va);
                            assert forall|v: usize| #[trigger]
                                self.walk(v) == if covers(va, page_type, v) {
                                    Some(
                                        (
                                            encoded_frame(pa) + v as int % page_type.bytes() as int,
                                            perms,
                                            page_type.bytes(),
                                        ),
                                    )
                                } else {
                                    old(self).walk(v)
                                } by {
                                assert(s1.walk(v) == s0.walk(v));
                                assert(s2.walk(v) == s1.walk(v));
                                lemma_vpn_bounds(v);
                                if vpn2_of(v) == vpn2_of(va) && vpn1_of(v) == vpn1_of(va) {
                                    assert(s2.reads(v, c1 as int, i1 as int));
                                    assert(self.pte(0, i2 as int) == s2.pte(0, i2 as int));
                                    if vpn0_of(v) != vpn0_of(va) {
                                        assert(self.pte(c0 as int, vpn0_of(v) as int) == s1.pte(
                                            c0 as int,
                                            vpn0_of(v) as int,
                                        ));
                                    }
                                }
                            }
                        }
                        proof {
                            assert(old(self).slot_free(va, page_type));
                            assert(self.maps_page_over(old(self), va, page_type, pa, perms));
                        }
                        Ok(PageTableUpdate::Many)
                    }
                } else {
                    let leaf = match PteValue::leaf(physical_addr, permissions) {
                        Ok(p) => p,
                        Err(e) => return Err(MapError::InvalidPermissions(e)),
                    };
                    if self.tables.len() as u64 + 2 > self.capacity {
                        return Err(MapError::TableMemoryExhausted);
                    }
                    let ghost s0 = *self;
                    let c1 = self.push_table(Ghost(1), Ghost((0, i2 as int)));
                    let ghost s1 = *self;
                    let c0 = self.push_table(Ghost(0), Ghost((c1 as int, i1 as int)));
                    let ghost s2 = *self;
                    proof {
                        assert forall|t: int, i: int|
                            0 <= t < s2.num_tables() && 0 <= i < 512 && is_table_ptr(
                                #[trigger] s2.pte(t, i),
                            ) implies s2.child(s2.pte(t, i)) != c1 by {
                            if t < c0 {
                                assert(s2.pte(t, i) == s1.pte(t, i));
                            }
                        }
                    }
                    self.set_pte(c0, i0, leaf);
                    let ghost s3 = *self;
                    proof {
                        s2.lemma_store_keeps_wf(&s3, c0 as int, i0 as int);
                        s2.lemma_unreachable(c0 as int);
                        s2.lemma_lookup_frame(&s3, c0 as int, i0 as int);
                        assert forall|t: int, i: int|
                            0 <= t < s3.num_tables() && 0 <= i < 512 && is_table_ptr(
                                #[trigger] s3.pte(t, i),
                            ) implies s3.child(s3.pte(t, i)) != c1 by {
                            if t != c0 || i != i0 {
                                assert(s3.pte(t, i) == s2.pte(t, i));
                            }
                        }
                    }
                    let frame0 = self.table_address(c0);
                    let ptr0 = PteValue::non_leaf(frame0);
                    self.set_pte(c1, i1, ptr0);
                    let ghost s4 = *self;
                    proof {
                        assert(s4.pte(c0 as int, i0 as int) == s3.pte(c0 as int, i0 as int));
                        s3.lemma_store_keeps_wf(&s4, c1 as int, i1 as int);
                        s3.lemma_unreachable(c1 as int);
                        s3.lemma_lookup_frame(&s4, c1 as int, i1 as int);
                    }
                    let frame1 = self.table_address(c1);
                    let ptr1 = PteValue::non_leaf(frame1);
                    self.set_pte(0, i2, ptr1);
                    proof {
                        assert(self.pte(c1 as int, i1 as int) == s4.pte(c1 as int, i1 as int));
                        s4.lemma_store_keeps_wf(self, 0, i2 as int);
                        s4.lemma_lookup_frame(self, 0, i2 as int);
                        s4.lemma_reads_root(va);
                        assert forall|v: usize| #[trigger]
                            self.walk(v) == if covers(va, page_type, v) {
                                Some((encoded_frame(pa) + v as int % page_type.bytes() as int, perms, page_type.bytes()))
                            } else {
                                old(self).walk(v)
                            } by {
                            assert(s1.walk(v) == s0.walk(v));
                            assert(s2.walk(v) == s1.walk(v));
                            assert(s3.walk(v) == s2.walk(v));
                            assert(s4.walk(v) == s3.walk(v));
                            lemma_vpn_bounds(v);
                            if vpn2_of(v) == vpn2_of(va) {
                                assert(s4.reads(v, 0, i2 as int));
                                if vpn1_of(v) != vpn1_of(va) {
                                    assert(self.pte(c1 as int, vpn1_of(v) as int) == s1.pte(
                                        c1 as int,
                                        vpn1_of(v) as int,
                                    ));
                                } else {
                                    assert(self.pte(c1 as int, i1 as int) == s4.pte(c1 as int, i1 as int));
                                    if vpn0_of(v) != vpn0_of(va) {
                                        assert(self.pte(c0 as int, vpn0_of(v) as int) == s2.pte(
                                            c0 as int,
                                            vpn0_of(v) as int,
                                        ));
                                    }
                                }
                            }
                        }
                    }
                    proof {
                        assert(old(self).slot_free(va, page_type));
                        assert(self.maps_page_over(old(self), va, page_type, pa, perms));
                    }
                    Ok(PageTableUpdate::Many)
                }
            },
        }
    }
}

impl AddressSpace {
    /// A walk only sees the 39 low bits of an address.
    pub proof fn lemma_lookup_sv39(&self, u: usize, v: usize)
        requires
            sv39_bits(u) == sv39_bits(v),
        ensures
            self.lookup(u) == self.lookup(v),
    {
        lemma_same_sv39(u, v);
    }

    /// In a well-formed space, a page none of whose addresses is mapped has
    /// a free slot: no table hangs below it without mapping something.
    proof fn lemma_unmapped_page_free(&self, va: usize, page_type: PageType)
        requires
            self.wf(),
            forall|v: usize| covers(va, page_type, v) ==> (#[trigger] self.lookup(v)) is None,
        ensures
            self.slot_free(va, page_type),
    {
        lemma_vpn_bounds(va);
        assert(covers(va, page_type, va));
        assert(self.lookup(va) is None);
        let i2 = vpn2_of(va) as int;
        let e2 = self.pte(0, i2);
        if is_table_ptr(e2) {
            assert(self.points_well(0, i2));
            let c1 = self.child(e2);
            if page_type == PageType::Huge {
                let j = choose|j: int| 0 <= j < 512 && pte_valid(#[trigger] self.pte(c1, j));
                let e1 = self.pte(c1, j);
                if pte_leaf(e1) {
                    let v = with_low_indices(va, j as usize, 0);
                    lemma_with_indices(va, j as usize, 0);
                    assert(covers(va, page_type, v));
                    assert(self.lookup(v) is Some);
                } else {
                    assert(self.points_well(c1, j));
                    let c0 = self.child(e1);
                    let k = choose|k: int| 0 <= k < 512 && pte_valid(#[trigger] self.pte(c0, k));
                    let e0 = self.pte(c0, k);
                    if !pte_leaf(e0) {
                        assert(self.points_well(c0, k));
                    }
                    let v = with_low_indices(va, j as usize, k as usize);
                    lemma_with_indices(va, j as usize, k as usize);
                    assert(covers(va, page_type, v));
                    assert(self.lookup(v) is Some);
                }
            } else {
                let i1 = vpn1_of(va) as int;
                let e1 = self.pte(c1, i1);
                if is_table_ptr(e1) {
                    assert(self.points_well(c1, i1));
                    let c0 = self.child(e1);
                    if page_type == PageType::Large {
                        let k = choose|k: int|
                            0 <= k < 512 && pte_valid(#[trigger] self.pte(c0, k));
                        let e0 = self.pte(c0, k);
                        if !pte_leaf(e0) {
                            assert(self.points_well(c0, k));
                        }
                        let v = with_vpn0(va, k as usize);
                        lemma_with_indices(va, 0, k as usize);
                        assert(covers(va, page_type, v));
                        assert(self.lookup(v) is Some);
                    } else {
                        let e0 = self.pte(c0, vpn0_of(va) as int);
                        if is_table_ptr(e0) {
                            assert(self.points_well(c0, vpn0_of(va) as int));
                        }
                    }
                }
            }
        }
    }
}

/// The physical address that `v` is meant to reach when the virtual range
/// starting at `vs` maps to the physical range starting at `ps`: the same
/// distance from the start, cut to the 56 bits that Sv39 can name.
pub open spec fn target(vs: usize, ps: u64, v: usize) -> int {
    (ps + (v - vs)) % (PHYSICAL_LIMIT as int)
}

/// The error that `map_range` reports before it touches any table, if any:
/// an unaligned bound, or ranges of different lengths.
pub open spec fn range_error(
    virtual_range: AddressRange<VirtualAddr>,
    physical_range: AddressRange<PhysicalAddr>,
) -> Option<MapError> {
    if virtual_range.start@ % 4096 != 0 {
        Some(MapError::VirtualUnaligned(virtual_range.start))
    } else if virtual_range.end@ % 4096 != 0 {
        Some(MapError::VirtualUnaligned(virtual_range.end))
    } else if physical_range.start@ % 4096 != 0 {
        Some(MapError::PhysicalUnaligned(physical_range.start))
    } else if physical_range.end@ % 4096 != 0 {
        Some(MapError::PhysicalUnaligned(physical_range.end))
    } else if span(virtual_range.start@ as int, virtual_range.end@ as int) != span(
        physical_range.start@ as int,
        physical_range.end@ as int,
    ) {
        Some(MapError::MismatchedLength(virtual_range, physical_range))
    } else {
        None
    }
}

/// The size of the page that `map_range` places at virtual address `c`,
/// mapped to physical address `p`, with `rem` bytes of the range left: the
/// largest page that both addresses are aligned to and that fits.
pub open spec fn page_size_for(c: int, p: int, rem: int) -> nat {
    if c % 0x4000_0000 == 0 && p % 0x4000_0000 == 0 && rem >= 0x4000_0000 {
        0x4000_0000
    } else if c % 0x20_0000 == 0 && p % 0x20_0000 == 0 && rem >= 0x20_0000 {
        0x20_0000
    } else {
        4096
    }
}

/// The type of the page that `map_range` places at virtual address `cur`,
/// mapped to physical address `pcur`, with `rem` bytes of the range left
/// (`page_size_for`).
fn page_type_for(cur: VirtualAddr, pcur: PhysicalAddr, rem: usize) -> (r: PageType)
    ensures
        r.bytes() == page_size_for(cur@ as int, pcur@ as int, rem as int),
        page_type_of(r.bytes()) == r,
{
    if cur.is_aligned(PageType::Huge) && pcur.is_aligned(PageType::Huge) && rem
        >= PageType::Huge.size() {
        PageType::Huge
    } else if cur.is_aligned(PageType::Large) && pcur.is_aligned(PageType::Large) && rem
        >= PageType::Large.size() {
        PageType::Large
    } else {
        PageType::Small
    }
}

/// The type of the page of `size` bytes.
pub open spec fn page_type_of(size: nat) -> PageType {
    if size == 0x4000_0000 {
        PageType::Huge
    } else if size == 0x20_0000 {
        PageType::Large
    } else {
        PageType::Small
    }
}

/// The pages, as (start, size) and in order, in which `map_range` maps `rem`
/// bytes starting at virtual address `c` to physical addresses starting at
/// `p`: each the largest page that fits at its place.
pub open spec fn range_pages(c: int, p: int, rem: nat) -> Seq<(int, nat)>
    decreases rem,
{
    if rem < 4096 {
        Seq::empty()
    } else {
        let size = page_size_for(c, p, rem as int);
        seq![(c, size)] + range_pages(c + size, p + size, (rem - size) as nat)
    }
}

/// Whether `parts`, in order, cut the `rem` bytes from virtual address `c`
/// (mapped to physical address `p`) into pages that a leaf can map: each
/// part starts where the one before ends, has one of the three page sizes,
/// and both of its addresses are aligned to its size.
pub open spec fn is_page_cover(parts: Seq<(int, nat)>, c: int, p: int, rem: int) -> bool
    decreases parts.len(),
{
    if parts.len() == 0 {
        rem == 0
    } else {
        let size = parts[0].1;
        &&& parts[0].0 == c
        &&& (size == 4096 || size == 0x20_0000 || size == 0x4000_0000)
        &&& c % (size as int) == 0
        &&& p % (size as int) == 0
        &&& size <= rem
        &&& is_page_cover(parts.drop_first(), c + size, p + size, rem - size)
    }
}

/// The pages that `map_range` chooses cut the range into pages that a leaf
/// can map.
#[verifier::spinoff_prover]
pub proof fn lemma_range_pages_cover(c: int, p: int, rem: nat)
    requires
        c % 4096 == 0,
        p % 4096 == 0,
        rem % 4096 == 0,
    ensures
        is_page_cover(range_pages(c, p, rem), c, p, rem as int),
    decreases rem,
{
    if rem >= 4096 {
        let size = page_size_for(c, p, rem as int);
        lemma_range_pages_cover(c + size, p + size, (rem - size) as nat);
        let pages = range_pages(c, p, rem);
        assert(pages.drop_first() =~= range_pages(c + size, p + size, (rem - size) as nat));
    }
}

/// A multiple of `small * k` is a multiple of `small`.
proof fn lemma_multiple_of_factor(x: int, small: int, k: int)
    requires
        small > 0,
        k > 0,
        x % (small * k) == 0,
    ensures
        x % small == 0,
{
    assert(small * k > 0) by (nonlinear_arith)
        requires
            small > 0,
            k > 0,
    ;
    vstd::arithmetic::div_mod::lemma_fundamental_div_mod(x, small * k);
    let q = x / (small * k);
    assert(x == (q * k) * small) by (nonlinear_arith)
        requires
            x == (small * k) * q + x % (small * k),
            x % (small * k) == 0,
    ;
    vstd::arithmetic::div_mod::lemma_mod_multiples_basic(q * k, small);
}

/// Two different multiples of `m` lie `m` apart at least.
proof fn lemma_multiples_apart(x: int, y: int, m: int)
    requires
        m > 0,
        x % m == 0,
        y % m == 0,
        x < y,
    ensures
        x + m <= y,
{
    vstd::arithmetic::div_mod::lemma_fundamental_div_mod(x, m);
    vstd::arithmetic::div_mod::lemma_fundamental_div_mod(y, m);
    let a = x / m;
    let b = y / m;
    assert(x + m <= y) by (nonlinear_arith)
        requires
            x == m * a,
            y == m * b,
            x < y,
            m > 0,
    ;
}

/// Two addresses aligned to a page size lie a whole page apart at least,
/// and an address that is not aligned to a size is aligned to no larger one.
proof fn lemma_aligned_steps(x: int, y: int, big: int, size: int)
    requires
        big == 0x20_0000 || big == 0x4000_0000,
        size == 4096 || size == 0x20_0000 || size == 0x4000_0000,
        x % size == 0,
        y % big == 0,
        x < y,
        y - x < big,
    ensures
        size < big,
        y % size == 0,
        x + size <= y,
{
    if size >= big {
        if size != big {
            lemma_multiple_of_factor(x, 0x20_0000, 512);
        }
        lemma_multiples_apart(x, y, big);
    }
    if size != big {
        if big == 0x4000_0000 && size == 0x20_0000 {
            lemma_multiple_of_factor(y, 0x20_0000, 512);
        } else if big == 0x4000_0000 {
            lemma_multiple_of_factor(y, 4096, 0x4_0000);
        } else {
            lemma_multiple_of_factor(y, 4096, 512);
        }
    }
    lemma_multiples_apart(x, y, size);
}

/// From an address that is not aligned to `big`, the chosen pages reach the
/// next multiple `y` of `big` exactly, after one page at least.
#[verifier::spinoff_prover]
proof fn lemma_pages_reach_boundary(x: int, px: int, rem: nat, y: int, big: int)
    requires
        x % 4096 == 0,
        px % 4096 == 0,
        big == 0x20_0000 || big == 0x4000_0000,
        y % big == 0,
        x < y,
        y - x < big,
        y - x <= rem,
    ensures
        range_pages(x, px, rem).len() >= 1 + range_pages(
            y,
            px + (y - x),
            (rem - (y - x)) as nat,
        ).len(),
    decreases y - x,
{
    let size = page_size_for(x, px, rem as int);
    lemma_aligned_steps(x, y, big, size as int);
    if x + size < y {
        lemma_pages_reach_boundary(x + size, px + size, (rem - size) as nat, y, big);
    }
}

/// Placing any page that fits at the start costs the chosen pages at most
/// that one page more than what follows it.
#[verifier::spinoff_prover]
proof fn lemma_first_page_best(c: int, p: int, rem: nat, t: nat)
    requires
        c % 4096 == 0,
        p % 4096 == 0,
        t == 4096 || t == 0x20_0000 || t == 0x4000_0000,
        c % (t as int) == 0,
        p % (t as int) == 0,
        t <= rem,
    ensures
        range_pages(c, p, rem).len() <= 1 + range_pages(c + t, p + t, (rem - t) as nat).len(),
{
    let size = page_size_for(c, p, rem as int);
    assert(t <= size) by {
        if t == 0x4000_0000 {
            assert(size == 0x4000_0000);
        } else if t == 0x20_0000 {
            assert(size >= 0x20_0000);
        }
    }
    assert(range_pages(c, p, rem).len() == 1 + range_pages(
        c + size,
        p + size,
        (rem - size) as nat,
    ).len());
    if t < size {
        assert((c + t) % 4096 == 0 && (p + t) % 4096 == 0) by {
            if t == 0x20_0000 {
                assert(c % 4096 == 0);
            }
        }
        assert((c + size) % (size as int) == 0);
        lemma_pages_reach_boundary(c + t, p + t, (rem - t) as nat, c + size, size as int);
    }
}

/// The pages that `map_range` chooses are as few as possible: no other way
/// of cutting the range into pages that a leaf can map uses fewer.
#[verifier::spinoff_prover]
pub proof fn lemma_range_pages_fewest(parts: Seq<(int, nat)>, c: int, p: int, rem: int)
    requires
        c % 4096 == 0,
        p % 4096 == 0,
        is_page_cover(parts, c, p, rem),
    ensures
        rem >= 0,
        range_pages(c, p, rem as nat).len() <= parts.len(),
    decreases parts.len(),
{
    if parts.len() > 0 {
        let t = parts[0].1;
        lemma_range_pages_fewest(parts.drop_first(), c + t, p + t, rem - t);
        lemma_first_page_best(c, p, rem as nat, t);
    }
}

/// Whether nothing in the region of the given page size around `va` is
/// mapped in `space`.
#[verifier::opaque]
pub open spec fn region_unmapped(space: AddressSpace, va: usize, level: PageType) -> bool {
    forall|v: usize| covers(va, level, v) ==> (#[trigger] space.lookup(v)) is None
}

/// How many new tables a page of `size` bytes at `va` takes in `space`: a
/// 1 GiB page none; a 2 MiB page one where its 1 GiB region is empty; a
/// 4 KiB page two where its 1 GiB region is empty, one where only its 2 MiB
/// region is.
pub open spec fn tables_wanted(space: AddressSpace, va: usize, size: nat) -> nat {
    match page_type_of(size) {
        PageType::Huge => 0,
        PageType::Large => if region_unmapped(space, va, PageType::Huge) {
            1
        } else {
            0
        },
        PageType::Small => if region_unmapped(space, va, PageType::Huge) {
            2
        } else if region_unmapped(space, va, PageType::Large) {
            1
        } else {
            0
        },
    }
}

/// Whether the region of the given page size around `va` is empty once the
/// addresses `[vs, c)` are mapped in `old`.
#[verifier::opaque]
pub open spec fn region_unmapped_after(
    old: AddressSpace,
    vs: usize,
    c: usize,
    va: usize,
    level: PageType,
) -> bool {
    forall|v: usize|
        covers(va, level, v) ==> !aliases(vs, c, v) && (#[trigger] old.lookup(v)) is None
}

/// How many new tables the page of `size` bytes at `c` takes once the
/// addresses `[vs, c)` are mapped in `old`.
pub open spec fn tables_for_page(old: AddressSpace, vs: usize, c: usize, size: nat) -> nat {
    match page_type_of(size) {
        PageType::Huge => 0,
        PageType::Large => if region_unmapped_after(old, vs, c, c, PageType::Huge) {
            1
        } else {
            0
        },
        PageType::Small => if region_unmapped_after(old, vs, c, c, PageType::Huge) {
            2
        } else if region_unmapped_after(old, vs, c, c, PageType::Large) {
            1
        } else {
            0
        },
    }
}

/// How many new tables the first `i` of `pages` take, mapped one after the
/// other from the start `vs` of their range into `old`.
pub open spec fn tables_added(old: AddressSpace, vs: usize, pages: Seq<(int, nat)>, i: int) -> nat
    decreases i,
{
    if i <= 0 {
        0
    } else {
        tables_added(old, vs, pages, i - 1) + tables_for_page(
            old,
            vs,
            pages[i - 1].0 as usize,
            pages[i - 1].1,
        )
    }
}

/// With `[vs, c)` mapped over `old`, a region is empty exactly when it
/// was empty in `old` and no address of `[vs, c)` reaches it.
pub proof fn lemma_region_after_prefix(
    old: AddressSpace,
    new: AddressSpace,
    vs: usize,
    c: usize,
    ps: u64,
    perms: u8,
    va: usize,
    level: PageType,
)
    requires
        mapped_prefix(old, new, vs, c, ps, perms),
    ensures
        region_unmapped(new, va, level) == region_unmapped_after(old, vs, c, va, level),
{
    reveal(region_unmapped);
    reveal(region_unmapped_after);
    if region_unmapped(new, va, level) {
        assert forall|v: usize| covers(va, level, v) implies !aliases(vs, c, v) && (
        #[trigger] old.lookup(v)) is None by {
            assert(new.lookup(v) is None);
            if aliases(vs, c, v) {
                let u = choose|u: usize| vs <= u < c && #[trigger] sv39_bits(u) == sv39_bits(v);
                new.lemma_lookup_sv39(u, v);
            }
        }
    }
    if region_unmapped_after(old, vs, c, va, level) {
        assert forall|v: usize| covers(va, level, v) implies (#[trigger] new.lookup(v)) is None by {
            assert(!aliases(vs, c, v) && old.lookup(v) is None);
        }
    }
}

/// `space` holds, besides the tables of `old`, those that the first `i` of
/// `pages` took, and keeps every entry valid in `old`.
#[verifier::opaque]
pub closed spec fn tables_tracked(
    space: AddressSpace,
    old: AddressSpace,
    vs: usize,
    pages: Seq<(int, nat)>,
    i: int,
) -> bool {
    &&& space.num_tables() == old.num_tables() + tables_added(old, vs, pages, i)
    &&& space.keeps_valid_entries(&old)
}

/// The tables that page `i` takes, mapped after the pages before it, are
/// those that `tables_for_page` counts.
proof fn lemma_tables_step(
    old: AddressSpace,
    before: AddressSpace,
    after: AddressSpace,
    vs: usize,
    ps: u64,
    perms: u8,
    pages: Seq<(int, nat)>,
    i: int,
    c: usize,
    page_type: PageType,
)
    requires
        before.wf(),
        before.mapped_so_far(&old, vs, c, ps, perms),
        before.slot_free(c, page_type),
        0 <= i < pages.len(),
        pages[i] == (c as int, page_type.bytes()),
        tables_tracked(before, old, vs, pages, i),
        after.num_tables() == before.num_tables() + before.tables_needed(c, page_type),
        after.keeps_valid_entries(&before),
    ensures
        before.tables_needed(c, page_type) == tables_wanted(before, c, page_type.bytes()),
        tables_tracked(after, old, vs, pages, i + 1),
{
    reveal(tables_tracked);
    after.lemma_keeps_valid_entries_trans(&before, &old);
    lemma_tables_needed_by_lookup(before, c, page_type);
    assert(mapped_prefix(old, before, vs, c, ps, perms)) by {
        reveal(AddressSpace::mapped_so_far);
    }
    lemma_region_after_prefix(old, before, vs, c, ps, perms, c, PageType::Huge);
    lemma_region_after_prefix(old, before, vs, c, ps, perms, c, PageType::Large);
    assert(tables_added(old, vs, pages, i + 1) == tables_added(old, vs, pages, i) + tables_for_page(
        old,
        vs,
        c,
        page_type.bytes(),
    ));
}

/// The number of tables that a page with a free slot needs is the one that
/// the translations of the space give.
proof fn lemma_tables_needed_by_lookup(space: AddressSpace, va: usize, page_type: PageType)
    requires
        space.wf(),
        space.slot_free(va, page_type),
    ensures
        space.tables_needed(va, page_type) == tables_wanted(space, va, page_type.bytes()),
{
    reveal(region_unmapped);
    assert(page_type_of(page_type.bytes()) == page_type);
    if region_unmapped(space, va, PageType::Huge) {
        space.lemma_unmapped_page_free(va, PageType::Huge);
    }
    space.lemma_free_slot_unmapped(va, PageType::Huge);
    if region_unmapped(space, va, PageType::Large) {
        space.lemma_unmapped_page_free(va, PageType::Large);
    }
    space.lemma_free_slot_unmapped(va, PageType::Large);
}

/// Whether `e` is the error with which mapping the page at `c` of `size`
/// bytes into `space` is refused: a conflict, where an address of the page
/// is mapped already; otherwise permissions that no leaf may carry;
/// otherwise too few frames left for the tables that the page needs.
pub open spec fn page_refusal(
    space: AddressSpace,
    c: usize,
    size: nat,
    permissions: PagePermissions,
    e: MapError,
) -> bool {
    if exists|u: usize| c <= u < c + size && (#[trigger] space.lookup(u)) is Some {
        e matches MapError::Conflict(page) && page.start@ == c && page.end@ == c + size
    } else if !leaf_permissions_allowed(permissions@) {
        e matches MapError::InvalidPermissions(ip) && ip.spec_permissions() == permissions
    } else {
        &&& e is TableMemoryExhausted
        &&& space.spec_capacity() < space.num_tables() + tables_wanted(space, c, size)
    }
}

/// `new` maps the range's addresses below `c` where they should go, changes
/// nothing outside the aliases of those addresses, and `old` mapped none of
/// them.
pub open spec fn mapped_prefix(
    old: AddressSpace,
    new: AddressSpace,
    vs: usize,
    c: usize,
    ps: u64,
    perms: u8,
) -> bool {
    &&& forall|v: usize| vs <= v < c ==> #[trigger] new.lookup(v) == Some((target(vs, ps, v), perms))
    &&& forall|v: usize| !aliases(vs, c, v) ==> #[trigger] new.lookup(v) == old.lookup(v)
    &&& forall|v: usize| aliases(vs, c, v) ==> (#[trigger] old.lookup(v)) is None
}

/// What `map_range` promises for the given request and result, with `old`
/// the address space before the call and `new` the one after it.
///
/// - An unaligned bound or ranges of different lengths are refused before
///   anything changes (`range_error`).
/// - An empty range maps nothing.
/// - Otherwise the pages of `range_pages` are mapped one after the other.
///   On success every address of the range reaches the address at the same
///   distance from the physical start, each page has its size, nothing
///   outside the range's aliases changes, and the change is reported as
///   `One` of the range's start exactly when a single page was mapped
///   without a new table. Each page takes the new tables that
///   `tables_for_page` counts.
/// - On failure the pages before the failing one stay mapped and the error
///   is the one that this page meets (`page_refusal`); when the first page
///   fails, nothing changes.
/// - A range that fits (`range_fits`) is mapped in full.
/// - No translation that existed before changes, whatever the result.
#[verifier::opaque]
pub open spec fn map_range_result(
    old: AddressSpace,
    new: AddressSpace,
    virtual_range: AddressRange<VirtualAddr>,
    physical_range: AddressRange<PhysicalAddr>,
    permissions: PagePermissions,
    r: Result<PageTableUpdate, MapError>,
) -> bool {
    let vs = virtual_range.start@;
    let ve = virtual_range.end@;
    let ps = physical_range.start@;
    let perms = permissions@;
    let n = span(vs as int, ve as int);
    let pages = range_pages(vs as int, ps as int, n as nat);
    &&& range_error(virtual_range, physical_range) matches Some(e) ==> r == Err::<
        PageTableUpdate,
        MapError,
    >(e) && new == old
    &&& range_error(virtual_range, physical_range) is None ==> {
        &&& n == 0 ==> r == Ok::<PageTableUpdate, MapError>(PageTableUpdate::NoChange) && new == old
        &&& n > 0 && old.range_fits(vs, ve, perms) ==> r is Ok
        &&& n > 0 && !leaf_permissions_allowed(perms) ==> r is Err && new == old
        &&& match r {
            Ok(update) => {
                &&& mapped_prefix(old, new, vs, ve, ps, perms)
                &&& leaf_permissions_allowed(perms) || n == 0
                &&& forall|i: int|
                    0 <= i < pages.len() ==> #[trigger] new.page_size_at(pages[i].0 as usize)
                        == Some(pages[i].1)
                &&& update == if n == 0 {
                    PageTableUpdate::NoChange
                } else if pages.len() == 1 && tables_wanted(old, vs, pages[0].1) == 0 {
                    PageTableUpdate::One(virtual_range.start)
                } else {
                    PageTableUpdate::Many
                }
                &&& new.num_tables() == old.num_tables() + tables_added(
                    old,
                    vs,
                    pages,
                    pages.len() as int,
                )
                &&& new.num_tables() * 4096 <= old.num_tables() * 4096 + 2 * n
            },
            Err(e) => exists|i: int|
                #![trigger pages[i]]
                0 <= i < pages.len() && {
                    let c = pages[i].0 as usize;
                    &&& mapped_prefix(old, new, vs, c, ps, perms)
                    &&& forall|j: int|
                        0 <= j < i ==> #[trigger] new.page_size_at(pages[j].0 as usize)
                            == Some(pages[j].1)
                    &&& page_refusal(new, c, pages[i].1, permissions, e)
                    &&& new.num_tables() == old.num_tables() + tables_added(old, vs, pages, i)
                    &&& i == 0 ==> new == old
                },
        }
    }
    &&& forall|v: usize| (#[trigger] old.lookup(v)) is Some ==> new.lookup(v) == old.lookup(v)
    &&& new.spec_capacity() == old.spec_capacity()
    &&& new.num_tables() <= new.spec_capacity()
}

/// Largest number of bytes that one range can map: past it, the range would
/// reach the same Sv39 slot twice.
pub open spec fn sv39_span() -> int {
    0x80_0000_0000
}

impl AddressSpace {
    /// `self` maps `[vs, cur)` onto the physical range starting at `ps` with
    /// permission bits `perms`, changes nothing outside that range's aliases,
    /// and `old` mapped none of those aliases.
    #[verifier::opaque]
    pub closed spec fn mapped_so_far(
        &self,
        old: &Self,
        vs: usize,
        cur: usize,
        ps: u64,
        perms: u8,
    ) -> bool {
        &&& forall|v: usize|
            vs <= v < cur ==> #[trigger] self.lookup(v) == Some((target(vs, ps, v), perms))
        &&& forall|v: usize| !aliases(vs, cur, v) ==> #[trigger] self.lookup(v) == old.lookup(v)
        &&& forall|v: usize| aliases(vs, cur, v) ==> (#[trigger] old.lookup(v)) is None
    }

    /// Whether a range of `n` bytes at `vs` can be mapped in full: the
    /// permissions suit a leaf, the range reaches no Sv39 slot twice, none of
    /// its aliases is mapped, and enough frames remain for new tables.
    #[verifier::opaque]
    pub closed spec fn range_fits(&self, vs: usize, ve: usize, perms: u8) -> bool {
        let n = span(vs as int, ve as int);
        &&& leaf_permissions_allowed(perms)
        &&& n <= sv39_span()
        &&& forall|v: usize| aliases(vs, ve, v) ==> (#[trigger] self.lookup(v)) is None
        &&& self.num_tables() + 2 * (n / 4096) <= self.capacity
    }

    /// Inside a range that fits, the next page has a free slot and enough
    /// frames remain for its tables.
    proof fn lemma_page_of_fitting_range(
        &self,
        old: &Self,
        vs: usize,
        ve: usize,
        c: usize,
        page_type: PageType,
        ps: u64,
        perms: u8,
    )
        requires
            self.wf(),
            self.mapped_so_far(old, vs, c, ps, perms),
            old.range_fits(vs, ve, perms),
            self.capacity == old.capacity,
            vs <= c,
            c as nat % page_type.bytes() == 0,
            c + page_type.bytes() <= ve,
            (c - vs) % 4096 == 0,
            self.num_tables() >= old.num_tables(),
            (self.num_tables() - old.num_tables()) * 4096 <= 2 * (c - vs),
        ensures
            self.slot_free(c, page_type),
            self.num_tables() + self.tables_needed(c, page_type) <= self.capacity,
    {
        reveal(AddressSpace::range_fits);
        reveal(AddressSpace::mapped_so_far);
        let size = page_type.bytes();
        assert forall|v: usize| covers(c, page_type, v) implies (#[trigger] self.lookup(v)) is None by {
            lemma_covered_has_alias(c, page_type, v);
            let end = (c + size) as usize;
            let u = choose|u: usize| c <= u < end && #[trigger] sv39_bits(u) == sv39_bits(v);
            assert(aliases(vs, ve, v));
            assert(old.lookup(v) is None);
            if aliases(vs, c, v) {
                let u1 = choose|u1: usize| vs <= u1 < c && #[trigger] sv39_bits(u1) == sv39_bits(v);
                lemma_near_addresses_differ(u1, u);
            }
        }
        self.lemma_unmapped_page_free(c, page_type);
        assert(page_type.bytes() >= 4096);
    }

    /// One more page mapped at the end of the prefix extends the prefix.
    proof fn lemma_range_step(
        &self,
        after: &Self,
        old: &Self,
        vs: usize,
        c: usize,
        page_type: PageType,
        ps: u64,
        p: u64,
        perms: u8,
    )
        requires
            self.mapped_so_far(old, vs, c, ps, perms),
            after.maps_page_over(self, c, page_type, p, perms),
            forall|v: usize| covers(c, page_type, v) ==> (#[trigger] self.lookup(v)) is None,
            vs <= c,
            c as nat % page_type.bytes() == 0,
            p as nat % page_type.bytes() == 0,
            p == ps + (c - vs),
            c + page_type.bytes() <= usize::MAX,
            p + page_type.bytes() <= u64::MAX,
        ensures
            after.mapped_so_far(old, vs, (c + page_type.bytes()) as usize, ps, perms),
            after.page_size_at(c) == Some(page_type.bytes()),
            forall|v: usize| vs <= v < c ==> #[trigger] after.page_size_at(v) == self.page_size_at(v),
    {
        reveal(AddressSpace::mapped_so_far);
        reveal(AddressSpace::maps_page_over);
        let size = page_type.bytes();
        let end = (c + size) as usize;
        assert(covers(c, page_type, c));
        assert(after.walk(c) == Some((encoded_frame(p) + c as int % size as int, perms, size)));
        assert forall|v: usize| vs <= v < c implies #[trigger] after.page_size_at(v) == self.page_size_at(
            v,
        ) by {
            assert(self.lookup(v) is Some);
            assert(after.walk(v) == self.walk(v));
        }
        assert forall|v: usize|
            vs <= v < end implies #[trigger] after.lookup(v) == Some((target(vs, ps, v), perms)) by {
            if v < c {
                assert(self.lookup(v) == Some((target(vs, ps, v), perms)));
            } else {
                lemma_in_page(c, page_type, v);
                lemma_frame_offset(p, size as u64, (v - c) as u64);
            }
        }
        assert forall|v: usize| !aliases(vs, end, v) implies #[trigger] after.lookup(v) == old.lookup(
            v,
        ) by {
            if aliases(vs, c, v) {
                let u = choose|u: usize| vs <= u < c && #[trigger] sv39_bits(u) == sv39_bits(v);
                assert(vs <= u < end);
            }
            if covers(c, page_type, v) {
                lemma_covered_has_alias(c, page_type, v);
                let u = choose|u: usize| c <= u < end && #[trigger] sv39_bits(u) == sv39_bits(v);
                assert(vs <= u < end);
            }
            assert(after.walk(v) == self.walk(v));
            assert(after.lookup(v) == self.lookup(v));
            assert(!aliases(vs, c, v));
            assert(self.lookup(v) == old.lookup(v));
        }
        assert forall|v: usize| aliases(vs, end, v) implies (#[trigger] old.lookup(v)) is None by {
            let u = choose|u: usize| vs <= u < end && #[trigger] sv39_bits(u) == sv39_bits(v);
            if u < c {
                assert(aliases(vs, c, v));
            } else if !aliases(vs, c, v) {
                lemma_in_page(c, page_type, u);
                lemma_same_sv39(u, v);
                assert(covers(c, page_type, v));
                assert(self.lookup(v) is None);
            }
        }
    }

    /// A page whose slot is taken has an address that is mapped already.
    proof fn lemma_conflict_is_mapped(&self, c: usize, page_type: PageType)
        requires
            self.wf(),
            !self.slot_free(c, page_type),
            c as nat % page_type.bytes() == 0,
            c + page_type.bytes() <= usize::MAX,
        ensures
            exists|u: usize| c <= u < c + page_type.bytes() && (#[trigger] self.lookup(u)) is Some,
    {
        if forall|v: usize| covers(c, page_type, v) ==> (#[trigger] self.lookup(v)) is None {
            self.lemma_unmapped_page_free(c, page_type);
        }
        let v = choose|v: usize| covers(c, page_type, v) && (#[trigger] self.lookup(v)) is Some;
        lemma_covered_has_alias(c, page_type, v);
        let end = (c + page_type.bytes()) as usize;
        let u = choose|u: usize| c <= u < end && #[trigger] sv39_bits(u) == sv39_bits(v);
        self.lemma_lookup_sv39(u, v);
        assert(self.lookup(u) is Some);
    }

    /// The first `i` of `pages` start in `[vs, c)` and each is served by a
    /// page of its size.
    #[verifier::opaque]
    closed spec fn pages_sized(&self, pages: Seq<(int, nat)>, i: int, vs: usize, c: usize) -> bool {
        forall|j: int|
            0 <= j < i ==> vs <= #[trigger] pages[j].0 < c && self.page_size_at(pages[j].0 as usize)
                == Some(pages[j].1)
    }

    /// `pages` from index `i` on are the pages of `rem` bytes from virtual
    /// address `c` and physical address `p`.
    #[verifier::opaque]
    closed spec fn pages_left(pages: Seq<(int, nat)>, i: int, c: int, p: int, rem: nat) -> bool {
        range_pages(c, p, rem) == pages.subrange(i, pages.len() as int)
    }

    /// When `pages` from index `i` on are the pages of what is left at `c`,
    /// page `i` is the one at `c` and the pages after it are those of what
    /// follows it.
    proof fn lemma_next_page(pages: Seq<(int, nat)>, i: int, c: int, p: int, rem: nat)
        requires
            0 <= i <= pages.len(),
            rem >= 4096,
            AddressSpace::pages_left(pages, i, c, p, rem),
        ensures
            i < pages.len(),
            pages[i] == (c, page_size_for(c, p, rem as int)),
            AddressSpace::pages_left(
                pages,
                i + 1,
                c + page_size_for(c, p, rem as int),
                p + page_size_for(c, p, rem as int),
                (rem - page_size_for(c, p, rem as int)) as nat,
            ),
    {
        reveal(AddressSpace::pages_left);
        let size = page_size_for(c, p, rem as int);
        let rest = range_pages(c + size, p + size, (rem - size) as nat);
        assert(range_pages(c, p, rem) == seq![(c, size)] + rest);
        assert(pages.subrange(i, pages.len() as int)[0] == (c, size));
        assert(pages.subrange(i + 1, pages.len() as int) =~= pages.subrange(
            i,
            pages.len() as int,
        ).subrange(1, pages.len() - i));
        assert((seq![(c, size)] + rest).subrange(1, rest.len() + 1 as int) =~= rest);
    }

    /// A page that `map_page` refused after a mapped prefix gives the refusal
    /// that `map_range` reports.
    proof fn lemma_refused_page(
        &self,
        old: &Self,
        vs: usize,
        c: usize,
        page_type: PageType,
        ps: u64,
        permissions: PagePermissions,
        e: MapError,
    )
        requires
            self.wf(),
            self.mapped_so_far(old, vs, c, ps, permissions@),
            c as nat % page_type.bytes() == 0,
            c + page_type.bytes() <= usize::MAX,
            match e {
                MapError::Conflict(range) => {
                    &&& !self.slot_free(c, page_type)
                    &&& range.start@ == c
                    &&& range.end@ == c + page_type.bytes()
                },
                MapError::InvalidPermissions(ip) => {
                    &&& self.slot_free(c, page_type)
                    &&& !leaf_permissions_allowed(permissions@)
                    &&& ip.spec_permissions() == permissions
                },
                MapError::TableMemoryExhausted => {
                    &&& self.slot_free(c, page_type)
                    &&& leaf_permissions_allowed(permissions@)
                    &&& self.num_tables() + self.tables_needed(c, page_type) > self.spec_capacity()
                },
                _ => false,
            },
        ensures
            mapped_prefix(*old, *self, vs, c, ps, permissions@),
            page_refusal(*self, c, page_type.bytes(), permissions, e),
    {
        reveal(AddressSpace::mapped_so_far);
        assert(page_type_of(page_type.bytes()) == page_type);
        if e is TableMemoryExhausted {
            lemma_tables_needed_by_lookup(*self, c, page_type);
        }
        if e is Conflict {
            self.lemma_conflict_is_mapped(c, page_type);
        } else {
            assert forall|u: usize| c <= u < c + page_type.bytes() implies (
            #[trigger] self.lookup(u)) is None by {
                lemma_in_page(c, page_type, u);
                self.lemma_free_slot_unmapped(c, page_type);
            }
        }
    }

    /// A refusal of page `i` after the pages before it were mapped meets the
    /// promise of `map_range`.
    proof fn lemma_map_range_refused(
        old: AddressSpace,
        new: AddressSpace,
        virtual_range: AddressRange<VirtualAddr>,
        physical_range: AddressRange<PhysicalAddr>,
        permissions: PagePermissions,
        i: int,
        e: MapError,
    )
        requires
            range_error(virtual_range, physical_range) is None,
            span(virtual_range.start@ as int, virtual_range.end@ as int) > 0,
            !old.range_fits(virtual_range.start@, virtual_range.end@, permissions@),
            ({
                let vs = virtual_range.start@;
                let ps = physical_range.start@;
                let pages = range_pages(
                    vs as int,
                    ps as int,
                    span(vs as int, virtual_range.end@ as int) as nat,
                );
                &&& 0 <= i < pages.len()
                &&& mapped_prefix(old, new, vs, pages[i].0 as usize, ps, permissions@)
                &&& forall|j: int|
                    0 <= j < i ==> #[trigger] new.page_size_at(pages[j].0 as usize) == Some(
                        pages[j].1,
                    )
                &&& page_refusal(new, pages[i].0 as usize, pages[i].1, permissions, e)
                &&& new.num_tables() == old.num_tables() + tables_added(old, vs, pages, i)
                &&& i == 0 ==> new == old
                &&& !leaf_permissions_allowed(permissions@) ==> i == 0
            }),
            new.spec_capacity() == old.spec_capacity(),
            new.num_tables() <= new.spec_capacity(),
        ensures
            map_range_result(old, new, virtual_range, physical_range, permissions, Err(e)),
    {
        reveal(map_range_result);
        let vs = virtual_range.start@;
        let ps = physical_range.start@;
        let pages = range_pages(vs as int, ps as int, span(vs as int, virtual_range.end@ as int) as nat);
        let c = pages[i].0 as usize;
        assert forall|v: usize| (#[trigger] old.lookup(v)) is Some implies new.lookup(v) == old.lookup(v) by {
        }
    }

    /// Mapping page `i` of the range extends the mapped prefix and keeps the
    /// sizes of the pages mapped before it.
    proof fn lemma_page_step(
        &self,
        after: &Self,
        old: &Self,
        vs: usize,
        ps: u64,
        perms: u8,
        pages: Seq<(int, nat)>,
        i: int,
        c: usize,
        page_type: PageType,
        p: u64,
    )
        requires
            self.mapped_so_far(old, vs, c, ps, perms),
            after.maps_page_over(self, c, page_type, p, perms),
            forall|v: usize| covers(c, page_type, v) ==> (#[trigger] self.lookup(v)) is None,
            vs <= c,
            c as nat % page_type.bytes() == 0,
            p as nat % page_type.bytes() == 0,
            p == ps + (c - vs),
            c + page_type.bytes() <= usize::MAX,
            p + page_type.bytes() <= u64::MAX,
            0 <= i < pages.len(),
            pages[i] == (c as int, page_type.bytes()),
            self.pages_sized(pages, i, vs, c),
        ensures
            after.mapped_so_far(old, vs, (c + page_type.bytes()) as usize, ps, perms),
            after.pages_sized(pages, i + 1, vs, (c + page_type.bytes()) as usize),
    {
        reveal(AddressSpace::pages_sized);
        self.lemma_range_step(after, old, vs, c, page_type, ps, p, perms);
        assert forall|j: int| 0 <= j < i + 1 implies vs <= #[trigger] pages[j].0 < c
            + page_type.bytes() && after.page_size_at(pages[j].0 as usize) == Some(pages[j].1) by {
            if j < i {
                assert(self.page_size_at(pages[j].0 as usize) == Some(pages[j].1));
            }
        }
    }

    /// Maps the specified range using an optimal number of pages of
    /// automatically chosen size: at each step the largest page that both
    /// addresses are aligned to and that fits in what is left.
    ///
    /// If an error occurs, the partially applied updates are not reverted.
    #[verifier::spinoff_prover]
    #[verifier::rlimit(100)]
    pub fn map_range(
        &mut self,
        virtual_range: AddressRange<VirtualAddr>,
        physical_range: AddressRange<PhysicalAddr>,
        permissions: PagePermissions,
    ) -> (r: Result<PageTableUpdate, MapError>)
        requires
            old(self).wf(),
        ensures
            final(self).wf(),
            final(self).same_frame(old(self)),
            final(self).keeps_valid_entries(old(self)),
            map_range_result(*old(self), *final(self), virtual_range, physical_range, permissions, r),
    {
        reveal(map_range_result);
        proof {
            self.lemma_keeps_valid_entries_refl();
        }
        if !virtual_range.start.is_aligned(PageType::Small) {
            return Err(MapError::VirtualUnaligned(virtual_range.start));
        }
        if !virtual_range.end.is_aligned(PageType::Small) {
            return Err(MapError::VirtualUnaligned(virtual_range.end));
        }
        if !physical_range.start.is_aligned(PageType::Small) {
            return Err(MapError::PhysicalUnaligned(physical_range.start));
        }
        if !physical_range.end.is_aligned(PageType::Small) {
            return Err(MapError::PhysicalUnaligned(physical_range.end));
        }
        let virtual_len = virtual_range.size();
        let physical_len = physical_range.end.get().saturating_sub(physical_range.start.get());
        if virtual_len as u64 != physical_len {
            return Err(MapError::MismatchedLength(virtual_range, physical_range));
        }
        let ghost vr0 = virtual_range;
        let ghost pr0 = physical_range;
        assert(range_error(vr0, pr0) is None);
        let ghost vs = virtual_range.start@;
        let ghost ve = virtual_range.end@;
        let ghost ps = physical_range.start@;
        let ghost pe = physical_range.end@;
        let ghost perms = permissions@;
        let ghost n: nat = span(vs as int, ve as int) as nat;
        let ghost pages = range_pages(vs as int, ps as int, n);
        let ghost old_space = *self;
        let ghost fits = n > 0 && old_space.range_fits(vs, ve, perms);
        let start_addr = virtual_range.start;
        let mut cur = virtual_range.start;
        let mut pcur = physical_range.start;
        let mut update = PageTableUpdate::NoChange;
        let ghost mut i: int = 0;
        assert(self.mapped_so_far(&old_space, vs, vs, ps, perms)) by {
            reveal(AddressSpace::mapped_so_far);
        }
        assert(self.pages_sized(pages, 0, vs, vs)) by {
            reveal(AddressSpace::pages_sized);
        }
        assert(tables_tracked(*self, old_space, vs, pages, 0)) by {
            reveal(tables_tracked);
            self.lemma_keeps_valid_entries_refl();
        }
        assert(AddressSpace::pages_left(pages, 0, vs as int, ps as int, n)) by {
            reveal(AddressSpace::pages_left);
            assert(pages.subrange(0, pages.len() as int) =~= pages);
        }
        while cur.get() < virtual_range.end.get()
            invariant
                self.wf(),
                self.same_frame(&old_space),
                old_space == *old(self),
                range_error(vr0, pr0) is None,
                vr0 == virtual_range,
                pr0 == physical_range,
                vs == vr0.start@,
                ve == vr0.end@,
                ps == pr0.start@,
                pe == pr0.end@,
                vs % 4096 == 0,
                ps % 4096 == 0,
                ve % 4096 == 0,
                n == span(vs as int, ve as int),
                pages == range_pages(vs as int, ps as int, n),
                vs <= cur@,
                cur@ - vs <= n,
                n > 0 ==> cur@ <= ve,
                (cur@ - vs) % 4096 == 0,
                pcur@ == ps + (cur@ - vs),
                0 <= i <= pages.len(),
                AddressSpace::pages_left(pages, i, cur@ as int, pcur@ as int, (n - (cur@ - vs)) as nat),
                self.pages_sized(pages, i, vs, cur@),
                self.mapped_so_far(&old_space, vs, cur@, ps, perms),
                cur@ > vs ==> leaf_permissions_allowed(perms),
                (i == 0) == (cur@ == vs),
                i == 0 ==> update is NoChange && *self == old_space && cur == start_addr,
                i >= 1 ==> update == if i == 1 && tables_wanted(old_space, vs, pages[0].1) == 0 {
                    PageTableUpdate::One(start_addr)
                } else {
                    PageTableUpdate::Many
                },
                start_addr == virtual_range.start,
                tables_tracked(*self, old_space, vs, pages, i),
                self.num_tables() >= old_space.num_tables(),
                (self.num_tables() - old_space.num_tables()) * 4096 <= 2 * (cur@ - vs),
                fits == (n > 0 && old_space.range_fits(vs, ve, perms)),
                perms == permissions@,
            decreases n - (cur@ - vs),
        {
            let rem = virtual_range.end.get() - cur.get();
            let page_type = page_type_for(cur, pcur, rem);
            let ghost c = cur@;
            let ghost size = page_type.bytes();
            let ghost before = *self;
            proof {
                let rem_n = (n - (c - vs)) as nat;
                assert(rem_n == rem);
                AddressSpace::lemma_next_page(pages, i, c as int, pcur@ as int, rem_n);
                assert(c + size <= ve);
                if fits {
                    self.lemma_page_of_fitting_range(&old_space, vs, ve, c, page_type, ps, perms);
                }
            }
            let res = self.map_page(page_type, cur, pcur, permissions);
            let u = match res {
                Ok(u) => u,
                Err(e) => {
                    assert(map_range_result(
                        old_space,
                        *self,
                        virtual_range,
                        physical_range,
                        permissions,
                        Err(e),
                    )) by {
                        self.lemma_refused_page(&old_space, vs, c, page_type, ps, permissions, e);
                        reveal(AddressSpace::range_fits);
                        reveal(AddressSpace::pages_sized);
                        reveal(tables_tracked);
                        assert(pages[i].0 as usize == c);
                        AddressSpace::lemma_map_range_refused(
                            old_space,
                            *self,
                            virtual_range,
                            physical_range,
                            permissions,
                            i,
                            e,
                        );
                    }
                    assert(self.keeps_valid_entries(&old_space)) by {
                        reveal(tables_tracked);
                    }
                    return Err(e);
                },
            };
            proof {
                assert(page_type_of(size) == page_type);
                if i == 0 {
                    assert(cur == start_addr);
                }
                lemma_tables_step(old_space, before, *self, vs, ps, perms, pages, i, c, page_type);
                before.lemma_page_step(self, &old_space, vs, ps, perms, pages, i, c, page_type, pcur@);
            }
            update.add_assign(u);
            let offset = page_type.size() as isize;
            cur = cur.offset(offset);
            pcur = pcur.offset(offset);
            proof {
                i = i + 1;
            }
        }
        proof {
            reveal(AddressSpace::mapped_so_far);
            reveal(AddressSpace::pages_left);
            reveal(AddressSpace::pages_sized);
            reveal(tables_tracked);
            assert(range_pages(cur@ as int, pcur@ as int, (n - (cur@ - vs)) as nat).len() == 0);
            assert(i == pages.len());
        }
        Ok(update)
    }
}

/// The pages of a range lie inside it, the first at its start and each
/// after the ones before it.
pub proof fn lemma_range_pages_in_order(c: int, p: int, rem: nat)
    ensures
        range_pages(c, p, rem).len() > 0 ==> range_pages(c, p, rem)[0].0 == c,
        forall|i: int|
            0 <= i < range_pages(c, p, rem).len() ==> {
                &&& c <= #[trigger] range_pages(c, p, rem)[i].0
                &&& range_pages(c, p, rem)[i].0 + range_pages(c, p, rem)[i].1 <= c + rem
                &&& range_pages(c, p, rem)[i].1 >= 4096
            },
        forall|i: int, j: int|
            0 <= j < i < range_pages(c, p, rem).len() ==> #[trigger] range_pages(c, p, rem)[j].0
                + range_pages(c, p, rem)[j].1 <= #[trigger] range_pages(c, p, rem)[i].0,
    decreases rem,
{
    if rem >= 4096 {
        let size = page_size_for(c, p, rem as int);
        lemma_range_pages_in_order(c + size, p + size, (rem - size) as nat);
        let pages = range_pages(c, p, rem);
        let rest = range_pages(c + size, p + size, (rem - size) as nat);
        assert(pages == seq![(c, size)] + rest);
        assert forall|i: int| 0 <= i < pages.len() implies {
            &&& c <= #[trigger] pages[i].0
            &&& pages[i].0 + pages[i].1 <= c + rem
            &&& pages[i].1 >= 4096
        } by {
            if i > 0 {
                assert(pages[i] == rest[i - 1]);
            }
        }
        assert forall|i: int, j: int| 0 <= j < i < pages.len() implies #[trigger] pages[j].0
            + pages[j].1 <= #[trigger] pages[i].0 by {
            assert(pages[i] == rest[i - 1]);
            if j > 0 {
                assert(pages[j] == rest[j - 1]);
            }
        }
    }
}

/// `space` maps every address of `range` to the physical address with the
/// same value (cut to 56 bits), with the given permissions.
pub open spec fn maps_identity(
    space: AddressSpace,
    range: AddressRange<VirtualAddr>,
    permissions: PagePermissions,
) -> bool {
    forall|v: usize|
        range.start@ <= v < range.end@ ==> #[trigger] space.lookup(v) == Some(
            (v as int % (PHYSICAL_LIMIT as int), permissions@),
        )
}

/// `space` holds the identity mappings listed and nothing else: every
/// listed range is mapped to itself, and an address that aliases no listed
/// range is not mapped.
pub open spec fn holds_mappings(
    space: AddressSpace,
    mappings: Seq<(AddressRange<VirtualAddr>, PagePermissions)>,
) -> bool {
    &&& forall|i: int|
        0 <= i < mappings.len() ==> maps_identity(space, #[trigger] mappings[i].0, mappings[i].1)
    &&& forall|v: usize|
        (forall|i: int|
            0 <= i < mappings.len() ==> !aliases(
                #[trigger] mappings[i].0.start@,
                mappings[i].0.end@,
                v,
            )) ==> (#[trigger] space.lookup(v)) is None
}

/// The number of bytes in the first `count` listed ranges.
pub open spec fn listed_bytes(
    mappings: Seq<(AddressRange<VirtualAddr>, PagePermissions)>,
    count: int,
) -> int
    decreases count,
{
    if count <= 0 {
        0
    } else {
        listed_bytes(mappings, count - 1) + span(
            mappings[count - 1].0.start@ as int,
            mappings[count - 1].0.end@ as int,
        )
    }
}

/// Whether the listed identity mappings can all be made in a fresh address
/// space with `capacity` table frames: each range is aligned, suits its
/// permissions and reaches no Sv39 slot twice, no two ranges alias, and the
/// frames suffice.
pub open spec fn mappings_fit(
    mappings: Seq<(AddressRange<VirtualAddr>, PagePermissions)>,
    capacity: u64,
) -> bool {
    &&& forall|i: int|
        0 <= i < mappings.len() ==> range_error(
            #[trigger] mappings[i].0,
            identity_physical(mappings[i].0),
        ) is None
    &&& forall|i: int|
        0 <= i < mappings.len() && mappings[i].0.start@ < mappings[i].0.end@ ==> {
            &&& leaf_permissions_allowed(#[trigger] mappings[i].1@)
            &&& mappings[i].0.end@ - mappings[i].0.start@ <= sv39_span()
        }
    &&& forall|i: int, j: int, u: usize, w: usize|
        #![trigger mappings[i], mappings[j], sv39_bits(u), sv39_bits(w)]
        0 <= i < mappings.len() && 0 <= j < mappings.len() && i != j && mappings[i].0.start@ <= u
            < mappings[i].0.end@ && mappings[j].0.start@ <= w < mappings[j].0.end@
            ==> sv39_bits(u) != sv39_bits(w)
    &&& 4096 + 2 * listed_bytes(mappings, mappings.len() as int) <= capacity * 4096
}

proof fn lemma_listed_bytes_monotone(
    mappings: Seq<(AddressRange<VirtualAddr>, PagePermissions)>,
    a: int,
    b: int,
)
    requires
        0 <= a <= b,
    ensures
        listed_bytes(mappings, a) <= listed_bytes(mappings, b),
    decreases b - a,
{
    if a < b {
        lemma_listed_bytes_monotone(mappings, a, b - 1);
    }
}

/// Identity mapping sends every address of the range to the physical
/// address with the same value (cut to 56 bits).
pub proof fn lemma_identity_target(vs: usize, v: usize)
    requires
        vs <= v,
    ensures
        target(vs, vs as u64, v) == v as int % (PHYSICAL_LIMIT as int),
{
}

/// Every listed range is aligned, every one that is not empty carries
/// permissions that a leaf may carry, and no two listed ranges share an
/// address, as an Sv39 walk sees addresses.
pub open spec fn mappings_consistent(mappings: Seq<(AddressRange<VirtualAddr>, PagePermissions)>) -> bool {
    &&& forall|i: int|
        0 <= i < mappings.len() ==> range_error(
            #[trigger] mappings[i].0,
            identity_physical(mappings[i].0),
        ) is None
    &&& forall|i: int|
        0 <= i < mappings.len() && mappings[i].0.start@ < mappings[i].0.end@
            ==> leaf_permissions_allowed(#[trigger] mappings[i].1@)
    &&& forall|i: int, j: int, u: usize, w: usize|
        #![trigger mappings[i], mappings[j], sv39_bits(u), sv39_bits(w)]
        0 <= i < mappings.len() && 0 <= j < mappings.len() && i != j && mappings[i].0.start@ <= u
            < mappings[i].0.end@ && mappings[j].0.start@ <= w < mappings[j].0.end@
            ==> sv39_bits(u) != sv39_bits(w)
}

/// The pages in which listed identity mapping `r` is made.
pub open spec fn identity_pages(r: AddressRange<VirtualAddr>) -> Seq<(int, nat)> {
    range_pages(
        r.start@ as int,
        identity_physical(r).start@ as int,
        span(r.start@ as int, r.end@ as int) as nat,
    )
}

/// How many tables the first `i` listed identity mappings take, made one
/// after the other in an empty address space: each mapping takes the
/// tables that its pages need in a space that holds the mappings before it.
pub open spec fn global_tables(
    mappings: Seq<(AddressRange<VirtualAddr>, PagePermissions)>,
    i: int,
) -> nat
    decreases i,
{
    if i <= 0 {
        0
    } else {
        let before = choose|s: AddressSpace| #[trigger] holds_mappings(s, mappings.subrange(0, i - 1));
        let r = mappings[i - 1].0;
        global_tables(mappings, i - 1) + tables_added(
            before,
            r.start@,
            identity_pages(r),
            identity_pages(r).len() as int,
        )
    }
}

/// Two spaces that hold the same identity mappings translate every address
/// alike.
pub proof fn lemma_holds_mappings_lookups(
    a: AddressSpace,
    b: AddressSpace,
    mappings: Seq<(AddressRange<VirtualAddr>, PagePermissions)>,
)
    requires
        holds_mappings(a, mappings),
        holds_mappings(b, mappings),
    ensures
        forall|v: usize| #[trigger] a.lookup(v) == b.lookup(v),
{
    assert forall|v: usize| #[trigger] a.lookup(v) == b.lookup(v) by {
        if exists|i: int|
            0 <= i < mappings.len() && aliases(#[trigger] mappings[i].0.start@, mappings[i].0.end@, v) {
            let i = choose|i: int|
                0 <= i < mappings.len() && aliases(#[trigger] mappings[i].0.start@, mappings[i].0.end@, v);
            let u = choose|u: usize|
                mappings[i].0.start@ <= u < mappings[i].0.end@ && #[trigger] sv39_bits(u) == sv39_bits(v);
            assert(maps_identity(a, mappings[i].0, mappings[i].1));
            assert(maps_identity(b, mappings[i].0, mappings[i].1));
            a.lemma_lookup_sv39(u, v);
            b.lemma_lookup_sv39(u, v);
        }
    }
}

/// The tables that pages take depend on the translations of the space
/// alone.
pub proof fn lemma_tables_added_same_lookups(
    a: AddressSpace,
    b: AddressSpace,
    vs: usize,
    pages: Seq<(int, nat)>,
    i: int,
)
    requires
        forall|v: usize| #[trigger] a.lookup(v) == b.lookup(v),
    ensures
        tables_added(a, vs, pages, i) == tables_added(b, vs, pages, i),
    decreases i,
{
    if i > 0 {
        lemma_tables_added_same_lookups(a, b, vs, pages, i - 1);
        let c = pages[i - 1].0 as usize;
        lemma_region_after_same_lookups(a, b, vs, c, PageType::Huge);
        lemma_region_after_same_lookups(a, b, vs, c, PageType::Large);
    }
}

/// Whether a region is empty after a prefix depends on the translations of
/// the space alone.
proof fn lemma_region_after_same_lookups(
    a: AddressSpace,
    b: AddressSpace,
    vs: usize,
    c: usize,
    level: PageType,
)
    requires
        forall|v: usize| #[trigger] a.lookup(v) == b.lookup(v),
    ensures
        region_unmapped_after(a, vs, c, c, level) == region_unmapped_after(b, vs, c, c, level),
{
    reveal(region_unmapped_after);
    if region_unmapped_after(a, vs, c, c, level) {
        assert forall|v: usize| covers(c, level, v) implies !aliases(vs, c, v) && (
        #[trigger] b.lookup(v)) is None by {
            assert(a.lookup(v) == b.lookup(v));
        }
    }
    if region_unmapped_after(b, vs, c, c, level) {
        assert forall|v: usize| covers(c, level, v) implies !aliases(vs, c, v) && (
        #[trigger] a.lookup(v)) is None by {
            assert(a.lookup(v) == b.lookup(v));
        }
    }
}

/// The state of an address space with `capacity` table frames after the
/// first `i` listed identity mappings were made in it, starting empty.
pub open spec fn holds_prefix(
    space: AddressSpace,
    mappings: Seq<(AddressRange<VirtualAddr>, PagePermissions)>,
    i: int,
    capacity: u64,
) -> bool {
    &&& space.wf()
    &&& space.spec_capacity() == capacity
    &&& holds_mappings(space, mappings.subrange(0, i))
    &&& mappings_consistent(mappings.subrange(0, i))
    &&& space.num_tables() == 1 + global_tables(mappings, i)
    &&& space.num_tables() * 4096 <= 4096 + 2 * listed_bytes(mappings, i)
}

/// Listed identity mapping `i` is the first that fails, with error `e`:
/// the mappings before it were made, and mapping it after them gives `e`.
pub open spec fn refused_at(
    mappings: Seq<(AddressRange<VirtualAddr>, PagePermissions)>,
    i: int,
    capacity: u64,
    e: MapError,
) -> bool {
    exists|before: AddressSpace, after: AddressSpace|
        #![trigger holds_prefix(before, mappings, i, capacity), after.wf()]
        holds_prefix(before, mappings, i, capacity) && after.wf() && map_range_result(
            before,
            after,
            mappings[i].0,
            identity_physical(mappings[i].0),
            mappings[i].1,
            Err(e),
        )
}

/// The next listed range of a list that fits can be mapped in full.
proof fn lemma_fits_next(
    before: AddressSpace,
    mappings: Seq<(AddressRange<VirtualAddr>, PagePermissions)>,
    i: int,
)
    requires
        mappings_fit(mappings, before.spec_capacity()),
        before.wf(),
        holds_mappings(before, mappings.subrange(0, i)),
        before.num_tables() * 4096 <= 4096 + 2 * listed_bytes(mappings, i),
        0 <= i < mappings.len(),
    ensures
        range_error(mappings[i].0, identity_physical(mappings[i].0)) is None,
        mappings[i].0.start@ < mappings[i].0.end@ ==> before.range_fits(
            mappings[i].0.start@,
            mappings[i].0.end@,
            mappings[i].1@,
        ),
{
    reveal(AddressSpace::range_fits);
    let range = mappings[i].0;
    let vs = range.start@;
    let ve = range.end@;
    assert(range_error(mappings[i].0, identity_physical(mappings[i].0)) is None);
    if vs < ve {
        assert(leaf_permissions_allowed(mappings[i].1@));
        assert forall|v: usize| aliases(vs, ve, v) implies (#[trigger] before.lookup(v)) is None by {
            let u = choose|u: usize| vs <= u < ve && #[trigger] sv39_bits(u) == sv39_bits(v);
            assert forall|j: int| 0 <= j < mappings.subrange(0, i).len() implies !aliases(
                #[trigger] mappings.subrange(0, i)[j].0.start@,
                mappings.subrange(0, i)[j].0.end@,
                v,
            ) by {
                let rj = mappings.subrange(0, i)[j].0;
                assert(rj == mappings[j].0);
                if aliases(rj.start@, rj.end@, v) {
                    let w = choose|w: usize|
                        rj.start@ <= w < rj.end@ && #[trigger] sv39_bits(w) == sv39_bits(v);
                    assert(sv39_bits(u) != sv39_bits(w));
                }
            }
        }
        lemma_listed_bytes_monotone(mappings, i + 1, mappings.len() as int);
        PhysicalAddr::lemma_from_value(vs as u64);
        PhysicalAddr::lemma_from_value(ve as u64);
        assert((ve - vs) % 4096 == 0);
    }
}

/// Mapping one more listed range extends what the space holds.
proof fn lemma_mappings_step(
    before: AddressSpace,
    after: AddressSpace,
    mappings: Seq<(AddressRange<VirtualAddr>, PagePermissions)>,
    i: int,
    capacity: u64,
    r: Result<PageTableUpdate, MapError>,
)
    requires
        0 <= i < mappings.len(),
        holds_prefix(before, mappings, i, capacity),
        after.wf(),
        after.spec_capacity() == capacity,
        map_range_result(
            before,
            after,
            mappings[i].0,
            identity_physical(mappings[i].0),
            mappings[i].1,
            r,
        ),
        r is Ok,
    ensures
        holds_prefix(after, mappings, i + 1, capacity),
{
    reveal(map_range_result);
    let range = mappings[i].0;
    let perms = mappings[i].1;
    let vs = range.start@;
    let ve = range.end@;
    let prefix = mappings.subrange(0, i);
    assert(mappings.subrange(0, i + 1 - 1) == prefix);
    let chosen = choose|s: AddressSpace| #[trigger] holds_mappings(s, mappings.subrange(0, i + 1 - 1));
    lemma_holds_mappings_lookups(chosen, before, prefix);
    lemma_tables_added_same_lookups(
        chosen,
        before,
        vs,
        identity_pages(range),
        identity_pages(range).len() as int,
    );
    assert(global_tables(mappings, i + 1) == global_tables(mappings, i) + tables_added(
        before,
        vs,
        identity_pages(range),
        identity_pages(range).len() as int,
    ));
    let next = mappings.subrange(0, i + 1);
    PhysicalAddr::lemma_from_value(vs as u64);
    assert forall|j: int| 0 <= j < next.len() implies maps_identity(
        after,
        #[trigger] next[j].0,
        next[j].1,
    ) by {
        if j < i {
            assert(next[j] == prefix[j]);
            assert(maps_identity(before, prefix[j].0, prefix[j].1));
            let rj = prefix[j].0;
            assert forall|v: usize| rj.start@ <= v < rj.end@ implies #[trigger] after.lookup(v)
                == Some((v as int % (PHYSICAL_LIMIT as int), next[j].1@)) by {
                assert(before.lookup(v) is Some);
            }
        } else {
            assert(next[j] == mappings[i]);
            assert forall|v: usize| vs <= v < ve implies #[trigger] after.lookup(v) == Some(
                (v as int % (PHYSICAL_LIMIT as int), perms@),
            ) by {
                lemma_identity_target(vs, v);
            }
        }
    }
    assert forall|v: usize|
        (forall|j: int|
            0 <= j < next.len() ==> !aliases(
                #[trigger] next[j].0.start@,
                next[j].0.end@,
                v,
            )) implies (#[trigger] after.lookup(v)) is None by {
        assert(next[i] == mappings[i]);
        assert(!aliases(vs, ve, v));
        assert forall|j: int| 0 <= j < prefix.len() implies !aliases(
            #[trigger] prefix[j].0.start@,
            prefix[j].0.end@,
            v,
        ) by {
            assert(prefix[j] == next[j]);
        }
    }
    assert forall|j: int| 0 <= j < next.len() implies range_error(
        #[trigger] next[j].0,
        identity_physical(next[j].0),
    ) is None by {
        if j < i {
            assert(next[j] == prefix[j]);
        } else {
            assert(next[j] == mappings[i]);
        }
    }
    assert forall|j: int| 0 <= j < next.len() && next[j].0.start@ < next[j].0.end@ implies leaf_permissions_allowed(
        #[trigger] next[j].1@,
    ) by {
        if j < i {
            assert(next[j] == prefix[j]);
        } else {
            assert(next[j] == mappings[i]);
        }
    }
    assert forall|j: int, k: int, u: usize, w: usize|
        #![trigger next[j], next[k], sv39_bits(u), sv39_bits(w)]
        0 <= j < next.len() && 0 <= k < next.len() && j != k && next[j].0.start@ <= u
            < next[j].0.end@ && next[k].0.start@ <= w < next[k].0.end@ implies sv39_bits(u)
        != sv39_bits(w) by {
        if j < i && k < i {
            assert(next[j] == prefix[j]);
            assert(next[k] == prefix[k]);
            assert(prefix[j] == prefix[j] && prefix[k] == prefix[k]);
        } else if j < i {
            assert(next[j] == prefix[j]);
            assert(next[k] == mappings[i]);
            assert(maps_identity(before, prefix[j].0, prefix[j].1));
            assert(before.lookup(u) is Some);
            if sv39_bits(u) == sv39_bits(w) {
                assert(aliases(vs, ve, u));
            }
        } else {
            assert(next[k] == prefix[k]);
            assert(next[j] == mappings[i]);
            assert(maps_identity(before, prefix[k].0, prefix[k].1));
            assert(before.lookup(w) is Some);
            if sv39_bits(u) == sv39_bits(w) {
                assert(aliases(vs, ve, w));
            }
        }
    }
}

impl AddressSpace {
    /// Maps `range` to the physical range with the same bounds.
    pub fn identity_map_range(
        &mut self,
        range: AddressRange<VirtualAddr>,
        permissions: PagePermissions,
    ) -> (r: Result<PageTableUpdate, MapError>)
        requires
            old(self).wf(),
        ensures
            final(self).wf(),
            final(self).same_frame(old(self)),
            final(self).keeps_valid_entries(old(self)),
            map_range_result(
                *old(self),
                *final(self),
                range,
                identity_physical(range),
                permissions,
                r,
            ),
    {
        self.map_range(range, range.identity_mapped_physical(), permissions)
    }

    /// An address space that holds the given identity mappings, with
    /// `capacity` frames for page tables starting at page number `base_ppn`.
    /// Refused with the error of the first mapping that fails.
    pub fn new_with_global_mappings(
        mappings: &[(AddressRange<VirtualAddr>, PagePermissions)],
        base_ppn: u64,
        capacity: u64,
    ) -> (r: Result<Self, MapError>)
        requires
            1 <= capacity,
            base_ppn + capacity <= TABLE_PPN_LIMIT,
        ensures
            match r {
                Ok(space) => {
                    &&& space.wf()
                    &&& space.spec_base_ppn() == base_ppn
                    &&& space.spec_capacity() == capacity
                    &&& holds_mappings(space, mappings@)
                    &&& mappings_consistent(mappings@)
                    &&& space.num_tables() == 1 + global_tables(mappings@, mappings@.len() as int)
                },
                Err(e) => exists|i: int|
                    0 <= i < mappings@.len() && #[trigger] refused_at(mappings@, i, capacity, e),
            },
            mappings_fit(mappings@, capacity) ==> r is Ok,
    {
        let mut space = Self::new(base_ppn, capacity);
        let ghost fits = mappings_fit(mappings@, capacity);
        let mut i: usize = 0;
        proof {
            assert(mappings@.subrange(0, 0) =~= Seq::empty());
        }
        while i < mappings.len()
            invariant
                i <= mappings@.len(),
                space.spec_base_ppn() == base_ppn,
                fits == mappings_fit(mappings@, capacity),
                holds_prefix(space, mappings@, i as int, capacity),
            decreases mappings@.len() - i,
        {
            let (range, permissions) = mappings[i];
            let ghost before = space;
            proof {
                assert(mappings@[i as int] == (range, permissions));
                if fits {
                    lemma_fits_next(before, mappings@, i as int);
                }
            }
            let res = space.identity_map_range(range, permissions);
            match res {
                Ok(update) => {
                    update.do_not_flush();
                },
                Err(e) => {
                    proof {
                        reveal(map_range_result);
                        assert(holds_prefix(before, mappings@, i as int, capacity));
                        assert(space.wf());
                        assert(refused_at(mappings@, i as int, capacity, e));
                    }
                    return Err(e);
                },
            }
            proof {
                lemma_mappings_step(before, space, mappings@, i as int, capacity, res);
            }
            i = i + 1;
        }
        proof {
            assert(mappings@.subrange(0, mappings@.len() as int) =~= mappings@);
        }
        Ok(space)
    }
}

impl AddressSpace {
    /// What `range_fits` says: the permissions suit a leaf, the range
    /// reaches no Sv39 slot twice, none of its aliases is mapped, and two
    /// frames per 4 KiB page remain for new tables.
    pub proof fn lemma_range_fits(&self, vs: usize, ve: usize, perms: u8)
        ensures
            self.range_fits(vs, ve, perms) == {
                let n = span(vs as int, ve as int);
                &&& leaf_permissions_allowed(perms)
                &&& n <= sv39_span()
                &&& forall|v: usize| aliases(vs, ve, v) ==> (#[trigger] self.lookup(v)) is None
                &&& self.num_tables() + 2 * (n / 4096) <= self.spec_capacity()
            },
    {
        reveal(AddressSpace::range_fits);
    }

    /// Whether a range fits depends on the translations, the number of
    /// tables and the number of frames of the space alone.
    pub proof fn lemma_range_fits_same(&self, other: &Self, vs: usize, ve: usize, perms: u8)
        requires
            forall|v: usize| #[trigger] self.lookup(v) == other.lookup(v),
            self.num_tables() == other.num_tables(),
            self.spec_capacity() == other.spec_capacity(),
        ensures
            self.range_fits(vs, ve, perms) == other.range_fits(vs, ve, perms),
    {
        reveal(AddressSpace::range_fits);
        if self.range_fits(vs, ve, perms) {
            assert forall|v: usize| aliases(vs, ve, v) implies (#[trigger] other.lookup(v)) is None by {
                assert(self.lookup(v) == other.lookup(v));
            }
        }
        if other.range_fits(vs, ve, perms) {
            assert forall|v: usize| aliases(vs, ve, v) implies (#[trigger] self.lookup(v)) is None by {
                assert(self.lookup(v) == other.lookup(v));
            }
        }
    }

    /// A well-formed address space holds at least its root table and no
    /// more tables than it has frames for.
    pub proof fn lemma_wf_capacity(&self)
        requires
            self.wf(),
        ensures
            1 <= self.num_tables() <= self.spec_capacity(),
    {
    }
}

/// An all-zero entry is not valid.
pub proof fn lemma_zero_invalid()
    ensures
        !pte_valid(0),
        !is_table_ptr(0),
{
    assert(!(0u64 & 1u64 == 1u64)) by (bit_vector);
}

/// Table indices are below 512.
pub proof fn lemma_vpn_bounds(v: usize)
    ensures
        vpn0_of(v) < 512,
        vpn1_of(v) < 512,
        vpn2_of(v) < 512,
{
    assert((v >> 12usize) & 0x1ffusize < 512) by (bit_vector);
    assert((v >> 21usize) & 0x1ffusize < 512) by (bit_vector);
    assert((v >> 30usize) & 0x1ffusize < 512) by (bit_vector);
}

} // verus!
