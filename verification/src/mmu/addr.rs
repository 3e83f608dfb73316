//! Physical and virtual addresses, page sizes and address ranges.
use vstd::prelude::*;

verus! {

/// Number of bytes in a 4 KiB page.
pub const SMALL_PAGE_BYTES: usize = 4096;

/// Number of bytes in a 2 MiB page.
pub const LARGE_PAGE_BYTES: usize = 0x20_0000;

/// Number of bytes in a 1 GiB page.
pub const HUGE_PAGE_BYTES: usize = 0x4000_0000;

/// The sizes of the pages that an Sv39 page table can map.
#[derive(Clone, Copy, PartialEq, Eq, Debug, Structural)]
pub enum PageType {
    Small,
    Large,
    Huge,
}

impl PageType {
    /// The number of bytes that a page of this type spans.
    pub open spec fn bytes(self) -> nat {
        match self {
            PageType::Small => 4096,
            PageType::Large => 0x20_0000,
            PageType::Huge => 0x4000_0000,
        }
    }

    pub fn size(self) -> (r: usize)
        ensures
            r == self.bytes(),
    {
        match self {
            PageType::Small => SMALL_PAGE_BYTES,
            PageType::Large => LARGE_PAGE_BYTES,
            PageType::Huge => HUGE_PAGE_BYTES,
        }
    }
}

/// The smallest multiple of `step` that is at least `x`.
pub open spec fn round_up(x: int, step: int) -> int {
    if x % step == 0 {
        x
    } else {
        x + (step - x % step)
    }
}

/// Index into the level-0 table (bits 12..21 of a virtual address).
pub open spec fn vpn0_of(v: usize) -> usize {
    (v >> 12usize) & 0x1ffusize
}

/// Index into the level-1 table (bits 21..30 of a virtual address).
pub open spec fn vpn1_of(v: usize) -> usize {
    (v >> 21usize) & 0x1ffusize
}

/// Index into the root table (bits 30..39 of a virtual address).
pub open spec fn vpn2_of(v: usize) -> usize {
    (v >> 30usize) & 0x1ffusize
}

/// The 39 low bits of a virtual address: all that an Sv39 page walk reads.
pub open spec fn sv39_bits(v: usize) -> u64 {
    (v as u64) & 0x7f_ffff_ffffu64
}

/// Whether `va` and `v` lie in the same page of the given type, as an Sv39
/// walk sees them: the table indices that select the page agree.
pub open spec fn covers(va: usize, page_type: PageType, v: usize) -> bool {
    &&& vpn2_of(v) == vpn2_of(va)
    &&& (page_type != PageType::Huge ==> vpn1_of(v) == vpn1_of(va))
    &&& (page_type == PageType::Small ==> vpn0_of(v) == vpn0_of(va))
}

/// Whether some address of `[start, end)` has the same 39 low bits as `v`,
/// so that an Sv39 walk cannot tell them apart.
pub open spec fn aliases(start: usize, end: usize, v: usize) -> bool {
    exists|u: usize| start <= u < end && #[trigger] sv39_bits(u) == sv39_bits(v)
}

/// An address of an aligned page lies in that page, at its distance from
/// the page's start.
pub proof fn lemma_in_page(va: usize, page_type: PageType, u: usize)
    requires
        va as nat % page_type.bytes() == 0,
        va <= u < va + page_type.bytes(),
    ensures
        covers(va, page_type, u),
        u as nat % page_type.bytes() == u - va,
{
    match page_type {
        PageType::Small => {
            assert(va % 4096 == 0 && va <= u && u < va + 4096 ==> (u >> 12usize) & 0x1ffusize == (va
                >> 12usize) & 0x1ffusize && (u >> 21usize) & 0x1ffusize == (va >> 21usize) & 0x1ffusize
                && (u >> 30usize) & 0x1ffusize == (va >> 30usize) & 0x1ffusize && u % 4096 == u - va)
                by (bit_vector);
        },
        PageType::Large => {
            assert(va % 0x20_0000 == 0 && va <= u && u < va + 0x20_0000 ==> (u >> 21usize)
                & 0x1ffusize == (va >> 21usize) & 0x1ffusize && (u >> 30usize) & 0x1ffusize == (va
                >> 30usize) & 0x1ffusize && u % 0x20_0000 == u - va) by (bit_vector);
        },
        PageType::Huge => {
            assert(va % 0x4000_0000 == 0 && va <= u && u < va + 0x4000_0000 ==> (u >> 30usize)
                & 0x1ffusize == (va >> 30usize) & 0x1ffusize && u % 0x4000_0000 == u - va)
                by (bit_vector);
        },
    }
}

/// An address that an Sv39 walk places in the page at `va` has an alias
/// inside that page.
pub proof fn lemma_covered_has_alias(va: usize, page_type: PageType, v: usize)
    requires
        va as nat % page_type.bytes() == 0,
        va + page_type.bytes() <= usize::MAX + 1,
        covers(va, page_type, v),
    ensures
        aliases(va, (va + page_type.bytes()) as usize, v) || va + page_type.bytes() == usize::MAX + 1,
{
    if va + page_type.bytes() <= usize::MAX {
        let end = (va + page_type.bytes()) as usize;
        match page_type {
            PageType::Small => {
                let u = (va + v % 4096) as usize;
                assert(u == va + v % 4096);
                assert(va % 4096 == 0 && (v >> 12usize) & 0x1ffusize == (va
                    >> 12usize) & 0x1ffusize && (v >> 21usize) & 0x1ffusize == (va >> 21usize)
                    & 0x1ffusize && (v >> 30usize) & 0x1ffusize == (va >> 30usize) & 0x1ffusize && u
                    == va + v % 4096 ==> va <= u && u < va + 4096 && (u as u64) & 0x7f_ffff_ffffu64
                    == (v as u64) & 0x7f_ffff_ffffu64) by (bit_vector);
                assert(sv39_bits(u) == sv39_bits(v));
            },
            PageType::Large => {
                let u = (va + v % 0x20_0000) as usize;
                assert(u == va + v % 0x20_0000);
                assert(va % 0x20_0000 == 0 && (v >> 21usize)
                    & 0x1ffusize == (va >> 21usize) & 0x1ffusize && (v >> 30usize) & 0x1ffusize == (va
                    >> 30usize) & 0x1ffusize && u == va + v % 0x20_0000 ==> va <= u && u < va
                    + 0x20_0000 && (u as u64) & 0x7f_ffff_ffffu64 == (v as u64) & 0x7f_ffff_ffffu64)
                    by (bit_vector);
                assert(sv39_bits(u) == sv39_bits(v));
            },
            PageType::Huge => {
                let u = (va + v % 0x4000_0000) as usize;
                assert(u == va + v % 0x4000_0000);
                assert(va % 0x4000_0000 == 0 && (v >> 30usize)
                    & 0x1ffusize == (va >> 30usize) & 0x1ffusize && u == va + v % 0x4000_0000 ==> va
                    <= u && u < va + 0x4000_0000 && (u as u64) & 0x7f_ffff_ffffu64 == (v as u64)
                    & 0x7f_ffff_ffffu64) by (bit_vector);
                assert(sv39_bits(u) == sv39_bits(v));
            },
        }
    }
}

/// Addresses with the same 39 low bits have the same table indices and the
/// same offsets within every page size.
pub proof fn lemma_same_sv39(u: usize, v: usize)
    requires
        sv39_bits(u) == sv39_bits(v),
    ensures
        vpn0_of(u) == vpn0_of(v),
        vpn1_of(u) == vpn1_of(v),
        vpn2_of(u) == vpn2_of(v),
        u % 4096 == v % 4096,
        u % 0x20_0000 == v % 0x20_0000,
        u % 0x4000_0000 == v % 0x4000_0000,
{
    assert((u as u64) & 0x7f_ffff_ffffu64 == (v as u64) & 0x7f_ffff_ffffu64 ==> {
        &&& (u >> 12usize) & 0x1ffusize == (v >> 12usize) & 0x1ffusize
        &&& (u >> 21usize) & 0x1ffusize == (v >> 21usize) & 0x1ffusize
        &&& (u >> 30usize) & 0x1ffusize == (v >> 30usize) & 0x1ffusize
        &&& u % 4096 == v % 4096
        &&& u % 0x20_0000 == v % 0x20_0000
        &&& u % 0x4000_0000 == v % 0x4000_0000
    }) by (bit_vector);
}

/// Two addresses less than 2^39 bytes apart differ in their 39 low bits.
pub proof fn lemma_near_addresses_differ(u1: usize, u2: usize)
    requires
        u1 < u2,
        u2 - u1 < 0x80_0000_0000,
    ensures
        sv39_bits(u1) != sv39_bits(u2),
{
    assert(u1 < u2 && (u2 as u64) - (u1 as u64) < 0x80_0000_0000u64 ==> (u1 as u64)
        & 0x7f_ffff_ffffu64 != (u2 as u64) & 0x7f_ffff_ffffu64) by (bit_vector);
}

/// `va` with its level-1 index replaced by `j` and its level-0 index by `k`.
pub open spec fn with_low_indices(va: usize, j: usize, k: usize) -> usize {
    (va & !0x3fff_f000usize) | (j << 21usize) | (k << 12usize)
}

/// `va` with its level-0 index replaced by `k`.
pub open spec fn with_vpn0(va: usize, k: usize) -> usize {
    (va & !0x1f_f000usize) | (k << 12usize)
}

/// The indices of the addresses built by `with_low_indices` and `with_vpn0`.
pub proof fn lemma_with_indices(va: usize, j: usize, k: usize)
    requires
        j < 512,
        k < 512,
    ensures
        vpn2_of(with_low_indices(va, j, k)) == vpn2_of(va),
        vpn1_of(with_low_indices(va, j, k)) == j,
        vpn0_of(with_low_indices(va, j, k)) == k,
        vpn2_of(with_vpn0(va, k)) == vpn2_of(va),
        vpn1_of(with_vpn0(va, k)) == vpn1_of(va),
        vpn0_of(with_vpn0(va, k)) == k,
{
    assert(j < 512 && k < 512 ==> {
        let w = (va & !0x3fff_f000usize) | (j << 21usize) | (k << 12usize);
        &&& (w >> 30usize) & 0x1ffusize == (va >> 30usize) & 0x1ffusize
        &&& (w >> 21usize) & 0x1ffusize == j
        &&& (w >> 12usize) & 0x1ffusize == k
    }) by (bit_vector);
    assert(k < 512 ==> {
        let w = (va & !0x1f_f000usize) | (k << 12usize);
        &&& (w >> 30usize) & 0x1ffusize == (va >> 30usize) & 0x1ffusize
        &&& (w >> 21usize) & 0x1ffusize == (va >> 21usize) & 0x1ffusize
        &&& (w >> 12usize) & 0x1ffusize == k
    }) by (bit_vector);
}

/// A physical address.
#[derive(Clone, Copy, PartialEq, Eq, PartialOrd, Ord, Debug, Structural)]
pub struct PhysicalAddr(u64);

impl View for PhysicalAddr {
    type V = u64;

    closed spec fn view(&self) -> u64 {
        self.0
    }
}

impl PhysicalAddr {
    /// The physical address with the given value.
    pub closed spec fn from_value(addr: u64) -> Self {
        PhysicalAddr(addr)
    }

    pub broadcast proof fn lemma_from_value(addr: u64)
        ensures
            #[trigger] Self::from_value(addr)@ == addr,
    {
    }

    /// A physical address is its value.
    pub proof fn lemma_view_injective(a: Self, b: Self)
        requires
            a@ == b@,
        ensures
            a == b,
    {
    }

    pub fn new(addr: u64) -> (r: Self)
        ensures
            r@ == addr,
            r == Self::from_value(addr),
    {
        Self(addr)
    }

    pub fn get(self) -> (r: u64)
        ensures
            r == self@,
    {
        self.0
    }

    /// The physical page number.
    pub fn ppn(self) -> (r: u64)
        ensures
            r == self@ >> 12u64,
            r == self@ / 4096,
    {
        let a = self.0;
        assert((a >> 12u64) == a / 4096) by (bit_vector);
        a >> 12
    }

    /// The address of the first byte of physical page `ppn`.
    pub fn from_ppn(ppn: u64) -> (r: Self)
        requires
            ppn < 0x10_0000_0000_0000,
        ensures
            r@ == ppn * 4096,
            r@ % 4096 == 0,
    {
        assert(ppn < 0x10_0000_0000_0000 ==> ppn << 12u64 == ppn * 4096) by (bit_vector);
        Self(ppn << 12)
    }

    /// The page of the given type that starts at this address.
    pub fn page(self, page_type: PageType) -> (r: AddressRange<Self>)
        requires
            self@ + page_type.bytes() <= u64::MAX,
        ensures
            r.start == self,
            r.end@ == self@ + page_type.bytes(),
    {
        AddressRange::new(self, Self(self.0 + page_type.size() as u64))
    }

    /// The virtual address equal to this physical address.
    pub fn identity_mapped_virtual(self) -> (r: VirtualAddr)
        ensures
            r@ == self@ as usize,
            r == VirtualAddr::from_value(self@ as usize),
    {
        VirtualAddr::new(self.0 as usize)
    }

    pub fn is_aligned(self, page_type: PageType) -> (r: bool)
        ensures
            r == (self@ as nat % page_type.bytes() == 0),
    {
        self.0.is_multiple_of(page_type.size() as u64)
    }

    /// The address `by` bytes further on; `by` may be negative.
    pub fn offset(self, by: isize) -> (r: Self)
        requires
            0 <= self@ + by <= u64::MAX,
        ensures
            r@ == self@ + by,
    {
        match self.0.checked_add_signed(by as i64) {
            Some(a) => Self::new(a),
            None => Self::new(0),
        }
    }
}

/// A virtual address.
#[derive(Clone, Copy, PartialEq, Eq, PartialOrd, Ord, Debug, Structural)]
pub struct VirtualAddr(usize);

impl View for VirtualAddr {
    type V = usize;

    closed spec fn view(&self) -> usize {
        self.0
    }
}

impl VirtualAddr {
    /// The virtual address with the given value.
    pub closed spec fn from_value(addr: usize) -> Self {
        VirtualAddr(addr)
    }

    pub broadcast proof fn lemma_from_value(addr: usize)
        ensures
            #[trigger] Self::from_value(addr)@ == addr,
    {
    }

    /// A virtual address is its value.
    pub proof fn lemma_view_injective(a: Self, b: Self)
        requires
            a@ == b@,
        ensures
            a == b,
    {
    }

    pub fn new(addr: usize) -> (r: Self)
        ensures
            r@ == addr,
            r == Self::from_value(addr),
    {
        Self(addr)
    }

    pub fn get(self) -> (r: usize)
        ensures
            r == self@,
    {
        self.0
    }

    pub fn vpn0(self) -> (r: usize)
        ensures
            r == vpn0_of(self@),
            r < 512,
    {
        let v = self.0;
        assert(((v >> 12usize) & 0x1ffusize) < 512) by (bit_vector);
        (v >> 12) & 0x1ff
    }

    pub fn vpn1(self) -> (r: usize)
        ensures
            r == vpn1_of(self@),
            r < 512,
    {
        let v = self.0;
        assert(((v >> 21usize) & 0x1ffusize) < 512) by (bit_vector);
        (v >> 21) & 0x1ff
    }

    pub fn vpn2(self) -> (r: usize)
        ensures
            r == vpn2_of(self@),
            r < 512,
    {
        let v = self.0;
        assert(((v >> 30usize) & 0x1ffusize) < 512) by (bit_vector);
        (v >> 30) & 0x1ff
    }

    /// The physical address equal to this virtual address.
    pub fn identity_mapped_physical(self) -> (r: PhysicalAddr)
        ensures
            r@ == self@ as u64,
            r == PhysicalAddr::from_value(self@ as u64),
    {
        PhysicalAddr::new(self.0 as u64)
    }

    pub fn is_aligned(self, page_type: PageType) -> (r: bool)
        ensures
            r == (self@ as nat % page_type.bytes() == 0),
    {
        self.0.is_multiple_of(page_type.size())
    }

    /// The address `by` bytes further on; `by` may be negative.
    pub fn offset(self, by: isize) -> (r: Self)
        requires
            0 <= self@ + by <= usize::MAX,
        ensures
            r@ == self@ + by,
    {
        match self.0.checked_add_signed(by) {
            Some(a) => Self::new(a),
            None => Self::new(0),
        }
    }

    /// The page of the given type that starts at this address.
    pub fn page(self, page_type: PageType) -> (r: AddressRange<Self>)
        requires
            self@ + page_type.bytes() <= usize::MAX,
        ensures
            r.start == self,
            r.end@ == self@ + page_type.bytes(),
    {
        AddressRange::new(self, Self(self.0 + page_type.size()))
    }
}

impl From<PhysicalAddr> for usize {
    fn from(value: PhysicalAddr) -> (r: usize)
        ensures
            r == value@ as usize,
    {
        value.get() as usize
    }
}

impl vstd::std_specs::convert::FromSpecImpl<PhysicalAddr> for usize {
    open spec fn obeys_from_spec() -> bool {
        true
    }

    open spec fn from_spec(v: PhysicalAddr) -> usize {
        v@ as usize
    }
}

impl From<usize> for VirtualAddr {
    fn from(value: usize) -> (r: VirtualAddr)
        ensures
            r == VirtualAddr::from_value(value),
    {
        Self::new(value)
    }
}

impl vstd::std_specs::convert::FromSpecImpl<usize> for VirtualAddr {
    open spec fn obeys_from_spec() -> bool {
        true
    }

    open spec fn from_spec(v: usize) -> VirtualAddr {
        VirtualAddr::from_value(v)
    }
}

impl From<VirtualAddr> for usize {
    fn from(value: VirtualAddr) -> (r: usize)
        ensures
            r == value@,
    {
        value.get()
    }
}

impl vstd::std_specs::convert::FromSpecImpl<VirtualAddr> for usize {
    open spec fn obeys_from_spec() -> bool {
        true
    }

    open spec fn from_spec(v: VirtualAddr) -> usize {
        v@
    }
}

/// The addresses `[start, end)`.
#[derive(Debug, Clone, Copy)]
pub struct AddressRange<T> {
    pub start: T,
    pub end: T,
}

impl<T> AddressRange<T> {
    /// Creates a new address range with addresses `[start, end)`.
    ///
    /// `start` is the first address in the range.
    /// `end` is the first address outside the range.
    pub fn new(start: T, end: T) -> (r: Self)
        ensures
            r.start == start,
            r.end == end,
    {
        Self { start, end }
    }
}

/// The physical range with the same bounds as a virtual range.
pub open spec fn identity_physical(range: AddressRange<VirtualAddr>) -> AddressRange<PhysicalAddr> {
    AddressRange {
        start: PhysicalAddr::from_value(range.start@ as u64),
        end: PhysicalAddr::from_value(range.end@ as u64),
    }
}

/// The virtual range with the same bounds as a physical range.
pub open spec fn identity_virtual(range: AddressRange<PhysicalAddr>) -> AddressRange<VirtualAddr> {
    AddressRange {
        start: VirtualAddr::from_value(range.start@ as usize),
        end: VirtualAddr::from_value(range.end@ as usize),
    }
}

/// The number of bytes in `[start, end)`, or zero when `end` comes first.
pub open spec fn span(start: int, end: int) -> int {
    if end >= start {
        end - start
    } else {
        0
    }
}

impl AddressRange<PhysicalAddr> {
    pub fn identity_mapped_virtual(&self) -> (r: AddressRange<VirtualAddr>)
        ensures
            r.start@ == self.start@ as usize,
            r.end@ == self.end@ as usize,
            r == identity_virtual(*self),
    {
        AddressRange::new(self.start.identity_mapped_virtual(), self.end.identity_mapped_virtual())
    }

    /// The number of bytes in the range.
    pub fn size(&self) -> (r: usize)
        ensures
            r == span(self.start@ as int, self.end@ as int) as usize,
    {
        self.end.get().saturating_sub(self.start.get()) as usize
    }

    /// The same range with its end rounded up to a multiple of the page size.
    pub fn with_aligned_end(self, page_type: PageType) -> (r: Self)
        requires
            round_up(self.end@ as int, page_type.bytes() as int) <= u64::MAX,
        ensures
            r.start == self.start,
            r.end@ == round_up(self.end@ as int, page_type.bytes() as int),
    {
        let step = page_type.size() as u64;
        let end = self.end.get();
        let rem = end % step;
        let aligned = if rem == 0 {
            end
        } else {
            end + (step - rem)
        };
        Self::new(self.start, PhysicalAddr::new(aligned))
    }
}

impl AddressRange<VirtualAddr> {
    pub fn identity_mapped_physical(&self) -> (r: AddressRange<PhysicalAddr>)
        ensures
            r.start@ == self.start@ as u64,
            r.end@ == self.end@ as u64,
            r == identity_physical(*self),
    {
        AddressRange::new(self.start.identity_mapped_physical(), self.end.identity_mapped_physical())
    }

    pub fn size(&self) -> (r: usize)
        ensures
            r == span(self.start@ as int, self.end@ as int),
    {
        self.end.get().saturating_sub(self.start.get())
    }

    /// The same range with its end rounded up to a multiple of the page size.
    pub fn with_aligned_end(self, page_type: PageType) -> (r: Self)
        requires
            round_up(self.end@ as int, page_type.bytes() as int) <= usize::MAX,
        ensures
            r.start == self.start,
            r.end@ == round_up(self.end@ as int, page_type.bytes() as int),
    {
        let step = page_type.size();
        let end = self.end.get();
        let rem = end % step;
        let aligned = if rem == 0 {
            end
        } else {
            end + (step - rem)
        };
        Self::new(self.start, VirtualAddr::new(aligned))
    }
}

/// Rounding up gives the least multiple of `step` that is not below `x`.
pub proof fn lemma_round_up(x: int, step: int)
    requires
        x >= 0,
        step > 0,
    ensures
        round_up(x, step) % step == 0,
        x <= round_up(x, step) < x + step,
        x % step == 0 ==> round_up(x, step) == x,
{
    let r = round_up(x, step);
    if x % step != 0 {
        assert((x + (step - x % step)) % step == 0) by (nonlinear_arith)
            requires
                step > 0,
                x >= 0,
        {
            assert(x == step * (x / step) + x % step);
            assert(x + (step - x % step) == step * (x / step + 1));
            vstd::arithmetic::div_mod::lemma_mod_multiples_basic(x / step + 1, step);
        }
    }
}

/// A virtual address is, as far as Sv39 is concerned, its three table
/// indices and its offset within a 4 KiB page.
pub proof fn lemma_sv39_decomposition(v: usize)
    ensures
        sv39_bits(v) as int == vpn2_of(v) as int * 0x4000_0000 + vpn1_of(v) as int * 0x20_0000
            + vpn0_of(v) as int * 0x1000 + v as int % 0x1000,
{
    assert((v as u64) & 0x7f_ffff_ffffu64 == ((v >> 30usize) & 0x1ffusize) as u64 * 0x4000_0000u64
        + ((v >> 21usize) & 0x1ffusize) as u64 * 0x20_0000u64 + ((v >> 12usize) & 0x1ffusize) as u64
        * 0x1000u64 + (v % 0x1000) as u64) by (bit_vector);
}

/// Identity mapping a physical address to a virtual one and back gives it
/// back, whenever it fits in a `usize`.
pub proof fn lemma_identity_round_trip_physical(p: PhysicalAddr)
    requires
        p@ <= usize::MAX,
    ensures
        PhysicalAddr::from_value(VirtualAddr::from_value(p@ as usize)@ as u64) == p,
{
}

/// Identity mapping a virtual address to a physical one and back gives it
/// back.
pub proof fn lemma_identity_round_trip_virtual(v: VirtualAddr)
    ensures
        VirtualAddr::from_value(PhysicalAddr::from_value(v@ as u64)@ as usize) == v,
{
}

/// Identity mapping a virtual range to a physical one and back gives it back.
pub proof fn lemma_identity_range_round_trip(range: AddressRange<VirtualAddr>)
    ensures
        identity_virtual(identity_physical(range)) == range,
{
    lemma_identity_round_trip_virtual(range.start);
    lemma_identity_round_trip_virtual(range.end);
}

/// The page number of an address names the 4 KiB page that holds it.
pub proof fn lemma_ppn_names_page(a: u64)
    ensures
        (a >> 12u64) * 4096 == a - a % 4096,
        (a >> 12u64) * 4096 <= a < (a >> 12u64) * 4096 + 4096,
{
    assert((a >> 12u64) * 4096 == a - a % 4096) by (bit_vector);
}

} // verus!
