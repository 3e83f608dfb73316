//! Mapping gives one answer: two runs of `map_range` from the same address
//! space agree, and a list of identity mappings is refused at its first
//! failing mapping only, with one error.
use vstd::prelude::*;

use crate::mmu::addr::{
    aliases, covers, identity_physical, lemma_near_addresses_differ, span, sv39_bits, AddressRange,
    PageType, PhysicalAddr, VirtualAddr,
};
use crate::mmu::pte::{
    leaf_permissions_allowed, InvalidPermissions, PagePermissions, PHYSICAL_LIMIT,
};
use crate::mmu::table::{
    global_tables, holds_mappings, holds_prefix, identity_pages, lemma_holds_mappings_lookups,
    lemma_range_pages_in_order, lemma_region_after_prefix, lemma_tables_added_same_lookups,
    map_range_result, mapped_prefix, mappings_consistent, maps_identity, page_refusal,
    range_error, range_pages, refused_at, region_unmapped, sv39_span, tables_added,
    tables_for_page, tables_wanted, target, AddressSpace,
};
use crate::mmu::{MapError, PageTableUpdate};

verus! {

/// A mapped prefix is at most 2^39 bytes long: past that, two of its
/// addresses would reach the same Sv39 slot with different targets.
proof fn lemma_prefix_short(
    old: AddressSpace,
    new: AddressSpace,
    vs: usize,
    c: usize,
    ps: u64,
    perms: u8,
)
    requires
        mapped_prefix(old, new, vs, c, ps, perms),
        vs <= c,
    ensures
        c - vs <= sv39_span(),
{
    if c - vs > sv39_span() {
        let v = (vs + 0x80_0000_0000) as usize;
        assert((vs as u64) & 0x7f_ffff_ffffu64 == (v as u64) & 0x7f_ffff_ffffu64) by (bit_vector)
            requires
                v == vs + 0x80_0000_0000,
        ;
        new.lemma_lookup_sv39(vs, v);
        assert(new.lookup(vs) == Some((target(vs, ps, vs), perms)));
        assert(new.lookup(v) == Some((target(vs, ps, v), perms)));
        assert(false) by (nonlinear_arith)
            requires
                (ps + 0x80_0000_0000) % 0x100_0000_0000_0000int == (ps as int)
                    % 0x100_0000_0000_0000int,
                ps >= 0,
        ;
    }
}

/// Two spaces with the same mapped prefix over the same space translate
/// every address alike.
proof fn lemma_prefix_lookups(
    old: AddressSpace,
    new1: AddressSpace,
    new2: AddressSpace,
    vs: usize,
    c: usize,
    ps: u64,
    perms: u8,
)
    requires
        mapped_prefix(old, new1, vs, c, ps, perms),
        mapped_prefix(old, new2, vs, c, ps, perms),
    ensures
        forall|v: usize| #[trigger] new1.lookup(v) == new2.lookup(v),
{
    assert forall|v: usize| #[trigger] new1.lookup(v) == new2.lookup(v) by {
        if aliases(vs, c, v) {
            let u = choose|u: usize| vs <= u < c && #[trigger] sv39_bits(u) == sv39_bits(v);
            new1.lemma_lookup_sv39(u, v);
            new2.lemma_lookup_sv39(u, v);
        }
    }
}

/// A page that one run refuses, and that lies in the prefix that another
/// run from the same space mapped, can only have been refused for want of
/// table frames.
proof fn lemma_refusal_not_in_prefix(
    old: AddressSpace,
    new_a: AddressSpace,
    new_b: AddressSpace,
    vs: usize,
    ca: usize,
    size: nat,
    cb: usize,
    ps: u64,
    permissions: PagePermissions,
    e: MapError,
)
    requires
        mapped_prefix(old, new_a, vs, ca, ps, permissions@),
        page_refusal(new_a, ca, size, permissions, e),
        mapped_prefix(old, new_b, vs, cb, ps, permissions@),
        vs <= ca,
        ca + size <= cb,
        leaf_permissions_allowed(permissions@),
    ensures
        e is TableMemoryExhausted,
{
    lemma_prefix_short(old, new_b, vs, cb, ps, permissions@);
    if exists|u: usize| ca <= u < ca + size && (#[trigger] new_a.lookup(u)) is Some {
        let u = choose|u: usize| ca <= u < ca + size && (#[trigger] new_a.lookup(u)) is Some;
        if aliases(vs, ca, u) {
            let w = choose|w: usize| vs <= w < ca && #[trigger] sv39_bits(w) == sv39_bits(u);
            lemma_near_addresses_differ(w, u);
        } else {
            assert(aliases(vs, cb, u));
        }
    }
}

/// The tables that the pages of a range take only add up.
proof fn lemma_tables_added_grows(
    old: AddressSpace,
    vs: usize,
    pages: Seq<(int, nat)>,
    i: int,
    j: int,
)
    requires
        0 <= i <= j,
    ensures
        tables_added(old, vs, pages, i) <= tables_added(old, vs, pages, j),
    decreases j - i,
{
    if i < j {
        lemma_tables_added_grows(old, vs, pages, i, j - 1);
    }
}

/// A run refused for want of frames at page `i` had, with page `i`, more
/// tables than frames.
proof fn lemma_exhausted_at(
    old: AddressSpace,
    new: AddressSpace,
    vs: usize,
    ps: u64,
    permissions: PagePermissions,
    pages: Seq<(int, nat)>,
    i: int,
)
    requires
        0 <= i < pages.len(),
        mapped_prefix(old, new, vs, pages[i].0 as usize, ps, permissions@),
        page_refusal(new, pages[i].0 as usize, pages[i].1, permissions, MapError::TableMemoryExhausted),
        new.num_tables() == old.num_tables() + tables_added(old, vs, pages, i),
        new.spec_capacity() == old.spec_capacity(),
    ensures
        old.spec_capacity() < old.num_tables() + tables_added(old, vs, pages, i + 1),
{
    let c = pages[i].0 as usize;
    lemma_region_after_prefix(old, new, vs, c, ps, permissions@, c, PageType::Huge);
    lemma_region_after_prefix(old, new, vs, c, ps, permissions@, c, PageType::Large);
    assert(tables_wanted(new, c, pages[i].1) == tables_for_page(old, vs, c, pages[i].1));
}

/// A range that one run from an address space maps in full is refused by
/// no run from that space.
proof fn lemma_mapped_not_refused(
    old: AddressSpace,
    new1: AddressSpace,
    new2: AddressSpace,
    virtual_range: AddressRange<VirtualAddr>,
    physical_range: AddressRange<PhysicalAddr>,
    permissions: PagePermissions,
    u1: PageTableUpdate,
    e2: MapError,
)
    requires
        map_range_result(old, new1, virtual_range, physical_range, permissions, Ok(u1)),
    ensures
        !map_range_result(old, new2, virtual_range, physical_range, permissions, Err(e2)),
{
    if map_range_result(old, new2, virtual_range, physical_range, permissions, Err(e2)) {
        reveal(map_range_result);
        let vs = virtual_range.start@;
        let ve = virtual_range.end@;
        let ps = physical_range.start@;
        let perms = permissions@;
        let n = span(vs as int, ve as int);
        let pages = range_pages(vs as int, ps as int, n as nat);
        if range_error(virtual_range, physical_range) is None && n > 0 {
            lemma_range_pages_in_order(vs as int, ps as int, n as nat);
            let i2 = choose|i: int|
                #![trigger pages[i]]
                0 <= i < pages.len() && {
                    let c = pages[i].0 as usize;
                    &&& mapped_prefix(old, new2, vs, c, ps, perms)
                    &&& forall|j: int|
                        0 <= j < i ==> #[trigger] new2.page_size_at(pages[j].0 as usize)
                            == Some(pages[j].1)
                    &&& page_refusal(new2, c, pages[i].1, permissions, e2)
                    &&& new2.num_tables() == old.num_tables() + tables_added(old, vs, pages, i)
                    &&& i == 0 ==> new2 == old
                };
            if e2 is TableMemoryExhausted {
                lemma_exhausted_at(old, new2, vs, ps, permissions, pages, i2);
                lemma_tables_added_grows(old, vs, pages, i2 + 1, pages.len() as int);
            } else {
                lemma_refusal_not_in_prefix(
                    old,
                    new2,
                    new1,
                    vs,
                    pages[i2].0 as usize,
                    pages[i2].1,
                    ve,
                    ps,
                    permissions,
                    e2,
                );
            }
        }
    }
}

/// Two runs from the same address space that are both refused report the
/// same error, leave every address translated alike and hold as many
/// tables.
proof fn lemma_refusals_agree(
    old: AddressSpace,
    new1: AddressSpace,
    new2: AddressSpace,
    virtual_range: AddressRange<VirtualAddr>,
    physical_range: AddressRange<PhysicalAddr>,
    permissions: PagePermissions,
    e1: MapError,
    e2: MapError,
)
    requires
        map_range_result(old, new1, virtual_range, physical_range, permissions, Err(e1)),
        map_range_result(old, new2, virtual_range, physical_range, permissions, Err(e2)),
    ensures
        e1 == e2,
        forall|v: usize| #[trigger] new1.lookup(v) == new2.lookup(v),
        new1.num_tables() == new2.num_tables(),
{
    reveal(map_range_result);
    let vs = virtual_range.start@;
    let ve = virtual_range.end@;
    let ps = physical_range.start@;
    let perms = permissions@;
    let n = span(vs as int, ve as int);
    let pages = range_pages(vs as int, ps as int, n as nat);
    if range_error(virtual_range, physical_range) is None && n > 0 {
        lemma_range_pages_in_order(vs as int, ps as int, n as nat);
        let i1 = choose|i: int|
            #![trigger pages[i]]
            0 <= i < pages.len() && {
                let c = pages[i].0 as usize;
                &&& mapped_prefix(old, new1, vs, c, ps, perms)
                &&& forall|j: int|
                    0 <= j < i ==> #[trigger] new1.page_size_at(pages[j].0 as usize)
                        == Some(pages[j].1)
                &&& page_refusal(new1, c, pages[i].1, permissions, e1)
                &&& new1.num_tables() == old.num_tables() + tables_added(old, vs, pages, i)
                &&& i == 0 ==> new1 == old
            };
        let i2 = choose|i: int|
            #![trigger pages[i]]
            0 <= i < pages.len() && {
                let c = pages[i].0 as usize;
                &&& mapped_prefix(old, new2, vs, c, ps, perms)
                &&& forall|j: int|
                    0 <= j < i ==> #[trigger] new2.page_size_at(pages[j].0 as usize)
                        == Some(pages[j].1)
                &&& page_refusal(new2, c, pages[i].1, permissions, e2)
                &&& new2.num_tables() == old.num_tables() + tables_added(old, vs, pages, i)
                &&& i == 0 ==> new2 == old
            };
        let c1 = pages[i1].0 as usize;
        let c2 = pages[i2].0 as usize;
        if i1 < i2 {
            assert(pages[i1].0 + pages[i1].1 <= pages[i2].0);
            if !leaf_permissions_allowed(perms) {
                assert(pages[0].0 + pages[0].1 <= pages[i2].0);
                assert(vs < c2);
                assert(sv39_bits(vs) >= 0);
                assert(aliases(vs, c2, vs));
                assert(new2.lookup(vs) != old.lookup(vs));
            }
            if e1 is TableMemoryExhausted {
                lemma_exhausted_at(old, new1, vs, ps, permissions, pages, i1);
                lemma_tables_added_grows(old, vs, pages, i1 + 1, i2);
            } else {
                lemma_refusal_not_in_prefix(
                    old,
                    new1,
                    new2,
                    vs,
                    c1,
                    pages[i1].1,
                    c2,
                    ps,
                    permissions,
                    e1,
                );
            }
        } else if i2 < i1 {
            assert(pages[i2].0 + pages[i2].1 <= pages[i1].0);
            if !leaf_permissions_allowed(perms) {
                assert(pages[0].0 + pages[0].1 <= pages[i1].0);
                assert(vs < c1);
                assert(sv39_bits(vs) >= 0);
                assert(aliases(vs, c1, vs));
                assert(new1.lookup(vs) != old.lookup(vs));
            }
            if e2 is TableMemoryExhausted {
                lemma_exhausted_at(old, new2, vs, ps, permissions, pages, i2);
                lemma_tables_added_grows(old, vs, pages, i2 + 1, i1);
            } else {
                lemma_refusal_not_in_prefix(
                    old,
                    new2,
                    new1,
                    vs,
                    c2,
                    pages[i2].1,
                    c1,
                    ps,
                    permissions,
                    e2,
                );
            }
        } else {
            lemma_prefix_lookups(old, new1, new2, vs, c1, ps, perms);
            match (e1, e2) {
                (MapError::Conflict(p1), MapError::Conflict(p2)) => {
                    VirtualAddr::lemma_view_injective(p1.start, p2.start);
                    VirtualAddr::lemma_view_injective(p1.end, p2.end);
                },
                (MapError::InvalidPermissions(a), MapError::InvalidPermissions(b)) => {
                    InvalidPermissions::lemma_same_permissions(a, b);
                },
                _ => {
                },
            }
        }
    }
}

/// Mapping a range gives one answer: two runs from the same address space
/// report the same result, leave every address translated alike and hold
/// as many tables.
pub proof fn lemma_map_range_result_unique(
    old: AddressSpace,
    new1: AddressSpace,
    new2: AddressSpace,
    virtual_range: AddressRange<VirtualAddr>,
    physical_range: AddressRange<PhysicalAddr>,
    permissions: PagePermissions,
    r1: Result<PageTableUpdate, MapError>,
    r2: Result<PageTableUpdate, MapError>,
)
    requires
        map_range_result(old, new1, virtual_range, physical_range, permissions, r1),
        map_range_result(old, new2, virtual_range, physical_range, permissions, r2),
    ensures
        r1 == r2,
        forall|v: usize| #[trigger] new1.lookup(v) == new2.lookup(v),
        new1.num_tables() == new2.num_tables(),
{
    match (r1, r2) {
        (Ok(u1), Ok(u2)) => {
            reveal(map_range_result);
            let vs = virtual_range.start@;
            let ve = virtual_range.end@;
            let ps = physical_range.start@;
            if range_error(virtual_range, physical_range) is None && span(vs as int, ve as int) > 0 {
                lemma_prefix_lookups(old, new1, new2, vs, ve, ps, permissions@);
            }
        },
        (Ok(u1), Err(e2)) => {
            lemma_mapped_not_refused(old, new1, new2, virtual_range, physical_range, permissions, u1, e2);
        },
        (Err(e1), Ok(u2)) => {
            lemma_mapped_not_refused(old, new2, new1, virtual_range, physical_range, permissions, u2, e1);
        },
        (Err(e1), Err(e2)) => {
            lemma_refusals_agree(old, new1, new2, virtual_range, physical_range, permissions, e1, e2);
        },
    }
}

/// A range that a space maps to itself is at most 2^39 bytes long: past
/// that, two of its addresses would reach the same Sv39 slot.
proof fn lemma_identity_range_short(
    space: AddressSpace,
    range: AddressRange<VirtualAddr>,
    permissions: PagePermissions,
)
    requires
        maps_identity(space, range, permissions),
        range.start@ <= range.end@,
    ensures
        range.end@ - range.start@ <= sv39_span(),
{
    let vs = range.start@;
    if range.end@ - vs > sv39_span() {
        let v = (vs + 0x80_0000_0000) as usize;
        assert((vs as u64) & 0x7f_ffff_ffffu64 == (v as u64) & 0x7f_ffff_ffffu64) by (bit_vector)
            requires
                v == vs + 0x80_0000_0000,
        ;
        space.lemma_lookup_sv39(vs, v);
        assert(space.lookup(vs) == Some((vs as int % (PHYSICAL_LIMIT as int), permissions@)));
        assert(space.lookup(v) == Some((v as int % (PHYSICAL_LIMIT as int), permissions@)));
        assert(false) by (nonlinear_arith)
            requires
                (vs + 0x80_0000_0000) % 0x100_0000_0000_0000int == (vs as int)
                    % 0x100_0000_0000_0000int,
                vs >= 0,
        ;
    }
}

/// The tables that the listed identity mappings take only add up.
proof fn lemma_global_tables_grow(
    mappings: Seq<(AddressRange<VirtualAddr>, PagePermissions)>,
    i: int,
    j: int,
)
    requires
        0 <= i <= j,
    ensures
        global_tables(mappings, i) <= global_tables(mappings, j),
    decreases j - i,
{
    if i < j {
        lemma_global_tables_grow(mappings, i, j - 1);
    }
}

/// A listed identity mapping that an address space holds together with the
/// ones before it is not refused after them.
proof fn lemma_held_mapping_not_refused(
    mappings: Seq<(AddressRange<VirtualAddr>, PagePermissions)>,
    i: int,
    j: int,
    capacity: u64,
    before: AddressSpace,
    after: AddressSpace,
    later: AddressSpace,
    e: MapError,
)
    requires
        0 <= i < j <= mappings.len(),
        holds_prefix(before, mappings, i, capacity),
        later.wf(),
        later.spec_capacity() == capacity,
        holds_mappings(later, mappings.subrange(0, j)),
        mappings_consistent(mappings.subrange(0, j)),
        later.num_tables() == 1 + global_tables(mappings, j),
    ensures
        !map_range_result(
            before,
            after,
            mappings[i].0,
            identity_physical(mappings[i].0),
            mappings[i].1,
            Err(e),
        ),
{
    if map_range_result(
        before,
        after,
        mappings[i].0,
        identity_physical(mappings[i].0),
        mappings[i].1,
        Err(e),
    ) {
        reveal(map_range_result);
        let range = mappings[i].0;
        let permissions = mappings[i].1;
        let vs = range.start@;
        let ve = range.end@;
        let ps = identity_physical(range).start@;
        let perms = permissions@;
        let n = span(vs as int, ve as int);
        let pages = range_pages(vs as int, ps as int, n as nat);
        let prefix_j = mappings.subrange(0, j);
        assert(prefix_j[i] == mappings[i]);
        assert(range_error(range, identity_physical(range)) is None);
        if n > 0 {
            assert(leaf_permissions_allowed(perms));
            lemma_range_pages_in_order(vs as int, ps as int, n as nat);
            let k = choose|k: int|
                #![trigger pages[k]]
                0 <= k < pages.len() && {
                    let c = pages[k].0 as usize;
                    &&& mapped_prefix(before, after, vs, c, ps, perms)
                    &&& forall|q: int|
                        0 <= q < k ==> #[trigger] after.page_size_at(pages[q].0 as usize) == Some(
                            pages[q].1,
                        )
                    &&& page_refusal(after, c, pages[k].1, permissions, e)
                    &&& after.num_tables() == before.num_tables() + tables_added(before, vs, pages, k)
                    &&& k == 0 ==> after == before
                };
            let c = pages[k].0 as usize;
            let size = pages[k].1;
            if exists|u: usize| c <= u < c + size && (#[trigger] after.lookup(u)) is Some {
                let u = choose|u: usize| c <= u < c + size && (#[trigger] after.lookup(u)) is Some;
                assert(maps_identity(later, range, permissions));
                lemma_identity_range_short(later, range, permissions);
                if aliases(vs, c, u) {
                    let w = choose|w: usize| vs <= w < c && #[trigger] sv39_bits(w) == sv39_bits(u);
                    lemma_near_addresses_differ(w, u);
                } else {
                    assert(before.lookup(u) is Some);
                    let prefix_i = mappings.subrange(0, i);
                    let q = choose|q: int|
                        0 <= q < prefix_i.len() && aliases(
                            #[trigger] prefix_i[q].0.start@,
                            prefix_i[q].0.end@,
                            u,
                        );
                    assert(prefix_i[q] == prefix_j[q]);
                    let w = choose|w: usize|
                        prefix_i[q].0.start@ <= w < prefix_i[q].0.end@ && #[trigger] sv39_bits(w)
                            == sv39_bits(u);
                    assert(prefix_j[q].0.start@ <= w < prefix_j[q].0.end@);
                    assert(prefix_j[i].0.start@ <= u < prefix_j[i].0.end@);
                    assert(sv39_bits(w) != sv39_bits(u));
                }
            } else {
                lemma_region_after_prefix(before, after, vs, c, ps, perms, c, PageType::Huge);
                lemma_region_after_prefix(before, after, vs, c, ps, perms, c, PageType::Large);
                assert(tables_wanted(after, c, size) == tables_for_page(before, vs, c, size));
                lemma_tables_added_grows(before, vs, pages, k + 1, pages.len() as int);
                let chosen = choose|s: AddressSpace| #[trigger] holds_mappings(s, mappings.subrange(0, i + 1 - 1));
                assert(mappings.subrange(0, i + 1 - 1) == mappings.subrange(0, i));
                lemma_holds_mappings_lookups(chosen, before, mappings.subrange(0, i));
                lemma_tables_added_same_lookups(chosen, before, vs, pages, pages.len() as int);
                assert(identity_pages(range) == pages);
                assert(global_tables(mappings, i + 1) == global_tables(mappings, i) + tables_added(
                    before,
                    vs,
                    pages,
                    pages.len() as int,
                ));
                lemma_global_tables_grow(mappings, i + 1, j);
                later.lemma_wf_capacity();
            }
        }
    }
}

/// The listed identity mappings are refused at the first mapping that fails
/// only: no list is refused at two different mappings.
pub proof fn lemma_refusal_is_first(
    mappings: Seq<(AddressRange<VirtualAddr>, PagePermissions)>,
    i: int,
    j: int,
    capacity: u64,
    e1: MapError,
    e2: MapError,
)
    requires
        0 <= i < mappings.len(),
        0 <= j < mappings.len(),
        refused_at(mappings, i, capacity, e1),
        refused_at(mappings, j, capacity, e2),
    ensures
        i == j,
{
    let (b1, a1) = choose|before: AddressSpace, after: AddressSpace|
        #![trigger holds_prefix(before, mappings, i, capacity), after.wf()]
        holds_prefix(before, mappings, i, capacity) && after.wf() && map_range_result(
            before,
            after,
            mappings[i].0,
            identity_physical(mappings[i].0),
            mappings[i].1,
            Err(e1),
        );
    let (b2, a2) = choose|before: AddressSpace, after: AddressSpace|
        #![trigger holds_prefix(before, mappings, j, capacity), after.wf()]
        holds_prefix(before, mappings, j, capacity) && after.wf() && map_range_result(
            before,
            after,
            mappings[j].0,
            identity_physical(mappings[j].0),
            mappings[j].1,
            Err(e2),
        );
    if i < j {
        lemma_held_mapping_not_refused(mappings, i, j, capacity, b1, a1, b2, e1);
    } else if j < i {
        lemma_held_mapping_not_refused(mappings, j, i, capacity, b2, a2, b1, e2);
    }
}

/// A list that an address space holds in full, as `new_with_global_mappings`
/// leaves it, is refused at no mapping.
pub proof fn lemma_held_list_not_refused(
    space: AddressSpace,
    mappings: Seq<(AddressRange<VirtualAddr>, PagePermissions)>,
    i: int,
    capacity: u64,
    e: MapError,
)
    requires
        space.wf(),
        space.spec_capacity() == capacity,
        holds_mappings(space, mappings),
        mappings_consistent(mappings),
        space.num_tables() == 1 + global_tables(mappings, mappings.len() as int),
        0 <= i < mappings.len(),
    ensures
        !refused_at(mappings, i, capacity, e),
{
    assert(mappings.subrange(0, mappings.len() as int) =~= mappings);
    if refused_at(mappings, i, capacity, e) {
        let (b, a) = choose|before: AddressSpace, after: AddressSpace|
            #![trigger holds_prefix(before, mappings, i, capacity), after.wf()]
            holds_prefix(before, mappings, i, capacity) && after.wf() && map_range_result(
                before,
                after,
                mappings[i].0,
                identity_physical(mappings[i].0),
                mappings[i].1,
                Err(e),
            );
        lemma_held_mapping_not_refused(
            mappings,
            i,
            mappings.len() as int,
            capacity,
            b,
            a,
            space,
            e,
        );
    }
}

/// A run from an address space can be told as a run from any space that
/// translates alike and holds as many tables and frames: it gives the same
/// result and leaves a space that translates alike and holds as many
/// tables.
proof fn lemma_run_from_alike_space(
    old1: AddressSpace,
    old2: AddressSpace,
    new2: AddressSpace,
    virtual_range: AddressRange<VirtualAddr>,
    physical_range: AddressRange<PhysicalAddr>,
    permissions: PagePermissions,
    r: Result<PageTableUpdate, MapError>,
) -> (new1: AddressSpace)
    requires
        forall|v: usize| #[trigger] old1.lookup(v) == old2.lookup(v),
        old1.num_tables() == old2.num_tables(),
        old1.spec_capacity() == old2.spec_capacity(),
        map_range_result(old2, new2, virtual_range, physical_range, permissions, r),
    ensures
        map_range_result(old1, new1, virtual_range, physical_range, permissions, r),
        forall|v: usize| #[trigger] new1.lookup(v) == new2.lookup(v),
        new1.num_tables() == new2.num_tables(),
{
    reveal(map_range_result);
    let vs = virtual_range.start@;
    let ve = virtual_range.end@;
    let ps = physical_range.start@;
    let perms = permissions@;
    let n = span(vs as int, ve as int);
    let pages = range_pages(vs as int, ps as int, n as nat);
    old1.lemma_range_fits_same(&old2, vs, ve, perms);
    lemma_tables_added_same_lookups(old1, old2, vs, pages, pages.len() as int);
    if new2 == old2 {
        assert(map_range_result(old1, old1, virtual_range, physical_range, permissions, r)) by {
            if range_error(virtual_range, physical_range) is None && n > 0 {
                lemma_range_pages_in_order(vs as int, ps as int, n as nat);
                assert(sv39_bits(vs) >= 0);
                match r {
                    Ok(u) => {
                        assert(aliases(vs, ve, vs));
                        assert(old2.lookup(vs) is None);
                    },
                    Err(e) => {
                        let i = choose|i: int|
                            #![trigger pages[i]]
                            0 <= i < pages.len() && {
                                let c = pages[i].0 as usize;
                                &&& mapped_prefix(old2, new2, vs, c, ps, perms)
                                &&& forall|j: int|
                                    0 <= j < i ==> #[trigger] new2.page_size_at(pages[j].0 as usize)
                                        == Some(pages[j].1)
                                &&& page_refusal(new2, c, pages[i].1, permissions, e)
                                &&& new2.num_tables() == old2.num_tables() + tables_added(old2, vs, pages, i)
                                &&& i == 0 ==> new2 == old2
                            };
                        if i > 0 {
                            assert(pages[0].0 + pages[0].1 <= pages[i].0);
                            assert(aliases(vs, pages[i].0 as usize, vs));
                            assert(old2.lookup(vs) is None);
                        }
                        assert(i == 0);
                        lemma_page_refusal_same(old1, old2, vs, pages[0].1, permissions, e);
                        assert(mapped_prefix(old1, old1, vs, vs, ps, perms));
                    },
                }
            }
        }
        old1
    } else {
        assert(map_range_result(old1, new2, virtual_range, physical_range, permissions, r)) by {
            if range_error(virtual_range, physical_range) is None && n > 0 {
                assert forall|v: usize| aliases(vs, ve, v) implies (#[trigger] old1.lookup(v)) == old2.lookup(v) by {}
                match r {
                    Ok(u) => {
                        assert(tables_wanted(old1, vs, pages[0].1) == tables_wanted(old2, vs, pages[0].1)) by {
                            reveal(region_unmapped);
                            lemma_region_same(old1, old2, vs);
                        }
                        assert(mapped_prefix(old1, new2, vs, ve, ps, perms)) by {
                            assert forall|v: usize| !aliases(vs, ve, v) implies #[trigger] new2.lookup(v) == old1.lookup(v) by {
                                assert(old2.lookup(v) == old1.lookup(v));
                            }
                            assert forall|v: usize| aliases(vs, ve, v) implies (#[trigger] old1.lookup(v)) is None by {
                                assert(old2.lookup(v) == old1.lookup(v));
                            }
                        }
                    },
                    Err(e) => {
                        let i = choose|i: int|
                            #![trigger pages[i]]
                            0 <= i < pages.len() && {
                                let c = pages[i].0 as usize;
                                &&& mapped_prefix(old2, new2, vs, c, ps, perms)
                                &&& forall|j: int|
                                    0 <= j < i ==> #[trigger] new2.page_size_at(pages[j].0 as usize)
                                        == Some(pages[j].1)
                                &&& page_refusal(new2, c, pages[i].1, permissions, e)
                                &&& new2.num_tables() == old2.num_tables() + tables_added(old2, vs, pages, i)
                                &&& i == 0 ==> new2 == old2
                            };
                        lemma_tables_added_same_lookups(old1, old2, vs, pages, i);
                        let c = pages[i].0 as usize;
                        assert(mapped_prefix(old1, new2, vs, c, ps, perms)) by {
                            assert forall|v: usize| !aliases(vs, c, v) implies #[trigger] new2.lookup(v) == old1.lookup(v) by {
                                assert(old2.lookup(v) == old1.lookup(v));
                            }
                            assert forall|v: usize| aliases(vs, c, v) implies (#[trigger] old1.lookup(v)) is None by {
                                assert(old2.lookup(v) == old1.lookup(v));
                            }
                        }
                    },
                }
            }
            assert forall|v: usize| (#[trigger] old1.lookup(v)) is Some implies new2.lookup(v) == old1.lookup(v) by {
                assert(old2.lookup(v) == old1.lookup(v));
            }
        }
        new2
    }
}

/// Spaces that translate alike have the same empty regions.
proof fn lemma_region_same(a: AddressSpace, b: AddressSpace, va: usize)
    requires
        forall|v: usize| #[trigger] a.lookup(v) == b.lookup(v),
    ensures
        region_unmapped(a, va, PageType::Huge) == region_unmapped(b, va, PageType::Huge),
        region_unmapped(a, va, PageType::Large) == region_unmapped(b, va, PageType::Large),
{
    reveal(region_unmapped);
    assert forall|level: PageType| #[trigger] region_unmapped(a, va, level)
        == region_unmapped(b, va, level) by {
        if region_unmapped(a, va, level) {
            assert forall|v: usize| covers(va, level, v) implies (#[trigger] b.lookup(v)) is None by {
                assert(a.lookup(v) == b.lookup(v));
            }
        }
        if region_unmapped(b, va, level) {
            assert forall|v: usize| covers(va, level, v) implies (#[trigger] a.lookup(v)) is None by {
                assert(a.lookup(v) == b.lookup(v));
            }
        }
    }
}

/// Spaces that translate alike and hold as many tables and frames refuse a
/// page alike.
proof fn lemma_page_refusal_same(
    a: AddressSpace,
    b: AddressSpace,
    c: usize,
    size: nat,
    permissions: PagePermissions,
    e: MapError,
)
    requires
        forall|v: usize| #[trigger] a.lookup(v) == b.lookup(v),
        a.num_tables() == b.num_tables(),
        a.spec_capacity() == b.spec_capacity(),
        page_refusal(b, c, size, permissions, e),
    ensures
        page_refusal(a, c, size, permissions, e),
{
    lemma_region_same(a, b, c);
    if exists|u: usize| c <= u < c + size && (#[trigger] b.lookup(u)) is Some {
        let u = choose|u: usize| c <= u < c + size && (#[trigger] b.lookup(u)) is Some;
        assert(a.lookup(u) == b.lookup(u));
    }
}

/// The first listed identity mapping that fails is refused with one error
/// only.
pub proof fn lemma_refusal_error_unique(
    mappings: Seq<(AddressRange<VirtualAddr>, PagePermissions)>,
    i: int,
    capacity: u64,
    e1: MapError,
    e2: MapError,
)
    requires
        0 <= i < mappings.len(),
        refused_at(mappings, i, capacity, e1),
        refused_at(mappings, i, capacity, e2),
    ensures
        e1 == e2,
{
    let (b1, a1) = choose|before: AddressSpace, after: AddressSpace|
        #![trigger holds_prefix(before, mappings, i, capacity), after.wf()]
        holds_prefix(before, mappings, i, capacity) && after.wf() && map_range_result(
            before,
            after,
            mappings[i].0,
            identity_physical(mappings[i].0),
            mappings[i].1,
            Err(e1),
        );
    let (b2, a2) = choose|before: AddressSpace, after: AddressSpace|
        #![trigger holds_prefix(before, mappings, i, capacity), after.wf()]
        holds_prefix(before, mappings, i, capacity) && after.wf() && map_range_result(
            before,
            after,
            mappings[i].0,
            identity_physical(mappings[i].0),
            mappings[i].1,
            Err(e2),
        );
    lemma_holds_mappings_lookups(b1, b2, mappings.subrange(0, i));
    let a2_from_b1 = lemma_run_from_alike_space(
        b1,
        b2,
        a2,
        mappings[i].0,
        identity_physical(mappings[i].0),
        mappings[i].1,
        Err(e2),
    );
    lemma_map_range_result_unique(
        b1,
        a1,
        a2_from_b1,
        mappings[i].0,
        identity_physical(mappings[i].0),
        mappings[i].1,
        Err(e1),
        Err(e2),
    );
}

} // verus!
