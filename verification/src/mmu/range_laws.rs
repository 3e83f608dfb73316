//! What `map_range` answers, stated over its inputs: which requests it
//! refuses before touching a table, and where an accepted request sends
//! each address.
use vstd::prelude::*;

use crate::mmu::addr::{AddressRange, PhysicalAddr, VirtualAddr};
use crate::mmu::pte::{PagePermissions, PHYSICAL_LIMIT};
use crate::mmu::table::{map_range_result, AddressSpace};
use crate::mmu::{MapError, PageTableUpdate};

verus! {

/// Bytes from `start` up to `end`, none when `end` comes first.
pub open spec fn bytes_between(start: int, end: int) -> int {
    if end >= start {
        end - start
    } else {
        0
    }
}

/// `map_range` checks its request before it touches a table, in this
/// order: the virtual start, the virtual end, the physical start and the
/// physical end must be 4 KiB aligned, and the two ranges must hold as many
/// bytes. The first check that fails gives the error, and nothing changes.
pub proof fn lemma_map_range_refuses_bad_requests(
    old: AddressSpace,
    new: AddressSpace,
    virtual_range: AddressRange<VirtualAddr>,
    physical_range: AddressRange<PhysicalAddr>,
    permissions: PagePermissions,
    r: Result<PageTableUpdate, MapError>,
)
    requires
        map_range_result(old, new, virtual_range, physical_range, permissions, r),
    ensures
        ({
            let vs = virtual_range.start@;
            let ve = virtual_range.end@;
            let ps = physical_range.start@;
            let pe = physical_range.end@;
            &&& vs % 4096 != 0 ==> r == Err::<PageTableUpdate, MapError>(
                MapError::VirtualUnaligned(virtual_range.start),
            ) && new == old
            &&& vs % 4096 == 0 && ve % 4096 != 0 ==> r == Err::<PageTableUpdate, MapError>(
                MapError::VirtualUnaligned(virtual_range.end),
            ) && new == old
            &&& vs % 4096 == 0 && ve % 4096 == 0 && ps % 4096 != 0 ==> r == Err::<
                PageTableUpdate,
                MapError,
            >(MapError::PhysicalUnaligned(physical_range.start)) && new == old
            &&& vs % 4096 == 0 && ve % 4096 == 0 && ps % 4096 == 0 && pe % 4096 != 0 ==> r
                == Err::<PageTableUpdate, MapError>(MapError::PhysicalUnaligned(physical_range.end))
                && new == old
            &&& vs % 4096 == 0 && ve % 4096 == 0 && ps % 4096 == 0 && pe % 4096 == 0
                && bytes_between(vs as int, ve as int) != bytes_between(ps as int, pe as int) ==> r
                == Err::<PageTableUpdate, MapError>(
                MapError::MismatchedLength(virtual_range, physical_range),
            ) && new == old
        }),
{
    reveal(map_range_result);
}

/// When `map_range` accepts a request, the request was aligned and its two
/// ranges hold as many bytes, and every address of the virtual range is
/// sent, with the permissions asked for, to the address at the same
/// distance from the physical start, which lies inside the physical range
/// (cut to the 56 bits that Sv39 can name).
pub proof fn lemma_map_range_sends_into_physical_range(
    old: AddressSpace,
    new: AddressSpace,
    virtual_range: AddressRange<VirtualAddr>,
    physical_range: AddressRange<PhysicalAddr>,
    permissions: PagePermissions,
    update: PageTableUpdate,
)
    requires
        map_range_result(
            old,
            new,
            virtual_range,
            physical_range,
            permissions,
            Ok::<PageTableUpdate, MapError>(update),
        ),
    ensures
        ({
            let vs = virtual_range.start@;
            let ve = virtual_range.end@;
            let ps = physical_range.start@;
            let pe = physical_range.end@;
            &&& vs % 4096 == 0 && ve % 4096 == 0 && ps % 4096 == 0 && pe % 4096 == 0
            &&& bytes_between(vs as int, ve as int) == bytes_between(ps as int, pe as int)
            &&& forall|v: usize|
                vs <= v < ve ==> ps <= ps + (v - vs) < pe && #[trigger] new.lookup(v) == Some(
                    ((ps + (v - vs)) % (PHYSICAL_LIMIT as int), permissions@),
                )
        }),
{
    reveal(map_range_result);
}

} // verus!
