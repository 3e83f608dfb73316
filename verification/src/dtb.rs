//! Reading the boot device tree: the tree itself, the memory that it
//! describes and the ranges that the firmware reserved.
use vstd::prelude::*;

use device_tree_parser::{DeviceTreeNode, DeviceTreeParser, DtbError};

use crate::shutdown::{reg_ranges, translate_reg_addresses};

verus! {

/// The nodes that `DeviceTreeNode::iter_nodes` yields for the tree rooted at
/// `root`: the root first, then depth first.
pub uninterp spec fn tree_nodes(root: DeviceTreeNode) -> Seq<DeviceTreeNode>;

/// What `DeviceTreeNode::prop_string` returns for `node` and the property
/// named `name`.
pub uninterp spec fn property_string(node: DeviceTreeNode, name: Seq<char>) -> Option<Seq<char>>;

/// Calls `DeviceTreeParser::parse_tree` on the blob. The parser also checks
/// the alignment of the buffer in memory, so the result depends on where the
/// blob lies as well as on its bytes, and nothing is claimed of it. The
/// parser slices past the end of the structure block when a property there
/// fits but its padding does not (`tree_parse_overruns`, which reads the
/// bytes as a block that lies aligned would be read), hence the bound.
#[verifier::external_body]
fn parse_tree<'a>(dtb: &'a [u8]) -> Result<DeviceTreeNode<'a>, DtbError>
    requires
        !tree_parse_overruns(dtb@),
{
    DeviceTreeParser::new(dtb).parse_tree()
}

/// Calls `DeviceTreeNode::iter_nodes` and collects what it yields. The
/// result is claimed to depend on the tree alone.
#[verifier::external_body]
fn all_nodes<'a, 'b>(root: &'b DeviceTreeNode<'a>) -> (r: Vec<&'b DeviceTreeNode<'a>>)
    ensures
        r@.len() == tree_nodes(*root).len(),
        forall|i: int| 0 <= i < r@.len() ==> *r@[i] == tree_nodes(*root)[i],
{
    root.iter_nodes().collect()
}

/// Calls `DeviceTreeNode::prop_string`: the value of the string property
/// `name` of `node`. The result is claimed to depend on the node and the
/// name alone.
#[verifier::external_body]
fn prop_string<'a, 'b>(node: &'b DeviceTreeNode<'a>, name: &str) -> (r: Option<&'b str>)
    ensures
        match r {
            Some(s) => property_string(*node, name@) == Some(s@),
            None => property_string(*node, name@) is None,
        },
{
    node.prop_string(name)
}

/// The big-endian 32-bit number at byte `i` of `s`.
pub open spec fn be_u32_at(s: Seq<u8>, i: int) -> int {
    s[i] * 0x100_0000 + s[i + 1] * 0x1_0000 + s[i + 2] * 0x100 + s[i + 3]
}

/// Whether the memory-reservation block that the header of `dtb` names
/// starts inside the blob, where the header is a valid one.
pub open spec fn reservation_block_in_bounds(dtb: Seq<u8>) -> bool {
    dtb.len() >= 40 && be_u32_at(dtb, 0) == 0xd00d_feed ==> be_u32_at(dtb, 16) <= dtb.len()
}

/// The big-endian 64-bit number at byte `i` of `s`.
pub open spec fn be_u64_at(s: Seq<u8>, i: int) -> int {
    be_u32_at(s, i) * 0x1_0000_0000 + be_u32_at(s, i + 4)
}

/// The reservation entries from byte `pos` of `dtb` on: the 16-byte
/// big-endian (address, size) pairs that lie whole in the blob, up to the
/// first (0, 0) pair, which ends the list and is left out.
pub open spec fn reservations_from(dtb: Seq<u8>, pos: int) -> Seq<(u64, u64)>
    decreases dtb.len() - pos,
{
    if pos < 0 || pos + 16 > dtb.len() {
        Seq::empty()
    } else {
        let address = be_u64_at(dtb, pos) as u64;
        let size = be_u64_at(dtb, pos + 8) as u64;
        if address == 0 && size == 0 {
            Seq::empty()
        } else {
            seq![(address, size)] + reservations_from(dtb, pos + 16)
        }
    }
}

/// The reserved ranges that the blob lists: the entries of the reservation
/// block at the offset that the header gives.
pub open spec fn reservation_pairs(dtb: Seq<u8>) -> Seq<(u64, u64)> {
    reservations_from(dtb, be_u32_at(dtb, 16))
}

/// Calls `DeviceTreeParser::parse_memory_reservations` and turns each entry
/// into its (address, size) pair. On success these are the entries of the
/// reservation block (`reservation_pairs`). The parser also checks the
/// alignment of the block in memory, so whether it succeeds is not claimed.
/// It slices the blob at the block's offset, hence the bound.
#[verifier::external_body]
fn read_reservations(dtb: &[u8]) -> (r: Result<Vec<(u64, u64)>, DtbError>)
    requires
        reservation_block_in_bounds(dtb@),
    ensures
        r matches Ok(v) ==> v@ == reservation_pairs(dtb@),
{
    DeviceTreeParser::new(dtb).parse_memory_reservations().map(
        |v| v.into_iter().map(|m| (m.address, m.size)).collect(),
    )
}

/// Whether `node` describes memory: its `device_type` is `memory`.
pub open spec fn is_memory_node(node: DeviceTreeNode) -> bool {
    property_string(node, "device_type"@) == Some("memory"@)
}

/// The register ranges of the memory nodes among the first `k` of `nodes`,
/// in order, read with `parent` as their parent; or the first error met.
pub open spec fn memory_ranges_upto(
    nodes: Seq<DeviceTreeNode>,
    parent: DeviceTreeNode,
    k: int,
) -> Result<Seq<(u64, u64)>, DtbError>
    decreases k,
{
    if k <= 0 {
        Ok(Seq::empty())
    } else {
        match memory_ranges_upto(nodes, parent, k - 1) {
            Err(e) => Err(e),
            Ok(acc) => if is_memory_node(nodes[k - 1]) {
                match reg_ranges(nodes[k - 1], parent) {
                    Err(e) => Err(e),
                    Ok(regs) => Ok(acc + regs),
                }
            } else {
                Ok(acc)
            },
        }
    }
}

/// The memory that the tree rooted at `root` describes: the register ranges
/// of its memory nodes, in the order of a depth-first walk.
pub open spec fn memory_ranges_of(root: DeviceTreeNode) -> Result<Seq<(u64, u64)>, DtbError> {
    memory_ranges_upto(tree_nodes(root), root, tree_nodes(root).len() as int)
}

/// Once an error is met, it is the answer for every longer prefix.
proof fn lemma_error_stays(nodes: Seq<DeviceTreeNode>, parent: DeviceTreeNode, k: int, m: int)
    requires
        k <= m,
        memory_ranges_upto(nodes, parent, k) is Err,
    ensures
        memory_ranges_upto(nodes, parent, m) == memory_ranges_upto(nodes, parent, k),
    decreases m - k,
{
    if k < m {
        lemma_error_stays(nodes, parent, k, m - 1);
    }
}

/// Whether two strings hold the same characters.
fn same_str(a: &str, b: &str) -> (r: bool)
    ensures
        r == (a@ == b@),
{
    let x = a.to_owned();
    let y = b.to_owned();
    x == y
}

/// The memory ranges that the device tree rooted at `root` describes: the
/// register ranges of every node whose `device_type` is `memory`, read with
/// the root as their parent, or the first error met.
pub fn memory_regions(root: &DeviceTreeNode) -> (r: Result<Vec<(u64, u64)>, DtbError>)
    ensures
        match r {
            Ok(v) => memory_ranges_of(*root) == Ok::<Seq<(u64, u64)>, DtbError>(v@),
            Err(e) => memory_ranges_of(*root) == Err::<Seq<(u64, u64)>, DtbError>(e),
        },
{
    let nodes = all_nodes(root);
    let ghost seq = tree_nodes(*root);
    let mut out: Vec<(u64, u64)> = Vec::new();
    let mut i: usize = 0;
    while i < nodes.len()
        invariant
            seq == tree_nodes(*root),
            nodes@.len() == seq.len(),
            forall|j: int| 0 <= j < nodes@.len() ==> *nodes@[j] == seq[j],
            i <= nodes@.len(),
            memory_ranges_upto(seq, *root, i as int) == Ok::<Seq<(u64, u64)>, DtbError>(out@),
        decreases nodes@.len() - i,
    {
        let node = nodes[i];
        let memory = match prop_string(node, "device_type") {
            Some(t) => same_str(t, "memory"),
            None => false,
        };
        proof {
            assert(*node == seq[i as int]);
        }
        if memory {
            match translate_reg_addresses(node, root) {
                Ok(regs) => {
                    let mut j: usize = 0;
                    let ghost before = out@;
                    while j < regs.len()
                        invariant
                            j <= regs@.len(),
                            out@ == before + regs@.subrange(0, j as int),
                        decreases regs@.len() - j,
                    {
                        out.push(regs[j]);
                        j = j + 1;
                        assert(out@ == before + regs@.subrange(0, j as int));
                    }
                    assert(regs@.subrange(0, regs@.len() as int) == regs@);
                },
                Err(e) => {
                    proof {
                        lemma_error_stays(seq, *root, i + 1, seq.len() as int);
                    }
                    return Err(e);
                },
            }
        }
        i = i + 1;
    }
    Ok(out)
}

/// The register ranges of the memory nodes among `nodes`, read with `root`
/// as their parent: for each node in turn whose `device_type` is `memory`,
/// its ranges in their own order (none where they do not read).
pub open spec fn memory_ranges_in(nodes: Seq<DeviceTreeNode>, root: DeviceTreeNode) -> Seq<
    (u64, u64),
> {
    nodes.flat_map(
        |n: DeviceTreeNode|
            if property_string(n, "device_type"@) == Some("memory"@) {
                match reg_ranges(n, root) {
                    Ok(r) => r,
                    Err(_) => Seq::empty(),
                }
            } else {
                Seq::empty()
            },
    )
}

/// What the first `k` nodes give, told node by node.
proof fn lemma_memory_ranges_prefix(nodes: Seq<DeviceTreeNode>, root: DeviceTreeNode, k: int)
    requires
        0 <= k <= nodes.len(),
    ensures
        memory_ranges_upto(nodes, root, k) is Ok <==> forall|j: int|
            0 <= j < k && property_string(#[trigger] nodes[j], "device_type"@) == Some("memory"@)
                ==> reg_ranges(nodes[j], root) is Ok,
        memory_ranges_upto(nodes, root, k) matches Ok(v) ==> {
            &&& v == memory_ranges_in(nodes.take(k), root)
            &&& forall|j: int, m: int|
                0 <= j < k && property_string(nodes[j], "device_type"@) == Some(
                    "memory"@,
                ) && reg_ranges(nodes[j], root) is Ok && 0 <= m < reg_ranges(
                    nodes[j],
                    root,
                )->Ok_0.len() ==> #[trigger] v.contains(reg_ranges(nodes[j], root)->Ok_0[m])
        },
        memory_ranges_upto(nodes, root, k) matches Err(e) ==> exists|j: int|
            0 <= j < k && property_string(#[trigger] nodes[j], "device_type"@) == Some("memory"@)
                && reg_ranges(nodes[j], root) == Err::<Seq<(u64, u64)>, DtbError>(e) && forall|
                i: int,
            |
                0 <= i < j && property_string(#[trigger] nodes[i], "device_type"@) == Some(
                    "memory"@,
                ) ==> reg_ranges(nodes[i], root) is Ok,
    decreases k,
{
    if k == 0 {
        assert(nodes.take(0).map_values(
            |n: DeviceTreeNode|
                if property_string(n, "device_type"@) == Some("memory"@) {
                    match reg_ranges(n, root) {
                        Ok(r) => r,
                        Err(_) => Seq::empty(),
                    }
                } else {
                    Seq::empty()
                },
        ) =~= Seq::<Seq<(u64, u64)>>::empty());
    } else {
        lemma_memory_ranges_prefix(nodes, root, k - 1);
        let f = |n: DeviceTreeNode|
            if property_string(n, "device_type"@) == Some("memory"@) {
                match reg_ranges(n, root) {
                    Ok(r) => r,
                    Err(_) => Seq::empty(),
                }
            } else {
                Seq::empty()
            };
        let x = nodes[k - 1];
        assert(nodes.take(k) =~= nodes.take(k - 1).push(x));
        assert(nodes.take(k).map_values(f) =~= nodes.take(k - 1).map_values(f).push(f(x)));
        nodes.take(k - 1).map_values(f).lemma_flatten_push(f(x));
        assert(memory_ranges_in(nodes.take(k), root) == memory_ranges_in(nodes.take(k - 1), root)
            + f(x));
        match memory_ranges_upto(nodes, root, k - 1) {
            Ok(acc) => {
                if property_string(x, "device_type"@) == Some("memory"@) {
                    match reg_ranges(x, root) {
                        Ok(regs) => {
                            let v = acc + regs;
                            assert forall|j: int, m: int|
                                0 <= j < k && property_string(
                                    nodes[j],
                                    "device_type"@,
                                ) == Some("memory"@) && reg_ranges(nodes[j], root) is Ok && 0 <= m
                                    < reg_ranges(nodes[j], root)->Ok_0.len() implies #[trigger] v.contains(
                                reg_ranges(nodes[j], root)->Ok_0[m],
                            ) by {
                                if j < k - 1 {
                                    let w = reg_ranges(nodes[j], root)->Ok_0[m];
                                    assert(acc.contains(w));
                                    let idx = choose|idx: int| 0 <= idx < acc.len() && acc[idx] == w;
                                    assert(v[idx] == w);
                                } else {
                                    assert(v[acc.len() + m] == regs[m]);
                                }
                            }
                        },
                        Err(e) => {
                            assert(forall|i: int|
                                0 <= i < k - 1 && property_string(
                                    #[trigger] nodes[i],
                                    "device_type"@,
                                ) == Some("memory"@) ==> reg_ranges(nodes[i], root) is Ok);
                        },
                    }
                } else {
                    assert forall|j: int, m: int|
                        0 <= j < k && property_string(nodes[j], "device_type"@) == Some(
                            "memory"@,
                        ) && reg_ranges(nodes[j], root) is Ok && 0 <= m < reg_ranges(
                            nodes[j],
                            root,
                        )->Ok_0.len() implies #[trigger] acc.contains(reg_ranges(nodes[j], root)->Ok_0[m]) by {
                        assert(j < k - 1);
                    }
                    assert(acc + Seq::<(u64, u64)>::empty() =~= acc);
                }
            },
            Err(e) => {
                let j = choose|j: int|
                    0 <= j < k - 1 && property_string(#[trigger] nodes[j], "device_type"@) == Some(
                        "memory"@,
                    ) && reg_ranges(nodes[j], root) == Err::<Seq<(u64, u64)>, DtbError>(e) && forall|
                        i: int,
                    |
                        0 <= i < j && property_string(#[trigger] nodes[i], "device_type"@) == Some(
                            "memory"@,
                        ) ==> reg_ranges(nodes[i], root) is Ok;
                assert(!(reg_ranges(nodes[j], root) is Ok));
            },
        }
    }
}

/// The memory of the tree rooted at `root` is the register ranges of its
/// memory nodes (those whose `device_type` is `memory`), read with the root
/// as their parent: node after node in the order of the walk, each node's
/// ranges in their own order, so that every range of every memory node is
/// among them. It fails exactly when the registers of some memory node do
/// not read, and then with the error of the first such node.
pub proof fn lemma_memory_ranges_of(root: DeviceTreeNode)
    ensures
        ({
            let nodes = tree_nodes(root);
            &&& memory_ranges_of(root) is Ok <==> forall|j: int|
                0 <= j < nodes.len() && property_string(#[trigger] nodes[j], "device_type"@)
                    == Some("memory"@) ==> reg_ranges(nodes[j], root) is Ok
            &&& memory_ranges_of(root) matches Ok(v) ==> {
                &&& v == memory_ranges_in(nodes, root)
                &&& forall|j: int, m: int|
                    0 <= j < nodes.len() && property_string(nodes[j], "device_type"@)
                        == Some("memory"@) && reg_ranges(nodes[j], root) is Ok && 0 <= m
                        < reg_ranges(nodes[j], root)->Ok_0.len() ==> #[trigger] v.contains(
                        reg_ranges(nodes[j], root)->Ok_0[m],
                    )
            }
            &&& memory_ranges_of(root) matches Err(e) ==> exists|j: int|
                0 <= j < nodes.len() && property_string(#[trigger] nodes[j], "device_type"@)
                    == Some("memory"@) && reg_ranges(nodes[j], root) == Err::<
                    Seq<(u64, u64)>,
                    DtbError,
                >(e) && forall|i: int|
                    0 <= i < j && property_string(#[trigger] nodes[i], "device_type"@) == Some(
                        "memory"@,
                    ) ==> reg_ranges(nodes[i], root) is Ok
        }),
{
    let nodes = tree_nodes(root);
    lemma_memory_ranges_prefix(nodes, root, nodes.len() as int);
    assert(nodes.take(nodes.len() as int) =~= nodes);
}

/// Whether `b` may follow the first byte of a multi-byte UTF-8 sequence.
pub open spec fn utf8_continuation(b: u8) -> bool {
    0x80 <= b <= 0xbf
}

/// Whether `s` is well-formed UTF-8 (the Unicode standard, table 3-7): no
/// stray continuation byte, no overlong form, no surrogate, nothing past
/// U+10FFFF.
pub open spec fn valid_utf8(s: Seq<u8>) -> bool
    decreases s.len(),
{
    if s.len() == 0 {
        true
    } else {
        let b = s[0];
        let n: int = if b < 0x80 {
            1
        } else if 0xc2 <= b <= 0xdf {
            2
        } else if 0xe0 <= b <= 0xef {
            3
        } else if 0xf0 <= b <= 0xf4 {
            4
        } else {
            0
        };
        if n == 0 || s.len() < n {
            false
        } else {
            let second_ok = if n == 1 {
                true
            } else if b == 0xe0 {
                0xa0 <= s[1] <= 0xbf
            } else if b == 0xed {
                0x80 <= s[1] <= 0x9f
            } else if b == 0xf0 {
                0x90 <= s[1] <= 0xbf
            } else if b == 0xf4 {
                0x80 <= s[1] <= 0x8f
            } else {
                utf8_continuation(s[1])
            };
            &&& second_ok
            &&& (n < 3 || utf8_continuation(s[2]))
            &&& (n < 4 || utf8_continuation(s[3]))
            &&& valid_utf8(s.subrange(n, s.len() as int))
        }
    }
}

/// Calls `core::str::from_utf8`: whether the bytes are well-formed UTF-8,
/// as its documentation defines.
#[verifier::external_body]
fn is_utf8(bytes: &[u8]) -> (r: bool)
    ensures
        r == valid_utf8(bytes@),
{
    core::str::from_utf8(bytes).is_ok()
}

/// The first index in `[from, to)` at which `s` holds a zero byte, or `to`.
pub open spec fn first_zero(s: Seq<u8>, from: int, to: int) -> int
    decreases to - from,
{
    if from >= to {
        to
    } else if s[from] == 0 {
        from
    } else {
        first_zero(s, from + 1, to)
    }
}

/// The first zero byte, if any, lies in the range searched.
pub proof fn lemma_first_zero_bounds(s: Seq<u8>, from: int, to: int)
    requires
        from <= to,
    ensures
        from <= first_zero(s, from, to) <= to,
    decreases to - from,
{
    if from < to && s[from] != 0 {
        lemma_first_zero_bounds(s, from + 1, to);
    }
}

/// The first index in `[from, to)` at which `s` holds a zero byte, or `to`.
fn find_zero(s: &[u8], from: usize, to: usize) -> (r: usize)
    requires
        from <= to <= s@.len(),
    ensures
        r == first_zero(s@, from as int, to as int),
        from <= r <= to,
{
    let mut i = from;
    while i < to
        invariant
            from <= i <= to,
            to <= s@.len(),
            first_zero(s@, from as int, to as int) == first_zero(s@, i as int, to as int),
        decreases to - i,
    {
        if s[i] == 0 {
            return i;
        }
        i = i + 1;
    }
    i
}

/// Whether the tree parser, walking the structure block of blob `d` (which
/// ends at byte `end`, with the strings block from byte `strings` to the
/// end of the blob) from byte `pos` with `depth` nodes open, comes to a
/// property whose value fits in the block but whose padding to four bytes
/// does not. It stops at the end token, at the end of the root node, and at
/// anything it refuses: a short block, an unknown token, a node name or a
/// property name without its zero byte or not UTF-8, a property outside
/// any node.
pub open spec fn walk_overruns(d: Seq<u8>, end: int, strings: int, pos: int, depth: nat) -> bool
    decreases end - pos,
{
    if pos < 0 || pos + 4 > end {
        false
    } else {
        let token = be_u32_at(d, pos);
        if token == 1 {
            let z = first_zero(d, pos + 4, end);
            let name_len = z - (pos + 4) + 1;
            let pad = (4 - name_len % 4) % 4;
            if z >= end || !valid_utf8(d.subrange(pos + 4, z)) || end - (z + 1) < pad {
                false
            } else {
                proof {
                    lemma_first_zero_bounds(d, pos + 4, end);
                }
                walk_overruns(d, end, strings, z + 1 + pad, depth + 1)
            }
        } else if token == 3 {
            if end - (pos + 4) < 8 {
                false
            } else {
                let len = be_u32_at(d, pos + 4);
                let avail = end - (pos + 12);
                let pad = (4 - len % 4) % 4;
                let off = be_u32_at(d, pos + 8);
                let nz = first_zero(d, strings + off, d.len() as int);
                if avail < len {
                    false
                } else if avail < len + pad {
                    true
                } else if off >= d.len() - strings || nz >= d.len() || !valid_utf8(
                    d.subrange(strings + off, nz),
                ) || depth == 0 {
                    false
                } else {
                    walk_overruns(d, end, strings, pos + 12 + len + pad, depth)
                }
            }
        } else if token == 2 {
            if depth <= 1 {
                false
            } else {
                walk_overruns(d, end, strings, pos + 4, (depth - 1) as nat)
            }
        } else {
            false
        }
    }
}

/// Whether `DeviceTreeParser::parse_tree` on the blob `d` slices past the
/// end of its structure block: the header is valid, the blocks lie in the
/// blob, and the walk over the structure block overruns (`walk_overruns`).
pub open spec fn tree_parse_overruns(d: Seq<u8>) -> bool {
    let off_struct = be_u32_at(d, 8);
    let strings = be_u32_at(d, 12);
    let size = be_u32_at(d, 36);
    &&& d.len() >= 40
    &&& be_u32_at(d, 0) == 0xd00d_feed
    &&& off_struct < d.len()
    &&& off_struct + size <= d.len()
    &&& strings < d.len()
    &&& walk_overruns(d, off_struct + size, strings, off_struct, 0)
}

/// Whether the walk over the structure block from byte `start` overruns
/// (`walk_overruns`).
fn walk_overruns_from(d: &[u8], end: usize, strings: usize, start: usize) -> (r: bool)
    requires
        start <= end <= d@.len(),
        strings < d@.len(),
    ensures
        r == walk_overruns(d@, end as int, strings as int, start as int, 0),
{
    let mut pos = start;
    let mut depth: usize = 0;
    loop
        invariant
            pos <= end <= d@.len(),
            strings < d@.len(),
            depth <= pos,
            walk_overruns(d@, end as int, strings as int, start as int, 0) == walk_overruns(
                d@,
                end as int,
                strings as int,
                pos as int,
                depth as nat,
            ),
        decreases end - pos,
    {
        if end - pos < 4 {
            return false;
        }
        let token = be_u32(d, pos);
        if token == 1 {
            let z = find_zero(d, pos + 4, end);
            if z >= end {
                return false;
            }
            if !is_utf8(vstd::slice::slice_subrange(d, pos + 4, z)) {
                return false;
            }
            let name_len = z - (pos + 4) + 1;
            let pad = (4 - name_len % 4) % 4;
            if end - (z + 1) < pad {
                return false;
            }
            pos = z + 1 + pad;
            depth = depth + 1;
        } else if token == 3 {
            if end - (pos + 4) < 8 {
                return false;
            }
            let len = be_u32(d, pos + 4);
            let avail = (end - (pos + 12)) as u64;
            let pad = (4 - len % 4) % 4;
            if avail < len {
                return false;
            }
            if avail < len + pad {
                return true;
            }
            let off = be_u32(d, pos + 8);
            if off >= (d.len() - strings) as u64 {
                return false;
            }
            let name_start = strings + off as usize;
            let nz = find_zero(d, name_start, d.len());
            if nz >= d.len() {
                return false;
            }
            if !is_utf8(vstd::slice::slice_subrange(d, name_start, nz)) {
                return false;
            }
            if depth == 0 {
                return false;
            }
            pos = pos + 12 + len as usize + pad as usize;
        } else if token == 2 {
            if depth <= 1 {
                return false;
            }
            pos = pos + 4;
            depth = depth - 1;
        } else {
            return false;
        }
    }
}

/// Whether `DeviceTreeParser::parse_tree` can be given the blob: it does
/// not slice past the end of the structure block (`tree_parse_overruns`).
pub fn tree_parse_in_bounds(dtb: &[u8]) -> (r: bool)
    ensures
        r == !tree_parse_overruns(dtb@),
{
    if dtb.len() < 40 {
        return true;
    }
    if be_u32(dtb, 0) != 0xd00d_feed {
        return true;
    }
    let off_struct = be_u32(dtb, 8);
    let strings = be_u32(dtb, 12);
    let size = be_u32(dtb, 36);
    let len = dtb.len() as u64;
    if off_struct >= len || off_struct + size > len || strings >= len {
        return true;
    }
    !walk_overruns_from(dtb, (off_struct + size) as usize, strings as usize, off_struct as usize)
}

/// Why the boot device tree could not be read, by the step that failed.
#[derive(Debug)]
pub enum BootTreeError {
    /// The tree itself could not be parsed.
    Tree(DtbError),
    /// The register property of a memory node could not be read.
    Memory(DtbError),
    /// The memory reservation block could not be read.
    Reservations(DtbError),
}

/// What the kernel reads from the boot device tree.
pub struct BootDeviceTree<'a> {
    /// The root of the tree.
    pub root: DeviceTreeNode<'a>,
    /// The memory ranges it describes (see `memory_regions`).
    pub memory: Vec<(u64, u64)>,
    /// The ranges reserved by the firmware.
    pub reserved: Vec<(u64, u64)>,
}

/// Whether the reservation block named by the blob's header starts inside
/// the blob (see `reservation_block_in_bounds`).
pub fn reservations_in_bounds(dtb: &[u8]) -> (r: bool)
    ensures
        r == reservation_block_in_bounds(dtb@),
{
    if dtb.len() < 40 {
        return true;
    }
    let magic = be_u32(dtb, 0);
    if magic != 0xd00d_feed {
        return true;
    }
    be_u32(dtb, 16) as usize <= dtb.len()
}

/// The big-endian 32-bit number at byte `i` of `s`.
fn be_u32(s: &[u8], i: usize) -> (r: u64)
    requires
        i + 4 <= s@.len(),
    ensures
        r == be_u32_at(s@, i as int),
{
    (s[i] as u64) * 0x100_0000 + (s[i + 1] as u64) * 0x1_0000 + (s[i + 2] as u64) * 0x100 + (s[i
        + 3] as u64)
}

/// Reads the boot device tree from its blob: the tree, the memory ranges it
/// describes and the reserved ranges, in that order, stopping at the first
/// step that fails.
pub fn read_boot_device_tree<'a>(dtb: &'a [u8]) -> (r: Result<BootDeviceTree<'a>, BootTreeError>)
    requires
        reservation_block_in_bounds(dtb@),
        !tree_parse_overruns(dtb@),
    ensures
        r matches Ok(t) ==> {
            &&& memory_ranges_of(t.root) == Ok::<Seq<(u64, u64)>, DtbError>(t.memory@)
            &&& t.reserved@ == reservation_pairs(dtb@)
        },
{
    let root = match parse_tree(dtb) {
        Ok(root) => root,
        Err(e) => return Err(BootTreeError::Tree(e)),
    };
    let memory = match memory_regions(&root) {
        Ok(m) => m,
        Err(e) => return Err(BootTreeError::Memory(e)),
    };
    let reserved = match read_reservations(dtb) {
        Ok(v) => v,
        Err(e) => return Err(BootTreeError::Reservations(e)),
    };
    Ok(BootDeviceTree { root, memory, reserved })
}

} // verus!
