# iris_mmu

The memory-management core of the iris RISC-V kernel, verified with Verus.

- `src/mmu/addr.rs`: physical and virtual addresses, page sizes, address
  ranges, and the bit-level facts about Sv39 indices.
- `src/mmu/pte.rs`: page permissions and the encoding of Sv39 page-table
  entries.
- `src/mmu/table.rs`: page tables and address spaces. An address space keeps
  its tables in a run of physical frames set aside for them; `lookup` is the
  Sv39 walk that the contracts speak of, and `map_range` splits a range into
  pages of the largest size that fits at each place, which uses as few pages
  as any split into aligned pages (`lemma_range_pages_fewest`).
- `src/mmu/uniqueness.rs`: mapping gives one answer: two runs of
  `map_range` from the same space agree, and a list of identity mappings is
  refused at its first failing mapping only, with one error.
- `src/mmu.rs`: errors, TLB flush requests and the memory manager that owns
  the kernel's address space.
- `src/dtb.rs`: reading the boot device tree: the tree, the memory ranges it
  describes and the reserved ranges.
- `src/shutdown.rs`: the choice of the shutdown device from the device tree.
- `src/report.rs`: how the boot report writes memory sizes.
- `app/`: the kernel around the library: boot code, console, writing the
  page tables into their frames, `sfence.vma` and `satp`, and the shutdown
  devices themselves.
