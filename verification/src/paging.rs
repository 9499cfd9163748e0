use vstd::prelude::*;
use std::collections::HashMap;

verus! {

broadcast use vstd::std_specs::hash::group_hash_axioms;

/// Size of a small page (4 KiB).
pub const PAGE_SIZE: usize = 4096;

/// Entries in one table.
pub const PAGE_ENTRIES: usize = 512;

/// Size of a huge page (2 MiB).
pub const HUGE_PAGE_SIZE: usize = 2 * 1024 * 1024;

/// Number of page-directory-pointer tables: one for each PML4 entry.
pub const PDPT_TABLES: u64 = 512;

/// Number of page directories: one for each page-directory-pointer entry.
pub const PD_TABLES: u64 = 512 * 512;

/// Number of page tables: one for each page-directory entry.
pub const PT_TABLES: u64 = 512 * 512 * 512;

/// High virtual base the kernel is mapped at.
pub const KERNEL_VIRT_BASE: u64 = 0xFFFF_8000_0000_0000;

/// Start of the virtual range handed out to MMIO regions.
pub const MMIO_VIRT_BASE: u64 = 0xFFFF_C000_0000_0000;

/// First address past the lower canonical half.
pub const LOWER_HALF_END: u64 = 0x0000_8000_0000_0000;

/// First address of the upper canonical half.
pub const UPPER_HALF_START: u64 = 0xFFFF_8000_0000_0000;

/// Physical addresses lie below 2^52.
pub const PHYS_LIMIT: u64 = 0x0010_0000_0000_0000;

/// Present and writable.
pub const FLAGS_PRESENT_RW: u64 = 0b11;

/// Present, writable, and a 2 MiB page (page-size bit).
pub const FLAGS_HUGE_PAGE: u64 = 0b1000_0011;

/// Writable bit.
pub const FLAG_WRITABLE: u64 = 0b10;

/// Page-size bit of a page-directory entry.
pub const FLAG_PAGE_SIZE: u64 = 0x80;

/// Execute-disable bit.
pub const FLAG_NX: u64 = 0x8000_0000_0000_0000;

/// Address bits of an entry that points at a table or at a 4 KiB page.
pub const ADDR_MASK: u64 = 0x000F_FFFF_FFFF_F000;

/// Address bits of a 2 MiB page entry.
pub const HUGE_ADDR_MASK: u64 = 0x000F_FFFF_FFE0_0000;

/// Address bits of a 1 GiB page entry.
pub const GIANT_ADDR_MASK: u64 = 0x000F_FFFF_C000_0000;

/// Bits a 4 KiB entry keeps from the 2 MiB entry it is split from:
/// present, writable and execute-disable.
pub const SPLIT_KEEP: u64 = 0x8000_0000_0000_0003;

/// Bits kept when a page becomes read-only and executable: all but
/// execute-disable and writable.
pub const CODE_KEEP: u64 = 0x7FFF_FFFF_FFFF_FFFD;

// ---------------------------------------------------------------------
// Addresses
// ---------------------------------------------------------------------

/// `x` is a canonical address: bits 48..64 copy bit 47.
pub open spec fn canonical(x: u64) -> bool {
    x < LOWER_HALF_END || x >= UPPER_HALF_START
}

/// The 48 address bits the MMU translates (for a canonical address).
pub open spec fn va(x: u64) -> int {
    if x < LOWER_HALF_END {
        x as int
    } else {
        x - 0xFFFF_0000_0000_0000u64
    }
}

/// Number of the 4 KiB page of `x` (bits 12..48); its low 9 bits index a
/// page table.
pub open spec fn pn1(x: u64) -> int {
    va(x) / 4096
}

/// Number of the 2 MiB page of `x` (bits 21..48); its low 9 bits index a
/// page directory.
pub open spec fn pn2(x: u64) -> int {
    pn1(x) / 512
}

/// Number of the 1 GiB page of `x` (bits 30..48); its low 9 bits index a
/// page-directory-pointer table.
pub open spec fn pn3(x: u64) -> int {
    pn2(x) / 512
}

/// Index of `x` in the PML4 (bits 39..48).
pub open spec fn pn4(x: u64) -> int {
    pn3(x) / 512
}

/// Offset of `x` in its 4 KiB page.
pub open spec fn offset1(x: u64) -> int {
    va(x) - pn1(x) * 4096
}

/// Offset of `x` in its 2 MiB page.
pub open spec fn offset2(x: u64) -> int {
    va(x) - pn2(x) * 0x200000
}

/// Offset of `x` in its 1 GiB page.
pub open spec fn offset3(x: u64) -> int {
    va(x) - pn3(x) * 0x4000_0000
}

/// `a` rounded down to a 4 KiB boundary.
pub open spec fn page_floor(a: u64) -> int {
    a - a % 4096
}

/// `n` rounded up to whole 4 KiB pages.
pub open spec fn page_ceil(n: u64) -> int {
    (n + 4095) / 4096 * 4096
}

/// `a` rounded down to a 2 MiB boundary.
pub open spec fn huge_floor(a: u64) -> int {
    a - a % 0x200000
}

/// `n` rounded up to whole 2 MiB pages.
pub open spec fn huge_ceil(n: u64) -> int {
    (n + 0x1FFFFF) / 0x200000 * 0x200000
}

/// `[lo, lo + n)` lies inside one canonical half of the address space.
pub open spec fn region_ok(lo: int, n: int) -> bool {
    ||| 0 <= lo && lo + n <= LOWER_HALF_END
    ||| UPPER_HALF_START <= lo && lo + n <= 0x1_0000_0000_0000_0000
}

// ---------------------------------------------------------------------
// Entries and the walk
// ---------------------------------------------------------------------

/// Present bit.
pub open spec fn present(e: u64) -> bool {
    e & 1u64 != 0
}

/// Page-size bit: the entry maps a page rather than a table.
pub open spec fn is_huge(e: u64) -> bool {
    e & FLAG_PAGE_SIZE != 0
}

/// Writable bit.
pub open spec fn writable(e: u64) -> bool {
    e & FLAG_WRITABLE != 0
}

/// Execute-disable bit.
pub open spec fn no_exec(e: u64) -> bool {
    e & FLAG_NX != 0
}

/// Address held by an entry that points at a table or a 4 KiB page.
pub open spec fn entry_addr(e: u64) -> int {
    (e & ADDR_MASK) as int
}

/// Address held by a 2 MiB page entry.
pub open spec fn huge_addr(e: u64) -> int {
    (e & HUGE_ADDR_MASK) as int
}

/// Address held by a 1 GiB page entry.
pub open spec fn giant_addr(e: u64) -> int {
    (e & GIANT_ADDR_MASK) as int
}

/// Where an address goes: the physical address, whether writes are
/// allowed (every level writable) and whether fetches are refused (some
/// level execute-disable).
pub struct Translation {
    pub phys: int,
    pub writable: bool,
    pub no_exec: bool,
}

/// Physical addresses of the four runs of tables: the PML4, then
/// `PDPT_TABLES` page-directory-pointer tables, `PD_TABLES` page
/// directories and `PT_TABLES` page tables, each run 4 KiB per table.
#[derive(Clone, Copy)]
pub struct TableBases {
    pub pml4: u64,
    pub pdpt: u64,
    pub pd: u64,
    pub pt: u64,
}

/// Address of table `t` of the run that starts at `base`.
pub open spec fn table_addr(base: u64, t: int) -> int {
    base + t * 4096
}

/// The table of the run at `base` (of `count` tables) that address `a`
/// starts, if any.
pub open spec fn table_of(a: int, base: u64, count: u64) -> Option<int> {
    if base <= a < base + count * 4096 && (a - base) % 4096 == 0 {
        Some((a - base) / 4096)
    } else {
        None
    }
}

/// A run of `count` tables at `base` is 4 KiB aligned and lies below the
/// physical address limit.
pub open spec fn run_ok(base: u64, count: u64) -> bool {
    base % 4096 == 0 && base + count * 4096 <= PHYS_LIMIT
}

/// All four runs of tables are well placed.
pub open spec fn bases_ok(b: TableBases) -> bool {
    &&& run_ok(b.pml4, 1)
    &&& run_ok(b.pdpt, PDPT_TABLES)
    &&& run_ok(b.pd, PD_TABLES)
    &&& run_ok(b.pt, PT_TABLES)
}

/// An entry that points at the table at `a`: present and writable.
pub open spec fn dir_entry(a: int) -> u64 {
    (a as u64) | FLAGS_PRESENT_RW
}

/// The page tables as plain values: the PML4, and the entries of the
/// other three runs of tables, entry `e` of table `t` at key `t * 512 + e`.
#[verifier::ext_equal]
pub struct PtState {
    pub pml4: Seq<u64>,
    pub pdpt: Map<u64, u64>,
    pub pd: Map<u64, u64>,
    pub pt: Map<u64, u64>,
    pub bases: TableBases,
    pub next_mmio: u64,
}

/// Last step of the walk: entry of page table `t` for `x`.
pub open spec fn walk_pt(s: PtState, t: int, x: u64, w: bool, nx: bool) -> Option<Translation> {
    let e = s.pt[(t * 512 + pn1(x) % 512) as u64];
    if !present(e) {
        None
    } else {
        Some(
            Translation {
                phys: entry_addr(e) + offset1(x),
                writable: w && writable(e),
                no_exec: nx || no_exec(e),
            },
        )
    }
}

/// Walk from page directory `t` for `x`: a 2 MiB page, or on to the page
/// table the entry points at.
pub open spec fn walk_pd(s: PtState, t: int, x: u64, w: bool, nx: bool) -> Option<Translation> {
    let e = s.pd[(t * 512 + pn2(x) % 512) as u64];
    if !present(e) {
        None
    } else if is_huge(e) {
        Some(
            Translation {
                phys: huge_addr(e) + offset2(x),
                writable: w && writable(e),
                no_exec: nx || no_exec(e),
            },
        )
    } else {
        match table_of(entry_addr(e), s.bases.pt, PT_TABLES) {
            Some(t1) => walk_pt(s, t1, x, w && writable(e), nx || no_exec(e)),
            None => None,
        }
    }
}

/// Walk from page-directory-pointer table `t` for `x`: a 1 GiB page, or on
/// to the page directory the entry points at.
pub open spec fn walk_pdpt(s: PtState, t: int, x: u64, w: bool, nx: bool) -> Option<Translation> {
    let e = s.pdpt[(t * 512 + pn3(x) % 512) as u64];
    if !present(e) {
        None
    } else if is_huge(e) {
        Some(
            Translation {
                phys: giant_addr(e) + offset3(x),
                writable: w && writable(e),
                no_exec: nx || no_exec(e),
            },
        )
    } else {
        match table_of(entry_addr(e), s.bases.pd, PD_TABLES) {
            Some(t2) => walk_pd(s, t2, x, w && writable(e), nx || no_exec(e)),
            None => None,
        }
    }
}

/// What the MMU makes of address `x`: a non-canonical address faults;
/// otherwise the walk starts at PML4 entry `pn4(x)` and follows the address
/// in each present entry down to a page. An entry whose address is not one
/// of the tables the kernel keeps ends the walk with no translation (the
/// tables' invariant rules that out).
#[verifier::opaque]
pub open spec fn translate(s: PtState, x: u64) -> Option<Translation> {
    if !canonical(x) {
        None
    } else {
        let e = s.pml4[pn4(x)];
        if !present(e) {
            None
        } else {
            match table_of(entry_addr(e), s.bases.pdpt, PDPT_TABLES) {
                Some(t3) => walk_pdpt(s, t3, x, writable(e), no_exec(e)),
                None => None,
            }
        }
    }
}

/// Translation of `x` through the 2 MiB page entry `e` (none when `e` is
/// not present).
pub open spec fn huge_page_translation(e: u64, x: u64) -> Option<Translation> {
    if !present(e) {
        None
    } else {
        Some(Translation { phys: huge_addr(e) + offset2(x), writable: writable(e), no_exec: no_exec(e) })
    }
}

/// Translation of `x` through the 4 KiB page entry `e` (none when `e` is
/// not present).
pub open spec fn page_translation(e: u64, x: u64) -> Option<Translation> {
    if !present(e) {
        None
    } else {
        Some(Translation { phys: entry_addr(e) + offset1(x), writable: writable(e), no_exec: no_exec(e) })
    }
}

/// `x` maps to itself, writable and executable.
pub open spec fn identity(x: u64) -> Option<Translation> {
    Some(Translation { phys: x as int, writable: true, no_exec: false })
}

/// The entry the walk of a well-formed state ends at for `x`, found by
/// page numbers (each table is the one its parent's key names):
/// `(true, e)` for a 2 MiB page entry of the page directories, `(false, e)`
/// for a 4 KiB page entry of the page tables; `None` when some level on the
/// way is not present.
pub open spec fn leaf_entry(s: PtState, x: u64) -> Option<(bool, u64)> {
    if !canonical(x) || !present(s.pml4[pn4(x)]) || !present(s.pdpt[pn3(x) as u64]) {
        None
    } else {
        let e2 = s.pd[pn2(x) as u64];
        if !present(e2) {
            None
        } else if is_huge(e2) {
            Some((true, e2))
        } else {
            let e1 = s.pt[pn1(x) as u64];
            if !present(e1) {
                None
            } else {
                Some((false, e1))
            }
        }
    }
}

/// The walk for a well-formed state, read by page numbers.
spec fn walk_by_keys(s: PtState, x: u64) -> Option<Translation> {
    match leaf_entry(s, x) {
        None => None,
        Some(l) => if l.0 {
            huge_page_translation(l.1, x)
        } else {
            page_translation(l.1, x)
        },
    }
}

/// The keys of `m` are exactly those below `n`.
pub open spec fn keys_below(m: Map<u64, u64>, n: int) -> bool {
    forall|k: u64| m.dom().contains(k) <==> k < n
}

/// Invariant of the page tables: every present entry that points at a
/// table points, present and writable and nothing else, at the table its
/// own key names (PML4 entry `i` at page-directory-pointer table `i`,
/// entry `k` of that run at page directory `k`, entry `k` of the page
/// directories at page table `k`); no 1 GiB pages; the MMIO cursor is 2 MiB
/// aligned in the MMIO range.
pub open spec fn pt_state_wf(s: PtState) -> bool {
    &&& s.pml4.len() == 512
    &&& keys_below(s.pdpt, PD_TABLES as int)
    &&& keys_below(s.pd, PT_TABLES as int)
    &&& keys_below(s.pt, PT_TABLES * 512)
    &&& bases_ok(s.bases)
    &&& forall|i: int|
        0 <= i < 512 && present(#[trigger] s.pml4[i]) ==> s.pml4[i] == dir_entry(
            table_addr(s.bases.pdpt, i),
        )
    &&& forall|k: u64|
        k < PD_TABLES && present(#[trigger] s.pdpt[k]) ==> s.pdpt[k] == dir_entry(
            table_addr(s.bases.pd, k as int),
        )
    &&& forall|k: u64|
        k < PT_TABLES && present(#[trigger] s.pd[k]) && !is_huge(s.pd[k]) ==> s.pd[k]
            == dir_entry(table_addr(s.bases.pt, k as int))
    &&& s.next_mmio >= MMIO_VIRT_BASE
    &&& s.next_mmio % 0x200000 == 0
}

// ---------------------------------------------------------------------
// Arithmetic and bit facts
// ---------------------------------------------------------------------

/// Page numbers of a canonical address are in range.
pub proof fn lemma_page_numbers(x: u64)
    requires
        canonical(x),
    ensures
        0 <= va(x) < 0x1_0000_0000_0000,
        0 <= pn1(x) < PT_TABLES * 512,
        0 <= pn2(x) < PT_TABLES,
        0 <= pn3(x) < PD_TABLES,
        0 <= pn4(x) < 512,
        0 <= offset1(x) < 4096,
        0 <= offset2(x) < 0x200000,
        offset2(x) == (pn1(x) % 512) * 4096 + offset1(x),
{
}

/// A table entry built by the kernel reads back as present, writable,
/// executable, not a page, pointing at `a`.
proof fn lemma_dir_bits(a: u64)
    requires
        a % 4096 == 0,
        a < PHYS_LIMIT,
    ensures
        (a | FLAGS_PRESENT_RW) & ADDR_MASK == a,
        present(a | FLAGS_PRESENT_RW),
        !is_huge(a | FLAGS_PRESENT_RW),
        writable(a | FLAGS_PRESENT_RW),
        !no_exec(a | FLAGS_PRESENT_RW),
{
    assert((a | 3u64) & 0x000F_FFFF_FFFF_F000u64 == a) by (bit_vector)
        requires
            a % 4096 == 0,
            a < 0x0010_0000_0000_0000u64,
    ;
    assert((a | 3u64) & 1u64 != 0) by (bit_vector);
    assert((a | 3u64) & 0x80u64 == 0) by (bit_vector)
        requires
            a % 4096 == 0,
    ;
    assert((a | 3u64) & 2u64 != 0) by (bit_vector);
    assert((a | 3u64) & 0x8000_0000_0000_0000u64 == 0) by (bit_vector)
        requires
            a < 0x0010_0000_0000_0000u64,
    ;
}

/// A zero entry is not present.
proof fn lemma_zero_entry()
    ensures
        !present(0u64),
{
    assert(0u64 & 1u64 == 0) by (bit_vector);
}

/// Entry `t` of the run at `base` is what the walk expects.
proof fn lemma_dir(base: u64, count: u64, t: int)
    requires
        run_ok(base, count),
        0 <= t < count,
    ensures
        present(dir_entry(table_addr(base, t))),
        !is_huge(dir_entry(table_addr(base, t))),
        writable(dir_entry(table_addr(base, t))),
        !no_exec(dir_entry(table_addr(base, t))),
        entry_addr(dir_entry(table_addr(base, t))) == table_addr(base, t),
        table_of(table_addr(base, t), base, count) == Some(t),
        0 <= table_addr(base, t) < PHYS_LIMIT,
{
    let a = table_addr(base, t);
    assert(t * 4096 <= (count - 1) * 4096) by (nonlinear_arith)
        requires
            t < count,
    ;
    assert((base + t * 4096) % 4096 == 0) by (nonlinear_arith)
        requires
            base % 4096 == 0,
            t >= 0,
    ;
    assert((t * 4096) / 4096 == t) by (nonlinear_arith);
    lemma_dir_bits(a as u64);
}

/// A 2 MiB page entry built by the kernel reads back with its address and
/// flags.
proof fn lemma_huge_bits(a: u64)
    requires
        a % 0x200000 == 0,
        a < PHYS_LIMIT,
    ensures
        huge_addr(a | FLAGS_HUGE_PAGE) == a,
        present(a | FLAGS_HUGE_PAGE),
        is_huge(a | FLAGS_HUGE_PAGE),
        writable(a | FLAGS_HUGE_PAGE),
        !no_exec(a | FLAGS_HUGE_PAGE),
        huge_addr(a | FLAGS_HUGE_PAGE | FLAG_NX) == a,
        present(a | FLAGS_HUGE_PAGE | FLAG_NX),
        is_huge(a | FLAGS_HUGE_PAGE | FLAG_NX),
        writable(a | FLAGS_HUGE_PAGE | FLAG_NX),
        no_exec(a | FLAGS_HUGE_PAGE | FLAG_NX),
{
    assert((a | 0x83u64) & 0x000F_FFFF_FFE0_0000u64 == a) by (bit_vector)
        requires
            a % 0x200000 == 0,
            a < 0x0010_0000_0000_0000u64,
    ;
    assert((a | 0x83u64) & 1u64 != 0) by (bit_vector);
    assert((a | 0x83u64) & 0x80u64 != 0) by (bit_vector);
    assert((a | 0x83u64) & 2u64 != 0) by (bit_vector);
    assert((a | 0x83u64) & 0x8000_0000_0000_0000u64 == 0) by (bit_vector)
        requires
            a < 0x0010_0000_0000_0000u64,
    ;
    assert((a | 0x83u64 | 0x8000_0000_0000_0000u64) & 0x000F_FFFF_FFE0_0000u64 == a) by (bit_vector)
        requires
            a % 0x200000 == 0,
            a < 0x0010_0000_0000_0000u64,
    ;
    assert((a | 0x83u64 | 0x8000_0000_0000_0000u64) & 1u64 != 0) by (bit_vector);
    assert((a | 0x83u64 | 0x8000_0000_0000_0000u64) & 0x80u64 != 0) by (bit_vector);
    assert((a | 0x83u64 | 0x8000_0000_0000_0000u64) & 2u64 != 0) by (bit_vector);
    assert((a | 0x83u64 | 0x8000_0000_0000_0000u64) & 0x8000_0000_0000_0000u64 != 0)
        by (bit_vector);
}

/// A 4 KiB page entry built by the kernel reads back with its address and
/// flags.
proof fn lemma_page_bits(a: u64)
    requires
        a % 4096 == 0,
        a < PHYS_LIMIT,
    ensures
        entry_addr(a | FLAGS_PRESENT_RW) == a,
        present(a | FLAGS_PRESENT_RW),
        writable(a | FLAGS_PRESENT_RW),
        !no_exec(a | FLAGS_PRESENT_RW),
{
    lemma_dir_bits(a);
}

/// The 4 KiB entry for page `j` of the 2 MiB page entry `e`: the 2 MiB
/// page's address plus `j` pages, with `e`'s present, writable and
/// execute-disable bits.
pub open spec fn split_entry(e: u64, j: u64) -> u64 {
    (e & HUGE_ADDR_MASK) | (j << 12u64) | (e & SPLIT_KEEP)
}

/// A split entry reads back as page `j` of the 2 MiB page, with its flags.
proof fn lemma_split_bits(e: u64, j: u64)
    requires
        j < 512,
    ensures
        entry_addr(split_entry(e, j)) == huge_addr(e) + j * 4096,
        present(split_entry(e, j)) == present(e),
        writable(split_entry(e, j)) == writable(e),
        no_exec(split_entry(e, j)) == no_exec(e),
{
    let s = split_entry(e, j);
    assert(((e & 0x000F_FFFF_FFE0_0000u64) | (j << 12u64) | (e & 0x8000_0000_0000_0003u64))
        & 0x000F_FFFF_FFFF_F000u64 == (e & 0x000F_FFFF_FFE0_0000u64) + j * 4096) by (bit_vector)
        requires
            j < 512,
    ;
    assert(((e & 0x000F_FFFF_FFE0_0000u64) | (j << 12u64) | (e & 0x8000_0000_0000_0003u64))
        & 1u64 == e & 1u64) by (bit_vector)
        requires
            j < 512,
    ;
    assert(((e & 0x000F_FFFF_FFE0_0000u64) | (j << 12u64) | (e & 0x8000_0000_0000_0003u64))
        & 2u64 == e & 2u64) by (bit_vector)
        requires
            j < 512,
    ;
    assert(((e & 0x000F_FFFF_FFE0_0000u64) | (j << 12u64) | (e & 0x8000_0000_0000_0003u64))
        & 0x8000_0000_0000_0000u64 == e & 0x8000_0000_0000_0000u64) by (bit_vector)
        requires
            j < 512,
    ;
}

/// An entry made read-only and executable (`code`), or execute-disable.
pub open spec fn protect_entry(e: u64, code: bool) -> u64 {
    if code {
        e & CODE_KEEP
    } else {
        e | FLAG_NX
    }
}

/// Making a page entry read-only and executable, or execute-disable, keeps
/// its address, present and page-size bits.
proof fn lemma_protect_bits(e: u64)
    ensures
        entry_addr(e & CODE_KEEP) == entry_addr(e),
        entry_addr(e | FLAG_NX) == entry_addr(e),
        huge_addr(e & CODE_KEEP) == huge_addr(e),
        present(e & CODE_KEEP) == present(e),
        is_huge(e & CODE_KEEP) == is_huge(e),
        !writable(e & CODE_KEEP),
        !no_exec(e & CODE_KEEP),
        huge_addr(e | FLAG_NX) == huge_addr(e),
        present(e | FLAG_NX) == present(e),
        is_huge(e | FLAG_NX) == is_huge(e),
        writable(e | FLAG_NX) == writable(e),
        no_exec(e | FLAG_NX),
{
    assert((e & 0x7FFF_FFFF_FFFF_FFFDu64) & 0x000F_FFFF_FFE0_0000u64 == e
        & 0x000F_FFFF_FFE0_0000u64) by (bit_vector);
    assert((e & 0x7FFF_FFFF_FFFF_FFFDu64) & 0x000F_FFFF_FFFF_F000u64 == e
        & 0x000F_FFFF_FFFF_F000u64) by (bit_vector);
    assert((e | 0x8000_0000_0000_0000u64) & 0x000F_FFFF_FFFF_F000u64 == e
        & 0x000F_FFFF_FFFF_F000u64) by (bit_vector);
    assert((e & 0x7FFF_FFFF_FFFF_FFFDu64) & 1u64 == e & 1u64) by (bit_vector);
    assert((e & 0x7FFF_FFFF_FFFF_FFFDu64) & 0x80u64 == e & 0x80u64) by (bit_vector);
    assert((e & 0x7FFF_FFFF_FFFF_FFFDu64) & 2u64 == 0) by (bit_vector);
    assert((e & 0x7FFF_FFFF_FFFF_FFFDu64) & 0x8000_0000_0000_0000u64 == 0) by (bit_vector);
    assert((e | 0x8000_0000_0000_0000u64) & 0x000F_FFFF_FFE0_0000u64 == e
        & 0x000F_FFFF_FFE0_0000u64) by (bit_vector);
    assert((e | 0x8000_0000_0000_0000u64) & 1u64 == e & 1u64) by (bit_vector);
    assert((e | 0x8000_0000_0000_0000u64) & 0x80u64 == e & 0x80u64) by (bit_vector);
    assert((e | 0x8000_0000_0000_0000u64) & 2u64 == e & 2u64) by (bit_vector);
    assert((e | 0x8000_0000_0000_0000u64) & 0x8000_0000_0000_0000u64 != 0) by (bit_vector);
}

/// For a well-formed state the walk reaches, at each level, the table the
/// parent's key names.
proof fn lemma_walk_by_keys(s: PtState, x: u64)
    requires
        pt_state_wf(s),
    ensures
        translate(s, x) == walk_by_keys(s, x),
{
    reveal(translate);
    if canonical(x) {
        lemma_page_numbers(x);
        let e4 = s.pml4[pn4(x)];
        if present(e4) {
            lemma_dir(s.bases.pdpt, PDPT_TABLES, pn4(x));
            assert(pn4(x) * 512 + pn3(x) % 512 == pn3(x));
            let e3 = s.pdpt[pn3(x) as u64];
            if present(e3) {
                lemma_dir(s.bases.pd, PD_TABLES, pn3(x));
                assert(pn3(x) * 512 + pn2(x) % 512 == pn2(x));
                let e2 = s.pd[pn2(x) as u64];
                if present(e2) && !is_huge(e2) {
                    lemma_dir(s.bases.pt, PT_TABLES, pn2(x));
                    assert(pn2(x) * 512 + pn1(x) % 512 == pn1(x));
                }
            }
        }
    }
}

/// A non-canonical address has no translation.
pub proof fn lemma_noncanonical(s: PtState, x: u64)
    requires
        !canonical(x),
    ensures
        translate(s, x) is None,
{
    reveal(translate);
}

/// The translation reads only the tables and their addresses.
pub proof fn lemma_translate_tables(s0: PtState, s1: PtState)
    requires
        s0.pml4 == s1.pml4,
        s0.pdpt == s1.pdpt,
        s0.pd == s1.pd,
        s0.pt == s1.pt,
        s0.bases == s1.bases,
    ensures
        forall|x: u64| translate(s0, x) == translate(s1, x),
{
    reveal(translate);
}

/// Same 4 KiB page: for canonical `x` and a canonical page start `c`,
/// `x` lies in `c`'s page exactly when their page numbers agree.
pub proof fn lemma_same_page(x: u64, c: u64)
    requires
        canonical(x),
        canonical(c),
        c % 4096 == 0,
    ensures
        pn1(x) == pn1(c) <==> (c <= x && x < c + 4096),
        c <= x < c + 4096 ==> offset1(x) == x - c,
{
    lemma_page_numbers(x);
    lemma_page_numbers(c);
}

/// Same 2 MiB page: for canonical `x` and a canonical 2 MiB page start `c`,
/// `x` lies in `c`'s 2 MiB page exactly when their 2 MiB page numbers agree.
pub proof fn lemma_same_huge_page(x: u64, c: u64)
    requires
        canonical(x),
        canonical(c),
        c % 0x200000 == 0,
    ensures
        pn2(x) == pn2(c) <==> (c <= x && x < c + 0x200000),
        c <= x < c + 0x200000 ==> offset2(x) == x - c,
{
    lemma_page_numbers(x);
    lemma_page_numbers(c);
    vstd::arithmetic::div_mod::lemma_div_denominator(va(x), 4096, 512);
    vstd::arithmetic::div_mod::lemma_div_denominator(va(c), 4096, 512);
    let vx = va(x);
    let vc = va(c);
    assert(vc % 0x200000 == 0);
    let q = vc / 0x200000;
    assert(vc == q * 0x200000);
    assert(pn2(x) == vx / 0x200000);
    assert(pn2(c) == q);
    if c <= x && x < c + 0x200000 {
        assert(vx - vc == x - c);
        assert(vx / 0x200000 == q);
    }
    if pn2(x) == q {
        assert(q * 0x200000 <= vx < q * 0x200000 + 0x200000);
    }
}

// ---------------------------------------------------------------------
// Tables
// ---------------------------------------------------------------------

/// One page table of `PAGE_ENTRIES` entries.
pub struct PageTable {
    entries: Vec<u64>,
}

impl View for PageTable {
    type V = Seq<u64>;

    closed spec fn view(&self) -> Seq<u64> {
        self.entries@
    }
}

impl PageTable {
    /// A table of zero (not present) entries.
    pub fn new() -> (t: Self)
        ensures
            t@ == Seq::new(PAGE_ENTRIES as nat, |i: int| 0u64),
    {
        let mut entries: Vec<u64> = Vec::new();
        let mut i: usize = 0;
        while i < PAGE_ENTRIES
            invariant
                i <= PAGE_ENTRIES,
                entries@ == Seq::new(i as nat, |k: int| 0u64),
            decreases PAGE_ENTRIES - i,
        {
            entries.push(0u64);
            i = i + 1;
        }
        PageTable { entries }
    }

    /// Entry `i`.
    pub fn get(&self, i: usize) -> (e: u64)
        requires
            i < self@.len(),
        ensures
            e == self@[i as int],
    {
        self.entries[i]
    }

    /// Sets entry `i`.
    pub fn set(&mut self, i: usize, e: u64)
        requires
            i < old(self)@.len(),
        ensures
            final(self)@ == old(self)@.update(i as int, e),
    {
        self.entries.set(i, e);
    }
}

/// `m` with the `n` keys from `lo` set to 0.
pub open spec fn zero_run(m: Map<u64, u64>, lo: int, n: int) -> Map<u64, u64> {
    Map::new(|k: u64| m.dom().contains(k), |k: u64| if lo <= k < lo + n { 0u64 } else { m[k] })
}

/// `m` with key `t * 512 + j` set to `split_entry(e, j)` for each `j < n`.
pub open spec fn split_run(m: Map<u64, u64>, t: int, e: u64, n: int) -> Map<u64, u64> {
    Map::new(
        |k: u64| m.dom().contains(k),
        |k: u64|
            if t * 512 <= k < t * 512 + n {
                split_entry(e, (k - t * 512) as u64)
            } else {
                m[k]
            },
    )
}

/// `m` with each entry of table `t` passed through `protect_entry`.
pub open spec fn protect_run(m: Map<u64, u64>, t: int, code: bool, n: int) -> Map<u64, u64> {
    Map::new(
        |k: u64| m.dom().contains(k),
        |k: u64|
            if t * 512 <= k < t * 512 + n {
                protect_entry(m[k], code)
            } else {
                m[k]
            },
    )
}

/// A run of tables stored sparsely: entry `e` of table `t` lives at key
/// `t * 512 + e`; entries never written read as 0. Keys written since the
/// last `take_written` are remembered, so that they can be copied to the
/// memory the MMU reads.
pub struct TableArray {
    cap: u64,
    entries: HashMap<u64, u64>,
    written: Vec<u64>,
}

impl View for TableArray {
    type V = Map<u64, u64>;

    closed spec fn view(&self) -> Map<u64, u64> {
        Map::new(
            |k: u64| k < self.cap,
            |k: u64|
                if self.entries@.contains_key(k) {
                    self.entries@[k]
                } else {
                    0u64
                },
        )
    }
}

impl TableArray {
    /// Keys written since the last `take_written`.
    pub closed spec fn pending(&self) -> Set<u64> {
        self.written@.to_set()
    }

    /// `cap` keys of zero entries.
    pub fn new(cap: u64) -> (a: Self)
        ensures
            a@ == Map::new(|k: u64| k < cap, |k: u64| 0u64),
            a.pending() == Set::<u64>::empty(),
    {
        let a = TableArray { cap, entries: HashMap::new(), written: Vec::new() };
        assert(a@ =~= Map::new(|k: u64| k < cap, |k: u64| 0u64));
        assert(a.pending() =~= Set::<u64>::empty());
        a
    }

    /// Entry at key `k`.
    pub fn get(&self, k: u64) -> (e: u64)
        requires
            self@.dom().contains(k),
        ensures
            e == self@[k],
    {
        match self.entries.get(&k) {
            Some(v) => *v,
            None => 0u64,
        }
    }

    /// Sets the entry at key `k`.
    pub fn set(&mut self, k: u64, e: u64)
        requires
            old(self)@.dom().contains(k),
        ensures
            final(self)@ == old(self)@.insert(k, e),
            final(self).pending() == old(self).pending().insert(k),
    {
        let ghost o = self@;
        let ghost w = self.written@;
        self.entries.insert(k, e);
        self.written.push(k);
        assert(self@ =~= o.insert(k, e));
        assert(self.written@ == w.push(k));
        assert(w.push(k).to_set() =~= w.to_set().insert(k)) by {
            broadcast use vstd::seq_lib::group_seq_properties;
        }
    }

    /// Hands out the keys written since the last call and forgets them.
    pub fn take_written(&mut self) -> (w: Vec<u64>)
        ensures
            final(self)@ == old(self)@,
            w@.to_set() == old(self).pending(),
            final(self).pending() == Set::<u64>::empty(),
    {
        let mut w: Vec<u64> = Vec::new();
        std::mem::swap(&mut w, &mut self.written);
        assert(self.written@.to_set() =~= Set::<u64>::empty());
        w
    }

    /// Sets the 512 entries of table `t` to 0.
    fn zero_table(&mut self, t: u64)
        requires
            forall|k: u64| t * 512 <= k < t * 512 + 512 ==> old(self)@.dom().contains(k),
            t * 512 + 512 <= u64::MAX,
        ensures
            final(self)@ == zero_run(old(self)@, t * 512, 512),
            forall|k: u64|
                old(self).pending().contains(k) || (t * 512 <= k < t * 512 + 512)
                    ==> #[trigger] final(self).pending().contains(k),
    {
        let ghost o = self@;
        let ghost op = self.pending();
        let lo = t * 512;
        let mut j: u64 = 0;
        while j < 512
            invariant
                j <= 512,
                lo == t * 512,
                lo + 512 <= u64::MAX,
                forall|k: u64| lo <= k < lo + 512 ==> o.dom().contains(k),
                self@ == zero_run(o, lo as int, j as int),
                forall|k: u64| op.contains(k) || (lo <= k < lo + j) ==> #[trigger] self.pending().contains(k),
            decreases 512 - j,
        {
            let ghost pb = self.pending();
            self.set(lo + j, 0);
            assert forall|k: u64| op.contains(k) || (lo <= k < lo + j + 1) implies self.pending().contains(k) by {
                if k != lo + j {
                    assert(pb.contains(k));
                }
            }
            assert(self@ =~= zero_run(o, lo as int, j + 1));
            j = j + 1;
        }
    }

    /// Passes the 512 entries of table `t` through `protect_entry`.
    fn protect_table(&mut self, t: u64, code: bool)
        requires
            forall|k: u64| t * 512 <= k < t * 512 + 512 ==> old(self)@.dom().contains(k),
            t * 512 + 512 <= u64::MAX,
        ensures
            final(self)@ == protect_run(old(self)@, t as int, code, 512),
            forall|k: u64|
                old(self).pending().contains(k) || (t * 512 <= k < t * 512 + 512)
                    ==> #[trigger] final(self).pending().contains(k),
    {
        let ghost o = self@;
        let ghost op = self.pending();
        let lo = t * 512;
        let mut j: u64 = 0;
        while j < 512
            invariant
                j <= 512,
                lo == t * 512,
                lo + 512 <= u64::MAX,
                forall|k: u64| lo <= k < lo + 512 ==> o.dom().contains(k),
                self@ == protect_run(o, t as int, code, j as int),
                forall|k: u64| op.contains(k) || (lo <= k < lo + j) ==> #[trigger] self.pending().contains(k),
            decreases 512 - j,
        {
            let e = self.get(lo + j);
            let ne = if code {
                e & CODE_KEEP
            } else {
                e | FLAG_NX
            };
            let ghost pb = self.pending();
            self.set(lo + j, ne);
            assert forall|k: u64| op.contains(k) || (lo <= k < lo + j + 1) implies self.pending().contains(k) by {
                if k != lo + j {
                    assert(pb.contains(k));
                }
            }
            assert(self@ =~= protect_run(o, t as int, code, j + 1));
            j = j + 1;
        }
    }

    /// Fills table `t` with the 512 entries `split_entry(e, j)`.
    fn split_table(&mut self, t: u64, e: u64)
        requires
            forall|k: u64| t * 512 <= k < t * 512 + 512 ==> old(self)@.dom().contains(k),
            t * 512 + 512 <= u64::MAX,
        ensures
            final(self)@ == split_run(old(self)@, t as int, e, 512),
            forall|k: u64|
                old(self).pending().contains(k) || (t * 512 <= k < t * 512 + 512)
                    ==> #[trigger] final(self).pending().contains(k),
    {
        let ghost o = self@;
        let ghost op = self.pending();
        let lo = t * 512;
        let ha = e & HUGE_ADDR_MASK;
        let keep = e & SPLIT_KEEP;
        let mut j: u64 = 0;
        while j < 512
            invariant
                j <= 512,
                lo == t * 512,
                lo + 512 <= u64::MAX,
                ha == e & HUGE_ADDR_MASK,
                keep == e & SPLIT_KEEP,
                forall|k: u64| lo <= k < lo + 512 ==> o.dom().contains(k),
                self@ == split_run(o, t as int, e, j as int),
                forall|k: u64| op.contains(k) || (lo <= k < lo + j) ==> #[trigger] self.pending().contains(k),
            decreases 512 - j,
        {
            let ghost pb = self.pending();
            self.set(lo + j, ha | (j << 12u64) | keep);
            assert forall|k: u64| op.contains(k) || (lo <= k < lo + j + 1) implies self.pending().contains(k) by {
                if k != lo + j {
                    assert(pb.contains(k));
                }
            }
            assert(self@ =~= split_run(o, t as int, e, j + 1));
            j = j + 1;
        }
    }
}

/// The kernel's page tables: the PML4, the page-directory-pointer tables,
/// the page directories and the page tables, each held at the physical
/// addresses in `bases`, plus the next free virtual address of the MMIO
/// range.
pub struct PageTables {
    pml4: PageTable,
    pdpt: TableArray,
    pd: TableArray,
    pt: TableArray,
    bases: TableBases,
    next_mmio_virt: u64,
}

impl View for PageTables {
    type V = PtState;

    closed spec fn view(&self) -> PtState {
        PtState {
            pml4: self.pml4@,
            pdpt: self.pdpt@,
            pd: self.pd@,
            pt: self.pt@,
            bases: self.bases,
            next_mmio: self.next_mmio_virt,
        }
    }
}

/// Both states keep their tables at the same addresses and have the same
/// MMIO cursor.
pub open spec fn same_frame(a: PtState, b: PtState) -> bool {
    a.bases == b.bases && a.next_mmio == b.next_mmio
}

/// Page numbers of a canonical `x`: `(pn1, pn2, pn3, pn4)`.
fn page_nums(x: u64) -> (r: (u64, u64, u64, u64))
    requires
        canonical(x),
    ensures
        r.0 == pn1(x),
        r.1 == pn2(x),
        r.2 == pn3(x),
        r.3 == pn4(x),
{
    proof {
        lemma_page_numbers(x);
    }
    let v = if x < LOWER_HALF_END {
        x
    } else {
        x - 0xFFFF_0000_0000_0000u64
    };
    let n1 = v / 4096;
    let n2 = n1 / 512;
    let n3 = n2 / 512;
    let n4 = n3 / 512;
    (n1, n2, n3, n4)
}

impl PageTables {
    /// Well-formedness: `pt_state_wf` of the view.
    pub open spec fn wf(&self) -> bool {
        pt_state_wf(self@)
    }

    /// Keys of the three lower runs written since the last `take_writes`.
    pub closed spec fn pending(&self) -> (Set<u64>, Set<u64>, Set<u64>) {
        (self.pdpt.pending(), self.pd.pending(), self.pt.pending())
    }

    /// Empty tables (no address translates) at the given addresses; the MMIO
    /// cursor at the start of the MMIO range.
    pub fn new(bases: TableBases) -> (t: Self)
        requires
            bases_ok(bases),
        ensures
            t.wf(),
            t@.bases == bases,
            t@.next_mmio == MMIO_VIRT_BASE,
            t@.pml4 == Seq::new(512, |i: int| 0u64),
            forall|k: u64| k < PD_TABLES ==> t@.pdpt[k] == 0,
            forall|k: u64| k < PT_TABLES ==> t@.pd[k] == 0,
            forall|k: u64| k < PT_TABLES * 512 ==> t@.pt[k] == 0,
            forall|x: u64| translate(t@, x) is None,
    {
        let t = PageTables {
            pml4: PageTable::new(),
            pdpt: TableArray::new(PD_TABLES),
            pd: TableArray::new(PT_TABLES),
            pt: TableArray::new(PT_TABLES * 512),
            bases,
            next_mmio_virt: MMIO_VIRT_BASE,
        };
        proof {
            lemma_zero_entry();
        }
        assert forall|x: u64| translate(t@, x) is None by {
            lemma_walk_by_keys(t@, x);
            if canonical(x) {
                lemma_page_numbers(x);
            }
        }
        t
    }

    /// PML4 entry `i`.
    pub fn pml4_entry(&self, i: usize) -> (e: u64)
        requires
            self.wf(),
            i < 512,
        ensures
            e == self@.pml4[i as int],
    {
        self.pml4.get(i)
    }

    /// Entry `k` of the page-directory-pointer tables.
    pub fn pdpt_entry(&self, k: u64) -> (e: u64)
        requires
            self.wf(),
            k < PD_TABLES,
        ensures
            e == self@.pdpt[k],
    {
        self.pdpt.get(k)
    }

    /// Entry `k` of the page directories.
    pub fn pd_entry(&self, k: u64) -> (e: u64)
        requires
            self.wf(),
            k < PT_TABLES,
        ensures
            e == self@.pd[k],
    {
        self.pd.get(k)
    }

    /// Entry `k` of the page tables.
    pub fn pt_entry(&self, k: u64) -> (e: u64)
        requires
            self.wf(),
            k < PT_TABLES * 512,
        ensures
            e == self@.pt[k],
    {
        self.pt.get(k)
    }

    /// Next free virtual address of the MMIO range.
    pub fn next_mmio(&self) -> (v: u64)
        ensures
            v == self@.next_mmio,
    {
        self.next_mmio_virt
    }

    /// Hands out the keys of the page-directory-pointer, page-directory and
    /// page-table entries written since the last call, and forgets them.
    pub fn take_writes(&mut self) -> (w: (Vec<u64>, Vec<u64>, Vec<u64>))
        ensures
            final(self)@ == old(self)@,
            w.0@.to_set() == old(self).pending().0,
            w.1@.to_set() == old(self).pending().1,
            w.2@.to_set() == old(self).pending().2,
            final(self).pending() == (Set::<u64>::empty(), Set::<u64>::empty(), Set::<u64>::empty()),
    {
        let a = self.pdpt.take_written();
        let b = self.pd.take_written();
        let c = self.pt.take_written();
        (a, b, c)
    }

    /// What the MMU makes of `x`: `(physical address, writable,
    /// execute-disable)`, or `None` when `x` does not translate.
    pub fn translate_addr(&self, x: u64) -> (r: Option<(u64, bool, bool)>)
        requires
            self.wf(),
        ensures
            match r {
                None => translate(self@, x) is None,
                Some(t) => translate(self@, x) == Some(
                    Translation { phys: t.0 as int, writable: t.1, no_exec: t.2 },
                ),
            },
    {
        proof {
            lemma_walk_by_keys(self@, x);
        }
        if !(x < LOWER_HALF_END || x >= UPPER_HALF_START) {
            return None;
        }
        proof {
            lemma_page_numbers(x);
        }
        let (n1, n2, n3, n4) = page_nums(x);
        let v = if x < LOWER_HALF_END {
            x
        } else {
            x - 0xFFFF_0000_0000_0000u64
        };
        if self.pml4.get(n4 as usize) & 1 == 0 || self.pdpt.get(n3) & 1 == 0 {
            return None;
        }
        let e2 = self.pd.get(n2);
        if e2 & 1 == 0 {
            return None;
        }
        if e2 & FLAG_PAGE_SIZE != 0 {
            let a = e2 & HUGE_ADDR_MASK;
            assert(a < PHYS_LIMIT) by (bit_vector)
                requires
                    a == e2 & 0x000F_FFFF_FFE0_0000u64,
            ;
            let off = v - n2 * 0x200000;
            return Some((a + off, e2 & FLAG_WRITABLE != 0, e2 & FLAG_NX != 0));
        }
        let e1 = self.pt.get(n1);
        if e1 & 1 == 0 {
            return None;
        }
        let a = e1 & ADDR_MASK;
        assert(a < PHYS_LIMIT) by (bit_vector)
            requires
                a == e1 & 0x000F_FFFF_FFFF_F000u64,
        ;
        let off = v - n1 * 4096;
        Some((a + off, e1 & FLAG_WRITABLE != 0, e1 & FLAG_NX != 0))
    }

    /// Makes PML4 entry `i` present: when it is not, zero-fills
    /// page-directory-pointer table `i` and points the entry at it.
    fn link_pml4(&mut self, i: u64)
        requires
            old(self).wf(),
            i < 512,
        ensures
            final(self).wf(),
            writes_logged(*old(self), *final(self)),
            present(final(self)@.pml4[i as int]),
            same_frame(final(self)@, old(self)@),
            final(self)@.pd == old(self)@.pd,
            final(self)@.pt == old(self)@.pt,
            forall|x: u64| translate(final(self)@, x) == translate(old(self)@, x),
            forall|x: u64| leaf_entry(final(self)@, x) == leaf_entry(old(self)@, x),
    {
        let e = self.pml4.get(i as usize);
        if e & 1 == 0 {
            let ghost s0 = self@;
            self.pdpt.zero_table(i);
            proof {
                lemma_zero_entry();
                lemma_dir(self.bases.pdpt, PDPT_TABLES, i as int);
            }
            let a = self.bases.pdpt + i * 4096;
            self.pml4.set(i as usize, a | FLAGS_PRESENT_RW);
            proof {
                let s1 = self@;
                assert(pt_state_wf(s1));
                assert forall|x: u64| translate(s1, x) == translate(s0, x) by {
                    lemma_walk_by_keys(s0, x);
                    lemma_walk_by_keys(s1, x);
                    if canonical(x) {
                        lemma_page_numbers(x);
                    }
                }
                assert forall|x: u64| leaf_entry(s1, x) == leaf_entry(s0, x) by {
                    if canonical(x) {
                        lemma_page_numbers(x);
                    }
                }
            }
        }
    }

    /// Makes page-directory-pointer entry `k` present: when it is not,
    /// zero-fills page directory `k` and points the entry at it.
    fn link_pdpt(&mut self, k: u64)
        requires
            old(self).wf(),
            k < PD_TABLES,
        ensures
            final(self).wf(),
            writes_logged(*old(self), *final(self)),
            present(final(self)@.pdpt[k]),
            same_frame(final(self)@, old(self)@),
            final(self)@.pml4 == old(self)@.pml4,
            final(self)@.pt == old(self)@.pt,
            forall|x: u64| translate(final(self)@, x) == translate(old(self)@, x),
            forall|x: u64| leaf_entry(final(self)@, x) == leaf_entry(old(self)@, x),
    {
        let e = self.pdpt.get(k);
        if e & 1 == 0 {
            let ghost s0 = self@;
            self.pd.zero_table(k);
            proof {
                lemma_zero_entry();
                lemma_dir(self.bases.pd, PD_TABLES, k as int);
            }
            let a = self.bases.pd + k * 4096;
            self.pdpt.set(k, a | FLAGS_PRESENT_RW);
            proof {
                let s1 = self@;
                assert(pt_state_wf(s1));
                assert forall|x: u64| translate(s1, x) == translate(s0, x) by {
                    lemma_walk_by_keys(s0, x);
                    lemma_walk_by_keys(s1, x);
                    if canonical(x) {
                        lemma_page_numbers(x);
                    }
                }
                assert forall|x: u64| leaf_entry(s1, x) == leaf_entry(s0, x) by {
                    if canonical(x) {
                        lemma_page_numbers(x);
                    }
                }
            }
        }
    }

    /// Makes page-directory entry `k` point at page table `k`: a missing
    /// table is zero-filled first; a 2 MiB page is split into the 512
    /// 4 KiB pages that map it the same way.
    #[verifier::spinoff_prover]
    fn link_pt(&mut self, k: u64)
        requires
            old(self).wf(),
            k < PT_TABLES,
        ensures
            final(self).wf(),
            writes_logged(*old(self), *final(self)),
            present(final(self)@.pd[k]),
            !is_huge(final(self)@.pd[k]),
            same_frame(final(self)@, old(self)@),
            final(self)@.pml4 == old(self)@.pml4,
            final(self)@.pdpt == old(self)@.pdpt,
            forall|x: u64| translate(final(self)@, x) == translate(old(self)@, x),
            forall|x: u64|
                canonical(x) && pn2(x) != k ==> leaf_entry(final(self)@, x) == leaf_entry(
                    old(self)@,
                    x,
                ),
            !(present(old(self)@.pd[k]) && is_huge(old(self)@.pd[k])) ==> forall|x: u64|
                leaf_entry(final(self)@, x) == leaf_entry(old(self)@, x),
    {
        let e = self.pd.get(k);
        let ghost s0 = self@;
        if e & 1 == 0 {
            self.pt.zero_table(k);
        } else if e & FLAG_PAGE_SIZE != 0 {
            self.pt.split_table(k, e);
        } else {
            return;
        }
        proof {
            lemma_zero_entry();
            lemma_dir(self.bases.pt, PT_TABLES, k as int);
        }
        let a = self.bases.pt + k * 4096;
        self.pd.set(k, a | FLAGS_PRESENT_RW);
        proof {
            let s1 = self@;
            assert(pt_state_wf(s1));
            assert forall|x: u64|
                canonical(x) && pn2(x) != k implies leaf_entry(s1, x) == leaf_entry(s0, x) by {
                lemma_page_numbers(x);
            }
            if !(present(e) && is_huge(e)) {
                assert forall|x: u64| leaf_entry(s1, x) == leaf_entry(s0, x) by {
                    if canonical(x) {
                        lemma_page_numbers(x);
                    }
                }
            }
            assert forall|x: u64| translate(s1, x) == translate(s0, x) by {
                lemma_walk_by_keys(s0, x);
                lemma_walk_by_keys(s1, x);
                if canonical(x) {
                    lemma_page_numbers(x);
                    if pn2(x) == k && present(e) && is_huge(e) {
                        let j = (pn1(x) % 512) as u64;
                        assert(pn1(x) - k * 512 == j);
                        lemma_split_bits(e, j);
                    }
                }
            }
        }
    }

    /// Sets page-directory entry `k` to `e`, a 2 MiB page or 0.
    fn set_pd(&mut self, k: u64, e: u64)
        requires
            old(self).wf(),
            k < PT_TABLES,
            e == 0 || (present(e) && is_huge(e)),
            present(old(self)@.pml4[((k / 512) / 512) as int]),
            present(old(self)@.pdpt[k / 512]),
        ensures
            final(self).wf(),
            writes_logged(*old(self), *final(self)),
            same_frame(final(self)@, old(self)@),
            final(self)@.pml4 == old(self)@.pml4,
            final(self)@.pdpt == old(self)@.pdpt,
            final(self)@.pd == old(self)@.pd.insert(k, e),
            final(self)@.pt == old(self)@.pt,
            forall|x: u64|
                translate(final(self)@, x) == if canonical(x) && pn2(x) == k {
                    huge_page_translation(e, x)
                } else {
                    translate(old(self)@, x)
                },
            forall|x: u64|
                leaf_entry(final(self)@, x) == if canonical(x) && pn2(x) == k {
                    if present(e) {
                        Some((true, e))
                    } else {
                        None
                    }
                } else {
                    leaf_entry(old(self)@, x)
                },
    {
        let ghost s0 = self@;
        self.pd.set(k, e);
        proof {
            lemma_zero_entry();
            let s1 = self@;
            assert(pt_state_wf(s1));
            assert forall|x: u64|
                translate(s1, x) == if canonical(x) && pn2(x) == k {
                    huge_page_translation(e, x)
                } else {
                    translate(s0, x)
                } by {
                lemma_walk_by_keys(s0, x);
                lemma_walk_by_keys(s1, x);
                if canonical(x) {
                    lemma_page_numbers(x);
                }
            }
        }
    }

    /// Sets page-table entry `k` to `e`; the page directory above it points
    /// at its table.
    fn set_pt(&mut self, k: u64, e: u64)
        requires
            old(self).wf(),
            k < PT_TABLES * 512,
            present(old(self)@.pml4[(((k / 512) / 512) / 512) as int]),
            present(old(self)@.pdpt[(k / 512) / 512]),
            present(old(self)@.pd[k / 512]),
            !is_huge(old(self)@.pd[k / 512]),
        ensures
            final(self).wf(),
            writes_logged(*old(self), *final(self)),
            same_frame(final(self)@, old(self)@),
            final(self)@.pml4 == old(self)@.pml4,
            final(self)@.pdpt == old(self)@.pdpt,
            final(self)@.pd == old(self)@.pd,
            forall|x: u64|
                translate(final(self)@, x) == if canonical(x) && pn1(x) == k {
                    page_translation(e, x)
                } else {
                    translate(old(self)@, x)
                },
            forall|x: u64|
                leaf_entry(final(self)@, x) == if canonical(x) && pn1(x) == k {
                    if present(e) {
                        Some((false, e))
                    } else {
                        None
                    }
                } else {
                    leaf_entry(old(self)@, x)
                },
    {
        let ghost s0 = self@;
        self.pt.set(k, e);
        proof {
            lemma_zero_entry();
            let s1 = self@;
            assert(pt_state_wf(s1));
            assert forall|x: u64|
                translate(s1, x) == if canonical(x) && pn1(x) == k {
                    page_translation(e, x)
                } else {
                    translate(s0, x)
                } by {
                lemma_walk_by_keys(s0, x);
                lemma_walk_by_keys(s1, x);
                if canonical(x) {
                    lemma_page_numbers(x);
                }
            }
        }
    }
}

// ---------------------------------------------------------------------
// Reporting writes
// ---------------------------------------------------------------------

/// `b` reports every entry of the three lower runs whose value differs from
/// `a`, and still reports every entry `a` reported: what `take_writes` hands
/// out after `b` covers everything written since `a`.
pub open spec fn writes_logged(a: PageTables, b: PageTables) -> bool {
    &&& forall|k: u64|
        k < PD_TABLES && (b@.pdpt[k] != a@.pdpt[k] || a.pending().0.contains(k))
            ==> #[trigger] b.pending().0.contains(k)
    &&& forall|k: u64|
        k < PT_TABLES && (b@.pd[k] != a@.pd[k] || a.pending().1.contains(k))
            ==> #[trigger] b.pending().1.contains(k)
    &&& forall|k: u64|
        k < PT_TABLES * 512 && (b@.pt[k] != a@.pt[k] || a.pending().2.contains(k))
            ==> #[trigger] b.pending().2.contains(k)
}

/// Reports compose: what `b` reports over `a` and `c` over `b`, `c` reports
/// over `a`.
pub proof fn lemma_writes_logged_trans(a: PageTables, b: PageTables, c: PageTables)
    requires
        writes_logged(a, b),
        writes_logged(b, c),
    ensures
        writes_logged(a, c),
{
    assert forall|k: u64|
        k < PD_TABLES && (c@.pdpt[k] != a@.pdpt[k] || a.pending().0.contains(k)) implies #[trigger] c.pending().0.contains(k) by {
        if b@.pdpt[k] != a@.pdpt[k] || a.pending().0.contains(k) {
            assert(b.pending().0.contains(k));
        }
    }
    assert forall|k: u64|
        k < PT_TABLES && (c@.pd[k] != a@.pd[k] || a.pending().1.contains(k)) implies #[trigger] c.pending().1.contains(k) by {
        if b@.pd[k] != a@.pd[k] || a.pending().1.contains(k) {
            assert(b.pending().1.contains(k));
        }
    }
    assert forall|k: u64|
        k < PT_TABLES * 512 && (c@.pt[k] != a@.pt[k] || a.pending().2.contains(k)) implies #[trigger] c.pending().2.contains(k) by {
        if b@.pt[k] != a@.pt[k] || a.pending().2.contains(k) {
            assert(b.pending().2.contains(k));
        }
    }
}

/// Every entry an operation changes reaches the memory the MMU reads: when
/// `b` reports over `a` and `a` had nothing left to report (just after
/// `take_writes`), the keys `b` reports include every entry that differs
/// between the two.
pub proof fn lemma_changes_reported(a: PageTables, b: PageTables)
    requires
        writes_logged(a, b),
    ensures
        forall|k: u64| k < PD_TABLES && b@.pdpt[k] != a@.pdpt[k] ==> b.pending().0.contains(k),
        forall|k: u64| k < PT_TABLES && b@.pd[k] != a@.pd[k] ==> b.pending().1.contains(k),
        forall|k: u64|
            k < PT_TABLES * 512 && b@.pt[k] != a@.pt[k] ==> b.pending().2.contains(k),
{
}

// ---------------------------------------------------------------------
// Rounding
// ---------------------------------------------------------------------

/// `size` rounded up to a multiple of `unit` is a multiple of `unit`, at
/// least `size`, and less than `size + unit`.
proof fn lemma_round_up(size: int, unit: int)
    requires
        0 < unit,
        0 <= size,
    ensures
        ((size + unit - 1) / unit * unit) % unit == 0,
        size <= (size + unit - 1) / unit * unit < size + unit,
        (size + unit - 1) / unit * unit >= 0,
{
    let t = size + unit - 1;
    vstd::arithmetic::div_mod::lemma_fundamental_div_mod(t, unit);
    let q = t / unit;
    vstd::arithmetic::div_mod::lemma_mod_pos_bound(t, unit);
    vstd::arithmetic::div_mod::lemma_mod_multiples_basic(q, unit);
    assert(q * unit == unit * q) by (nonlinear_arith);
    vstd::arithmetic::div_mod::lemma_div_pos_is_pos(t, unit);
    assert(q * unit >= 0) by (nonlinear_arith)
        requires
            q >= 0,
            unit > 0,
    ;
}

/// Of two multiples of `u` less than `u` apart, the first is not above the
/// second.
proof fn lemma_multiple_le(a: int, b: int, u: int)
    requires
        0 < u,
        a % u == 0,
        b % u == 0,
        a < b + u,
    ensures
        a <= b,
{
    vstd::arithmetic::div_mod::lemma_fundamental_div_mod(a, u);
    vstd::arithmetic::div_mod::lemma_fundamental_div_mod(b, u);
    let i = a / u;
    let j = b / u;
    assert(i < j + 1) by (nonlinear_arith)
        requires
            u * i < u * j + u,
            u > 0,
    ;
    assert(u * i <= u * j) by (nonlinear_arith)
        requires
            i <= j,
            u > 0,
    ;
}

/// A loop that steps through multiples of `unit` from 0 while below `size`
/// stays at or below the rounded-up size, and ends exactly on it.
proof fn lemma_step_bounds(off: int, size: int, unit: int, step: int)
    requires
        0 < unit,
        0 <= off < size,
        off % unit == 0,
        step % unit == 0,
        unit <= step,
        step == unit || off + step <= size,
    ensures
        (off + step) % unit == 0,
        off + step <= (size + unit - 1) / unit * unit,
{
    lemma_round_up(size, unit);
    let c = (size + unit - 1) / unit * unit;
    vstd::arithmetic::div_mod::lemma_mod_adds(off, step, unit);
    if step == unit {
        vstd::arithmetic::div_mod::lemma_mod_self_0(unit);
        assert((off + unit) % unit == 0);
        lemma_multiple_le(off + unit, c, unit);
    }
}

/// The 2 MiB page start below `c` is 2 MiB aligned and at most `c`, less
/// than 2 MiB below it.
proof fn lemma_huge_floor(c: u64)
    ensures
        huge_floor(c) % 0x200000 == 0,
        huge_floor(c) <= c < huge_floor(c) + 0x200000,
        0 <= huge_floor(c),
{
    assert((c - c % 0x200000u64) % 0x200000 == 0) by (bit_vector);
    assert(c % 0x200000u64 <= c) by (bit_vector);
    assert(c % 0x200000u64 < 0x200000u64) by (bit_vector);
}

/// Every address of the 4 KiB page at `c` has `c` as its page start and
/// `c`'s 2 MiB page start.
proof fn lemma_floor_in_page(c: u64, y: u64)
    requires
        c % 4096 == 0,
        c <= y,
        y < c + 4096,
    ensures
        huge_floor(y) == huge_floor(c),
        page_floor(y) == c,
{
    assert(y - y % 0x200000u64 == c - c % 0x200000u64) by (bit_vector)
        requires
            c % 4096u64 == 0,
            c <= y,
            y < c + 4096u64,
    ;
    assert(y - y % 4096u64 == c) by (bit_vector)
        requires
            c % 4096u64 == 0,
            c <= y,
            y < c + 4096u64,
    ;
}

/// Every address of the 2 MiB page at `c` has `c` as its 2 MiB page start.
proof fn lemma_floor_in_huge_page(c: u64, y: u64)
    requires
        c % 0x200000 == 0,
        c <= y,
        y < c + 0x200000,
    ensures
        huge_floor(y) == c,
{
    assert(y - y % 0x200000u64 == c) by (bit_vector)
        requires
            c % 0x200000u64 == 0,
            c <= y,
            y < c + 0x200000u64,
    ;
}

/// Stepping 4 KiB forward stays in the same 2 MiB page unless it lands on
/// a 2 MiB boundary.
proof fn lemma_floor_next(c: u64)
    requires
        c % 4096 == 0,
        c + 4096 <= u64::MAX,
        (c + 4096) % 0x200000 != 0,
    ensures
        huge_floor((c + 4096) as u64) == huge_floor(c),
{
    let d = (c + 4096) as u64;
    assert(d - d % 0x200000u64 == c - c % 0x200000u64) by (bit_vector)
        requires
            c % 4096u64 == 0,
            d == c + 4096,
            d % 0x200000u64 != 0,
    ;
}

/// A stepping loop that has reached `size` sits on the rounded-up size.
proof fn lemma_step_end(off: int, size: int, unit: int)
    requires
        0 < unit,
        0 <= size <= off,
        off % unit == 0,
        off <= (size + unit - 1) / unit * unit,
    ensures
        off == (size + unit - 1) / unit * unit,
{
    lemma_round_up(size, unit);
    lemma_multiple_le((size + unit - 1) / unit * unit, off, unit);
}

// ---------------------------------------------------------------------
// One page at a time
// ---------------------------------------------------------------------

/// `x` reaches a 2 MiB page entry (by its page numbers).
pub open spec fn huge_leaf_at(s: PtState, x: u64) -> bool {
    &&& canonical(x)
    &&& present(s.pml4[pn4(x)])
    &&& present(s.pdpt[pn3(x) as u64])
    &&& present(s.pd[pn2(x) as u64])
    &&& is_huge(s.pd[pn2(x) as u64])
}

/// A translation made read-only and executable (`code`), or
/// execute-disable with its writability kept.
pub open spec fn protected(code: bool, t: Option<Translation>) -> Option<Translation> {
    match t {
        Some(t) => Some(
            if code {
                Translation { phys: t.phys, writable: false, no_exec: false }
            } else {
                Translation { phys: t.phys, writable: t.writable, no_exec: true }
            },
        ),
        None => None,
    }
}

/// Maps the 4 KiB page of `x` with the entry `e`.
fn map_page(pt: &mut PageTables, x: u64, e: u64)
    requires
        old(pt).wf(),
        canonical(x),
    ensures
        final(pt).wf(),
        writes_logged(*old(pt), *final(pt)),
        same_frame(final(pt)@, old(pt)@),
        forall|y: u64|
            translate(final(pt)@, y) == if canonical(y) && pn1(y) == pn1(x) {
                page_translation(e, y)
            } else {
                translate(old(pt)@, y)
            },
        present(e) ==> forall|y: u64|
            canonical(y) && pn1(y) == pn1(x) ==> leaf_entry(final(pt)@, y) == Some((false, e)),
        forall|y: u64|
            canonical(y) && pn2(y) != pn2(x) ==> leaf_entry(final(pt)@, y) == leaf_entry(
                old(pt)@,
                y,
            ),
        !huge_leaf_at(old(pt)@, x) ==> forall|y: u64|
            canonical(y) && pn1(y) != pn1(x) ==> leaf_entry(final(pt)@, y) == leaf_entry(
                old(pt)@,
                y,
            ),
{
    proof {
        lemma_page_numbers(x);
    }
    let (n1, n2, n3, n4) = page_nums(x);
    pt.link_pml4(n4);
    pt.link_pdpt(n3);
    pt.link_pt(n2);
    pt.set_pt(n1, e);
}

/// Maps the 2 MiB page of `x` with the entry `e` (a 2 MiB page, or 0).
fn map_huge(pt: &mut PageTables, x: u64, e: u64)
    requires
        old(pt).wf(),
        canonical(x),
        e == 0 || (present(e) && is_huge(e)),
    ensures
        final(pt).wf(),
        writes_logged(*old(pt), *final(pt)),
        same_frame(final(pt)@, old(pt)@),
        forall|y: u64|
            translate(final(pt)@, y) == if canonical(y) && pn2(y) == pn2(x) {
                huge_page_translation(e, y)
            } else {
                translate(old(pt)@, y)
            },
        forall|y: u64|
            leaf_entry(final(pt)@, y) == if canonical(y) && pn2(y) == pn2(x) {
                if present(e) {
                    Some((true, e))
                } else {
                    None
                }
            } else {
                leaf_entry(old(pt)@, y)
            },
{
    proof {
        lemma_page_numbers(x);
    }
    let (n1, n2, n3, n4) = page_nums(x);
    pt.link_pml4(n4);
    pt.link_pdpt(n3);
    pt.set_pd(n2, e);
}

/// Removes the translation of the 4 KiB page of `x`, splitting a 2 MiB
/// page that holds it; tables that are missing are left missing.
fn clear_page(pt: &mut PageTables, x: u64)
    requires
        old(pt).wf(),
        canonical(x),
    ensures
        final(pt).wf(),
        writes_logged(*old(pt), *final(pt)),
        same_frame(final(pt)@, old(pt)@),
        forall|y: u64|
            translate(final(pt)@, y) == if canonical(y) && pn1(y) == pn1(x) {
                None
            } else {
                translate(old(pt)@, y)
            },
{
    let ghost s0 = pt@;
    proof {
        lemma_page_numbers(x);
        lemma_zero_entry();
    }
    let (n1, n2, n3, n4) = page_nums(x);
    if pt.pml4.get(n4 as usize) & 1 != 0 && pt.pdpt.get(n3) & 1 != 0 {
        let e = pt.pd.get(n2);
        if e & 1 != 0 {
            if e & FLAG_PAGE_SIZE != 0 {
                pt.link_pt(n2);
            }
            pt.set_pt(n1, 0);
            return;
        }
    }
    proof {
        assert forall|y: u64| canonical(y) && pn1(y) == pn1(x) implies translate(s0, y) is None by {
            lemma_walk_by_keys(s0, y);
        }
    }
}

/// Removes the translation of the 2 MiB page of `x`; tables that are
/// missing are left missing.
fn clear_huge(pt: &mut PageTables, x: u64)
    requires
        old(pt).wf(),
        canonical(x),
    ensures
        final(pt).wf(),
        writes_logged(*old(pt), *final(pt)),
        same_frame(final(pt)@, old(pt)@),
        forall|y: u64|
            translate(final(pt)@, y) == if canonical(y) && pn2(y) == pn2(x) {
                None
            } else {
                translate(old(pt)@, y)
            },
{
    let ghost s0 = pt@;
    proof {
        lemma_page_numbers(x);
        lemma_zero_entry();
    }
    let (n1, n2, n3, n4) = page_nums(x);
    if pt.pml4.get(n4 as usize) & 1 != 0 && pt.pdpt.get(n3) & 1 != 0 {
        pt.set_pd(n2, 0);
        return;
    }
    proof {
        assert forall|y: u64| canonical(y) && pn2(y) == pn2(x) implies translate(s0, y) is None by {
            lemma_walk_by_keys(s0, y);
        }
    }
}

/// Makes every mapped address of the 2 MiB page of `x` read-only and
/// executable (`code`) or execute-disable: the 2 MiB page entry when there
/// is one, else each entry of the page table under it.
fn protect_2m(pt: &mut PageTables, x: u64, code: bool)
    requires
        old(pt).wf(),
        canonical(x),
    ensures
        final(pt).wf(),
        writes_logged(*old(pt), *final(pt)),
        same_frame(final(pt)@, old(pt)@),
        forall|y: u64|
            translate(final(pt)@, y) == if canonical(y) && pn2(y) == pn2(x) {
                protected(code, translate(old(pt)@, y))
            } else {
                translate(old(pt)@, y)
            },
{
    let ghost s0 = pt@;
    proof {
        lemma_page_numbers(x);
    }
    let (n1, n2, n3, n4) = page_nums(x);
    if pt.pml4.get(n4 as usize) & 1 != 0 && pt.pdpt.get(n3) & 1 != 0 {
        let e = pt.pd.get(n2);
        if e & 1 != 0 {
            if e & FLAG_PAGE_SIZE != 0 {
                let ne = if code {
                    e & CODE_KEEP
                } else {
                    e | FLAG_NX
                };
                proof {
                    lemma_protect_bits(e);
                }
                pt.set_pd(n2, ne);
                proof {
                    assert forall|y: u64|
                        translate(pt@, y) == if canonical(y) && pn2(y) == pn2(x) {
                            protected(code, translate(s0, y))
                        } else {
                            translate(s0, y)
                        } by {
                        lemma_walk_by_keys(s0, y);
                    }
                }
            } else {
                pt.pt.protect_table(n2, code);
                proof {
                    let s1 = pt@;
                    assert(pt_state_wf(s1));
                    assert forall|y: u64|
                        translate(s1, y) == if canonical(y) && pn2(y) == pn2(x) {
                            protected(code, translate(s0, y))
                        } else {
                            translate(s0, y)
                        } by {
                        lemma_walk_by_keys(s0, y);
                        lemma_walk_by_keys(s1, y);
                        if canonical(y) {
                            lemma_page_numbers(y);
                            lemma_protect_bits(s0.pt[pn1(y) as u64]);
                        }
                    }
                }
            }
            return;
        }
    }
    proof {
        assert forall|y: u64| canonical(y) && pn2(y) == pn2(x) implies translate(s0, y) is None by {
            lemma_walk_by_keys(s0, y);
        }
    }
}

// ---------------------------------------------------------------------
// The kernel's MMU operations
// ---------------------------------------------------------------------

/// Entry `i` of the boot identity map's page directory: nothing for the
/// first 2 MiB, else the 2 MiB page at `i * 2 MiB`.
pub open spec fn boot_entry(i: int) -> u64 {
    if i == 0 {
        0u64
    } else {
        ((i * 0x200000) as u64) | FLAGS_HUGE_PAGE
    }
}

/// Entry `i` of the kernel map's page directory: the 2 MiB page at
/// `i * 2 MiB`.
pub open spec fn kernel_entry(i: int) -> u64 {
    ((i * 0x200000) as u64) | FLAGS_HUGE_PAGE
}

/// Translations after boot: nothing below 2 MiB (null accesses fault),
/// `[2 MiB, 1 GiB)` to itself, `[KERNEL_VIRT_BASE, KERNEL_VIRT_BASE + 1 GiB)`
/// to `[0, 1 GiB)`, all writable and executable; every other address as
/// in `s`.
pub open spec fn boot_translation(s: PtState, x: u64) -> Option<Translation> {
    if x < 0x200000 {
        None
    } else if x < 0x4000_0000 {
        identity(x)
    } else if KERNEL_VIRT_BASE <= x < KERNEL_VIRT_BASE + 0x4000_0000 {
        Some(Translation { phys: x - KERNEL_VIRT_BASE, writable: true, no_exec: false })
    } else {
        translate(s, x)
    }
}

/// `s1` holds the boot mappings over `s0` (see `boot_translation`), all of
/// them 2 MiB page entries with exactly `FLAGS_HUGE_PAGE`.
pub open spec fn after_boot(s0: PtState, s1: PtState) -> bool {
    &&& forall|x: u64| translate(s1, x) == boot_translation(s0, x)
    &&& forall|x: u64| x < 0x200000 ==> leaf_entry(s1, x) is None
    &&& forall|x: u64|
        0x200000 <= x < 0x4000_0000 ==> leaf_entry(s1, x) == Some(
            (true, (huge_floor(x) as u64) | FLAGS_HUGE_PAGE),
        )
    &&& forall|x: u64|
        KERNEL_VIRT_BASE <= x < KERNEL_VIRT_BASE + 0x4000_0000 ==> leaf_entry(s1, x) == Some(
            (true, ((huge_floor(x) - KERNEL_VIRT_BASE) as u64) | FLAGS_HUGE_PAGE),
        )
}

/// Page number of `KERNEL_VIRT_BASE` in 2 MiB pages.
const KERNEL_PN2: u64 = 0x400_0000;

/// Sets up the boot mappings (see `after_boot`), with 2 MiB pages under
/// PML4 entry 0 and PML4 entry 256, and returns the PML4's address for CR3.
#[verifier::spinoff_prover]
pub fn mmu_init(pt: &mut PageTables) -> (cr3: u64)
    requires
        old(pt).wf(),
    ensures
        final(pt).wf(),
        writes_logged(*old(pt), *final(pt)),
        same_frame(final(pt)@, old(pt)@),
        cr3 == old(pt)@.bases.pml4,
        after_boot(old(pt)@, final(pt)@),
        forall|x: u64|
            (0x200000 <= x < 0x4000_0000 || KERNEL_VIRT_BASE <= x < KERNEL_VIRT_BASE
                + 0x4000_0000) ==> huge_leaf_at(final(pt)@, x),
{
    let ghost p0 = *pt;
    let ghost s0 = pt@;
    pt.link_pml4(0);
    pt.link_pdpt(0);
    let mut i: u64 = 0;
    while i < 512
        invariant
            pt.wf(),
            writes_logged(p0, *pt),
            same_frame(pt@, s0),
            i <= 512,
            present(pt@.pml4[0]),
            present(pt@.pdpt[0]),
            forall|x: u64|
                translate(pt@, x) == if canonical(x) && pn2(x) < i {
                    huge_page_translation(boot_entry(pn2(x)), x)
                } else {
                    translate(s0, x)
                },
            forall|x: u64|
                canonical(x) && pn2(x) < i ==> leaf_entry(pt@, x) == if present(
                    boot_entry(pn2(x)),
                ) {
                    Some((true, boot_entry(pn2(x))))
                } else {
                    None
                },
        decreases 512 - i,
    {
        let e = if i == 0 {
            0
        } else {
            (i * 0x200000) | FLAGS_HUGE_PAGE
        };
        proof {
            if i > 0 {
                lemma_huge_bits((i * 0x200000) as u64);
            }
        }
        pt.set_pd(i, e);
        i = i + 1;
    }
    let ghost s1 = pt@;
    pt.link_pml4(256);
    pt.link_pdpt(KERNEL_PN2 / 512);
    let mut j: u64 = 0;
    while j < 512
        invariant
            pt.wf(),
            writes_logged(p0, *pt),
            same_frame(pt@, s0),
            j <= 512,
            present(pt@.pml4[256]),
            present(pt@.pdpt[KERNEL_PN2 / 512]),
            forall|x: u64|
                translate(pt@, x) == if canonical(x) && KERNEL_PN2 <= pn2(x) < KERNEL_PN2 + j {
                    huge_page_translation(kernel_entry(pn2(x) - KERNEL_PN2), x)
                } else {
                    translate(s1, x)
                },
            forall|x: u64|
                leaf_entry(pt@, x) == if canonical(x) && KERNEL_PN2 <= pn2(x) < KERNEL_PN2 + j {
                    Some((true, kernel_entry(pn2(x) - KERNEL_PN2)))
                } else {
                    leaf_entry(s1, x)
                },
        decreases 512 - j,
    {
        proof {
            lemma_huge_bits((j * 0x200000) as u64);
        }
        let e = (j * 0x200000) | FLAGS_HUGE_PAGE;
        assert(e == kernel_entry(j as int));
        let ghost s2 = pt@;
        pt.set_pd(KERNEL_PN2 + j, e);
        proof {
            assert forall|x: u64|
                #[trigger] translate(pt@, x) == if canonical(x) && KERNEL_PN2 <= pn2(x) < KERNEL_PN2 + j
                    + 1 {
                    huge_page_translation(kernel_entry(pn2(x) - KERNEL_PN2), x)
                } else {
                    translate(s1, x)
                } by {
                assert(translate(s2, x) == if canonical(x) && KERNEL_PN2 <= pn2(x) < KERNEL_PN2 + j {
                    huge_page_translation(kernel_entry(pn2(x) - KERNEL_PN2), x)
                } else {
                    translate(s1, x)
                });
            }
            assert forall|x: u64|
                #[trigger] leaf_entry(pt@, x) == if canonical(x) && KERNEL_PN2 <= pn2(x) < KERNEL_PN2
                    + j + 1 {
                    Some((true, kernel_entry(pn2(x) - KERNEL_PN2)))
                } else {
                    leaf_entry(s1, x)
                } by {
                assert(leaf_entry(s2, x) == if canonical(x) && KERNEL_PN2 <= pn2(x) < KERNEL_PN2
                    + j {
                    Some((true, kernel_entry(pn2(x) - KERNEL_PN2)))
                } else {
                    leaf_entry(s1, x)
                });
            }
        }
        j = j + 1;
    }
    proof {
        assert forall|x: u64| translate(pt@, x) == boot_translation(s0, x) by {
            if canonical(x) {
                lemma_page_numbers(x);
                vstd::arithmetic::div_mod::lemma_div_denominator(va(x), 4096, 512);
                let p = pn2(x);
                if 0 < p < 512 {
                    lemma_huge_bits((p * 0x200000) as u64);
                }
                if KERNEL_PN2 <= p < KERNEL_PN2 + 512 {
                    lemma_huge_bits(((p - KERNEL_PN2) * 0x200000) as u64);
                }
                if p == 0 {
                    lemma_zero_entry();
                }
            }
        }
        assert forall|x: u64|
            (x < 0x200000 || 0x200000 <= x < 0x4000_0000 || KERNEL_VIRT_BASE <= x
                < KERNEL_VIRT_BASE + 0x4000_0000) implies #[trigger] leaf_entry(pt@, x) == if x
            < 0x200000 {
            None
        } else if x < 0x4000_0000 {
            Some((true, (huge_floor(x) as u64) | FLAGS_HUGE_PAGE))
        } else {
            Some((true, ((huge_floor(x) - KERNEL_VIRT_BASE) as u64) | FLAGS_HUGE_PAGE))
        } by {
            lemma_page_numbers(x);
            lemma_huge_floor(x);
            vstd::arithmetic::div_mod::lemma_div_denominator(va(x), 4096, 512);
            let c = huge_floor(x) as u64;
            assert(canonical(c));
            lemma_same_huge_page(x, c);
            lemma_page_numbers(c);
            vstd::arithmetic::div_mod::lemma_div_denominator(va(c), 4096, 512);
            let p = pn2(x);
            assert(va(c) == p * 0x200000);
            if 0 < p < 512 {
                lemma_huge_bits((p * 0x200000) as u64);
            }
            if KERNEL_PN2 <= p < KERNEL_PN2 + 512 {
                lemma_huge_bits(((p - KERNEL_PN2) * 0x200000) as u64);
            }
            if p == 0 {
                lemma_zero_entry();
            }
        }
    }
    pt.bases.pml4
}

/// Translations after `map_phys_to_virt(phys, size)`: every address of the
/// pages that `[phys, phys + size)` starts in, counted from the page of
/// `phys`, maps to itself, writable and executable; others as before.
pub open spec fn after_map(s0: PtState, s1: PtState, phys: u64, size: u64) -> bool {
    forall|x: u64|
        translate(s1, x) == if page_floor(phys) <= x < page_floor(phys) + page_ceil(size) {
            identity(x)
        } else {
            translate(s0, x)
        }
}

/// `map_phys_to_virt(phys, size)` maps the 2 MiB page of `x` with one 2 MiB
/// page entry: `phys` is page aligned and that whole 2 MiB page lies in
/// `[phys, phys + size)`.
pub open spec fn maps_huge(phys: u64, size: u64, x: u64) -> bool {
    phys % 4096 == 0 && phys <= huge_floor(x) && huge_floor(x) + 0x200000 <= phys + size
}

/// The entry `map_phys_to_virt(phys, size)` leaves for an address `x` of the
/// region: a 2 MiB page entry (exactly `FLAGS_HUGE_PAGE`) at `x`'s 2 MiB
/// page where `maps_huge`, else a 4 KiB page entry (exactly
/// `FLAGS_PRESENT_RW`) at `x`'s page.
pub open spec fn map_leaf(phys: u64, size: u64, x: u64) -> Option<(bool, u64)> {
    if maps_huge(phys, size, x) {
        Some((true, (huge_floor(x) as u64) | FLAGS_HUGE_PAGE))
    } else {
        Some((false, (page_floor(x) as u64) | FLAGS_PRESENT_RW))
    }
}

/// Maps `[phys, phys + size)` to itself: 2 MiB pages where the address is
/// 2 MiB aligned and at least 2 MiB remain, 4 KiB pages elsewhere (a
/// 2 MiB page met on the way is split). Returns `phys`. The range lies in
/// the lower canonical half, where an identity map can exist.
#[verifier::spinoff_prover]
pub fn map_phys_to_virt(pt: &mut PageTables, phys: u64, size: u64) -> (r: u64)
    requires
        old(pt).wf(),
        phys + size <= LOWER_HALF_END,
    ensures
        final(pt).wf(),
        writes_logged(*old(pt), *final(pt)),
        same_frame(final(pt)@, old(pt)@),
        r == phys,
        after_map(old(pt)@, final(pt)@, phys, size),
        forall|x: u64|
            page_floor(phys) <= x < page_floor(phys) + page_ceil(size) ==> leaf_entry(
                final(pt)@,
                x,
            ) == map_leaf(phys, size, x),
{
    let ghost p0 = *pt;
    let ghost s0 = pt@;
    let pb = phys - phys % 4096;
    proof {
        lemma_round_up(size as int, 4096);
        lemma_multiple_le(pb + page_ceil(size), LOWER_HALF_END as int, 4096);
        lemma_huge_floor(pb);
    }
    let mut off: u64 = 0;
    while off < size
        invariant
            pt.wf(),
            writes_logged(p0, *pt),
            same_frame(pt@, s0),
            pb == page_floor(phys),
            pb % 4096 == 0,
            phys + size <= LOWER_HALF_END,
            pb + page_ceil(size) <= LOWER_HALF_END,
            off % 4096 == 0,
            off <= page_ceil(size),
            forall|x: u64|
                translate(pt@, x) == if pb <= x < pb + off {
                    identity(x)
                } else {
                    translate(s0, x)
                },
            forall|x: u64|
                pb <= x < pb + off ==> leaf_entry(pt@, x) == map_leaf(phys, size, x),
            phys % 4096 == 0 && huge_floor((pb + off) as u64) >= phys && (pb + off) % 0x200000
                != 0 ==> huge_floor((pb + off) as u64) + 0x200000 > phys + size,
        decreases page_ceil(size) - off,
    {
        let cur = pb + off;
        let ghost mid = pt@;
        proof {
            lemma_huge_floor(cur);
        }
        if phys % 4096 == 0 && cur % 0x200000 == 0 && size - off >= 0x200000 {
            let e = cur | FLAGS_HUGE_PAGE;
            proof {
                lemma_huge_bits(cur);
                lemma_step_bounds(off as int, size as int, 4096, 0x200000);
            }
            map_huge(pt, cur, e);
            proof {
                assert forall|x: u64|
                    translate(pt@, x) == if pb <= x < pb + off + 0x200000 {
                        identity(x)
                    } else {
                        translate(s0, x)
                    } by {
                    if canonical(x) {
                        lemma_same_huge_page(x, cur);
                    }
                }
                assert forall|x: u64| pb <= x < pb + off + 0x200000 implies leaf_entry(pt@, x)
                    == map_leaf(phys, size, x) by {
                    lemma_same_huge_page(x, cur);
                    if cur <= x {
                        lemma_floor_in_huge_page(cur, x);
                    }
                }
                assert((cur + 0x200000) % 0x200000 == 0);
            }
            off = off + 0x200000;
        } else {
            let e = cur | FLAGS_PRESENT_RW;
            proof {
                lemma_page_bits(cur);
                lemma_step_bounds(off as int, size as int, 4096, 4096);
                let hc = huge_floor(cur) as u64;
                assert(canonical(hc));
                lemma_same_huge_page(cur, hc);
                if huge_leaf_at(mid, cur) {
                    assert forall|x: u64| pb <= x < cur implies pn2(x) != pn2(cur) by {
                        lemma_same_huge_page(x, hc);
                        if pn2(x) == pn2(cur) {
                            lemma_floor_in_huge_page(hc, x);
                            assert(leaf_entry(mid, x) == map_leaf(phys, size, x));
                        }
                    }
                }
            }
            map_page(pt, cur, e);
            proof {
                let hc = huge_floor(cur) as u64;
                assert forall|x: u64|
                    translate(pt@, x) == if pb <= x < pb + off + 4096 {
                        identity(x)
                    } else {
                        translate(s0, x)
                    } by {
                    if canonical(x) {
                        lemma_same_page(x, cur);
                    }
                }
                assert forall|x: u64| pb <= x < pb + off + 4096 implies leaf_entry(pt@, x)
                    == map_leaf(phys, size, x) by {
                    lemma_same_page(x, cur);
                    lemma_same_huge_page(x, hc);
                    if cur <= x {
                        lemma_floor_in_page(cur, x);
                    } else if pn2(x) == pn2(cur) {
                        lemma_floor_in_huge_page(hc, x);
                    }
                }
                if (cur + 4096) % 0x200000 != 0 {
                    lemma_floor_next(cur);
                }
            }
            off = off + 4096;
        }
    }
    proof {
        lemma_step_end(off as int, size as int, 4096);
    }
    phys
}

/// Translations after `unmap_phys_region(virt, size)`: none for the pages
/// that `[virt, virt + size)` starts in, counted from the page of `virt`;
/// others as before.
pub open spec fn after_unmap(s0: PtState, s1: PtState, virt: u64, size: u64) -> bool {
    forall|x: u64|
        translate(s1, x) == if page_floor(virt) <= x < page_floor(virt) + page_ceil(size) {
            None
        } else {
            translate(s0, x)
        }
}

/// Unmaps the pages of `[virt, virt + size)` (see `after_unmap`): a 2 MiB
/// aligned stretch of at least 2 MiB loses its page-directory entry, other
/// pages their page-table entry (a 2 MiB page only partly inside is split
/// first). Returns the address of every 4 KiB page of the range, whose
/// TLB entries are to be invalidated. The range lies in one canonical half.
#[verifier::spinoff_prover]
pub fn unmap_phys_region(pt: &mut PageTables, virt: u64, size: u64) -> (flushed: Vec<u64>)
    requires
        old(pt).wf(),
        region_ok(page_floor(virt), page_ceil(size)),
    ensures
        final(pt).wf(),
        writes_logged(*old(pt), *final(pt)),
        same_frame(final(pt)@, old(pt)@),
        after_unmap(old(pt)@, final(pt)@, virt, size),
        flushed@ == Seq::new(
            (page_ceil(size) / 4096) as nat,
            |i: int| (page_floor(virt) + i * 4096) as u64,
        ),
{
    let ghost p0 = *pt;
    let ghost s0 = pt@;
    let lo = virt - virt % 4096;
    proof {
        lemma_round_up(size as int, 4096);
    }
    let mut flushed: Vec<u64> = Vec::new();
    let mut off: u64 = 0;
    let mut count: u64 = 0;
    while off < size
        invariant
            pt.wf(),
            writes_logged(p0, *pt),
            same_frame(pt@, s0),
            lo == page_floor(virt),
            region_ok(lo as int, page_ceil(size)),
            off % 4096 == 0,
            off <= page_ceil(size),
            off == count * 4096,
            flushed@.len() == count,
            forall|i: int| 0 <= i < count ==> flushed@[i] == lo + i * 4096,
            forall|x: u64|
                translate(pt@, x) == if lo <= x < lo + off {
                    None
                } else {
                    translate(s0, x)
                },
        decreases page_ceil(size) - off,
    {
        let cur = lo + off;
        if cur % 0x200000 == 0 && size - off >= 0x200000 {
            proof {
                lemma_step_bounds(off as int, size as int, 4096, 0x200000);
            }
            clear_huge(pt, cur);
            proof {
                assert forall|x: u64|
                    translate(pt@, x) == if lo <= x < lo + off + 0x200000 {
                        None
                    } else {
                        translate(s0, x)
                    } by {
                    if canonical(x) {
                        lemma_same_huge_page(x, cur);
                    }
                }
            }
            let mut j: u64 = 0;
            while j < 512
                invariant
                    j <= 512,
                    cur == lo + count * 4096,
                    cur + 0x200000 <= lo + page_ceil(size),
                    region_ok(lo as int, page_ceil(size)),
                    flushed@.len() == count + j,
                    forall|i: int| 0 <= i < count + j ==> flushed@[i] == lo + i * 4096,
                decreases 512 - j,
            {
                flushed.push(cur + j * 4096);
                j = j + 1;
            }
            count = count + 512;
            off = off + 0x200000;
        } else {
            proof {
                lemma_step_bounds(off as int, size as int, 4096, 4096);
            }
            clear_page(pt, cur);
            proof {
                assert forall|x: u64|
                    translate(pt@, x) == if lo <= x < lo + off + 4096 {
                        None
                    } else {
                        translate(s0, x)
                    } by {
                    if canonical(x) {
                        lemma_same_page(x, cur);
                    }
                }
            }
            flushed.push(cur);
            count = count + 1;
            off = off + 4096;
        }
    }
    proof {
        lemma_step_end(off as int, size as int, 4096);
        assert(flushed@ =~= Seq::new(
            (page_ceil(size) / 4096) as nat,
            |i: int| (page_floor(virt) + i * 4096) as u64,
        ));
    }
    flushed
}

/// Translations after `map_mmio_region(phys, size)` returned `r`:
/// `[r, r + huge_ceil(size))` maps to the same stretch from the 2 MiB page of
/// `phys`, writable and execute-disable; others as before.
pub open spec fn after_mmio(s0: PtState, s1: PtState, phys: u64, size: u64, r: u64) -> bool {
    forall|x: u64|
        translate(s1, x) == if r <= x < r + huge_ceil(size) {
            Some(Translation { phys: huge_floor(phys) + (x - r), writable: true, no_exec: true })
        } else {
            translate(s0, x)
        }
}

/// Maps the 2 MiB pages that `[phys, phys + size)` starts in, from the 2 MiB
/// page of `phys`, at the next free address of the MMIO range, writable
/// and execute-disable, and moves the cursor past them. Returns the
/// virtual address of the first page. The cursor must not run past the end
/// of the address space, nor the pages past the physical address limit.
#[verifier::spinoff_prover]
pub fn map_mmio_region(pt: &mut PageTables, phys: u64, size: u64) -> (r: u64)
    requires
        old(pt).wf(),
        old(pt)@.next_mmio + huge_ceil(size) <= u64::MAX,
        huge_floor(phys) + huge_ceil(size) <= PHYS_LIMIT,
    ensures
        final(pt).wf(),
        writes_logged(*old(pt), *final(pt)),
        final(pt)@.bases == old(pt)@.bases,
        r == old(pt)@.next_mmio,
        final(pt)@.next_mmio == old(pt)@.next_mmio + huge_ceil(size),
        after_mmio(old(pt)@, final(pt)@, phys, size, r),
        forall|x: u64|
            r <= x < r + huge_ceil(size) ==> leaf_entry(final(pt)@, x) == Some(
                (
                    true,
                    ((huge_floor(phys) + (huge_floor(x) - r)) as u64) | FLAGS_HUGE_PAGE | FLAG_NX,
                ),
            ),
{
    let ghost p0 = *pt;
    let ghost s0 = pt@;
    proof {
        lemma_round_up(size as int, 0x200000);
    }
    let v = pt.next_mmio_virt;
    let span = (size + 0x1FFFFF) / 0x200000 * 0x200000;
    pt.next_mmio_virt = v + span;
    let ghost s1 = pt@;
    proof {
        lemma_translate_tables(s0, s1);
    }
    assert(pt.wf()) by {
        vstd::arithmetic::div_mod::lemma_mod_adds(v as int, span as int, 0x200000);
    }
    let pf = phys - phys % 0x200000;
    let mut off: u64 = 0;
    while off < size
        invariant
            pt.wf(),
            writes_logged(p0, *pt),
            same_frame(pt@, s1),
            s1.bases == s0.bases,
            v == s0.next_mmio,
            v >= MMIO_VIRT_BASE,
            v % 0x200000 == 0,
            span == huge_ceil(size),
            v + span <= u64::MAX,
            pf == huge_floor(phys),
            pf % 0x200000 == 0,
            pf + span <= PHYS_LIMIT,
            off % 0x200000 == 0,
            off <= span,
            forall|x: u64|
                translate(pt@, x) == if v <= x < v + off {
                    Some(Translation { phys: pf + (x - v), writable: true, no_exec: true })
                } else {
                    translate(s0, x)
                },
            forall|x: u64|
                v <= x < v + off ==> leaf_entry(pt@, x) == Some(
                    (true, ((pf + (huge_floor(x) - v)) as u64) | FLAGS_HUGE_PAGE | FLAG_NX),
                ),
        decreases span - off,
    {
        let cur = v + off;
        proof {
            lemma_step_bounds(off as int, size as int, 0x200000, 0x200000);
            vstd::arithmetic::div_mod::lemma_mod_adds(pf as int, off as int, 0x200000);
            vstd::arithmetic::div_mod::lemma_mod_adds(v as int, off as int, 0x200000);
            lemma_huge_bits((pf + off) as u64);
        }
        map_huge(pt, cur, (pf + off) | FLAGS_HUGE_PAGE | FLAG_NX);
        proof {
            assert forall|x: u64|
                translate(pt@, x) == if v <= x < v + off + 0x200000 {
                    Some(Translation { phys: pf + (x - v), writable: true, no_exec: true })
                } else {
                    translate(s0, x)
                } by {
                if canonical(x) {
                    lemma_same_huge_page(x, cur);
                }
            }
            assert forall|x: u64| v <= x < v + off + 0x200000 implies leaf_entry(pt@, x) == Some(
                (true, ((pf + (huge_floor(x) - v)) as u64) | FLAGS_HUGE_PAGE | FLAG_NX),
            ) by {
                lemma_same_huge_page(x, cur);
                if cur <= x {
                    lemma_floor_in_huge_page(cur, x);
                }
            }
        }
        off = off + 0x200000;
    }
    proof {
        lemma_step_end(off as int, size as int, 0x200000);
    }
    v
}

/// `x` lies in a 2 MiB page that a walk from `start` to `end` in 2 MiB
/// steps meets: `[huge_floor(start), huge_floor(start) + huge_ceil(end - start))`.
pub open spec fn in_steps(start: u64, end: u64, x: u64) -> bool {
    start < end && huge_floor(start) <= x < huge_floor(start) + huge_ceil((end - start) as u64)
}

/// The 2 MiB pages met from `start` to `end` lie in one canonical half.
pub open spec fn steps_ok(start: u64, end: u64) -> bool {
    start >= end || region_ok(huge_floor(start), huge_ceil((end - start) as u64))
}

/// `s1` is `s0` with the mapped addresses of `[lo, hi)` protected.
pub open spec fn protected_below(s0: PtState, s1: PtState, lo: int, hi: int, code: bool) -> bool {
    forall|y: u64|
        #[trigger] translate(s1, y) == if lo <= y < hi {
            protected(code, translate(s0, y))
        } else {
            translate(s0, y)
        }
}

/// Protects every mapped address of the 2 MiB pages met from `start` to
/// `end` in 2 MiB steps (see `protected`).
#[verifier::spinoff_prover]
fn protect_range(pt: &mut PageTables, start: u64, end: u64, code: bool)
    requires
        old(pt).wf(),
        steps_ok(start, end),
    ensures
        final(pt).wf(),
        writes_logged(*old(pt), *final(pt)),
        same_frame(final(pt)@, old(pt)@),
        forall|y: u64|
            translate(final(pt)@, y) == if in_steps(start, end, y) {
                protected(code, translate(old(pt)@, y))
            } else {
                translate(old(pt)@, y)
            },
{
    if start >= end {
        return;
    }
    let ghost p0 = *pt;
    let ghost s0 = pt@;
    let lo = start - start % 0x200000;
    proof {
        lemma_round_up((end - start) as int, 0x200000);
    }
    let n = (end - start + 0x1FFFFF) / 0x200000;
    assert(protected_below(s0, pt@, lo as int, lo as int, code));
    let mut i: u64 = 0;
    while i < n
        invariant
            pt.wf(),
            writes_logged(p0, *pt),
            same_frame(pt@, s0),
            lo == huge_floor(start),
            lo % 0x200000 == 0,
            n * 0x200000 == huge_ceil((end - start) as u64),
            region_ok(lo as int, n * 0x200000),
            i <= n,
            protected_below(s0, pt@, lo as int, lo + i * 0x200000, code),
        decreases n - i,
    {
        let a = lo + i * 0x200000;
        proof {
            vstd::arithmetic::div_mod::lemma_mod_multiples_basic(i as int, 0x200000);
            vstd::arithmetic::div_mod::lemma_mod_adds(lo as int, i * 0x200000, 0x200000);
        }
        let ghost mid = pt@;
        protect_2m(pt, a, code);
        i = i + 1;
        proof {
            assert(a % 0x200000 == 0);
            assert(canonical(a));
            assert forall|y: u64|
                #[trigger] translate(pt@, y) == if lo <= y < lo + i * 0x200000 {
                    protected(code, translate(s0, y))
                } else {
                    translate(s0, y)
                } by {
                assert(protected_below(s0, mid, lo as int, a as int, code));
                assert(translate(mid, y) == if lo <= y < a {
                    protected(code, translate(s0, y))
                } else {
                    translate(s0, y)
                });
                if lo <= y < lo + i * 0x200000 {
                    assert(canonical(y));
                }
                if canonical(y) {
                    lemma_same_huge_page(y, a);
                }
            }
            assert(protected_below(s0, pt@, lo as int, lo + i * 0x200000, code));
        }
    }
}

/// Translations after `mmu_protect_sections`: code pages become read-only
/// and executable, then data, BSS and stack pages execute-disable
/// (writability kept), in that order.
pub open spec fn section_translation(
    t: Option<Translation>,
    text: bool,
    data: bool,
    bss: bool,
    stack: bool,
) -> Option<Translation> {
    let t1 = if text {
        protected(true, t)
    } else {
        t
    };
    let t2 = if data {
        protected(false, t1)
    } else {
        t1
    };
    let t3 = if bss {
        protected(false, t2)
    } else {
        t2
    };
    if stack {
        protected(false, t3)
    } else {
        t3
    }
}

/// `s1` is `s0` with the kernel's sections protected (see
/// `section_translation`).
pub open spec fn after_protect(
    s0: PtState,
    s1: PtState,
    text_start: u64,
    text_end: u64,
    data_start: u64,
    data_end: u64,
    bss_start: u64,
    bss_end: u64,
    stack_start: u64,
    stack_end: u64,
) -> bool {
    forall|x: u64|
        translate(s1, x) == section_translation(
            translate(s0, x),
            in_steps(text_start, text_end, x),
            in_steps(data_start, data_end, x),
            in_steps(bss_start, bss_end, x),
            in_steps(stack_start, stack_end, x),
        )
}

/// Marks the kernel's sections, 2 MiB page by 2 MiB page: every mapped
/// address of a code page read-only and executable, of a data, BSS or stack
/// page execute-disable (see `section_translation`), whether the page is
/// mapped by a 2 MiB entry or by 4 KiB entries.
pub fn mmu_protect_sections(
    pt: &mut PageTables,
    text_start: u64,
    text_end: u64,
    data_start: u64,
    data_end: u64,
    bss_start: u64,
    bss_end: u64,
    stack_start: u64,
    stack_end: u64,
)
    requires
        old(pt).wf(),
        steps_ok(text_start, text_end),
        steps_ok(data_start, data_end),
        steps_ok(bss_start, bss_end),
        steps_ok(stack_start, stack_end),
    ensures
        final(pt).wf(),
        writes_logged(*old(pt), *final(pt)),
        same_frame(final(pt)@, old(pt)@),
        after_protect(
            old(pt)@,
            final(pt)@,
            text_start,
            text_end,
            data_start,
            data_end,
            bss_start,
            bss_end,
            stack_start,
            stack_end,
        ),
{
    protect_range(pt, text_start, text_end, true);
    protect_range(pt, data_start, data_end, false);
    protect_range(pt, bss_start, bss_end, false);
    protect_range(pt, stack_start, stack_end, false);
}

/// An address the boot maps translate.
pub open spec fn boot_mapped(x: u64) -> bool {
    0x200000 <= x < 0x4000_0000 || KERNEL_VIRT_BASE <= x < KERNEL_VIRT_BASE + 0x4000_0000
}

/// The kernel's protection after boot: once the boot maps are set up and
/// the sections protected, every address of the boot maps still
/// translates; a code page is read-only, and executable unless it is also a
/// data, BSS or stack page; a data, BSS or stack page is execute-disable,
/// and writable unless it is also a code page; other pages stay writable
/// and executable.
pub proof fn lemma_boot_protection(
    s0: PtState,
    s1: PtState,
    s2: PtState,
    text_start: u64,
    text_end: u64,
    data_start: u64,
    data_end: u64,
    bss_start: u64,
    bss_end: u64,
    stack_start: u64,
    stack_end: u64,
    x: u64,
)
    requires
        after_boot(s0, s1),
        after_protect(
            s1,
            s2,
            text_start,
            text_end,
            data_start,
            data_end,
            bss_start,
            bss_end,
            stack_start,
            stack_end,
        ),
        boot_mapped(x),
    ensures
        translate(s2, x) is Some,
        translate(s2, x).unwrap().phys == translate(s1, x).unwrap().phys,
        translate(s2, x).unwrap().writable == !in_steps(text_start, text_end, x),
        translate(s2, x).unwrap().no_exec == (in_steps(data_start, data_end, x) || in_steps(
            bss_start,
            bss_end,
            x,
        ) || in_steps(stack_start, stack_end, x)),
{
}

/// Unmaps the 4 KiB page at `stack_end` (splitting a 2 MiB page that holds
/// it), so that running past the stack faults; the page's TLB entry is to
/// be invalidated.
pub fn mmu_insert_guard_page(pt: &mut PageTables, stack_end: u64)
    requires
        old(pt).wf(),
        canonical(stack_end),
    ensures
        final(pt).wf(),
        writes_logged(*old(pt), *final(pt)),
        same_frame(final(pt)@, old(pt)@),
        forall|x: u64|
            translate(final(pt)@, x) == if page_floor(stack_end) <= x < page_floor(stack_end)
                + 4096 {
                None
            } else {
                translate(old(pt)@, x)
            },
{
    clear_page(pt, stack_end);
    proof {
        let c = (stack_end - stack_end % 4096) as u64;
        lemma_same_page(stack_end, c);
        assert forall|x: u64|
            translate(pt@, x) == if page_floor(stack_end) <= x < page_floor(stack_end) + 4096 {
                None
            } else {
                translate(old(pt)@, x)
            } by {
            if canonical(x) {
                lemma_same_page(x, c);
            }
        }
    }
}

/// Unmapping the pages a map covered gives back every translation there
/// was before the map, when those pages had none.
pub proof fn lemma_unmap_undoes_map(s0: PtState, s1: PtState, s2: PtState, phys: u64, size: u64)
    requires
        after_map(s0, s1, phys, size),
        after_unmap(s1, s2, phys, size),
        forall|x: u64|
            page_floor(phys) <= x < page_floor(phys) + page_ceil(size) ==> translate(s0, x) is None,
    ensures
        forall|x: u64| translate(s2, x) == translate(s0, x),
{
}

/// After mapping a page-aligned region to itself, every address of the
/// region translates to itself.
pub proof fn lemma_map_then_translate(s0: PtState, s1: PtState, phys: u64, size: u64, x: u64)
    requires
        after_map(s0, s1, phys, size),
        phys % 4096 == 0,
        phys <= x < phys + size,
    ensures
        translate(s1, x) == identity(x),
{
    lemma_round_up(size as int, 4096);
}

/// Cursor `k` of a run of MMIO mappings is 2 MiB aligned and not before
/// the end of the pages of any earlier region.
proof fn lemma_mmio_run_step(cursors: Seq<u64>, sizes: Seq<u64>, k: int)
    requires
        cursors.len() == sizes.len() + 1,
        cursors[0] == MMIO_VIRT_BASE,
        forall|i: int|
            0 <= i < sizes.len() ==> cursors[i + 1] == cursors[i] + huge_ceil(#[trigger] sizes[i]),
        0 <= k < cursors.len(),
    ensures
        cursors[k] % 0x200000 == 0,
        forall|i: int| 0 <= i < k ==> cursors[i] + huge_ceil(sizes[i]) <= cursors[k],
    decreases k,
{
    if k > 0 {
        lemma_mmio_run_step(cursors, sizes, k - 1);
        lemma_round_up(sizes[k - 1] as int, 0x200000);
        assert(cursors[k] == cursors[k - 1] + huge_ceil(sizes[k - 1]));
        vstd::arithmetic::div_mod::lemma_mod_adds(
            cursors[k - 1] as int,
            huge_ceil(sizes[k - 1]),
            0x200000,
        );
    }
}

/// Successive MMIO regions: when each call of `map_mmio_region` starts at
/// the cursor the previous call left (the other operations keep it), the
/// first region starts at `MMIO_VIRT_BASE`, each next one where the pages of
/// the one before end, every region is 2 MiB aligned, and no two overlap.
pub proof fn lemma_mmio_run(cursors: Seq<u64>, sizes: Seq<u64>)
    requires
        cursors.len() == sizes.len() + 1,
        cursors[0] == MMIO_VIRT_BASE,
        forall|i: int|
            0 <= i < sizes.len() ==> cursors[i + 1] == cursors[i] + huge_ceil(#[trigger] sizes[i]),
    ensures
        forall|k: int| 0 <= k < cursors.len() ==> cursors[k] % 0x200000 == 0,
        forall|i: int, j: int|
            0 <= i < j < cursors.len() ==> cursors[i] + huge_ceil(sizes[i]) <= cursors[j],
{
    assert forall|k: int| 0 <= k < cursors.len() implies cursors[k] % 0x200000 == 0 by {
        lemma_mmio_run_step(cursors, sizes, k);
    }
    assert forall|i: int, j: int| 0 <= i < j < cursors.len() implies cursors[i] + huge_ceil(
        sizes[i],
    ) <= cursors[j] by {
        lemma_mmio_run_step(cursors, sizes, j);
    }
}

} // verus!
