use microkernelia::paging::{
    map_mmio_region, map_phys_to_virt, mmu_init, mmu_insert_guard_page, mmu_protect_sections,
    unmap_phys_region, PageTables, TableBases, FLAGS_HUGE_PAGE, FLAGS_PRESENT_RW, FLAG_NX,
    HUGE_PAGE_SIZE, KERNEL_VIRT_BASE, MMIO_VIRT_BASE, PAGE_SIZE,
};

const BASES: TableBases = TableBases {
    pml4: 0x10_0000,
    pdpt: 0x20_0000,
    pd: 0x4000_0000,
    pt: 0x100_0000_0000,
};

const H: u64 = HUGE_PAGE_SIZE as u64;
const P: u64 = PAGE_SIZE as u64;

fn tables() -> PageTables {
    PageTables::new(BASES)
}

fn rw(x: u64) -> Option<(u64, bool, bool)> {
    Some((x, true, false))
}

#[test]
fn empty_tables_translate_nothing() {
    let pt = tables();
    assert_eq!(pt.translate_addr(0), None);
    assert_eq!(pt.translate_addr(0x1234_5678), None);
    assert_eq!(pt.translate_addr(KERNEL_VIRT_BASE), None);
}

#[test]
fn boot_mappings() {
    let mut pt = tables();
    let cr3 = mmu_init(&mut pt);
    assert_eq!(cr3, BASES.pml4);
    // page zero (and the rest of the first 2 MiB) faults
    assert_eq!(pt.translate_addr(0), None);
    assert_eq!(pt.translate_addr(0x1FF_FFF), None);
    // identity map of [2 MiB, 1 GiB)
    assert_eq!(pt.translate_addr(0x20_0000), rw(0x20_0000));
    assert_eq!(pt.translate_addr(0x1234_5678), rw(0x1234_5678));
    assert_eq!(pt.translate_addr(0x3FFF_FFFF), rw(0x3FFF_FFFF));
    assert_eq!(pt.translate_addr(0x4000_0000), None);
    // kernel map of KERNEL_VIRT_BASE + [0, 1 GiB)
    assert_eq!(pt.translate_addr(KERNEL_VIRT_BASE), rw(0));
    assert_eq!(pt.translate_addr(KERNEL_VIRT_BASE + 0x12_3456), rw(0x12_3456));
    assert_eq!(pt.translate_addr(KERNEL_VIRT_BASE + 0x4000_0000), None);
    // the entries: PML4 0 and 256 point at their tables
    assert_eq!(pt.pml4_entry(0), BASES.pdpt | FLAGS_PRESENT_RW);
    assert_eq!(pt.pml4_entry(256), (BASES.pdpt + 256 * 4096) | FLAGS_PRESENT_RW);
    assert_eq!(pt.pdpt_entry(0), BASES.pd | FLAGS_PRESENT_RW);
    assert_eq!(pt.pd_entry(0), 0);
    assert_eq!(pt.pd_entry(1), H | FLAGS_HUGE_PAGE);
    assert_eq!(pt.pd_entry(511), (511 * H) | FLAGS_HUGE_PAGE);
}

#[test]
fn non_canonical_addresses_never_translate() {
    let mut pt = tables();
    mmu_init(&mut pt);
    assert_eq!(pt.translate_addr(0x0000_8000_0000_0000), None);
    assert_eq!(pt.translate_addr(0x0001_0000_0020_0000), None);
}

#[test]
fn map_huge_page_identity() {
    let mut pt = tables();
    let p: u64 = 0x4060_0000; // 1 GiB + 6 MiB, 2 MiB aligned
    let r = map_phys_to_virt(&mut pt, p, H);
    assert_eq!(r, p);
    assert_eq!(pt.translate_addr(p), rw(p));
    assert_eq!(pt.translate_addr(p + 0x1_2345), rw(p + 0x1_2345));
    assert_eq!(pt.translate_addr(p + H), None);
    assert_eq!(pt.translate_addr(p - 1), None);
    assert_eq!(pt.pd_entry(p >> 21), p | FLAGS_HUGE_PAGE);
}

#[test]
fn map_small_pages() {
    let mut pt = tables();
    map_phys_to_virt(&mut pt, 0x1000, 0x2000);
    assert_eq!(pt.translate_addr(0x1000), rw(0x1000));
    assert_eq!(pt.translate_addr(0x2FFF), rw(0x2FFF));
    assert_eq!(pt.translate_addr(0x3000), None);
    assert_eq!(pt.translate_addr(0x0FFF), None);
    assert_eq!(pt.pd_entry(0), BASES.pt | FLAGS_PRESENT_RW);
    assert_eq!(pt.pt_entry(1), 0x1000 | FLAGS_PRESENT_RW);
    assert_eq!(pt.pt_entry(2), 0x2000 | FLAGS_PRESENT_RW);
    assert_eq!(pt.pt_entry(3), 0);
}

#[test]
fn map_unaligned_start_covers_pages_from_its_page() {
    let mut pt = tables();
    let r = map_phys_to_virt(&mut pt, 0x1800, 0x1000);
    assert_eq!(r, 0x1800);
    assert_eq!(pt.translate_addr(0x1000), rw(0x1000));
    assert_eq!(pt.translate_addr(0x1FFF), rw(0x1FFF));
    assert_eq!(pt.translate_addr(0x2000), None);
}

#[test]
fn map_aligned_region_mixes_page_sizes() {
    let mut pt = tables();
    let p: u64 = 0x3FA0_0000; // crosses the 1 GiB boundary after two pages
    map_phys_to_virt(&mut pt, p, 4 * H + 2 * P);
    for j in 0..4u64 {
        let v = p + j * H;
        assert_eq!(pt.pd_entry(v >> 21), v | FLAGS_HUGE_PAGE);
        assert_eq!(pt.translate_addr(v + 0x777), rw(v + 0x777));
    }
    let tail = p + 4 * H;
    assert_eq!(pt.translate_addr(tail), rw(tail));
    assert_eq!(pt.translate_addr(tail + P + 5), rw(tail + P + 5));
    assert_eq!(pt.translate_addr(tail + 2 * P), None);
}

#[test]
fn unmap_after_map_clears_huge_page() {
    let mut pt = tables();
    let p: u64 = 0x60_0000;
    map_phys_to_virt(&mut pt, p, H);
    let flushed = unmap_phys_region(&mut pt, p, H);
    let expected: Vec<u64> = (0..512u64).map(|i| p + i * P).collect();
    assert_eq!(flushed, expected);
    assert_eq!(pt.pd_entry(p >> 21), 0);
    assert_eq!(pt.translate_addr(p), None);
    assert_eq!(pt.translate_addr(p + H - 1), None);
}

#[test]
fn unmap_small_pages_flushes_each() {
    let mut pt = tables();
    map_phys_to_virt(&mut pt, 0x3000, 0x3000);
    let flushed = unmap_phys_region(&mut pt, 0x3000, 0x2000);
    assert_eq!(flushed, vec![0x3000, 0x4000]);
    assert_eq!(pt.translate_addr(0x3000), None);
    assert_eq!(pt.translate_addr(0x4FFF), None);
    assert_eq!(pt.translate_addr(0x5000), rw(0x5000));
    assert_eq!(pt.pt_entry(3), 0);
    assert_eq!(pt.pt_entry(4), 0);
}

#[test]
fn unmap_inside_huge_page_splits_it() {
    let mut pt = tables();
    map_phys_to_virt(&mut pt, 0, H);
    let flushed = unmap_phys_region(&mut pt, 0x1000, 0x1000);
    assert_eq!(flushed, vec![0x1000]);
    assert_eq!(pt.translate_addr(0x1000), None);
    assert_eq!(pt.translate_addr(0x0FFF), rw(0x0FFF));
    assert_eq!(pt.translate_addr(0x2000), rw(0x2000));
    assert_eq!(pt.translate_addr(H - 1), rw(H - 1));
    assert_eq!(pt.pd_entry(0), BASES.pt | FLAGS_PRESENT_RW);
}

#[test]
fn unmap_after_map_restores_boot_map() {
    let mut pt = tables();
    mmu_init(&mut pt);
    let p: u64 = 0x8000_0000; // 2 GiB: outside the boot map
    map_phys_to_virt(&mut pt, p, H + P);
    assert_eq!(pt.translate_addr(p + H), rw(p + H));
    unmap_phys_region(&mut pt, p, H + P);
    assert_eq!(pt.translate_addr(p), None);
    assert_eq!(pt.translate_addr(p + H), None);
    assert_eq!(pt.translate_addr(0x20_0000), rw(0x20_0000));
    assert_eq!(pt.translate_addr(KERNEL_VIRT_BASE + H), rw(H));
}

#[test]
fn unmap_in_kernel_half() {
    let mut pt = tables();
    mmu_init(&mut pt);
    let v = KERNEL_VIRT_BASE + 2 * H;
    let flushed = unmap_phys_region(&mut pt, v, P);
    assert_eq!(flushed, vec![v]);
    assert_eq!(pt.translate_addr(v), None);
    assert_eq!(pt.translate_addr(v + P), rw(2 * H + P));
    assert_eq!(pt.translate_addr(2 * H), rw(2 * H));
}

#[test]
fn mmio_regions_do_not_overlap() {
    let mut pt = tables();
    let a = map_mmio_region(&mut pt, 0xfe00_0000, 0x1000);
    assert_eq!(a, MMIO_VIRT_BASE);
    assert_eq!(pt.next_mmio(), MMIO_VIRT_BASE + H);
    let b = map_mmio_region(&mut pt, 0xfd00_0000, 3 * H);
    assert_eq!(b, MMIO_VIRT_BASE + H);
    assert_eq!(pt.next_mmio(), MMIO_VIRT_BASE + 4 * H);
    assert_eq!(pt.translate_addr(a + 0x10), Some((0xfe00_0010, true, true)));
    assert_eq!(pt.translate_addr(b + 2 * H + 8), Some((0xfd00_0000 + 2 * H + 8, true, true)));
    assert_eq!(pt.translate_addr(b + 3 * H), None);
    assert_eq!(pt.pd_entry(b >> 21 & 0x7FF_FFFF), 0xfd00_0000 | FLAGS_HUGE_PAGE | FLAG_NX);
}

#[test]
fn mmio_unaligned_physical_address_maps_its_huge_page() {
    let mut pt = tables();
    let a = map_mmio_region(&mut pt, 0xfe01_2345, 0x100);
    assert_eq!(pt.translate_addr(a), Some((0xfe00_0000, true, true)));
    assert_eq!(pt.translate_addr(a + 0x1_2345), Some((0xfe01_2345, true, true)));
}

#[test]
fn protect_sections_code_rx_data_nx() {
    let mut pt = tables();
    mmu_init(&mut pt);
    mmu_protect_sections(&mut pt, 2 * H, 3 * H, 4 * H, 5 * H, 6 * H, 6 * H + 1, 8 * H, 10 * H);
    // code: read-only, executable
    assert_eq!(pt.translate_addr(2 * H + 5), Some((2 * H + 5, false, false)));
    // data, bss, stack: writable, execute-disable
    assert_eq!(pt.translate_addr(4 * H), Some((4 * H, true, true)));
    assert_eq!(pt.translate_addr(6 * H + 0x1000), Some((6 * H + 0x1000, true, true)));
    assert_eq!(pt.translate_addr(8 * H), Some((8 * H, true, true)));
    assert_eq!(pt.translate_addr(9 * H + 7), Some((9 * H + 7, true, true)));
    // untouched pages
    assert_eq!(pt.translate_addr(3 * H), rw(3 * H));
    assert_eq!(pt.translate_addr(10 * H), rw(10 * H));
    assert_eq!(pt.pd_entry(2), (2 * H) | FLAGS_HUGE_PAGE & !2);
    assert_eq!(pt.pd_entry(4), (4 * H) | FLAGS_HUGE_PAGE | FLAG_NX);
}

#[test]
fn protect_sections_in_kernel_map() {
    let mut pt = tables();
    mmu_init(&mut pt);
    let k = KERNEL_VIRT_BASE;
    mmu_protect_sections(&mut pt, k, k + H, k + 2 * H, k + 3 * H, 0, 0, 0, 0);
    assert_eq!(pt.translate_addr(k + 0x100), Some((0x100, false, false)));
    assert_eq!(pt.translate_addr(k + 2 * H + 4), Some((2 * H + 4, true, true)));
    assert_eq!(pt.translate_addr(k + H), rw(H));
}

#[test]
fn protect_reaches_small_pages() {
    let mut pt = tables();
    map_phys_to_virt(&mut pt, 0x1000, 0x2000);
    map_phys_to_virt(&mut pt, H, P);
    mmu_protect_sections(&mut pt, 0, H, H, H + 1, 0, 0, 0, 0);
    assert_eq!(pt.translate_addr(0x1000), Some((0x1000, false, false)));
    assert_eq!(pt.translate_addr(0x2FFF), Some((0x2FFF, false, false)));
    assert_eq!(pt.translate_addr(H), Some((H, true, true)));
    assert_eq!(pt.translate_addr(0x3000), None);
    assert_eq!(pt.pt_entry(1), 0x1000 | 1);
    assert_eq!(pt.pt_entry(512), H | FLAGS_PRESENT_RW | FLAG_NX);
}

#[test]
fn map_writes_small_entry_for_short_aligned_region() {
    let mut pt = tables();
    let r = map_phys_to_virt(&mut pt, 0x20_0000, 0x1000);
    assert_eq!(r, 0x20_0000);
    assert_eq!(pt.pt_entry(0x200), 0x20_0003);
    assert_eq!(pt.pd_entry(1), (BASES.pt + 4096) | FLAGS_PRESENT_RW);
    assert_eq!(pt.translate_addr(0x20_1000), None);
}

#[test]
fn map_uses_huge_entries_only_for_whole_aligned_pages() {
    let mut pt = tables();
    // from 1 MiB to 5 MiB + 4 KiB: 4 KiB pages up to 2 MiB, one 2 MiB page,
    // then 4 KiB pages
    map_phys_to_virt(&mut pt, 0x10_0000, 0x40_1000);
    assert_eq!(pt.pd_entry(0), BASES.pt | FLAGS_PRESENT_RW);
    assert_eq!(pt.pt_entry(0x100), 0x10_0003);
    assert_eq!(pt.pt_entry(0x1FF), 0x1F_F003);
    assert_eq!(pt.pd_entry(1), H | FLAGS_HUGE_PAGE);
    assert_eq!(pt.pd_entry(2), (BASES.pt + 2 * 4096) | FLAGS_PRESENT_RW);
    assert_eq!(pt.pt_entry(2 * 512), 2 * H | FLAGS_PRESENT_RW);
    assert_eq!(pt.pt_entry(2 * 512 + 0x100), (2 * H + 0x10_0000) | FLAGS_PRESENT_RW);
    assert_eq!(pt.translate_addr(2 * H + 0x10_1000), None);
}

#[test]
fn code_then_data_on_one_page_ends_read_only_and_nx() {
    let mut pt = tables();
    mmu_init(&mut pt);
    mmu_protect_sections(&mut pt, 2 * H, 3 * H, 2 * H, 3 * H, 0, 0, 0, 0);
    assert_eq!(pt.translate_addr(2 * H), Some((2 * H, false, true)));
}

#[test]
fn guard_page_is_cleared() {
    let mut pt = tables();
    map_phys_to_virt(&mut pt, 0x4000, 0x2000);
    mmu_insert_guard_page(&mut pt, 0x5000);
    assert_eq!(pt.translate_addr(0x5000), None);
    assert_eq!(pt.translate_addr(0x4000), rw(0x4000));
    assert_eq!(pt.pt_entry(5), 0);
    assert_eq!(pt.pt_entry(4), 0x4000 | FLAGS_PRESENT_RW);
}

#[test]
fn guard_page_in_huge_kernel_map() {
    let mut pt = tables();
    mmu_init(&mut pt);
    let g = KERNEL_VIRT_BASE + 0x3F_F000;
    mmu_insert_guard_page(&mut pt, g);
    assert_eq!(pt.translate_addr(g), None);
    assert_eq!(pt.translate_addr(g + 0xFFF), None);
    assert_eq!(pt.translate_addr(g - 1), rw(0x3F_EFFF));
    assert_eq!(pt.translate_addr(g + P), rw(0x40_0000));
    assert_eq!(pt.translate_addr(KERNEL_VIRT_BASE + 0x20_0000), rw(0x20_0000));
}

#[test]
fn take_writes_reports_written_entries() {
    let mut pt = tables();
    map_phys_to_virt(&mut pt, 0x1000, 0x1000);
    let (pdpt, pd, ptk) = pt.take_writes();
    assert!(pdpt.contains(&0));
    assert!(pd.contains(&0));
    assert!(ptk.contains(&1));
    let (a, b, c) = pt.take_writes();
    assert!(a.is_empty() && b.is_empty() && c.is_empty());
    assert_eq!(pt.translate_addr(0x1000), rw(0x1000));
}
