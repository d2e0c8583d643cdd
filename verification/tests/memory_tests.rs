use os_core::kernel::Kernel;
use os_core::memory::va_to_pa;
use os_core::memory::PAGE_SIZE;
use os_core::task::TimeVal;

fn kernel_with_running_task() -> Kernel {
    let mut k = Kernel::new(0);
    k.spawn_task(1);
    let t = k.run_tasks();
    assert_eq!(t, Some(0));
    k
}

fn mapped(k: &Kernel, vpn: usize) -> bool {
    k.memory.translate(vpn).is_some()
}

#[test]
fn mmap_munmap_round_trip() {
    let mut k = kernel_with_running_task();
    let start = 16 * PAGE_SIZE;
    assert_eq!(k.sys_mmap(start, 2 * PAGE_SIZE, 3), 0);
    assert!(mapped(&k, 16));
    assert!(mapped(&k, 17));
    assert!(!mapped(&k, 18));
    assert_eq!(k.sys_munmap(start, 2 * PAGE_SIZE), 0);
    assert!(!mapped(&k, 16));
    assert!(!mapped(&k, 17));
    assert_eq!(k.memory.areas.len(), 0);
}

#[test]
fn mmap_overlap_fails_without_mutation() {
    let mut k = kernel_with_running_task();
    assert_eq!(k.sys_mmap(16 * PAGE_SIZE, 2 * PAGE_SIZE, 3), 0);
    // overlaps the second page of the existing region
    assert_eq!(k.sys_mmap(17 * PAGE_SIZE, 2 * PAGE_SIZE, 1), -1);
    // the address space is exactly as before: old pages mapped with the old
    // permissions, the page past the old region still unmapped
    assert_eq!(k.memory.translate(16), Some(3 * 2 + 16));
    assert_eq!(k.memory.translate(17), Some(3 * 2 + 16));
    assert_eq!(k.memory.translate(18), None);
    assert_eq!(k.memory.areas.len(), 1);
}

#[test]
fn munmap_hole_fails_without_mutation() {
    let mut k = kernel_with_running_task();
    assert_eq!(k.sys_mmap(16 * PAGE_SIZE, 2 * PAGE_SIZE, 3), 0);
    // the third page of the requested range is unmapped
    assert_eq!(k.sys_munmap(16 * PAGE_SIZE, 3 * PAGE_SIZE), -1);
    assert!(mapped(&k, 16));
    assert!(mapped(&k, 17));
    assert_eq!(k.memory.areas.len(), 1);
}

#[test]
fn mmap_rejects_misaligned_start() {
    let mut k = kernel_with_running_task();
    assert_eq!(k.sys_mmap(16 * PAGE_SIZE + 1, PAGE_SIZE, 3), -1);
    assert_eq!(k.memory.areas.len(), 0);
}

#[test]
fn mmap_rejects_bad_permission_bits() {
    let mut k = kernel_with_running_task();
    // no read/write/execute bit at all
    assert_eq!(k.sys_mmap(16 * PAGE_SIZE, PAGE_SIZE, 0), -1);
    // out of the three-bit field
    assert_eq!(k.sys_mmap(16 * PAGE_SIZE, PAGE_SIZE, 8), -1);
    assert_eq!(k.memory.areas.len(), 0);
}

#[test]
fn munmap_rejects_misaligned_start() {
    let mut k = kernel_with_running_task();
    assert_eq!(k.sys_munmap(3, PAGE_SIZE), -1);
}

#[test]
fn mmap_sets_user_bit_and_permissions() {
    let mut k = kernel_with_running_task();
    assert_eq!(k.sys_mmap(32 * PAGE_SIZE, PAGE_SIZE, 7), 0);
    // permission bits are shifted past the validity bit, plus the
    // user-accessible bit
    assert_eq!(k.memory.translate(32), Some(7 * 2 + 16));
}

#[test]
fn mmap_length_rounds_up_to_whole_pages() {
    let mut k = kernel_with_running_task();
    assert_eq!(k.sys_mmap(16 * PAGE_SIZE, PAGE_SIZE + 1, 3), 0);
    assert!(mapped(&k, 16));
    assert!(mapped(&k, 17));
    assert!(!mapped(&k, 18));
}

#[test]
fn sbrk_moves_break_and_reports_old_value() {
    let mut k = Kernel::new(4096);
    assert_eq!(k.sys_sbrk(100), 4096);
    assert_eq!(k.program_brk, 4196);
    // shrinking below the heap bottom is refused with no mutation
    assert_eq!(k.sys_sbrk(-200), -1);
    assert_eq!(k.program_brk, 4196);
    assert_eq!(k.sys_sbrk(-100), 4196);
    assert_eq!(k.program_brk, 4096);
}

#[test]
fn va_to_pa_keeps_page_offset() {
    assert_eq!(va_to_pa(0x80, 0x12345), 0x80 * 4096 + 0x345);
    assert_eq!(va_to_pa(0, 4095), 4095);
}

#[test]
fn time_val_splits_microseconds() {
    let tv = TimeVal::from_micros(2_500_001);
    assert_eq!(tv.sec, 2);
    assert_eq!(tv.usec, 500_001);
}
