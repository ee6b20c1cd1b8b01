use kernel_sync::config::{MAX_SYSCALL_NUM, MEMORY_END, PAGE_SIZE};
use kernel_sync::process::{
    sys_get_time, sys_mmap, sys_munmap, sys_sbrk, sys_trace, translated_ref_u8,
    translated_refmut_u8, MapPerm, MapRequest, PteView, TraceAction,
};

fn nothing_mapped(_vpn: usize) -> bool {
    false
}

#[test]
fn time_is_split_into_seconds_and_microseconds() {
    let tv = sys_get_time(3_250_017);
    assert_eq!(tv.sec, 3);
    assert_eq!(tv.usec, 250_017);
    let tv = sys_get_time(999_999);
    assert_eq!((tv.sec, tv.usec), (0, 999_999));
}

#[test]
fn trace_requests_are_decoded() {
    assert_eq!(sys_trace(0, 0x1000, 9), TraceAction::ReadUserByte { addr: 0x1000 });
    assert_eq!(sys_trace(1, 0x2000, 0x1234), TraceAction::WriteUserByte { addr: 0x2000, value: 0x34 });
    assert_eq!(sys_trace(2, 64, 0), TraceAction::SyscallCount { id: 64 });
    assert_eq!(sys_trace(2, MAX_SYSCALL_NUM, 0), TraceAction::Reject);
    assert_eq!(sys_trace(3, 0, 0), TraceAction::Reject);
}

#[test]
fn user_read_needs_valid_user_readable_page() {
    let pte = PteView { ppn: 0x80200, valid: true, user: true, readable: true, writable: false };
    assert_eq!(translated_ref_u8(Some(pte), 0x1234), Some(0x80200 * PAGE_SIZE + 0x234));
    assert_eq!(translated_refmut_u8(Some(pte), 0x1234), None);
    assert_eq!(translated_ref_u8(None, 0x1234), None);
    let kernel_only = PteView { user: false, ..pte };
    assert_eq!(translated_ref_u8(Some(kernel_only), 0x1234), None);
    let invalid = PteView { valid: false, ..pte };
    assert_eq!(translated_ref_u8(Some(invalid), 0x1234), None);
    let writable = PteView { readable: false, writable: true, ..pte };
    assert_eq!(translated_refmut_u8(Some(writable), 0x10fff), Some(0x80200 * PAGE_SIZE + 0xfff));
    assert_eq!(translated_ref_u8(Some(writable), 0x10fff), None);
}

#[test]
fn mmap_rejects_bad_arguments() {
    assert_eq!(sys_mmap(0x1001, 4096, 1, nothing_mapped), None);
    assert_eq!(sys_mmap(0x1000, 4096, 0, nothing_mapped), None);
    assert_eq!(sys_mmap(0x1000, 4096, 8, nothing_mapped), None);
    assert_eq!(sys_mmap(0x1000, 4096, 9, nothing_mapped), None);
    assert_eq!(sys_mmap(0x1000, 0, 1, nothing_mapped), None);
    assert_eq!(sys_mmap(MEMORY_END, 4096, 1, nothing_mapped), None);
    assert_eq!(sys_mmap(MEMORY_END - PAGE_SIZE, 2 * PAGE_SIZE, 1, nothing_mapped), None);
    assert_eq!(sys_mmap(0, usize::MAX, 1, nothing_mapped), None);
}

#[test]
fn mmap_builds_request() {
    assert_eq!(
        sys_mmap(0x10000000, 4096, 3, nothing_mapped),
        Some(MapRequest {
            start_vpn: 0x10000,
            end_vpn: 0x10001,
            perm: MapPerm { read: true, write: true, execute: false, user: true },
        })
    );
    // A partial page is rounded up.
    assert_eq!(
        sys_mmap(0x10000000, 4097, 4, nothing_mapped),
        Some(MapRequest {
            start_vpn: 0x10000,
            end_vpn: 0x10002,
            perm: MapPerm { read: false, write: false, execute: true, user: true },
        })
    );
    assert_eq!(
        sys_mmap(MEMORY_END - PAGE_SIZE, PAGE_SIZE, 7, nothing_mapped).unwrap().perm,
        MapPerm { read: true, write: true, execute: true, user: true }
    );
}

#[test]
fn mmap_rejects_overlap() {
    let mapped = |vpn: usize| vpn == 0x10001;
    assert_eq!(sys_mmap(0x10000000, 3 * 4096, 1, mapped), None);
    assert!(sys_mmap(0x10002000, 4096, 1, mapped).is_some());
}

#[test]
fn munmap_checks_and_clamps() {
    assert_eq!(sys_munmap(0x1001, 4096), None);
    assert_eq!(sys_munmap(0x1000, 0), None);
    assert_eq!(sys_munmap(MEMORY_END, 4096), None);
    assert_eq!(sys_munmap(0x1000, 4096), Some((0x1000, 4096)));
    assert_eq!(
        sys_munmap(MEMORY_END - PAGE_SIZE, 3 * PAGE_SIZE),
        Some((MEMORY_END - PAGE_SIZE, PAGE_SIZE))
    );
}

#[test]
fn sbrk_result() {
    assert_eq!(sys_sbrk(Some(0x4000)), 0x4000);
    assert_eq!(sys_sbrk(None), -1);
}
