use kmem::addr::PAGE_SIZE;
use kmem::syscall::{
    sys_exit, sys_get_time, sys_mmap, sys_munmap, sys_set_priority, sys_task_info, sys_yield,
    time_val_of_us, current_task_info, TimeVal, TASK_INFO_BYTES,
};
use kmem::manager::TaskManager;
use kmem::perm::perm_of_port;
use kmem::task::TaskStatus;

#[test]
fn mmap_munmap_round_trip_and_frame_reuse() {
    let mut tm = TaskManager::new(8);
    tm.spawn_task(0);
    assert_eq!(sys_mmap(&mut tm, 0x1000, 4096, 0x3), 0);
    // a write through the fresh mapping succeeds
    let data: Vec<u8> = vec![7u8; 16];
    assert!(tm.write_to_current(0x1000, &data));
    assert_eq!(sys_munmap(&mut tm, 0x1000, 4096), 0);
    assert_eq!(tm.tasks[0].space.pages.len(), 0);
    assert_eq!(tm.get_allocatable_ppn(), 8);
    // the frame went back and the same range can be mapped again
    assert_eq!(sys_mmap(&mut tm, 0x1000, 4096, 0x3), 0);
    assert_eq!(tm.tasks[0].space.pages.len(), 1);
}

#[test]
fn mmap_misaligned_start_rejected() {
    let mut tm = TaskManager::new(8);
    tm.spawn_task(0);
    assert_eq!(sys_mmap(&mut tm, 0x1001, 4096, 0x3), -1);
    assert_eq!(tm.tasks[0].space.pages.len(), 0);
    assert_eq!(sys_mmap(&mut tm, 0xfff, 1, 0x7), -1);
    assert_eq!(tm.tasks[0].space.pages.len(), 0);
}

#[test]
fn set_priority_always_rejected() {
    assert_eq!(sys_set_priority(5), -1);
    assert_eq!(sys_set_priority(0), -1);
    assert_eq!(sys_set_priority(-3), -1);
    assert_eq!(sys_set_priority(isize::MAX), -1);
}

#[test]
fn mmap_invalid_port_rejected() {
    let mut tm = TaskManager::new(8);
    tm.spawn_task(0);
    assert_eq!(sys_mmap(&mut tm, 0x1000, 4096, 0x0), -1);
    assert_eq!(sys_mmap(&mut tm, 0x1000, 4096, 0x8), -1);
    assert_eq!(sys_mmap(&mut tm, 0x1000, 4096, 0x10), -1);
    assert_eq!(sys_mmap(&mut tm, 0x1000, 4096, 0x9), -1);
    assert_eq!(tm.tasks[0].space.pages.len(), 0);
    assert_eq!(tm.get_allocatable_ppn(), 8);
}

#[test]
fn mmap_out_of_frames_rejected_without_consumption() {
    let mut tm = TaskManager::new(2);
    tm.spawn_task(0);
    assert_eq!(sys_mmap(&mut tm, 0x1000, 3 * 4096, 0x3), -1);
    assert_eq!(tm.get_allocatable_ppn(), 2);
    assert_eq!(tm.tasks[0].space.pages.len(), 0);
    assert_eq!(sys_mmap(&mut tm, 0x1000, 2 * 4096, 0x3), 0);
    assert_eq!(tm.get_allocatable_ppn(), 0);
}

#[test]
fn mmap_overlap_second_call_rejected() {
    let mut tm = TaskManager::new(8);
    tm.spawn_task(0);
    assert_eq!(sys_mmap(&mut tm, 0x1000, 2 * 4096, 0x3), 0);
    assert_eq!(sys_mmap(&mut tm, 0x2000, 4096, 0x3), -1);
    // only the first mapping is retained
    assert_eq!(tm.tasks[0].space.pages.len(), 2);
    assert_eq!(tm.get_allocatable_ppn(), 6);
    // a disjoint range still works
    assert_eq!(sys_mmap(&mut tm, 0x4000, 4096, 0x3), 0);
}

#[test]
fn zero_length_range_rejected() {
    let mut tm = TaskManager::new(8);
    tm.spawn_task(0);
    assert_eq!(sys_mmap(&mut tm, 0x1000, 0, 0x3), -1);
    assert_eq!(tm.tasks[0].space.pages.len(), 0);
    assert_eq!(tm.get_allocatable_ppn(), 8);
    assert_eq!(sys_munmap(&mut tm, 0x1000, 0), -1);
    assert_eq!(sys_mmap(&mut tm, 0x1000, 4096, 0x3), 0);
    assert_eq!(sys_munmap(&mut tm, 0x1000, 0), -1);
    assert_eq!(tm.tasks[0].space.pages.len(), 1);
}

#[test]
fn get_time_writes_little_endian_timeval() {
    let mut tm = TaskManager::new(4);
    tm.spawn_task(0);
    assert_eq!(sys_mmap(&mut tm, 0x1000, 4096, 0x3), 0);
    assert_eq!(sys_get_time(&mut tm, 0x1000, 0, 3_500_001), 0);
    let pa = tm.try_translate_in_current_task(0x1000).unwrap();
    // sec = 3
    assert_eq!(tm.mem[pa], 3);
    for k in 1..8 {
        assert_eq!(tm.mem[pa + k], 0);
    }
    // usec = 500_001 = 0x07_a1_21
    assert_eq!(tm.mem[pa + 8], 0x21);
    assert_eq!(tm.mem[pa + 9], 0xa1);
    assert_eq!(tm.mem[pa + 10], 0x07);
    for k in 11..16 {
        assert_eq!(tm.mem[pa + k], 0);
    }
}

#[test]
fn get_time_monotonic_across_calls() {
    let mut tm = TaskManager::new(4);
    tm.spawn_task(0);
    assert_eq!(sys_mmap(&mut tm, 0x1000, 4096, 0x3), 0);
    let mut readings: Vec<usize> = Vec::new();
    for &now in &[1_000_000usize, 1_000_000, 2_345_678, 9_999_999] {
        assert_eq!(sys_get_time(&mut tm, 0x1000, 0, now), 0);
        let pa = tm.try_translate_in_current_task(0x1000).unwrap();
        let mut sec: usize = 0;
        let mut usec: usize = 0;
        for k in 0..8 {
            sec |= (tm.mem[pa + k] as usize) << (8 * k);
            usec |= (tm.mem[pa + 8 + k] as usize) << (8 * k);
        }
        assert_eq!(sec * 1_000_000 + usec, now);
        readings.push(sec * 1_000_000 + usec);
    }
    for w in readings.windows(2) {
        assert!(w[0] <= w[1]);
    }
}

#[test]
fn get_time_unmapped_destination_rejected() {
    let mut tm = TaskManager::new(4);
    tm.spawn_task(0);
    assert_eq!(sys_get_time(&mut tm, 0x1000, 0, 1_000_000), -1);
    // a destination straddling the end of the mapped page is rejected too
    assert_eq!(sys_mmap(&mut tm, 0x1000, 4096, 0x3), 0);
    assert_eq!(sys_get_time(&mut tm, 0x1000 + 4096 - 8, 0, 1_000_000), -1);
}

#[test]
fn timeval_of_us_exact() {
    let tv = time_val_of_us(3_500_001);
    assert_eq!(tv, TimeVal { sec: 3, usec: 500_001 });
    let tv = time_val_of_us(999_999);
    assert_eq!(tv, TimeVal { sec: 0, usec: 999_999 });
    let tv = time_val_of_us(0);
    assert_eq!(tv, TimeVal { sec: 0, usec: 0 });
}

#[test]
fn task_info_reports_syscall_counts_and_time() {
    let mut tm = TaskManager::new(4);
    tm.spawn_task(1000);
    for _ in 0..3 {
        tm.count_syscall(64);
    }
    tm.count_syscall(124);
    let times = tm.get_current_task_syscall_times();
    assert_eq!(times[64], 3);
    assert_eq!(times[124], 1);
    assert_eq!(times[0], 0);
    let info = current_task_info(&tm, 11_000);
    assert_eq!(info.status, TaskStatus::Running);
    assert_eq!(info.syscall_times[64], 3);
    assert_eq!(info.time, 10);
}

#[test]
fn task_info_writes_wire_bytes() {
    let mut tm = TaskManager::new(4);
    tm.spawn_task(1000);
    tm.count_syscall(64);
    tm.count_syscall(64);
    // one page holds the whole record
    assert!(TASK_INFO_BYTES <= PAGE_SIZE);
    assert_eq!(sys_mmap(&mut tm, 0x1000, 4096, 0x3), 0);
    assert_eq!(sys_task_info(&mut tm, 0x1000, 11_000), 0);
    let pa = tm.try_translate_in_current_task(0x1000).unwrap();
    // status tag: Running
    assert_eq!(tm.mem[pa], 2);
    // counter of syscall 64, little endian at 1 + 4 * 64
    assert_eq!(tm.mem[pa + 1 + 4 * 64], 2);
    assert_eq!(tm.mem[pa + 1 + 4 * 64 + 1], 0);
    // running time in ms: (11_000 - 1000) / 1000 = 10, at 1 + 4 * 500
    assert_eq!(tm.mem[pa + 1 + 4 * 500], 10);
    assert_eq!(tm.mem[pa + 1 + 4 * 500 + 1], 0);
}

#[test]
fn task_info_unmapped_destination_rejected() {
    let mut tm = TaskManager::new(4);
    tm.spawn_task(0);
    assert_eq!(sys_task_info(&mut tm, 0x1000, 5_000), -1);
}

#[test]
fn counters_isolated_between_tasks() {
    let mut tm = TaskManager::new(4);
    tm.spawn_task(0);
    tm.spawn_task(0);
    assert_eq!(tm.current, 0);
    tm.count_syscall(5);
    tm.count_syscall(5);
    assert_eq!(sys_yield(&mut tm), 0);
    assert_eq!(tm.current, 1);
    tm.count_syscall(5);
    let times = tm.get_current_task_syscall_times();
    assert_eq!(times[5], 1);
    assert_eq!(sys_yield(&mut tm), 0);
    assert_eq!(tm.current, 0);
    let times = tm.get_current_task_syscall_times();
    assert_eq!(times[5], 2);
}

#[test]
fn yield_round_robin_order() {
    let mut tm = TaskManager::new(4);
    tm.spawn_task(0);
    tm.spawn_task(0);
    tm.spawn_task(0);
    assert_eq!(tm.current, 0);
    assert_eq!(sys_yield(&mut tm), 0);
    assert_eq!(tm.current, 1);
    assert_eq!(sys_yield(&mut tm), 0);
    assert_eq!(tm.current, 2);
    assert_eq!(sys_yield(&mut tm), 0);
    assert_eq!(tm.current, 0);
}

#[test]
fn yield_single_task_reschedules_itself() {
    let mut tm = TaskManager::new(4);
    tm.spawn_task(0);
    assert_eq!(sys_yield(&mut tm), 0);
    assert_eq!(tm.current, 0);
    assert_eq!(tm.tasks[0].status, TaskStatus::Running);
}

#[test]
fn exit_frees_frames_and_switches() {
    let mut tm = TaskManager::new(4);
    tm.spawn_task(0);
    tm.spawn_task(0);
    assert_eq!(sys_mmap(&mut tm, 0x1000, 2 * 4096, 0x3), 0);
    assert_eq!(tm.get_allocatable_ppn(), 2);
    sys_exit(&mut tm, 0);
    assert!(!tm.halted);
    assert_eq!(tm.current, 1);
    assert_eq!(tm.tasks[0].status, TaskStatus::Exited);
    assert_eq!(tm.tasks[0].space.pages.len(), 0);
    assert_eq!(tm.get_allocatable_ppn(), 4);
}

#[test]
fn exit_last_task_halts_machine() {
    let mut tm = TaskManager::new(4);
    tm.spawn_task(0);
    sys_exit(&mut tm, 7);
    assert!(tm.halted);
    assert_eq!(tm.tasks[0].status, TaskStatus::Exited);
}

#[test]
fn munmap_unmapped_or_misaligned_rejected() {
    let mut tm = TaskManager::new(4);
    tm.spawn_task(0);
    assert_eq!(sys_munmap(&mut tm, 0x1000, 4096), -1);
    assert_eq!(sys_mmap(&mut tm, 0x1000, 4096, 0x3), 0);
    assert_eq!(sys_munmap(&mut tm, 0x1001, 4096), -1);
    // a range reaching past the mapping is rejected whole
    assert_eq!(sys_munmap(&mut tm, 0x1000, 2 * 4096), -1);
    assert_eq!(tm.tasks[0].space.pages.len(), 1);
}

#[test]
fn munmap_part_of_larger_mapping() {
    let mut tm = TaskManager::new(4);
    tm.spawn_task(0);
    assert_eq!(sys_mmap(&mut tm, 0x1000, 2 * 4096, 0x3), 0);
    assert_eq!(sys_munmap(&mut tm, 0x1000, 4096), 0);
    assert!(tm.try_translate_in_current_task(0x1000).is_none());
    assert!(tm.try_translate_in_current_task(0x2000).is_some());
    assert_eq!(tm.get_allocatable_ppn(), 3);
}

#[test]
fn translate_adds_page_offset() {
    let mut tm = TaskManager::new(4);
    tm.spawn_task(0);
    assert_eq!(sys_mmap(&mut tm, 0x3000, 4096, 0x3), 0);
    let base = tm.try_translate_in_current_task(0x3000).unwrap();
    let inner = tm.try_translate_in_current_task(0x3000 + 123).unwrap();
    assert_eq!(inner, base + 123);
    assert_eq!(base % PAGE_SIZE, 0);
    assert!(tm.try_translate_in_current_task(0x2fff).is_none());
}

#[test]
fn port_bits_decode_to_permissions() {
    let p = perm_of_port(0x3);
    assert!(p.r && p.w && !p.x && p.u);
    let p = perm_of_port(0x4);
    assert!(!p.r && !p.w && p.x && p.u);
    let p = perm_of_port(0x7);
    assert!(p.r && p.w && p.x && p.u);
}

#[test]
fn write_requires_writable_permission() {
    let mut tm = TaskManager::new(4);
    tm.spawn_task(0);
    // read-only mapping: the kernel refuses to write a TimeVal through it
    assert_eq!(sys_mmap(&mut tm, 0x1000, 4096, 0x1), 0);
    assert_eq!(sys_get_time(&mut tm, 0x1000, 0, 1_000_000), -1);
}
