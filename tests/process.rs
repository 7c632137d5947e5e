use os::memory::MemorySet;
use os::process::{
    add_task, fetch_task, sys_exec, sys_exit, sys_fork, sys_get_time, sys_getpid, sys_mmap, sys_munmap, sys_sbrk,
    sys_set_priority, sys_spawn, sys_task_info, sys_waitpid, sys_yield, va_to_pa, Kernel, TimeVal, CLOCK_FREQ,
};
use os::task::{TaskInfo, TaskStatus, DEFAULT_PRIORITY, MAX_SYSCALL_NUM};

fn image(len: usize) -> Vec<u8> {
    let mut b = vec![0u8; len];
    b[0] = 0x7f;
    b[1] = b'E';
    b[2] = b'L';
    b[3] = b'F';
    b
}

fn boot() -> Kernel {
    Kernel::new(&image(100)).unwrap()
}

#[test]
fn new_kernel_runs_root_task() {
    let k = boot();
    assert_eq!(k.current, Some(0));
    assert_eq!(k.tasks.len(), 1);
    assert_eq!(k.tasks[0].task_status, TaskStatus::Running);
    assert_eq!(k.tasks[0].priority, DEFAULT_PRIORITY);
    // program at 0x1000..0x1064, rounded to 0x2000, one guard page
    assert_eq!(k.tasks[0].memory_set.heap_bottom, 0x3000);
    assert_eq!(k.tasks[0].memory_set.brk, 0x3000);
    assert_eq!(sys_getpid(&k), 0);
}

#[test]
fn new_kernel_refuses_non_image() {
    assert!(Kernel::new(&[1, 2, 3, 4, 5]).is_none());
    assert!(Kernel::new(&[0x7f, b'E', b'L']).is_none());
    assert!(Kernel::new(&[]).is_none());
}

#[test]
fn fork_then_wait_before_and_after_child_exit() {
    let mut k = boot();
    let child = sys_fork(&mut k);
    assert_eq!(child, 1);
    assert_eq!(k.tasks[1].parent, Some(0));
    assert_eq!(k.tasks[1].trap_ret, 0);
    assert_eq!(k.tasks[0].children, vec![1]);
    let mut code: i32 = 0;
    assert_eq!(sys_waitpid(&mut k, -1, &mut code), -2);
    assert_eq!(code, 0);
    assert_eq!(sys_yield(&mut k), 0);
    assert_eq!(sys_getpid(&k), 1);
    sys_exit(&mut k, 7);
    assert_eq!(k.tasks[1].task_status, TaskStatus::Exited);
    assert_eq!(sys_getpid(&k), 0);
    assert_eq!(sys_waitpid(&mut k, -1, &mut code), 1);
    assert_eq!(code, 7);
    assert!(k.tasks[0].children.is_empty());
    assert_eq!(k.tasks[1].task_status, TaskStatus::UnInit);
    assert_eq!(sys_waitpid(&mut k, -1, &mut code), -1);
}

#[test]
fn wait_for_unknown_pid_is_no_such_child() {
    let mut k = boot();
    sys_fork(&mut k);
    sys_fork(&mut k);
    let mut code: i32 = 5;
    assert_eq!(sys_waitpid(&mut k, 999, &mut code), -1);
    // let child 1 exit, then ask again
    sys_yield(&mut k);
    assert_eq!(sys_getpid(&k), 1);
    sys_exit(&mut k, 3);
    while sys_getpid(&k) != 0 {
        sys_yield(&mut k);
    }
    assert_eq!(sys_waitpid(&mut k, 999, &mut code), -1);
    assert_eq!(code, 5);
    assert_eq!(sys_waitpid(&mut k, 2, &mut code), -2);
    assert_eq!(sys_waitpid(&mut k, 1, &mut code), 1);
    assert_eq!(code, 3);
}

#[test]
fn wait_without_children() {
    let mut k = boot();
    let mut code: i32 = 0;
    assert_eq!(sys_waitpid(&mut k, -1, &mut code), -1);
}

#[test]
fn exit_gives_children_to_root_task() {
    let mut k = boot();
    sys_fork(&mut k); // pid 1
    sys_yield(&mut k);
    assert_eq!(sys_getpid(&k), 1);
    assert_eq!(sys_fork(&mut k), 2);
    sys_exit(&mut k, 0);
    assert_eq!(k.tasks[2].parent, Some(0));
    assert_eq!(k.tasks[0].children, vec![1, 2]);
    assert!(k.tasks[1].children.is_empty());
    assert!(k.tasks[1].memory_set.areas.is_empty());
}

#[test]
fn last_exit_leaves_kernel_idle() {
    let mut k = boot();
    sys_exit(&mut k, 0);
    assert_eq!(k.current, None);
}

#[test]
fn mmap_exact_overlap_fails_and_changes_nothing() {
    let mut k = boot();
    assert_eq!(sys_mmap(&mut k, 0x10000, 4096, 3), 4096);
    let before = k.tasks[0].memory_set.areas.clone();
    assert_eq!(sys_mmap(&mut k, 0x10000, 4096, 3), -1);
    assert_eq!(k.tasks[0].memory_set.areas, before);
    assert_eq!(before.len(), 1);
}

#[test]
fn mmap_rounds_to_pages_and_checks_arguments() {
    let mut k = boot();
    assert_eq!(sys_mmap(&mut k, 0x20000, 100, 1), 4096);
    assert_eq!(k.tasks[0].memory_set.areas[0].end, 0x21000);
    assert_eq!(sys_mmap(&mut k, 0x20800, 10, 1), -1); // overlaps
    assert_eq!(sys_mmap(&mut k, 0x30001, 10, 1), -1); // misaligned
    assert_eq!(sys_mmap(&mut k, 0x30000, 0, 1), -1); // empty
    assert_eq!(sys_mmap(&mut k, 0x30000, 10, 8), -1); // unknown bit
    assert_eq!(sys_mmap(&mut k, 0x30000, 8192, 7), 8192);
    assert_eq!(sys_mmap(&mut k, 0x40000, 10, 0), 4096); // no flag at all is allowed
    assert_eq!(k.tasks[0].memory_set.areas[2].perm, 0);
    assert_eq!(k.tasks[0].memory_set.areas.len(), 3);
    // the empty heap holds no byte, so its bottom page can be mapped, and then the heap cannot grow
    assert_eq!(sys_mmap(&mut k, 0x3000, 4096, 3), 4096);
    assert_eq!(sys_sbrk(&mut k, 1), -1);
}

#[test]
fn mmap_refuses_the_program_pages() {
    let mut k = boot();
    assert_eq!(k.tasks[0].memory_set.program_start, 0x1000);
    assert_eq!(k.tasks[0].memory_set.program_end, 0x1064);
    assert_eq!(sys_mmap(&mut k, 0x1000, 4096, 3), -1);
    assert_eq!(sys_mmap(&mut k, 0x0, 8192, 3), -1);
    assert_eq!(sys_mmap(&mut k, 0x0, 4096, 3), 4096);
    assert_eq!(sys_mmap(&mut k, 0x2000, 4096, 3), 4096);
}

#[test]
fn munmap_removes_several_whole_regions() {
    let mut k = boot();
    assert_eq!(sys_mmap(&mut k, 0x10000, 4096, 3), 4096);
    assert_eq!(sys_mmap(&mut k, 0x30000, 4096, 1), 4096);
    assert_eq!(sys_mmap(&mut k, 0x11000, 4096, 3), 4096);
    assert_eq!(sys_munmap(&mut k, 0x10000, 8192), 0);
    assert_eq!(k.tasks[0].memory_set.areas.len(), 1);
    assert_eq!(k.tasks[0].memory_set.areas[0].start, 0x30000);
}

#[test]
fn munmap_refuses_range_with_a_gap() {
    let mut k = boot();
    assert_eq!(sys_mmap(&mut k, 0x10000, 4096, 3), 4096);
    assert_eq!(sys_mmap(&mut k, 0x12000, 4096, 3), 4096);
    assert_eq!(sys_munmap(&mut k, 0x10000, 3 * 4096), -1);
    assert_eq!(k.tasks[0].memory_set.areas.len(), 2);
    assert_eq!(sys_munmap(&mut k, 0x10000, 4096), 0);
    assert_eq!(sys_munmap(&mut k, 0x12000, 4096), 0);
    assert!(k.tasks[0].memory_set.areas.is_empty());
}

#[test]
fn mmap_refuses_range_under_the_heap() {
    let mut k = boot();
    assert_eq!(sys_sbrk(&mut k, 8192), 0x3000);
    assert_eq!(sys_mmap(&mut k, 0x4000, 4096, 3), -1);
    assert_eq!(sys_mmap(&mut k, 0x5000, 4096, 3), 4096);
}

#[test]
fn munmap_unmapped_range_fails_and_keeps_mappings() {
    let mut k = boot();
    assert_eq!(sys_mmap(&mut k, 0x10000, 4096, 3), 4096);
    let before = k.tasks[0].memory_set.areas.clone();
    assert_eq!(sys_munmap(&mut k, 0x40000, 4096), -1);
    assert_eq!(k.tasks[0].memory_set.areas, before);
}

#[test]
fn munmap_refuses_partial_range_and_removes_exact_one() {
    let mut k = boot();
    assert_eq!(sys_mmap(&mut k, 0x20000, 8192, 3), 8192);
    assert_eq!(sys_munmap(&mut k, 0x20000, 4096), -1);
    assert_eq!(sys_munmap(&mut k, 0x21000, 4096), -1);
    assert_eq!(sys_munmap(&mut k, 0x20000, 8000), 0);
    assert!(k.tasks[0].memory_set.areas.is_empty());
    assert_eq!(sys_munmap(&mut k, 0x20000, 8192), -1);
}

#[test]
fn sbrk_round_trip() {
    let mut k = boot();
    let start = k.tasks[0].memory_set.brk;
    assert_eq!(sys_sbrk(&mut k, 4096), start as isize);
    assert_eq!(k.tasks[0].memory_set.brk, start + 4096);
    assert_eq!(sys_sbrk(&mut k, -4096), (start + 4096) as isize);
    assert_eq!(k.tasks[0].memory_set.brk, start);
}

#[test]
fn sbrk_below_heap_bottom_fails() {
    let mut k = boot();
    assert_eq!(sys_sbrk(&mut k, -1), -1);
    assert_eq!(k.tasks[0].memory_set.brk, 0x3000);
    assert_eq!(sys_sbrk(&mut k, 0), 0x3000);
}

#[test]
fn sbrk_into_mapped_region_fails() {
    let mut k = boot();
    assert_eq!(sys_mmap(&mut k, 0x4000, 4096, 3), 4096);
    assert_eq!(sys_sbrk(&mut k, 4096), 0x3000);
    assert_eq!(sys_sbrk(&mut k, 1), -1);
    assert_eq!(k.tasks[0].memory_set.brk, 0x4000);
}

#[test]
fn set_priority_checks_value() {
    let mut k = boot();
    assert_eq!(sys_set_priority(&mut k, 1), -1);
    assert_eq!(k.tasks[0].priority, DEFAULT_PRIORITY);
    assert_eq!(sys_set_priority(&mut k, -5), -1);
    assert_eq!(sys_set_priority(&mut k, 10), 10);
    assert_eq!(k.tasks[0].priority, 10);
    assert_eq!(sys_set_priority(&mut k, 2), 2);
}

#[test]
fn set_priority_changes_fetch_order() {
    // root task (priority 10) and a child (priority 16) alternate by stride
    let mut k = boot();
    assert_eq!(sys_set_priority(&mut k, 10), 10);
    sys_fork(&mut k);
    let mut runs = [0usize; 2];
    for _ in 0..520 {
        sys_yield(&mut k);
        runs[sys_getpid(&k) as usize] += 1;
    }
    // shares 10 : 16 of 520 rounds
    assert!(runs[0] >= 195 && runs[0] <= 205, "{:?}", runs);
    assert!(runs[1] >= 315 && runs[1] <= 325, "{:?}", runs);
}

#[test]
fn stride_ratio_two_to_one() {
    let mut k = boot();
    sys_fork(&mut k);
    assert_eq!(sys_set_priority(&mut k, 32), 32);
    let mut runs = [0usize; 2];
    for _ in 0..3000 {
        sys_yield(&mut k);
        runs[sys_getpid(&k) as usize] += 1;
    }
    // priority 32 against 16: two thirds of 3000 rounds, within one round
    assert!(runs[0] >= 1999 && runs[0] <= 2001, "{:?}", runs);
    assert!(runs[1] >= 999 && runs[1] <= 1001, "{:?}", runs);
}

#[test]
fn fetch_picks_smallest_stride_leftmost() {
    let mut k = boot();
    sys_fork(&mut k);
    sys_fork(&mut k);
    sys_fork(&mut k);
    // queue holds 1, 2, 3
    k.tasks[1].stride = 50;
    k.tasks[2].stride = 20;
    k.tasks[3].stride = 20;
    assert_eq!(fetch_task(&mut k), Some(2));
    assert_eq!(k.tasks[2].stride, 20 + 1_000_000 / 16);
    assert_eq!(k.manager.ready_queue, vec![1, 3]);
    assert_eq!(fetch_task(&mut k), Some(3));
    assert_eq!(fetch_task(&mut k), Some(1));
    assert_eq!(fetch_task(&mut k), None);
    add_task(&mut k, 3);
    assert_eq!(k.manager.ready_queue, vec![3]);
}

#[test]
fn fetch_never_returns_larger_stride_than_queued() {
    let mut k = boot();
    for _ in 0..5 {
        sys_fork(&mut k);
    }
    let prios: [isize; 6] = [2, 3, 5, 7, 11, 13];
    for (i, p) in prios.iter().enumerate() {
        k.tasks[i].priority = *p as u64;
    }
    sys_yield(&mut k);
    for _ in 0..200 {
        let strides: Vec<u64> = k.manager.ready_queue.iter().map(|p| k.tasks[*p].stride).collect();
        let min = *strides.iter().min().unwrap();
        let cur = k.current.unwrap();
        k.tasks[cur].task_status = TaskStatus::Ready;
        add_task(&mut k, cur);
        let got = fetch_task(&mut k).unwrap();
        let pass = 1_000_000 / k.tasks[got].priority;
        let before = k.tasks[got].stride - pass;
        let own = k.tasks[cur].stride;
        assert!(before <= min.min(own));
        k.tasks[got].task_status = TaskStatus::Running;
        k.current = Some(got);
    }
}

#[test]
fn stride_saturates() {
    let mut k = boot();
    sys_fork(&mut k);
    k.tasks[1].stride = u64::MAX - 3;
    assert_eq!(fetch_task(&mut k), Some(1));
    assert_eq!(k.tasks[1].stride, u64::MAX);
}

#[test]
fn exec_replaces_address_space() {
    let mut k = boot();
    sys_mmap(&mut k, 0x20000, 4096, 3);
    sys_sbrk(&mut k, 4096);
    k.tasks[0].trap_ret = 9;
    assert_eq!(sys_exec(&mut k, None), -1);
    assert_eq!(k.tasks[0].memory_set.areas.len(), 1);
    assert_eq!(sys_exec(&mut k, Some(&[1, 2, 3, 4, 5])), -1);
    assert_eq!(k.tasks[0].trap_ret, 9);
    let img = image(5000);
    assert_eq!(sys_exec(&mut k, Some(&img)), 0);
    assert!(k.tasks[0].memory_set.areas.is_empty());
    // 0x10000 + 5000 rounds to 0x3000, plus a guard page
    assert_eq!(k.tasks[0].memory_set.heap_bottom, 0x4000);
    assert_eq!(k.tasks[0].memory_set.brk, 0x4000);
    assert_eq!(k.tasks[0].trap_ret, 0);
    assert_eq!(sys_getpid(&k), 0);
}

#[test]
fn spawn_creates_child_with_new_program() {
    let mut k = boot();
    sys_mmap(&mut k, 0x20000, 4096, 3);
    assert_eq!(sys_spawn(&mut k, None), -1);
    assert_eq!(sys_spawn(&mut k, Some(&[0x7f, 0, 0, 0])), -1);
    assert_eq!(k.tasks.len(), 1);
    let img = image(10);
    assert_eq!(sys_spawn(&mut k, Some(&img)), 1);
    assert_eq!(k.tasks[1].parent, Some(0));
    assert_eq!(k.tasks[1].task_status, TaskStatus::Ready);
    assert!(k.tasks[1].memory_set.areas.is_empty());
    assert_eq!(k.tasks[1].memory_set.heap_bottom, 0x3000);
    assert_eq!(k.manager.ready_queue, vec![1]);
}

#[test]
fn fork_copies_address_space() {
    let mut k = boot();
    sys_mmap(&mut k, 0x20000, 4096, 3);
    sys_sbrk(&mut k, 100);
    assert_eq!(sys_fork(&mut k), 1);
    assert_eq!(k.tasks[1].memory_set.areas, k.tasks[0].memory_set.areas);
    assert_eq!(k.tasks[1].memory_set.brk, 0x3000 + 100);
    assert_eq!(k.tasks[1].stride, 0);
    assert!(k.tasks[1].syscall_times.iter().all(|c| *c == 0));
}

#[test]
fn get_time_splits_ticks() {
    let mut k = boot();
    k.set_time_ticks(3 * CLOCK_FREQ + CLOCK_FREQ / 2);
    let mut tv = TimeVal { sec: 9, usec: 9 };
    assert_eq!(sys_get_time(&k, 0, &mut tv), -1);
    assert_eq!(tv, TimeVal { sec: 9, usec: 9 });
    assert_eq!(sys_get_time(&k, 0x8000, &mut tv), 0);
    assert_eq!(tv, TimeVal { sec: 3, usec: 500_000 });
    assert_eq!(k.get_time_ms(), 3500);
}

#[test]
fn task_info_reports_counts_and_time() {
    let mut k = boot();
    k.tasks[0].update_syscall(169);
    k.tasks[0].update_syscall(169);
    k.tasks[0].update_syscall(64);
    k.set_time_ticks(CLOCK_FREQ * 2);
    let mut info = TaskInfo { status: TaskStatus::UnInit, syscall_times: vec![], time: 0 };
    assert_eq!(sys_task_info(&k, 0, &mut info), -1);
    assert_eq!(info.status, TaskStatus::UnInit);
    assert_eq!(sys_task_info(&k, 0x8000, &mut info), 0);
    assert_eq!(info.status, TaskStatus::Running);
    assert_eq!(info.syscall_times.len(), MAX_SYSCALL_NUM);
    assert_eq!(info.syscall_times[169], 2);
    assert_eq!(info.syscall_times[64], 1);
    assert_eq!(info.syscall_times[93], 0);
    assert_eq!(info.time, 2000);
}

#[test]
fn va_to_pa_joins_frame_and_offset() {
    assert_eq!(va_to_pa(0x1234_5678, Some(0x80200)), Some(0x8020_0678));
    assert_eq!(va_to_pa(0x1000, Some(1)), Some(0x1000));
    assert_eq!(va_to_pa(0x1234_5678, None), None);
    assert_eq!(va_to_pa(0, Some(usize::MAX)), None);
}

#[test]
fn memory_set_duplicate_is_equal() {
    let mut m = MemorySet::new(0x1000, 0x1000, 0x5000);
    assert_eq!(m.mmap(0x1000, 4096, 5), 4096);
    assert_eq!(m.change_program_brk(10), Some(0x5000));
    let d = m.duplicate();
    assert_eq!(d.areas, m.areas);
    assert_eq!(d.brk, 0x500a);
    assert_eq!(d.heap_bottom, 0x5000);
}
