use os::buffer::{page_chunks, Chunk};
use os::memory::MemorySet;
use os::task::{TaskControlBlock, MAX_SYSCALL_NUM};

#[test]
fn chunks_split_at_page_boundary() {
    assert_eq!(
        page_chunks(0x1ff0, 0x20),
        vec![Chunk { start: 0x1ff0, len: 0x10 }, Chunk { start: 0x2000, len: 0x10 }]
    );
}

#[test]
fn chunks_of_whole_pages() {
    assert_eq!(
        page_chunks(0x1000, 0x2000),
        vec![Chunk { start: 0x1000, len: 0x1000 }, Chunk { start: 0x2000, len: 0x1000 }]
    );
}

#[test]
fn chunks_within_one_page() {
    assert_eq!(page_chunks(0x1234, 16), vec![Chunk { start: 0x1234, len: 16 }]);
}

#[test]
fn chunks_of_empty_buffer() {
    assert!(page_chunks(0x1234, 0).is_empty());
}

#[test]
fn chunks_spanning_three_pages() {
    assert_eq!(
        page_chunks(0xfff, 0x1002),
        vec![
            Chunk { start: 0xfff, len: 1 },
            Chunk { start: 0x1000, len: 0x1000 },
            Chunk { start: 0x2000, len: 1 }
        ]
    );
}

#[test]
fn update_syscall_counts_one_id() {
    let mut t = TaskControlBlock::new(3, Some(0), MemorySet::new(0x1000, 0x2000, 0x4000), 12);
    assert_eq!(t.syscall_times.len(), MAX_SYSCALL_NUM);
    t.update_syscall(93);
    t.update_syscall(93);
    t.update_syscall(0);
    assert_eq!(t.syscall_times[93], 2);
    assert_eq!(t.syscall_times[0], 1);
    assert_eq!(t.syscall_times[1], 0);
    let info = t.task_info(20);
    assert_eq!(info.time, 8);
    assert_eq!(info.syscall_times[93], 2);
    assert_eq!(t.task_info(5).time, 0);
}

#[test]
fn pass_is_big_stride_over_priority() {
    let mut t = TaskControlBlock::new(1, None, MemorySet::new(0x1000, 0x2000, 0x4000), 0);
    assert_eq!(t.pass(), 62_500);
    assert_eq!(t.set_priority(32), 32);
    assert_eq!(t.pass(), 31_250);
}
