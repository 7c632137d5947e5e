//! Process-management core of a small teaching kernel: a stride scheduler,
//! a process table with parent/child reaping, and per-task address-space
//! mutation (mmap, munmap, sbrk), and the splitting of user buffers at page
//! boundaries, each with a contract that its code is proved to meet.
pub mod memory;
pub mod task;
pub mod manager;
pub mod process;
pub mod buffer;

