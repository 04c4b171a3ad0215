//! Resource-management core of a small teaching kernel: page tables and
//! memory regions, a stride scheduler, and synchronisation tables with
//! deadlock detection.
pub mod banker;
pub mod frame;
pub mod memory;
pub mod page_table;
pub mod process;
pub mod pte;
pub mod sync;
pub mod syscall;
pub mod task;
pub mod user_buffer;
