//! Scheduling and synchronization core of a teaching operating-system kernel,
//! modelled as explicit, verifiable state.
//!
//! The kernel's cross-task shared structures (the processor's current-task
//! slot, the process's task and resource tables, each primitive's wait queue)
//! are held in one [`kernel::Kernel`] value threaded explicitly through every
//! operation, so each critical section is a single verified call.

pub mod detect;
pub mod kernel;
pub mod memory;
pub mod sync;
pub mod task;

pub use kernel::Kernel;
pub use memory::MapArea;
pub use memory::MemorySet;
pub use task::Task;
pub use task::TaskInfo;
pub use task::TaskStatus;
pub use task::TimeVal;
pub use sync::Condvar;
pub use sync::Mutex;
pub use sync::Semaphore;
