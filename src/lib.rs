//! Process and task control core of a small single-core kernel: address
//! spaces with heap and anonymous mappings, task records with parent/child
//! reaping, the context-switch records, and the process system calls.
pub mod config;
pub mod addr;
pub mod perm;
pub mod frame;
pub mod memory_set;
pub mod context;
pub mod task;
pub mod manager;
pub mod abi;
pub mod process;
