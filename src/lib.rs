//! Host-side runtime for the task primitives of data-parallel kernels
//! (`Alloc`, `Launch`, `Sync`), and the settings used to compile such kernels.
pub mod arena;
pub mod config;
pub mod registry;
pub mod task;

pub use config::Config;
pub use registry::{AllocOutcome, ChunkJob, Registry, RuntimeError};
