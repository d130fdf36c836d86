//! The verified core of a Linux process monitor: reading `/proc/[pid]/status`
//! texts, picking process directories out of `/proc`, keeping bounded sample
//! histories for the graphs, and shaping names for the process table.
pub mod metrics;
pub mod proc_dir;
pub mod status;
pub mod table;
pub mod text;
