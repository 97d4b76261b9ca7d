//! Verified core of a terminal system monitor for Apple Silicon Macs.

pub mod memory;
pub mod model;
pub mod chart;
pub mod collector;
pub mod cpu;
pub mod event;
pub mod format;
pub mod gpu;
pub mod gpu_process;
pub mod layout;
pub mod listing;
pub mod process;
pub mod sysctl;
pub mod text;
pub mod view;
