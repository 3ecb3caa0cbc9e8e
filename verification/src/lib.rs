//! A simulator for virtual-address translation against a fixed-size physical
//! memory: a resident-page table with selectable FIFO/LRU/OPT replacement, a
//! small insertion-ordered translation cache, and a driver that replays a
//! sequence of logical addresses and reports per-address frame indices and
//! aggregate hit/fault statistics.

pub mod belady;
pub mod cli;
pub mod frames;
pub mod model;
pub mod sim;
pub mod stats;
pub mod tlb;
