use vstd::prelude::*;

verus! {

/// Default number of physical frames in the resident table.
pub const DEFAULT_FRAMES: usize = 256;

/// Default capacity of the translation cache.
pub const DEFAULT_TLB_ENTRIES: usize = 16;

/// Default page size in bytes, used when fetching page contents from the
/// backing store. The page-number/offset split of a logical address is a
/// fixed 8-bit offset regardless of this value (see `sim::decompose`).
pub const DEFAULT_PAGE_SIZE: usize = 256;

/// The page-replacement policy consulted when the resident table is full
/// and a non-resident page is accessed.
#[derive(Clone, Copy, Debug, PartialEq, Eq, Structural)]
pub enum PageReplacementAlgorithm {
    /// Evict the slot whose page was placed longest ago.
    Fifo,
    /// Evict the slot whose page's most recent prior use is farthest in the past.
    Lru,
    /// Evict the slot whose page's next use is farthest in the future.
    Opt,
}

/// A run's configuration: the address file, the frame count, the replacement
/// policy, the translation-cache capacity, the page size, and the debug flag.
///
/// Argument parsing itself happens outside this crate; this is the plain
/// record of the recognized options.
#[derive(Clone, Debug)]
pub struct Cli {
    /// Path of the text file holding one decimal logical address per line.
    pub file: String,
    /// Number of physical frames in the resident table.
    pub frames: usize,
    /// The page-replacement policy for the resident table.
    pub pra: PageReplacementAlgorithm,
    /// Capacity of the translation cache.
    pub tlb_entries: usize,
    /// Page size in bytes for backing-store fetches.
    pub page_size: usize,
    /// When set, per-address output omits the hex page dump and the summary
    /// omits the derived rates.
    pub debug: bool,
}

} // verus!
