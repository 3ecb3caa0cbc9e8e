use vstd::prelude::*;

use crate::cli::PageReplacementAlgorithm;
use crate::frames::PageTableEntry;
use crate::frames::find_frame;
use crate::model::lemma_run_inv;
use crate::model::lemma_step_inv;
use crate::model::lemma_trace_len;
use crate::model::run;
use crate::model::step;
use crate::model::trace;
use crate::tlb::Tlb;
use vstd::pervasive::unreached;

verus! {

/// Splits a logical address into its page number and offset. The split is a
/// fixed 8-bit offset: the page number is the second-lowest byte of the
/// address and the offset its lowest byte, whatever page size a run uses to
/// fetch page contents.
pub fn decompose(address: usize) -> (r: (usize, usize))
    ensures
        r.0 == (address / 256) % 256,
        r.1 == address % 256,
        r.0 < 256,
        r.1 < 256,
{
    ((address / 256) % 256, address % 256)
}

/// The address-stream view: each logical address paired with its page number
/// and offset, in input order.
pub fn decompose_all(addresses: &Vec<usize>) -> (r: Vec<(usize, usize, usize)>)
    ensures
        r@.len() == addresses@.len(),
        forall|j: int| 0 <= j < addresses@.len() ==> (#[trigger] r@[j]).0 == addresses@[j],
        forall|j: int| 0 <= j < addresses@.len() ==> (#[trigger] r@[j]).1 == (addresses@[j] / 256)
            % 256,
        forall|j: int| 0 <= j < addresses@.len() ==> (#[trigger] r@[j]).2 == addresses@[j] % 256,
{
    let mut r: Vec<(usize, usize, usize)> = Vec::new();
    let mut i: usize = 0;
    while i < addresses.len()
        invariant
            i <= addresses.len(),
            r@.len() == i,
            forall|j: int| 0 <= j < i ==> (#[trigger] r@[j]).0 == addresses@[j],
            forall|j: int| 0 <= j < i ==> (#[trigger] r@[j]).1 == (addresses@[j] / 256) % 256,
            forall|j: int| 0 <= j < i ==> (#[trigger] r@[j]).2 == addresses@[j] % 256,
        decreases addresses.len() - i,
    {
        let address = addresses[i];
        let (pn, offset) = decompose(address);
        r.push((address, pn, offset));
        i += 1;
    }
    r
}

/// The page-number sequence of a decomposed address stream.
pub fn page_numbers(stream: &Vec<(usize, usize, usize)>) -> (r: Vec<usize>)
    ensures
        r@.len() == stream@.len(),
        forall|j: int| 0 <= j < stream@.len() ==> r@[j] == (#[trigger] stream@[j]).1,
{
    let mut r: Vec<usize> = Vec::new();
    let mut i: usize = 0;
    while i < stream.len()
        invariant
            i <= stream.len(),
            r@.len() == i,
            forall|j: int| 0 <= j < i ==> r@[j] == (#[trigger] stream@[j]).1,
        decreases stream.len() - i,
    {
        r.push(stream[i].1);
        i += 1;
    }
    r
}

/// The byte a fetched page holds at the given offset.
pub fn byte_at(page: &Vec<u8>, offset: usize) -> (r: u8)
    requires
        offset < page.len(),
    ensures
        r == page@[offset as int],
{
    page[offset]
}

/// The outcome of a whole run: the frame index reported for each address, in
/// order, the resident table as the run left it, and the counters.
pub struct SimResult {
    /// For each address, the index of the slot holding its page immediately
    /// after that address was processed.
    pub frame_trace: Vec<usize>,
    /// The resident table as the run left it.
    pub ram_frames: Vec<PageTableEntry>,
    /// Number of page faults (accesses to a non-resident page).
    pub page_faults: usize,
    /// Number of translation-cache misses.
    pub tlb_misses: usize,
}

/// Replays the page-number sequence through a fresh translation cache and a
/// fresh resident table of `frames` slots under the chosen policy.
///
/// The result is pinned to the mathematical model `model::run` of the same
/// inputs, so two runs over the same sequence from freshly initialized state
/// yield identical counters and identical per-address frame indices.
pub fn simulate(
    pra: PageReplacementAlgorithm,
    frames: usize,
    tlb_entries: usize,
    all_pns: &Vec<usize>,
) -> (r: SimResult)
    requires
        1 <= frames,
    ensures
        r.frame_trace@.len() == all_pns@.len(),
        forall|j: int| 0 <= j < all_pns@.len() ==> r.frame_trace@[j] as int == trace(
            pra,
            frames,
            tlb_entries,
            all_pns@,
            all_pns@.len() as int,
        )[j],
        r.ram_frames@ == run(pra, frames, tlb_entries, all_pns@, all_pns@.len() as int).table,
        r.page_faults as nat == run(pra, frames, tlb_entries, all_pns@, all_pns@.len() as int).faults,
        r.tlb_misses as nat == run(pra, frames, tlb_entries, all_pns@, all_pns@.len() as int).misses,
        r.page_faults <= all_pns@.len(),
        r.tlb_misses <= all_pns@.len(),
{
    let ghost all = all_pns@;
    let mut tlb = Tlb::new(tlb_entries);
    let mut ram_frames: Vec<PageTableEntry> = Vec::new();
    let mut frame_trace: Vec<usize> = Vec::new();
    let mut page_faults: usize = 0;
    let mut tlb_misses: usize = 0;
    let mut i: usize = 0;
    while i < all_pns.len()
        invariant
            all == all_pns@,
            i <= all_pns.len(),
            1 <= frames,
            tlb.wf(),
            tlb.capacity() == tlb_entries,
            tlb@ == run(pra, frames, tlb_entries, all, i as int).cache,
            ram_frames@ == run(pra, frames, tlb_entries, all, i as int).table,
            page_faults as nat == run(pra, frames, tlb_entries, all, i as int).faults,
            tlb_misses as nat == run(pra, frames, tlb_entries, all, i as int).misses,
            frame_trace@.len() == i,
            forall|j: int| 0 <= j < i ==> frame_trace@[j] as int == trace(
                pra,
                frames,
                tlb_entries,
                all,
                i as int,
            )[j],
        decreases all_pns.len() - i,
    {
        let ghost s = run(pra, frames, tlb_entries, all, i as int);
        proof {
            lemma_run_inv(pra, frames, tlb_entries, all, i as int);
            lemma_step_inv(pra, frames, tlb_entries, all, i as int, s);
        }
        let pn = all_pns[i];
        let frame_idx: usize;
        if tlb.contains(pn) {
            // cache hit: resolve the frame by table lookup
            match find_frame(&ram_frames, pn) {
                Some(k) => {
                    frame_idx = k;
                },
                None => {
                    // the cache names only resident pages
                    proof {
                        let w = choose|w: int| 0 <= w < s.cache.len() && s.cache[w] == pn;
                        assert(false);
                    }
                    frame_idx = unreached();
                },
            }
        } else {
            // cache miss
            tlb_misses = tlb_misses + 1;
            match find_frame(&ram_frames, pn) {
                Some(k) => {
                    // soft miss: resident but not cached; no fault, no table change
                    frame_idx = k;
                },
                None => {
                    // hard miss: a page fault
                    if ram_frames.len() < frames {
                        // fill the next free slot
                        frame_idx = ram_frames.len();
                        ram_frames.push(PageTableEntry { insertion_time: i, pn });
                    } else {
                        // full: the configured policy evicts one slot, whose
                        // page must also leave the cache
                        let (victim_idx, ejected_pn) = pra.algorithm(&mut ram_frames, all_pns, i);
                        tlb.remove(ejected_pn);
                        frame_idx = victim_idx;
                    }
                    page_faults = page_faults + 1;
                },
            }
            tlb.push(pn);
        }
        frame_trace.push(frame_idx);
        proof {
            let post = step(pra, frames, tlb_entries, all, i as int, s);
            assert(run(pra, frames, tlb_entries, all, i as int + 1) == post.0);
            assert(ram_frames@ == post.0.table);
            assert(tlb@ == post.0.cache);
            assert(page_faults as nat == post.0.faults);
            assert(tlb_misses as nat == post.0.misses);
            assert(frame_idx as int == post.1);
            assert(trace(pra, frames, tlb_entries, all, i as int + 1) == trace(
                pra,
                frames,
                tlb_entries,
                all,
                i as int,
            ).push(post.1));
            lemma_trace_len(pra, frames, tlb_entries, all, i as int);
            lemma_trace_len(pra, frames, tlb_entries, all, i as int + 1);
        }
        i = i + 1;
    }
    proof {
        lemma_run_inv(pra, frames, tlb_entries, all, all_pns@.len() as int);
    }
    SimResult { frame_trace, ram_frames, page_faults, tlb_misses }
}

} // verus!
