use vstd::prelude::*;

use crate::cli::PageReplacementAlgorithm;
use crate::frames::PageTableEntry;
use crate::frames::lemma_slot_of;
use crate::frames::lemma_victim_slot_in_range;
use crate::frames::resident;
use crate::frames::slot_of;
use crate::frames::victim_slot;
use crate::tlb::cache_distinct;
use crate::tlb::cache_push;
use crate::tlb::cache_remove;

verus! {

/// The simulation's whole cross-address state: the resident table, the
/// translation-cache contents, and the two counters.
pub struct ModelState {
    /// The resident table, one entry per occupied slot, in slot order.
    pub table: Seq<PageTableEntry>,
    /// The translation-cache contents in insertion order, oldest first.
    pub cache: Seq<usize>,
    /// Number of page faults (hard misses) so far.
    pub faults: nat,
    /// Number of translation-cache misses so far.
    pub misses: nat,
}

/// The state before any address is processed: both structures empty, both
/// counters zero.
pub open spec fn init_state() -> ModelState {
    ModelState {
        table: Seq::<PageTableEntry>::empty(),
        cache: Seq::<usize>::empty(),
        faults: 0,
        misses: 0,
    }
}

/// Processing of the address at position `i`: the next state, and the frame
/// index reported for that address.
pub open spec fn step(
    alg: PageReplacementAlgorithm,
    frames: usize,
    cap: usize,
    all: Seq<usize>,
    i: int,
    s: ModelState,
) -> (ModelState, int) {
    let pn = all[i];
    if s.cache.contains(pn) {
        // cache hit: nothing moves, the frame is resolved by table lookup
        (s, slot_of(s.table, pn))
    } else if resident(s.table, pn) {
        // soft miss: the frame is known; no fault, no table mutation
        (
            ModelState {
                table: s.table,
                cache: cache_push(s.cache, pn, cap),
                faults: s.faults,
                misses: s.misses + 1,
            },
            slot_of(s.table, pn),
        )
    } else if s.table.len() < frames {
        // hard miss with a free slot: fill the next slot in order
        (
            ModelState {
                table: s.table.push(PageTableEntry { insertion_time: i as usize, pn }),
                cache: cache_push(s.cache, pn, cap),
                faults: s.faults + 1,
                misses: s.misses + 1,
            },
            s.table.len() as int,
        )
    } else {
        // hard miss with a full table: the policy picks the victim, whose
        // page also leaves the cache so it never points at a non-resident page
        let v = victim_slot(alg, s.table, all, i);
        let evicted = s.table[v].pn;
        (
            ModelState {
                table: s.table.update(v, PageTableEntry { insertion_time: i as usize, pn }),
                cache: cache_push(cache_remove(s.cache, evicted), pn, cap),
                faults: s.faults + 1,
                misses: s.misses + 1,
            },
            v,
        )
    }
}

/// The state after the first `n` addresses have been processed.
pub open spec fn run(
    alg: PageReplacementAlgorithm,
    frames: usize,
    cap: usize,
    all: Seq<usize>,
    n: int,
) -> ModelState
    decreases n,
{
    if n <= 0 {
        init_state()
    } else {
        step(alg, frames, cap, all, n - 1, run(alg, frames, cap, all, n - 1)).0
    }
}

/// The frame index reported for each of the first `n` addresses, in order.
pub open spec fn trace(
    alg: PageReplacementAlgorithm,
    frames: usize,
    cap: usize,
    all: Seq<usize>,
    n: int,
) -> Seq<int>
    decreases n,
{
    if n <= 0 {
        Seq::<int>::empty()
    } else {
        trace(alg, frames, cap, all, n - 1).push(
            step(alg, frames, cap, all, n - 1, run(alg, frames, cap, all, n - 1)).1,
        )
    }
}

/// A run reports exactly one frame index per processed address.
pub proof fn lemma_trace_len(
    alg: PageReplacementAlgorithm,
    frames: usize,
    cap: usize,
    all: Seq<usize>,
    n: int,
)
    requires
        0 <= n,
    ensures
        trace(alg, frames, cap, all, n).len() == n,
    decreases n,
{
    if n > 0 {
        lemma_trace_len(alg, frames, cap, all, n - 1);
    }
}

/// No page number occupies more than one resident slot.
pub open spec fn no_dup_pages(table: Seq<PageTableEntry>) -> bool {
    forall|j: int, k: int| 0 <= j < k < table.len() ==> table[j].pn != table[k].pn
}

/// The invariants the simulation state keeps throughout a run: both
/// structures within their capacities, no duplicate pages in either, and the
/// cache only naming resident pages.
pub open spec fn state_inv(s: ModelState, frames: usize, cap: usize) -> bool {
    &&& s.table.len() <= frames
    &&& no_dup_pages(s.table)
    &&& s.cache.len() <= cap
    &&& cache_distinct(s.cache)
    &&& forall|j: int| 0 <= j < s.cache.len() ==> resident(s.table, #[trigger] s.cache[j])
}

/// One step preserves the invariants; it counts a fault exactly when the
/// page was non-resident and a miss exactly when the page was absent from
/// the cache; and the reported frame index is an occupied slot of the
/// resulting table.
pub proof fn lemma_step_inv(
    alg: PageReplacementAlgorithm,
    frames: usize,
    cap: usize,
    all: Seq<usize>,
    i: int,
    s: ModelState,
)
    requires
        state_inv(s, frames, cap),
        frames >= 1,
        0 <= i < all.len(),
    ensures
        state_inv(step(alg, frames, cap, all, i, s).0, frames, cap),
        step(alg, frames, cap, all, i, s).0.faults == s.faults + (if resident(s.table, all[i]) {
            0int
        } else {
            1int
        }),
        step(alg, frames, cap, all, i, s).0.misses == s.misses + (if s.cache.contains(all[i]) {
            0int
        } else {
            1int
        }),
        0 <= step(alg, frames, cap, all, i, s).1 < step(alg, frames, cap, all, i, s).0.table.len(),
        step(alg, frames, cap, all, i, s).0.table[step(alg, frames, cap, all, i, s).1].pn == all[i],
{
    let pn = all[i];
    if s.cache.contains(pn) {
        let w = choose|w: int| 0 <= w < s.cache.len() && s.cache[w] == pn;
        assert(resident(s.table, s.cache[w]));
        lemma_slot_of(s.table, pn);
    } else if resident(s.table, pn) {
        lemma_slot_of(s.table, pn);
        lemma_cache_push_inv(s.table, s.cache, pn, cap);
    } else if s.table.len() < frames {
        let t2 = s.table.push(PageTableEntry { insertion_time: i as usize, pn });
        assert forall|j: int| 0 <= j < s.cache.len() implies resident(
            t2,
            #[trigger] s.cache[j],
        ) by {
            let k = choose|k: int| 0 <= k < s.table.len() && s.table[k].pn == s.cache[j];
            assert(t2[k].pn == s.cache[j]);
        }
        assert(resident(t2, pn)) by {
            assert(t2[s.table.len() as int].pn == pn);
        }
        lemma_cache_push_inv(t2, s.cache, pn, cap);
    } else {
        lemma_victim_slot_in_range(alg, s.table, all, i);
        let v = victim_slot(alg, s.table, all, i);
        let evicted = s.table[v].pn;
        let t2 = s.table.update(v, PageTableEntry { insertion_time: i as usize, pn });
        let c2 = cache_remove(s.cache, evicted);
        // the shrunk cache is distinct and names only pages other than the victim's
        lemma_cache_remove_props(s.cache, evicted);
        assert forall|j: int| 0 <= j < c2.len() implies resident(t2, #[trigger] c2[j]) by {
            assert(s.cache.contains(c2[j]) && c2[j] != evicted);
            let k = choose|k: int| 0 <= k < s.cache.len() && s.cache[k] == c2[j];
            assert(resident(s.table, s.cache[k]));
            let m = choose|m: int| 0 <= m < s.table.len() && s.table[m].pn == c2[j];
            assert(m != v);
            assert(t2[m].pn == c2[j]);
        }
        assert(resident(t2, pn)) by {
            assert(t2[v].pn == pn);
        }
        lemma_cache_push_inv(t2, c2, pn, cap);
    }
}

/// Pushing the page `pn`, resident in `table`, into a bounded distinct cache
/// that names only residents of `table` keeps all those properties.
proof fn lemma_cache_push_inv(table: Seq<PageTableEntry>, cache: Seq<usize>, pn: usize, cap: usize)
    requires
        cache.len() <= cap,
        cache_distinct(cache),
        forall|j: int| 0 <= j < cache.len() ==> resident(table, #[trigger] cache[j]),
        resident(table, pn),
    ensures
        cache_push(cache, pn, cap).len() <= cap,
        cache_distinct(cache_push(cache, pn, cap)),
        forall|j: int| 0 <= j < cache_push(cache, pn, cap).len() ==> resident(
            table,
            #[trigger] cache_push(cache, pn, cap)[j],
        ),
{
    if !cache.contains(pn) {
        let grown = cache.push(pn);
        assert forall|j: int, k: int| 0 <= j < k < grown.len() implies grown[j] != grown[k] by {
            if k == grown.len() - 1 {
                assert(!cache.contains(grown[j]) ==> true);
                assert(cache[j] == grown[j]);
                assert(cache.contains(cache[j]));
            }
        }
    }
}

/// Dropping one occurrence of `pn` from a distinct cache leaves a distinct
/// cache whose every entry came from the old cache and differs from `pn`.
proof fn lemma_cache_remove_props(cache: Seq<usize>, pn: usize)
    requires
        cache_distinct(cache),
    ensures
        cache_distinct(cache_remove(cache, pn)),
        forall|j: int| 0 <= j < cache_remove(cache, pn).len() ==> cache.contains(
            #[trigger] cache_remove(cache, pn)[j],
        ) && cache_remove(cache, pn)[j] != pn,
        cache_remove(cache, pn).len() <= cache.len(),
        !cache_remove(cache, pn).contains(pn),
{
    if cache.contains(pn) {
        let i = cache.index_of(pn);
        assert(0 <= i < cache.len() && cache[i] == pn);
        let c2 = cache.remove(i);
        assert forall|j: int| 0 <= j < c2.len() implies cache.contains(#[trigger] c2[j]) && c2[j]
            != pn by {
            if j < i {
                assert(c2[j] == cache[j]);
            } else {
                assert(c2[j] == cache[j + 1]);
            }
        }
        assert forall|j: int| 0 <= j < c2.len() implies c2[j] != pn by {}
        if c2.contains(pn) {
            let w = choose|w: int| 0 <= w < c2.len() && c2[w] == pn;
            assert(c2[w] != pn);
        }
    }
}

/// The invariants hold after any number of processed addresses, and neither
/// counter can exceed that number.
pub proof fn lemma_run_inv(
    alg: PageReplacementAlgorithm,
    frames: usize,
    cap: usize,
    all: Seq<usize>,
    n: int,
)
    requires
        frames >= 1,
        0 <= n <= all.len(),
    ensures
        state_inv(run(alg, frames, cap, all, n), frames, cap),
        run(alg, frames, cap, all, n).faults <= n,
        run(alg, frames, cap, all, n).misses <= n,
    decreases n,
{
    if n > 0 {
        lemma_run_inv(alg, frames, cap, all, n - 1);
        lemma_step_inv(alg, frames, cap, all, n - 1, run(alg, frames, cap, all, n - 1));
    }
}

/// Law: over a whole run the resident table never exceeds the frame count
/// and the translation cache never exceeds its capacity.
pub proof fn lemma_bounded_occupancy(
    alg: PageReplacementAlgorithm,
    frames: usize,
    cap: usize,
    all: Seq<usize>,
    n: int,
)
    requires
        frames >= 1,
        0 <= n <= all.len(),
    ensures
        run(alg, frames, cap, all, n).table.len() <= frames,
        run(alg, frames, cap, all, n).cache.len() <= cap,
{
    lemma_run_inv(alg, frames, cap, all, n);
}

/// Law: at no point of a run is a page number resident in more than one
/// slot simultaneously.
pub proof fn lemma_no_duplicate_residency(
    alg: PageReplacementAlgorithm,
    frames: usize,
    cap: usize,
    all: Seq<usize>,
    n: int,
)
    requires
        frames >= 1,
        0 <= n <= all.len(),
    ensures
        no_dup_pages(run(alg, frames, cap, all, n).table),
{
    lemma_run_inv(alg, frames, cap, all, n);
}

/// The number of positions before `n` at which the accessed page was not
/// resident at the time of access.
pub open spec fn fault_count(
    alg: PageReplacementAlgorithm,
    frames: usize,
    cap: usize,
    all: Seq<usize>,
    n: int,
) -> nat
    decreases n,
{
    if n <= 0 {
        0
    } else {
        fault_count(alg, frames, cap, all, n - 1) + (if resident(
            run(alg, frames, cap, all, n - 1).table,
            all[n - 1],
        ) {
            0nat
        } else {
            1nat
        })
    }
}

/// The number of positions before `n` at which the accessed page was absent
/// from the translation cache at the time of access.
pub open spec fn miss_count(
    alg: PageReplacementAlgorithm,
    frames: usize,
    cap: usize,
    all: Seq<usize>,
    n: int,
) -> nat
    decreases n,
{
    if n <= 0 {
        0
    } else {
        miss_count(alg, frames, cap, all, n - 1) + (if run(
            alg,
            frames,
            cap,
            all,
            n - 1,
        ).cache.contains(all[n - 1]) {
            0nat
        } else {
            1nat
        })
    }
}

/// Law: the fault counter equals the number of addresses whose page was
/// non-resident at the time of access.
pub proof fn lemma_faults_are_nonresident_accesses(
    alg: PageReplacementAlgorithm,
    frames: usize,
    cap: usize,
    all: Seq<usize>,
    n: int,
)
    requires
        frames >= 1,
        0 <= n <= all.len(),
    ensures
        run(alg, frames, cap, all, n).faults == fault_count(alg, frames, cap, all, n),
    decreases n,
{
    if n > 0 {
        lemma_faults_are_nonresident_accesses(alg, frames, cap, all, n - 1);
        lemma_run_inv(alg, frames, cap, all, n - 1);
        lemma_step_inv(alg, frames, cap, all, n - 1, run(alg, frames, cap, all, n - 1));
    }
}

/// Law: the miss counter equals the number of addresses whose page was
/// absent from the translation cache at the time of access.
pub proof fn lemma_misses_are_cache_absences(
    alg: PageReplacementAlgorithm,
    frames: usize,
    cap: usize,
    all: Seq<usize>,
    n: int,
)
    requires
        frames >= 1,
        0 <= n <= all.len(),
    ensures
        run(alg, frames, cap, all, n).misses == miss_count(alg, frames, cap, all, n),
    decreases n,
{
    if n > 0 {
        lemma_misses_are_cache_absences(alg, frames, cap, all, n - 1);
        lemma_run_inv(alg, frames, cap, all, n - 1);
        lemma_step_inv(alg, frames, cap, all, n - 1, run(alg, frames, cap, all, n - 1));
    }
}

/// Law: the frame index reported for an address is an occupied slot, and it
/// is the slot holding that address's page immediately after the address
/// was processed.
pub proof fn lemma_trace_reports_page_slot(
    alg: PageReplacementAlgorithm,
    frames: usize,
    cap: usize,
    all: Seq<usize>,
    n: int,
    j: int,
)
    requires
        frames >= 1,
        0 <= j < n <= all.len(),
    ensures
        0 <= trace(alg, frames, cap, all, n)[j] < run(alg, frames, cap, all, j + 1).table.len(),
        run(alg, frames, cap, all, j + 1).table[trace(alg, frames, cap, all, n)[j]].pn == all[j],
    decreases n,
{
    lemma_trace_len(alg, frames, cap, all, n - 1);
    if j == n - 1 {
        lemma_run_inv(alg, frames, cap, all, n - 1);
        lemma_step_inv(alg, frames, cap, all, n - 1, run(alg, frames, cap, all, n - 1));
    } else {
        lemma_trace_reports_page_slot(alg, frames, cap, all, n - 1, j);
    }
}

/// Law: with a zero-capacity translation cache, every address is a miss.
pub proof fn lemma_zero_cache_all_miss(
    alg: PageReplacementAlgorithm,
    frames: usize,
    all: Seq<usize>,
    n: int,
)
    requires
        frames >= 1,
        0 <= n <= all.len(),
    ensures
        run(alg, frames, 0, all, n).misses == n,
    decreases n,
{
    if n > 0 {
        lemma_zero_cache_all_miss(alg, frames, all, n - 1);
        lemma_run_inv(alg, frames, 0, all, n - 1);
        let s = run(alg, frames, 0, all, n - 1);
        assert(s.cache.len() == 0);
        if s.cache.contains(all[n - 1]) {
            let w = choose|w: int| 0 <= w < s.cache.len() && s.cache[w] == all[n - 1];
        }
    }
}

/// Law: with no addresses processed, every structure is empty and every
/// counter is zero.
pub proof fn lemma_empty_run(
    alg: PageReplacementAlgorithm,
    frames: usize,
    cap: usize,
    all: Seq<usize>,
)
    ensures
        run(alg, frames, cap, all, 0) == init_state(),
        run(alg, frames, cap, all, 0).faults == 0,
        run(alg, frames, cap, all, 0).misses == 0,
        trace(alg, frames, cap, all, 0).len() == 0,
{
}

} // verus!
