use vstd::prelude::*;

use crate::cli::PageReplacementAlgorithm;

verus! {

/// One slot of the resident table: the page it holds and the position in the
/// address sequence at which that page was (re)placed there.
#[derive(Clone, Copy, Debug, PartialEq, Eq, Structural)]
pub struct PageTableEntry {
    /// Sequence index at which this slot last changed page.
    pub insertion_time: usize,
    /// The page number resident in this slot.
    pub pn: usize,
}

/// Whether page `pn` occupies some slot of `table`.
pub open spec fn resident(table: Seq<PageTableEntry>, pn: usize) -> bool {
    exists|k: int| 0 <= k < table.len() && table[k].pn == pn
}

/// The first slot of `table` holding page `pn`, or -1 when `pn` is not resident.
pub open spec fn slot_of(table: Seq<PageTableEntry>, pn: usize) -> int
    decreases table.len(),
{
    if table.len() == 0 {
        -1
    } else if table[0].pn == pn {
        0
    } else if slot_of(table.drop_first(), pn) == -1 {
        -1
    } else {
        slot_of(table.drop_first(), pn) + 1
    }
}

/// `slot_of` finds the lowest slot holding `pn`, and finds one exactly when
/// `pn` is resident.
pub proof fn lemma_slot_of(table: Seq<PageTableEntry>, pn: usize)
    ensures
        resident(table, pn) <==> 0 <= slot_of(table, pn) < table.len(),
        !resident(table, pn) ==> slot_of(table, pn) == -1,
        resident(table, pn) ==> table[slot_of(table, pn)].pn == pn,
        forall|j: int| 0 <= j < slot_of(table, pn) ==> table[j].pn != pn,
    decreases table.len(),
{
    if table.len() == 0 {
    } else if table[0].pn == pn {
    } else {
        let rest = table.drop_first();
        lemma_slot_of(rest, pn);
        assert(forall|k: int| 0 <= k < rest.len() ==> rest[k] == table[k + 1]);
        if resident(table, pn) {
            let k = choose|k: int| 0 <= k < table.len() && table[k].pn == pn;
            assert(rest[k - 1] == table[k]);
            assert(resident(rest, pn));
        }
        if resident(rest, pn) {
            let k = choose|k: int| 0 <= k < rest.len() && rest[k].pn == pn;
            assert(table[k + 1] == rest[k]);
            assert(resident(table, pn));
        }
        assert forall|j: int| 0 <= j < slot_of(table, pn) implies table[j].pn != pn by {
            if j > 0 {
                assert(rest[j - 1] == table[j]);
            }
        }
    }
}

/// The slot FIFO evicts: the one whose page was placed longest ago
/// (smallest `insertion_time`), ties resolved by the lowest slot index.
pub open spec fn fifo_victim(table: Seq<PageTableEntry>) -> int
    decreases table.len(),
{
    if table.len() <= 1 {
        0
    } else {
        let prev = fifo_victim(table.drop_last());
        if table.last().insertion_time < table[prev].insertion_time {
            table.len() - 1
        } else {
            prev
        }
    }
}

/// `fifo_victim` is in range, holds a minimal `insertion_time`, and is the
/// lowest slot among those that do.
pub proof fn lemma_fifo_victim_props(table: Seq<PageTableEntry>)
    requires
        table.len() > 0,
    ensures
        0 <= fifo_victim(table) < table.len(),
        forall|j: int| 0 <= j < table.len()
            ==> table[fifo_victim(table)].insertion_time <= #[trigger] table[j].insertion_time,
        forall|j: int| 0 <= j < fifo_victim(table)
            ==> table[fifo_victim(table)].insertion_time < #[trigger] table[j].insertion_time,
    decreases table.len(),
{
    if table.len() > 1 {
        let t = table.drop_last();
        lemma_fifo_victim_props(t);
        assert(forall|j: int| 0 <= j < t.len() ==> t[j] == table[j]);
        assert(table.last() == table[table.len() - 1]);
    }
}

/// The most recent occurrence of `pn` strictly before position `i` of the
/// address sequence, if any.
pub open spec fn last_use(all: Seq<usize>, i: int, pn: usize) -> Option<int>
    decreases i,
{
    if i <= 0 {
        None
    } else if all[i - 1] == pn {
        Some(i - 1)
    } else {
        last_use(all, i - 1, pn)
    }
}

/// The first occurrence of `pn` at or after position `j`, if any.
pub open spec fn next_use_from(all: Seq<usize>, j: int, pn: usize) -> Option<int>
    decreases all.len() - j,
{
    if j < 0 || j >= all.len() {
        None
    } else if all[j] == pn {
        Some(j)
    } else {
        next_use_from(all, j + 1, pn)
    }
}

/// The next occurrence of `pn` strictly after position `i`, if any.
pub open spec fn next_use(all: Seq<usize>, i: int, pn: usize) -> Option<int> {
    next_use_from(all, i + 1, pn)
}

/// Whether a page whose most recent prior use is `a` is a strictly better LRU
/// victim than one whose most recent prior use is `b`: a page never used
/// before is maximally stale, and otherwise an earlier last use is staler.
pub open spec fn lru_prefers(a: Option<int>, b: Option<int>) -> bool {
    match (a, b) {
        (None, Some(_)) => true,
        (Some(x), Some(y)) => x < y,
        _ => false,
    }
}

/// Whether a page whose next use is `a` is a strictly better OPT victim than
/// one whose next use is `b`: a page never used again is evicted outright,
/// and otherwise a later next use is better.
pub open spec fn opt_prefers(a: Option<int>, b: Option<int>) -> bool {
    match (a, b) {
        (None, Some(_)) => true,
        (Some(x), Some(y)) => x > y,
        _ => false,
    }
}

/// The slot LRU evicts at position `i`: the one whose page's most recent use
/// before `i` is farthest in the past, a page with no prior use counting as
/// maximally stale; ties resolved by the lowest slot index.
pub open spec fn lru_victim(table: Seq<PageTableEntry>, all: Seq<usize>, i: int) -> int
    decreases table.len(),
{
    if table.len() <= 1 {
        0
    } else {
        let prev = lru_victim(table.drop_last(), all, i);
        if lru_prefers(last_use(all, i, table.last().pn), last_use(all, i, table[prev].pn)) {
            table.len() - 1
        } else {
            prev
        }
    }
}

/// The slot the scan of OPT picks: the one whose page's next use after `i`
/// is farthest in the future, a page with no further use winning outright;
/// ties resolved by the lowest slot index.
pub open spec fn opt_scan(table: Seq<PageTableEntry>, all: Seq<usize>, i: int) -> int
    decreases table.len(),
{
    if table.len() <= 1 {
        0
    } else {
        let prev = opt_scan(table.drop_last(), all, i);
        if opt_prefers(next_use(all, i, table.last().pn), next_use(all, i, table[prev].pn)) {
            table.len() - 1
        } else {
            prev
        }
    }
}

/// The slot OPT evicts at position `i`. When `i` is the last position the
/// choice cannot affect future cost, and slot 0 is picked for determinism.
pub open spec fn opt_victim(table: Seq<PageTableEntry>, all: Seq<usize>, i: int) -> int {
    if i == all.len() - 1 {
        0
    } else {
        opt_scan(table, all, i)
    }
}

/// `lru_victim` is in range, no slot is a strictly better victim, and it is
/// strictly better than every lower slot.
pub proof fn lemma_lru_victim_props(table: Seq<PageTableEntry>, all: Seq<usize>, i: int)
    requires
        table.len() > 0,
    ensures
        0 <= lru_victim(table, all, i) < table.len(),
        forall|j: int| 0 <= j < table.len()
            ==> !lru_prefers(
                last_use(all, i, (#[trigger] table[j]).pn),
                last_use(all, i, table[lru_victim(table, all, i)].pn),
            ),
        forall|j: int| 0 <= j < lru_victim(table, all, i)
            ==> lru_prefers(
                last_use(all, i, table[lru_victim(table, all, i)].pn),
                last_use(all, i, (#[trigger] table[j]).pn),
            ),
    decreases table.len(),
{
    if table.len() > 1 {
        let t = table.drop_last();
        lemma_lru_victim_props(t, all, i);
        assert(forall|j: int| 0 <= j < t.len() ==> t[j] == table[j]);
        assert(table.last() == table[table.len() - 1]);
    }
}

/// `opt_scan` is in range, no slot is a strictly better victim, and it is
/// strictly better than every lower slot.
pub proof fn lemma_opt_scan_props(table: Seq<PageTableEntry>, all: Seq<usize>, i: int)
    requires
        table.len() > 0,
    ensures
        0 <= opt_scan(table, all, i) < table.len(),
        forall|j: int| 0 <= j < table.len()
            ==> !opt_prefers(
                next_use(all, i, (#[trigger] table[j]).pn),
                next_use(all, i, table[opt_scan(table, all, i)].pn),
            ),
        forall|j: int| 0 <= j < opt_scan(table, all, i)
            ==> opt_prefers(
                next_use(all, i, table[opt_scan(table, all, i)].pn),
                next_use(all, i, (#[trigger] table[j]).pn),
            ),
    decreases table.len(),
{
    if table.len() > 1 {
        let t = table.drop_last();
        lemma_opt_scan_props(t, all, i);
        assert(forall|j: int| 0 <= j < t.len() ==> t[j] == table[j]);
        assert(table.last() == table[table.len() - 1]);
    }
}

/// `opt_victim` is always in range.
pub proof fn lemma_opt_victim_in_range(table: Seq<PageTableEntry>, all: Seq<usize>, i: int)
    requires
        table.len() > 0,
    ensures
        0 <= opt_victim(table, all, i) < table.len(),
{
    if i != all.len() - 1 {
        lemma_opt_scan_props(table, all, i);
    }
}

/// Backward scan: the most recent occurrence of `pn` before position `i`.
fn last_use_before(all_pns: &Vec<usize>, i: usize, pn: usize) -> (r: Option<usize>)
    requires
        i <= all_pns.len(),
    ensures
        match r {
            Some(k) => last_use(all_pns@, i as int, pn) == Some(k as int),
            None => last_use(all_pns@, i as int, pn) is None,
        },
{
    let mut j: usize = i;
    let mut found: Option<usize> = None;
    while j > 0 && found.is_none()
        invariant
            j <= i <= all_pns.len(),
            match found {
                Some(k) => last_use(all_pns@, i as int, pn) == Some(k as int),
                None => last_use(all_pns@, i as int, pn) == last_use(all_pns@, j as int, pn),
            },
        decreases j,
    {
        j -= 1;
        if all_pns[j] == pn {
            found = Some(j);
        }
    }
    found
}

/// Forward scan: the first occurrence of `pn` at or after position `j0`.
fn next_use_at(all_pns: &Vec<usize>, j0: usize, pn: usize) -> (r: Option<usize>)
    ensures
        match r {
            Some(k) => next_use_from(all_pns@, j0 as int, pn) == Some(k as int),
            None => next_use_from(all_pns@, j0 as int, pn) is None,
        },
{
    let mut j: usize = j0;
    while j < all_pns.len()
        invariant
            j0 <= j,
            next_use_from(all_pns@, j0 as int, pn) == next_use_from(all_pns@, j as int, pn),
        decreases all_pns.len() - j,
    {
        if all_pns[j] == pn {
            return Some(j);
        }
        j += 1;
    }
    None
}

/// LRU replacement: for each resident page, look back from `present_idx` for
/// its most recent prior use, and evict the page whose most recent use is
/// farthest in the past. A resident page with no prior use is treated as
/// maximally stale and so is an immediate eviction candidate; ties are
/// resolved by the lowest slot index.
pub fn lru(
    ram_frames: &mut Vec<PageTableEntry>,
    all_pns: &Vec<usize>,
    present_idx: usize,
) -> (r: (usize, usize))
    requires
        old(ram_frames).len() > 0,
        present_idx < all_pns.len(),
    ensures
        r.0 as int == lru_victim(old(ram_frames)@, all_pns@, present_idx as int),
        r.1 == old(ram_frames)@[r.0 as int].pn,
        final(ram_frames)@ == old(ram_frames)@.update(
            r.0 as int,
            (PageTableEntry { insertion_time: present_idx, pn: all_pns@[present_idx as int] }),
        ),
        forall|j: int| 0 <= j < old(ram_frames).len()
            ==> !lru_prefers(
                last_use(all_pns@, present_idx as int, (#[trigger] old(ram_frames)@[j]).pn),
                last_use(all_pns@, present_idx as int, old(ram_frames)@[r.0 as int].pn),
            ),
{
    let ghost all = all_pns@;
    let ghost pi = present_idx as int;
    let mut victim_idx: usize = 0;
    let mut victim_last = last_use_before(all_pns, present_idx, ram_frames[0].pn);
    let mut idx: usize = 1;
    while idx < ram_frames.len()
        invariant
            ram_frames@ == old(ram_frames)@,
            all == all_pns@,
            pi == present_idx as int,
            present_idx < all_pns.len(),
            1 <= idx <= ram_frames.len(),
            victim_idx < idx,
            victim_idx as int == lru_victim(ram_frames@.take(idx as int), all, pi),
            match victim_last {
                Some(k) => last_use(all, pi, ram_frames@[victim_idx as int].pn) == Some(k as int),
                None => last_use(all, pi, ram_frames@[victim_idx as int].pn) is None,
            },
        decreases ram_frames.len() - idx,
    {
        let ghost prefix = ram_frames@.take(idx as int);
        let cand_last = last_use_before(all_pns, present_idx, ram_frames[idx].pn);
        let better = match (cand_last, victim_last) {
            (None, Some(_)) => true,
            (Some(x), Some(y)) => x < y,
            _ => false,
        };
        proof {
            let grown = ram_frames@.take(idx as int + 1);
            assert(grown.drop_last() =~= prefix);
            assert(grown.last() == ram_frames@[idx as int]);
            assert(better == lru_prefers(
                last_use(all, pi, ram_frames@[idx as int].pn),
                last_use(all, pi, ram_frames@[victim_idx as int].pn),
            ));
        }
        if better {
            victim_idx = idx;
            victim_last = cand_last;
        }
        idx += 1;
    }
    proof {
        assert(ram_frames@.take(ram_frames@.len() as int) =~= ram_frames@);
        lemma_lru_victim_props(ram_frames@, all, pi);
    }
    let ejected = eject(ram_frames, all_pns, present_idx, victim_idx);
    (victim_idx, ejected)
}

/// OPT replacement: for each resident page, look forward from `present_idx`
/// for its next use; a page with no further use is evicted outright, and
/// otherwise the page whose next use is farthest in the future is evicted,
/// ties resolved by the lowest slot index. When `present_idx` is the last
/// position, the choice cannot affect future cost and slot 0 is evicted.
pub fn opt(
    ram_frames: &mut Vec<PageTableEntry>,
    all_pns: &Vec<usize>,
    present_idx: usize,
) -> (r: (usize, usize))
    requires
        old(ram_frames).len() > 0,
        present_idx < all_pns.len(),
    ensures
        r.0 as int == opt_victim(old(ram_frames)@, all_pns@, present_idx as int),
        r.1 == old(ram_frames)@[r.0 as int].pn,
        final(ram_frames)@ == old(ram_frames)@.update(
            r.0 as int,
            (PageTableEntry { insertion_time: present_idx, pn: all_pns@[present_idx as int] }),
        ),
        present_idx as int != all_pns@.len() - 1 ==> forall|j: int|
            0 <= j < old(ram_frames).len()
                ==> !opt_prefers(
                    next_use(all_pns@, present_idx as int, (#[trigger] old(ram_frames)@[j]).pn),
                    next_use(all_pns@, present_idx as int, old(ram_frames)@[r.0 as int].pn),
                ),
{
    let ghost all = all_pns@;
    let ghost pi = present_idx as int;
    if present_idx == all_pns.len() - 1 {
        let ejected = eject(ram_frames, all_pns, present_idx, 0);
        return (0, ejected);
    }
    let mut victim_idx: usize = 0;
    let mut victim_next = next_use_at(all_pns, present_idx + 1, ram_frames[0].pn);
    let mut idx: usize = 1;
    while idx < ram_frames.len()
        invariant
            ram_frames@ == old(ram_frames)@,
            all == all_pns@,
            pi == present_idx as int,
            present_idx + 1 <= all_pns.len(),
            1 <= idx <= ram_frames.len(),
            victim_idx < idx,
            victim_idx as int == opt_scan(ram_frames@.take(idx as int), all, pi),
            match victim_next {
                Some(k) => next_use(all, pi, ram_frames@[victim_idx as int].pn) == Some(k as int),
                None => next_use(all, pi, ram_frames@[victim_idx as int].pn) is None,
            },
        decreases ram_frames.len() - idx,
    {
        let ghost prefix = ram_frames@.take(idx as int);
        let cand_next = next_use_at(all_pns, present_idx + 1, ram_frames[idx].pn);
        let better = match (cand_next, victim_next) {
            (None, Some(_)) => true,
            (Some(x), Some(y)) => x > y,
            _ => false,
        };
        proof {
            let grown = ram_frames@.take(idx as int + 1);
            assert(grown.drop_last() =~= prefix);
            assert(grown.last() == ram_frames@[idx as int]);
            assert(better == opt_prefers(
                next_use(all, pi, ram_frames@[idx as int].pn),
                next_use(all, pi, ram_frames@[victim_idx as int].pn),
            ));
        }
        if better {
            victim_idx = idx;
            victim_next = cand_next;
        }
        idx += 1;
    }
    proof {
        assert(ram_frames@.take(ram_frames@.len() as int) =~= ram_frames@);
        lemma_opt_scan_props(ram_frames@, all, pi);
    }
    let ejected = eject(ram_frames, all_pns, present_idx, victim_idx);
    (victim_idx, ejected)
}

/// The slot that the configured policy evicts, as a function of the resident
/// table, the full page-number sequence, and the current position.
pub open spec fn victim_slot(
    alg: PageReplacementAlgorithm,
    table: Seq<PageTableEntry>,
    all: Seq<usize>,
    i: int,
) -> int {
    match alg {
        PageReplacementAlgorithm::Fifo => fifo_victim(table),
        PageReplacementAlgorithm::Lru => lru_victim(table, all, i),
        PageReplacementAlgorithm::Opt => opt_victim(table, all, i),
    }
}

/// The victim of the configured policy is always an occupied slot.
pub proof fn lemma_victim_slot_in_range(
    alg: PageReplacementAlgorithm,
    table: Seq<PageTableEntry>,
    all: Seq<usize>,
    i: int,
)
    requires
        table.len() > 0,
    ensures
        0 <= victim_slot(alg, table, all, i) < table.len(),
{
    match alg {
        PageReplacementAlgorithm::Fifo => lemma_fifo_victim_props(table),
        PageReplacementAlgorithm::Lru => lemma_lru_victim_props(table, all, i),
        PageReplacementAlgorithm::Opt => lemma_opt_victim_in_range(table, all, i),
    }
}

impl PageReplacementAlgorithm {
    /// Evict one occupied slot as this policy dictates, overwrite it with the
    /// page faulting at `present_idx`, and return the slot index together
    /// with the evicted page number.
    pub fn algorithm(
        &self,
        ram_frames: &mut Vec<PageTableEntry>,
        all_pns: &Vec<usize>,
        present_idx: usize,
    ) -> (r: (usize, usize))
        requires
            old(ram_frames).len() > 0,
            present_idx < all_pns.len(),
        ensures
            r.0 as int == victim_slot(*self, old(ram_frames)@, all_pns@, present_idx as int),
            r.1 == old(ram_frames)@[r.0 as int].pn,
            final(ram_frames)@ == old(ram_frames)@.update(
                r.0 as int,
                (PageTableEntry {
                    insertion_time: present_idx,
                    pn: all_pns@[present_idx as int],
                }),
            ),
    {
        match self {
            PageReplacementAlgorithm::Fifo => fifo(ram_frames, all_pns, present_idx),
            PageReplacementAlgorithm::Lru => lru(ram_frames, all_pns, present_idx),
            PageReplacementAlgorithm::Opt => opt(ram_frames, all_pns, present_idx),
        }
    }
}

/// Overwrites slot `replace_idx` with the page faulting at `present_idx` and
/// returns the page number that the slot held before.
pub fn eject(
    ram_frames: &mut Vec<PageTableEntry>,
    all_pns: &Vec<usize>,
    present_idx: usize,
    replace_idx: usize,
) -> (ejected_pn: usize)
    requires
        replace_idx < old(ram_frames).len(),
        present_idx < all_pns.len(),
    ensures
        ejected_pn == old(ram_frames)@[replace_idx as int].pn,
        final(ram_frames)@ == old(ram_frames)@.update(
            replace_idx as int,
            (PageTableEntry { insertion_time: present_idx, pn: all_pns@[present_idx as int] }),
        ),
{
    let ejected_pn = ram_frames[replace_idx].pn;
    let slot = &mut ram_frames[replace_idx];
    *slot = PageTableEntry { insertion_time: present_idx, pn: all_pns[present_idx] };
    ejected_pn
}

/// Resident-table lookup: the slot currently holding `pn`, if any.
pub fn find_frame(ram_frames: &Vec<PageTableEntry>, pn: usize) -> (r: Option<usize>)
    ensures
        match r {
            Some(k) => k < ram_frames.len() && ram_frames@[k as int].pn == pn && k as int
                == slot_of(ram_frames@, pn),
            None => !resident(ram_frames@, pn) && slot_of(ram_frames@, pn) == -1,
        },
{
    let mut idx: usize = 0;
    while idx < ram_frames.len()
        invariant
            idx <= ram_frames.len(),
            forall|j: int| 0 <= j < idx ==> ram_frames@[j].pn != pn,
        decreases ram_frames.len() - idx,
    {
        if ram_frames[idx].pn == pn {
            proof {
                lemma_slot_of(ram_frames@, pn);
            }
            return Some(idx);
        }
        idx += 1;
    }
    proof {
        lemma_slot_of(ram_frames@, pn);
    }
    None
}

/// FIFO replacement: evict the slot with the smallest `insertion_time`
/// (ties resolved by the lowest slot index), place the faulting page there,
/// and return the slot index together with the evicted page number.
pub fn fifo(
    ram_frames: &mut Vec<PageTableEntry>,
    all_pns: &Vec<usize>,
    present_idx: usize,
) -> (r: (usize, usize))
    requires
        old(ram_frames).len() > 0,
        present_idx < all_pns.len(),
    ensures
        r.0 as int == fifo_victim(old(ram_frames)@),
        r.1 == old(ram_frames)@[r.0 as int].pn,
        final(ram_frames)@ == old(ram_frames)@.update(
            r.0 as int,
            (PageTableEntry { insertion_time: present_idx, pn: all_pns@[present_idx as int] }),
        ),
        forall|j: int| 0 <= j < old(ram_frames).len()
            ==> old(ram_frames)@[r.0 as int].insertion_time
                <= #[trigger] old(ram_frames)@[j].insertion_time,
{
    let mut oldest_idx: usize = 0;
    let mut idx: usize = 1;
    while idx < ram_frames.len()
        invariant
            ram_frames@ == old(ram_frames)@,
            1 <= idx <= ram_frames.len(),
            oldest_idx < idx,
            oldest_idx as int == fifo_victim(ram_frames@.take(idx as int)),
        decreases ram_frames.len() - idx,
    {
        let ghost prefix = ram_frames@.take(idx as int);
        if ram_frames[idx].insertion_time < ram_frames[oldest_idx].insertion_time {
            oldest_idx = idx;
        }
        proof {
            let grown = ram_frames@.take(idx as int + 1);
            assert(grown.drop_last() =~= prefix);
            assert(grown.last() == ram_frames@[idx as int]);
        }
        idx += 1;
    }
    proof {
        assert(ram_frames@.take(ram_frames@.len() as int) =~= ram_frames@);
        lemma_fifo_victim_props(ram_frames@);
    }
    let ejected = eject(ram_frames, all_pns, present_idx, oldest_idx);
    (oldest_idx, ejected)
}

} // verus!
