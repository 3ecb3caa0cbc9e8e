use vstd::prelude::*;

use crate::cli::PageReplacementAlgorithm;
use crate::frames::PageTableEntry;
use crate::frames::lemma_opt_scan_props;
use crate::frames::lemma_victim_slot_in_range;
use crate::frames::next_use_from;
use crate::frames::opt_prefers;
use crate::frames::resident;
use crate::frames::victim_slot;
use crate::model::lemma_run_inv;
use crate::model::lemma_step_inv;
use crate::model::no_dup_pages;
use crate::model::run;

verus! {

broadcast use vstd::set::group_set_axioms;

/// The resident page that the schedule entry `p` names: `p` itself when it
/// is resident, else an arbitrary resident page.
pub open spec fn victim_page(t: Set<usize>, p: usize) -> usize {
    if t.contains(p) {
        p
    } else {
        t.choose()
    }
}

/// One demand-paging step at position `j` of the address sequence, on a
/// resident page-set `t`: a resident page is left alone; otherwise the page
/// is brought in, evicting the page the schedule names when the table is
/// full.
pub open spec fn sched_step(
    t: Set<usize>,
    frames: usize,
    all: Seq<usize>,
    sched: Seq<usize>,
    j: int,
) -> Set<usize> {
    let pn = all[j];
    if t.contains(pn) {
        t
    } else if t.len() < frames {
        t.insert(pn)
    } else {
        t.remove(victim_page(t, sched[j])).insert(pn)
    }
}

/// The page faults incurred at positions `j` onward, starting from the
/// resident set `t` and evicting as `sched` dictates.
pub open spec fn sched_faults(
    t: Set<usize>,
    frames: usize,
    all: Seq<usize>,
    sched: Seq<usize>,
    j: int,
) -> nat
    decreases all.len() - j,
{
    if j < 0 || j >= all.len() {
        0
    } else {
        (if t.contains(all[j]) {
            0nat
        } else {
            1nat
        }) + sched_faults(sched_step(t, frames, all, sched, j), frames, all, sched, j + 1)
    }
}

/// Whether, from `t` at position `j` onward, the schedule always evicts a
/// resident page whose next use lies no sooner than that of every resident
/// page: the farthest-in-future rule.
pub open spec fn greedy_along(
    t: Set<usize>,
    frames: usize,
    all: Seq<usize>,
    sched: Seq<usize>,
    j: int,
) -> bool
    decreases all.len() - j,
{
    j >= all.len() || {
        let pn = all[j];
        let sound = t.contains(pn) || t.len() < frames || (t.contains(sched[j]) && forall|x: usize|
            t.contains(x) ==> !opt_prefers(
                next_use_from(all, j + 1, x),
                next_use_from(all, j + 1, sched[j]),
            ));
        sound && greedy_along(sched_step(t, frames, all, sched, j), frames, all, sched, j + 1)
    }
}

/// A nonempty finite set has a member, so `choose` picks one.
proof fn lemma_nonempty_has_member(t: Set<usize>)
    requires
        t.finite(),
        t.len() > 0,
    ensures
        t.contains(t.choose()),
{
    if forall|x: usize| !t.contains(x) {
        assert(t =~= Set::<usize>::empty());
        assert(false);
    }
}

/// A `Some` answer of `next_use_from` points at an occurrence at or after
/// the start of the scan.
proof fn lemma_next_use_from_some(all: Seq<usize>, j: int, x: usize)
    ensures
        next_use_from(all, j, x) matches Some(k) ==> j <= k < all.len() && all[k] == x,
    decreases all.len() - j,
{
    if 0 <= j < all.len() && all[j] != x {
        lemma_next_use_from_some(all, j + 1, x);
    }
}

/// Fault counting from position `j` reads no schedule entry before `j`.
proof fn lemma_sched_agree(
    t: Set<usize>,
    frames: usize,
    all: Seq<usize>,
    s1: Seq<usize>,
    s2: Seq<usize>,
    j: int,
)
    requires
        forall|k: int| j <= k < all.len() ==> s1[k] == s2[k],
    ensures
        sched_faults(t, frames, all, s1, j) == sched_faults(t, frames, all, s2, j),
    decreases all.len() - j,
{
    if 0 <= j < all.len() {
        assert(sched_step(t, frames, all, s1, j) == sched_step(t, frames, all, s2, j));
        lemma_sched_agree(sched_step(t, frames, all, s1, j), frames, all, s1, s2, j + 1);
    }
}

/// Mimicking exchange: from two full tables that differ in one page (the
/// first holds `a`, the second `b`), some schedule for the first incurs at
/// most one fault more than any given schedule for the second.
proof fn lemma_mimic(
    c: Set<usize>,
    a: usize,
    b: usize,
    frames: usize,
    all: Seq<usize>,
    s2: Seq<usize>,
    j: int,
) -> (tau: Seq<usize>)
    requires
        c.finite(),
        c.len() + 1 == frames,
        !c.contains(a),
        !c.contains(b),
        a != b,
        s2.len() == all.len(),
        0 <= j,
    ensures
        tau.len() == all.len(),
        sched_faults(c.insert(a), frames, all, tau, j) <= sched_faults(
            c.insert(b),
            frames,
            all,
            s2,
            j,
        ) + 1,
    decreases all.len() - j,
{
    let x = c.insert(a);
    let y = c.insert(b);
    assert(x.len() == frames && y.len() == frames);
    if j >= all.len() {
        s2
    } else {
        let pn = all[j];
        if c.contains(pn) {
            // both hit; the difference stands
            assert(sched_step(x, frames, all, s2, j) == x);
            lemma_mimic(c, a, b, frames, all, s2, j + 1)
        } else if pn == a {
            // the first table hits; the second faults and evicts some v
            lemma_nonempty_has_member(y);
            let v = victim_page(y, s2[j]);
            assert(y.contains(v));
            if v == b {
                // the second table converges to the first
                assert(y.remove(b).insert(a) =~= x);
                s2
            } else {
                // v comes from the common part; the tables stay one apart
                assert(c.contains(v));
                let shared = c.remove(v).insert(a);
                assert(x =~= shared.insert(v));
                assert(y.remove(v).insert(a) =~= shared.insert(b));
                let tau = lemma_mimic(shared, v, b, frames, all, s2, j + 1);
                assert(sched_step(x, frames, all, tau, j) == x);
                tau
            }
        } else if pn == b {
            // the second table hits; the first faults, evicts a, and converges
            let tau = s2.update(j, a);
            assert(x.remove(a).insert(b) =~= y);
            assert(sched_step(x, frames, all, tau, j) == y);
            lemma_sched_agree(y, frames, all, tau, s2, j + 1);
            tau
        } else {
            // a page fresh to both: each faults; the first mimics the second
            lemma_nonempty_has_member(y);
            let v = victim_page(y, s2[j]);
            assert(y.contains(v));
            if v == b {
                let tau = s2.update(j, a);
                assert(x.remove(a).insert(pn) =~= y.remove(b).insert(pn));
                assert(sched_step(x, frames, all, tau, j) == sched_step(y, frames, all, s2, j));
                lemma_sched_agree(
                    sched_step(y, frames, all, s2, j),
                    frames,
                    all,
                    tau,
                    s2,
                    j + 1,
                );
                tau
            } else {
                assert(c.contains(v));
                let shared = c.remove(v).insert(pn);
                assert(x.remove(v).insert(pn) =~= shared.insert(a));
                assert(y.remove(v).insert(pn) =~= shared.insert(b));
                let tau0 = lemma_mimic(shared, a, b, frames, all, s2, j + 1);
                let tau = tau0.update(j, v);
                assert(sched_step(x, frames, all, tau, j) == shared.insert(a));
                lemma_sched_agree(shared.insert(a), frames, all, tau, tau0, j + 1);
                tau
            }
        }
    }
}

/// Sharp exchange: as `lemma_mimic`, but when the page only the first table
/// holds is next used no later than the page only the second table holds,
/// the extra fault is not needed: before the second table could profit from
/// its page, the first table hits while the second faults.
proof fn lemma_exchange(
    c: Set<usize>,
    a: usize,
    b: usize,
    frames: usize,
    all: Seq<usize>,
    s2: Seq<usize>,
    j: int,
) -> (tau: Seq<usize>)
    requires
        c.finite(),
        c.len() + 1 == frames,
        !c.contains(a),
        !c.contains(b),
        a != b,
        s2.len() == all.len(),
        0 <= j,
        !opt_prefers(next_use_from(all, j, a), next_use_from(all, j, b)),
    ensures
        tau.len() == all.len(),
        sched_faults(c.insert(a), frames, all, tau, j) <= sched_faults(
            c.insert(b),
            frames,
            all,
            s2,
            j,
        ),
    decreases all.len() - j,
{
    let x = c.insert(a);
    let y = c.insert(b);
    assert(x.len() == frames && y.len() == frames);
    if j >= all.len() {
        s2
    } else {
        let pn = all[j];
        if c.contains(pn) {
            // both hit; the difference and the ordering stand
            assert(sched_step(x, frames, all, s2, j) == x);
            lemma_exchange(c, a, b, frames, all, s2, j + 1)
        } else if pn == a {
            // the first table hits while the second faults: the fault paid
            // here funds any later extra fault of the first table
            lemma_nonempty_has_member(y);
            let v = victim_page(y, s2[j]);
            assert(y.contains(v));
            if v == b {
                assert(y.remove(b).insert(a) =~= x);
                s2
            } else {
                assert(c.contains(v));
                let shared = c.remove(v).insert(a);
                assert(x =~= shared.insert(v));
                assert(y.remove(v).insert(a) =~= shared.insert(b));
                let tau = lemma_mimic(shared, v, b, frames, all, s2, j + 1);
                assert(sched_step(x, frames, all, tau, j) == x);
                tau
            }
        } else if pn == b {
            // impossible: b is accessed now, yet a was to be used no later
            assert(next_use_from(all, j, b) == Some(j));
            lemma_next_use_from_some(all, j, a);
            assert(false);
            s2
        } else {
            // a page fresh to both: each faults; the first mimics the second
            lemma_nonempty_has_member(y);
            let v = victim_page(y, s2[j]);
            assert(y.contains(v));
            if v == b {
                let tau = s2.update(j, a);
                assert(x.remove(a).insert(pn) =~= y.remove(b).insert(pn));
                assert(sched_step(x, frames, all, tau, j) == sched_step(y, frames, all, s2, j));
                lemma_sched_agree(
                    sched_step(y, frames, all, s2, j),
                    frames,
                    all,
                    tau,
                    s2,
                    j + 1,
                );
                tau
            } else {
                assert(c.contains(v));
                let shared = c.remove(v).insert(pn);
                assert(x.remove(v).insert(pn) =~= shared.insert(a));
                assert(y.remove(v).insert(pn) =~= shared.insert(b));
                let tau0 = lemma_exchange(shared, a, b, frames, all, s2, j + 1);
                let tau = tau0.update(j, v);
                assert(sched_step(x, frames, all, tau, j) == shared.insert(a));
                lemma_sched_agree(shared.insert(a), frames, all, tau, tau0, j + 1);
                tau
            }
        }
    }
}

/// A schedule that always evicts a farthest-in-future resident page incurs
/// no more faults than any other schedule from the same starting state.
pub proof fn lemma_greedy_le_any(
    t: Set<usize>,
    frames: usize,
    all: Seq<usize>,
    s1: Seq<usize>,
    s2: Seq<usize>,
    j: int,
)
    requires
        t.finite(),
        t.len() <= frames,
        frames >= 1,
        s1.len() == all.len(),
        s2.len() == all.len(),
        0 <= j,
        greedy_along(t, frames, all, s1, j),
    ensures
        sched_faults(t, frames, all, s1, j) <= sched_faults(t, frames, all, s2, j),
    decreases all.len() - j,
{
    if j < all.len() {
        let pn = all[j];
        if t.contains(pn) {
            lemma_greedy_le_any(t, frames, all, s1, s2, j + 1);
        } else if t.len() < frames {
            lemma_greedy_le_any(t.insert(pn), frames, all, s1, s2, j + 1);
        } else {
            let f = s1[j];
            assert(t.contains(f));
            assert(victim_page(t, s1[j]) == f);
            lemma_nonempty_has_member(t);
            let s = victim_page(t, s2[j]);
            assert(t.contains(s));
            let x = t.remove(f).insert(pn);
            assert(x == sched_step(t, frames, all, s1, j));
            if f == s {
                lemma_greedy_le_any(x, frames, all, s1, s2, j + 1);
            } else {
                let y = t.remove(s).insert(pn);
                let shared = t.remove(f).remove(s).insert(pn);
                assert(x =~= shared.insert(s));
                assert(y =~= shared.insert(f));
                // the greedy choice f is used no sooner than the kept page s
                assert(!opt_prefers(
                    next_use_from(all, j + 1, s),
                    next_use_from(all, j + 1, f),
                ));
                let tau = lemma_exchange(shared, s, f, frames, all, s2, j + 1);
                lemma_greedy_le_any(x, frames, all, s1, tau, j + 1);
            }
        }
    }
}

/// The set of pages a resident table holds.
pub open spec fn table_pages(table: Seq<PageTableEntry>) -> Set<usize> {
    table.map_values(|e: PageTableEntry| e.pn).to_set()
}

/// A page is in `table_pages` exactly when it is resident.
proof fn lemma_table_pages_membership(table: Seq<PageTableEntry>)
    ensures
        forall|x: usize| table_pages(table).contains(x) <==> resident(table, x),
{
    let mapped = table.map_values(|e: PageTableEntry| e.pn);
    assert forall|x: usize| table_pages(table).contains(x) <==> resident(table, x) by {
        if mapped.contains(x) {
            let k = choose|k: int| 0 <= k < mapped.len() && mapped[k] == x;
            assert(table[k].pn == x);
        }
        if resident(table, x) {
            let k = choose|k: int| 0 <= k < table.len() && table[k].pn == x;
            assert(mapped[k] == x);
        }
    }
}

/// With no duplicate pages, the page set is finite and as large as the table.
proof fn lemma_table_pages_len(table: Seq<PageTableEntry>)
    requires
        no_dup_pages(table),
    ensures
        table_pages(table).finite(),
        table_pages(table).len() == table.len(),
{
    let mapped = table.map_values(|e: PageTableEntry| e.pn);
    assert(mapped.no_duplicates()) by {
        assert forall|i: int, j: int|
            0 <= i < mapped.len() && 0 <= j < mapped.len() && i != j implies mapped[i]
            != mapped[j] by {
            assert(mapped[i] == table[i].pn && mapped[j] == table[j].pn);
        }
    }
    mapped.unique_seq_to_set();
}

/// Appending an entry adds its page to the page set.
proof fn lemma_table_pages_push(table: Seq<PageTableEntry>, e: PageTableEntry)
    ensures
        table_pages(table.push(e)) == table_pages(table).insert(e.pn),
{
    let t2 = table.push(e);
    lemma_table_pages_membership(table);
    lemma_table_pages_membership(t2);
    assert forall|x: usize| table_pages(t2).contains(x) implies table_pages(table).insert(
        e.pn,
    ).contains(x) by {
        assert(resident(t2, x));
        let k = choose|k: int| 0 <= k < t2.len() && t2[k].pn == x;
        if k < table.len() {
            assert(t2[k] == table[k]);
            assert(table[k].pn == x);
            assert(resident(table, x));
            assert(table_pages(table).contains(x));
        } else {
            assert(t2[k] == e);
            assert(x == e.pn);
        }
    }
    assert forall|x: usize| table_pages(table).insert(e.pn).contains(x) implies table_pages(
        t2,
    ).contains(x) by {
        if x == e.pn {
            assert(t2[table.len() as int].pn == x);
            assert(resident(t2, x));
        } else {
            assert(table_pages(table).contains(x));
            assert(resident(table, x));
            let k = choose|k: int| 0 <= k < table.len() && table[k].pn == x;
            assert(t2[k] == table[k]);
            assert(t2[k].pn == x);
            assert(resident(t2, x));
        }
    }
    assert(table_pages(t2) =~= table_pages(table).insert(e.pn));
}

/// Overwriting one slot swaps that slot's page for the new one in the page
/// set, provided no page is held twice.
proof fn lemma_table_pages_update(table: Seq<PageTableEntry>, v: int, e: PageTableEntry)
    requires
        no_dup_pages(table),
        0 <= v < table.len(),
    ensures
        table_pages(table.update(v, e)) == table_pages(table).remove(table[v].pn).insert(e.pn),
{
    let t2 = table.update(v, e);
    lemma_table_pages_membership(table);
    lemma_table_pages_membership(t2);
    assert forall|x: usize| table_pages(t2).contains(x) implies table_pages(table).remove(
        table[v].pn,
    ).insert(e.pn).contains(x) by {
        assert(resident(t2, x));
        let k = choose|k: int| 0 <= k < t2.len() && t2[k].pn == x;
        if k == v {
            assert(x == e.pn);
        } else {
            assert(t2[k] == table[k]);
            assert(table[k].pn == x);
            assert(resident(table, x));
            assert(table_pages(table).contains(x));
            assert(x != table[v].pn);
            assert(table_pages(table).remove(table[v].pn).contains(x));
        }
    }
    assert forall|x: usize| table_pages(table).remove(table[v].pn).insert(e.pn).contains(
        x,
    ) implies table_pages(t2).contains(x) by {
        if x == e.pn {
            assert(t2[v].pn == x);
            assert(resident(t2, x));
        } else {
            assert(table_pages(table).contains(x));
            assert(resident(table, x));
            let k = choose|k: int| 0 <= k < table.len() && table[k].pn == x;
            assert(k != v);
            assert(t2[k] == table[k]);
            assert(t2[k].pn == x);
            assert(resident(t2, x));
        }
    }
    assert(table_pages(t2) =~= table_pages(table).remove(table[v].pn).insert(e.pn));
}

/// The page a policy's own run evicts at position `j`, or 0 at positions
/// where it evicts nothing.
pub open spec fn realized_choice(
    alg: PageReplacementAlgorithm,
    frames: usize,
    cap: usize,
    all: Seq<usize>,
    j: int,
) -> usize {
    let s = run(alg, frames, cap, all, j);
    let pn = all[j];
    if !s.cache.contains(pn) && !resident(s.table, pn) && s.table.len() >= frames {
        s.table[victim_slot(alg, s.table, all, j)].pn
    } else {
        0usize
    }
}

/// The eviction choices a policy's own run makes over the first `n`
/// positions, as a schedule.
pub open spec fn realized_sched(
    alg: PageReplacementAlgorithm,
    frames: usize,
    cap: usize,
    all: Seq<usize>,
    n: int,
) -> Seq<usize>
    decreases n,
{
    if n <= 0 {
        Seq::<usize>::empty()
    } else {
        realized_sched(alg, frames, cap, all, n - 1).push(
            realized_choice(alg, frames, cap, all, n - 1),
        )
    }
}

/// The realized schedule records one choice per position.
proof fn lemma_realized_sched_index(
    alg: PageReplacementAlgorithm,
    frames: usize,
    cap: usize,
    all: Seq<usize>,
    n: int,
)
    requires
        0 <= n,
    ensures
        realized_sched(alg, frames, cap, all, n).len() == n,
        forall|j: int| 0 <= j < n ==> realized_sched(alg, frames, cap, all, n)[j]
            == realized_choice(alg, frames, cap, all, j),
    decreases n,
{
    if n > 0 {
        lemma_realized_sched_index(alg, frames, cap, all, n - 1);
    }
}

/// One step of a policy's run moves its page set exactly as the abstract
/// dynamics under the realized schedule do, and faults on exactly the
/// non-resident accesses.
proof fn lemma_step_pages(
    alg: PageReplacementAlgorithm,
    frames: usize,
    cap: usize,
    all: Seq<usize>,
    j: int,
)
    requires
        frames >= 1,
        0 <= j < all.len(),
    ensures
        table_pages(run(alg, frames, cap, all, j + 1).table) == sched_step(
            table_pages(run(alg, frames, cap, all, j).table),
            frames,
            all,
            realized_sched(alg, frames, cap, all, all.len() as int),
            j,
        ),
        table_pages(run(alg, frames, cap, all, j).table).contains(all[j]) <==> resident(
            run(alg, frames, cap, all, j).table,
            all[j],
        ),
        run(alg, frames, cap, all, j + 1).faults == run(alg, frames, cap, all, j).faults + (
        if table_pages(run(alg, frames, cap, all, j).table).contains(all[j]) {
            0int
        } else {
            1int
        }),
{
    let s = run(alg, frames, cap, all, j);
    let t = table_pages(s.table);
    let pn = all[j];
    let sched = realized_sched(alg, frames, cap, all, all.len() as int);
    lemma_run_inv(alg, frames, cap, all, j);
    lemma_step_inv(alg, frames, cap, all, j, s);
    lemma_table_pages_membership(s.table);
    lemma_table_pages_len(s.table);
    lemma_realized_sched_index(alg, frames, cap, all, all.len() as int);
    if s.cache.contains(pn) {
        let w = choose|w: int| 0 <= w < s.cache.len() && s.cache[w] == pn;
        assert(resident(s.table, s.cache[w]));
        assert(t.contains(pn));
    } else if resident(s.table, pn) {
        assert(t.contains(pn));
    } else if s.table.len() < frames {
        assert(!t.contains(pn));
        lemma_table_pages_push(s.table, (PageTableEntry { insertion_time: j as usize, pn }));
    } else {
        assert(!t.contains(pn));
        lemma_victim_slot_in_range(alg, s.table, all, j);
        let v = victim_slot(alg, s.table, all, j);
        let evicted = s.table[v].pn;
        assert(sched[j] == realized_choice(alg, frames, cap, all, j));
        assert(sched[j] == evicted);
        assert(resident(s.table, evicted)) by {
            assert(s.table[v].pn == evicted);
        }
        assert(t.contains(evicted));
        assert(victim_page(t, sched[j]) == evicted);
        lemma_table_pages_update(
            s.table,
            v,
            (PageTableEntry { insertion_time: j as usize, pn }),
        );
    }
}

/// A policy's total fault count splits into the faults already counted by
/// position `j` plus those the abstract dynamics charge from `j` on.
proof fn lemma_run_refines_sched(
    alg: PageReplacementAlgorithm,
    frames: usize,
    cap: usize,
    all: Seq<usize>,
    j: int,
)
    requires
        frames >= 1,
        0 <= j <= all.len(),
    ensures
        run(alg, frames, cap, all, all.len() as int).faults == run(
            alg,
            frames,
            cap,
            all,
            j,
        ).faults + sched_faults(
            table_pages(run(alg, frames, cap, all, j).table),
            frames,
            all,
            realized_sched(alg, frames, cap, all, all.len() as int),
            j,
        ),
    decreases all.len() - j,
{
    if j < all.len() {
        lemma_run_refines_sched(alg, frames, cap, all, j + 1);
        lemma_step_pages(alg, frames, cap, all, j);
    }
}

/// Along its own run, OPT's realized schedule always evicts a resident page
/// whose next use lies no sooner than any resident page's.
proof fn lemma_opt_realized_greedy(frames: usize, cap: usize, all: Seq<usize>, j: int)
    requires
        frames >= 1,
        0 <= j <= all.len(),
    ensures
        greedy_along(
            table_pages(run(PageReplacementAlgorithm::Opt, frames, cap, all, j).table),
            frames,
            all,
            realized_sched(PageReplacementAlgorithm::Opt, frames, cap, all, all.len() as int),
            j,
        ),
    decreases all.len() - j,
{
    let alg = PageReplacementAlgorithm::Opt;
    if j < all.len() {
        let s = run(alg, frames, cap, all, j);
        let t = table_pages(s.table);
        let pn = all[j];
        let sched = realized_sched(alg, frames, cap, all, all.len() as int);
        lemma_run_inv(alg, frames, cap, all, j);
        lemma_table_pages_membership(s.table);
        lemma_table_pages_len(s.table);
        lemma_realized_sched_index(alg, frames, cap, all, all.len() as int);
        lemma_step_pages(alg, frames, cap, all, j);
        lemma_opt_realized_greedy(frames, cap, all, j + 1);
        if !t.contains(pn) && t.len() >= frames {
            // a full-table fault: OPT's concrete victim is farthest in future
            lemma_victim_slot_in_range(alg, s.table, all, j);
            let v = victim_slot(alg, s.table, all, j);
            assert(sched[j] == realized_choice(alg, frames, cap, all, j));
            assert(sched[j] == s.table[v].pn);
            assert(t.contains(sched[j])) by {
                assert(0 <= v < s.table.len());
                assert(s.table[v].pn == sched[j]);
                assert(resident(s.table, sched[j]));
            }
            assert forall|x: usize| t.contains(x) implies !opt_prefers(
                next_use_from(all, j + 1, x),
                next_use_from(all, j + 1, sched[j]),
            ) by {
                let k = choose|k: int| 0 <= k < s.table.len() && s.table[k].pn == x;
                if j == all.len() - 1 {
                    assert(next_use_from(all, j + 1, x) is None);
                    assert(next_use_from(all, j + 1, sched[j]) is None);
                } else {
                    lemma_opt_scan_props(s.table, all, j);
                    assert(!opt_prefers(
                        crate::frames::next_use(all, j, s.table[k].pn),
                        crate::frames::next_use(all, j, s.table[v].pn),
                    ));
                }
            }
        }
    }
}

/// Law: for a fixed address sequence and frame count, OPT's page-fault
/// count never exceeds that of any other replacement policy run over the
/// same sequence — in particular neither FIFO's nor LRU's.
pub proof fn lemma_belady_optimal(
    alg: PageReplacementAlgorithm,
    frames: usize,
    cap: usize,
    all: Seq<usize>,
)
    requires
        frames >= 1,
    ensures
        run(PageReplacementAlgorithm::Opt, frames, cap, all, all.len() as int).faults <= run(
            alg,
            frames,
            cap,
            all,
            all.len() as int,
        ).faults,
{
    let opt = PageReplacementAlgorithm::Opt;
    let n = all.len() as int;
    lemma_run_refines_sched(opt, frames, cap, all, 0);
    lemma_run_refines_sched(alg, frames, cap, all, 0);
    lemma_opt_realized_greedy(frames, cap, all, 0);
    lemma_realized_sched_index(opt, frames, cap, all, n);
    lemma_realized_sched_index(alg, frames, cap, all, n);
    assert(table_pages(run(opt, frames, cap, all, 0).table) =~= Set::<usize>::empty()) by {
        lemma_table_pages_membership(run(opt, frames, cap, all, 0).table);
    }
    assert(table_pages(run(alg, frames, cap, all, 0).table) =~= Set::<usize>::empty()) by {
        lemma_table_pages_membership(run(alg, frames, cap, all, 0).table);
    }
    lemma_greedy_le_any(
        Set::<usize>::empty(),
        frames,
        all,
        realized_sched(opt, frames, cap, all, n),
        realized_sched(alg, frames, cap, all, n),
        0,
    );
}

} // verus!
