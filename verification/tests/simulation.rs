use memsim::cli::PageReplacementAlgorithm;
use memsim::sim::simulate;
use memsim::stats::run_statistics;

#[test]
fn scenario_fifo_two_frames() {
    // FIFO, frames = 2, page sequence [A, B, A, C] as [1, 2, 1, 3]:
    // the table fills with A and B, the second A is a cache hit, and C
    // faults and evicts A (the oldest); total faults = 3.
    let pns: Vec<usize> = vec![1, 2, 1, 3];
    let r = simulate(PageReplacementAlgorithm::Fifo, 2, 16, &pns);
    assert_eq!(r.page_faults, 3);
    assert_eq!(r.tlb_misses, 3);
    assert_eq!(r.frame_trace, vec![0, 1, 0, 0]);
    assert_eq!(r.ram_frames.len(), 2);
    assert_eq!(r.ram_frames[0].pn, 3);
    assert_eq!(r.ram_frames[1].pn, 2);
}

#[test]
fn scenario_opt_two_frames() {
    // OPT, frames = 2, same sequence: on the C fault neither A nor B has a
    // future occurrence, so the tie breaks to the lowest slot index.
    let pns: Vec<usize> = vec![1, 2, 1, 3];
    let r = simulate(PageReplacementAlgorithm::Opt, 2, 16, &pns);
    assert_eq!(r.page_faults, 3);
    assert_eq!(r.frame_trace, vec![0, 1, 0, 0]);
    assert_eq!(r.ram_frames[0].pn, 3);
    assert_eq!(r.ram_frames[1].pn, 2);
}

#[test]
fn scenario_lru_two_frames() {
    // LRU on the same sequence differs from FIFO: when C faults, A was used
    // more recently than B, so B (slot 1) is evicted.
    let pns: Vec<usize> = vec![1, 2, 1, 3];
    let r = simulate(PageReplacementAlgorithm::Lru, 2, 16, &pns);
    assert_eq!(r.page_faults, 3);
    assert_eq!(r.frame_trace, vec![0, 1, 0, 1]);
    assert_eq!(r.ram_frames[0].pn, 1);
    assert_eq!(r.ram_frames[1].pn, 3);
}

#[test]
fn belady_classic_reference_string() {
    // The classic three-frame reference string: OPT faults 9 times, LRU 12,
    // FIFO 15, and OPT is no worse than either.
    let pns: Vec<usize> =
        vec![7, 0, 1, 2, 0, 3, 0, 4, 2, 3, 0, 3, 2, 1, 2, 0, 1, 7, 0, 1];
    let opt = simulate(PageReplacementAlgorithm::Opt, 3, 0, &pns);
    let lru = simulate(PageReplacementAlgorithm::Lru, 3, 0, &pns);
    let fifo = simulate(PageReplacementAlgorithm::Fifo, 3, 0, &pns);
    assert_eq!(opt.page_faults, 9);
    assert_eq!(lru.page_faults, 12);
    assert_eq!(fifo.page_faults, 15);
    assert!(opt.page_faults <= fifo.page_faults);
    assert!(opt.page_faults <= lru.page_faults);
}

#[test]
fn belady_holds_on_varied_sequences() {
    let sequences: Vec<Vec<usize>> = vec![
        vec![1, 2, 3, 4, 1, 2, 5, 1, 2, 3, 4, 5],
        vec![0, 1, 2, 0, 1, 3, 0, 1, 4, 2, 3, 4, 0],
        vec![5, 5, 5, 5],
        vec![9, 8, 7, 6, 5, 4, 3, 2, 1, 0],
    ];
    for pns in &sequences {
        for frames in 1..5usize {
            let opt = simulate(PageReplacementAlgorithm::Opt, frames, 4, pns);
            let lru = simulate(PageReplacementAlgorithm::Lru, frames, 4, pns);
            let fifo = simulate(PageReplacementAlgorithm::Fifo, frames, 4, pns);
            assert!(opt.page_faults <= fifo.page_faults);
            assert!(opt.page_faults <= lru.page_faults);
        }
    }
}

#[test]
fn determinism_identical_reruns() {
    // Two runs of the same sequence through freshly initialized state give
    // identical counters and an identical frame-index trace.
    let pns: Vec<usize> = vec![3, 1, 4, 1, 5, 9, 2, 6, 5, 3, 5];
    let a = simulate(PageReplacementAlgorithm::Lru, 3, 2, &pns);
    let b = simulate(PageReplacementAlgorithm::Lru, 3, 2, &pns);
    assert_eq!(a.frame_trace, b.frame_trace);
    assert_eq!(a.page_faults, b.page_faults);
    assert_eq!(a.tlb_misses, b.tlb_misses);
    assert_eq!(a.ram_frames, b.ram_frames);
}

#[test]
fn zero_cache_capacity_every_address_misses() {
    let pns: Vec<usize> = vec![1, 1, 1, 2, 2, 1];
    let bare = simulate(PageReplacementAlgorithm::Fifo, 4, 0, &pns);
    assert_eq!(bare.tlb_misses, pns.len());
    // the cache has no bearing on faults
    let cached = simulate(PageReplacementAlgorithm::Fifo, 4, 16, &pns);
    assert_eq!(bare.page_faults, cached.page_faults);
}

#[test]
fn empty_input_zero_counters_and_rates() {
    let pns: Vec<usize> = Vec::new();
    let r = simulate(PageReplacementAlgorithm::Fifo, 256, 16, &pns);
    assert_eq!(r.page_faults, 0);
    assert_eq!(r.tlb_misses, 0);
    assert_eq!(r.frame_trace.len(), 0);
    assert_eq!(r.ram_frames.len(), 0);
    let s = run_statistics(0, 0, 0);
    assert_eq!(s.page_fault_rate_millis, 0);
    assert_eq!(s.tlb_hit_rate_millis, 0);
}

#[test]
fn table_never_exceeds_frame_count() {
    let pns: Vec<usize> = vec![1, 2, 3, 4, 5, 6, 7, 8, 1, 2, 9, 9, 1];
    for frames in 1..6usize {
        let r = simulate(PageReplacementAlgorithm::Fifo, frames, 3, &pns);
        assert!(r.ram_frames.len() <= frames);
        // no page occupies two slots
        for j in 0..r.ram_frames.len() {
            for k in (j + 1)..r.ram_frames.len() {
                assert_ne!(r.ram_frames[j].pn, r.ram_frames[k].pn);
            }
        }
    }
}

#[test]
fn soft_miss_counts_no_fault() {
    // with a tiny cache, a page still resident can fall out of the cache:
    // re-accessing it is a miss but not a fault
    let pns: Vec<usize> = vec![1, 2, 3, 1];
    let r = simulate(PageReplacementAlgorithm::Fifo, 4, 1, &pns);
    assert_eq!(r.page_faults, 3);
    assert_eq!(r.tlb_misses, 4);
    assert_eq!(r.frame_trace, vec![0, 1, 2, 0]);
}
