use memsim::cli::Cli;
use memsim::cli::PageReplacementAlgorithm;
use memsim::cli::DEFAULT_FRAMES;
use memsim::cli::DEFAULT_PAGE_SIZE;
use memsim::cli::DEFAULT_TLB_ENTRIES;
use memsim::frames::eject;
use memsim::frames::fifo;
use memsim::frames::find_frame;
use memsim::frames::lru;
use memsim::frames::opt;
use memsim::frames::PageTableEntry;
use memsim::sim::byte_at;
use memsim::sim::decompose;
use memsim::sim::decompose_all;
use memsim::sim::page_numbers;
use memsim::stats::rate_millis;
use memsim::stats::run_statistics;

fn entry(insertion_time: usize, pn: usize) -> PageTableEntry {
    PageTableEntry { insertion_time, pn }
}

#[test]
fn decompose_splits_low_two_bytes() {
    // 0x4214: page number 0x42, offset 0x14
    assert_eq!(decompose(16916), (66, 20));
    assert_eq!(decompose(0), (0, 0));
    assert_eq!(decompose(255), (0, 255));
    assert_eq!(decompose(256), (1, 0));
    // bits above the low 16 are masked off
    assert_eq!(decompose(70000), (17, 112));
}

#[test]
fn decompose_all_keeps_order_and_pairs() {
    let addresses: Vec<usize> = vec![16916, 255, 256];
    let stream = decompose_all(&addresses);
    assert_eq!(stream, vec![(16916, 66, 20), (255, 0, 255), (256, 1, 0)]);
    assert_eq!(page_numbers(&stream), vec![66, 0, 1]);
}

#[test]
fn byte_at_reads_the_offset() {
    let page: Vec<u8> = vec![0x11, 0x22, 0x33];
    assert_eq!(byte_at(&page, 0), 0x11);
    assert_eq!(byte_at(&page, 2), 0x33);
}

#[test]
fn fifo_evicts_oldest_insertion() {
    let mut table = vec![entry(4, 7), entry(2, 8), entry(3, 9)];
    let all: Vec<usize> = vec![1, 2, 3];
    let (slot, evicted) = fifo(&mut table, &all, 1);
    assert_eq!((slot, evicted), (1, 8));
    assert_eq!(table[1], entry(1, 2));
}

#[test]
fn fifo_tie_breaks_to_lowest_slot() {
    let mut table = vec![entry(5, 7), entry(5, 8)];
    let all: Vec<usize> = vec![9];
    let (slot, evicted) = fifo(&mut table, &all, 0);
    assert_eq!((slot, evicted), (0, 7));
    assert_eq!(table[0], entry(0, 9));
}

#[test]
fn lru_evicts_least_recently_used() {
    // before position 3, page 1 was last used at 2 and page 2 at 1:
    // page 2 is staler
    let mut table = vec![entry(0, 1), entry(1, 2)];
    let all: Vec<usize> = vec![1, 2, 1, 3];
    let (slot, evicted) = lru(&mut table, &all, 3);
    assert_eq!((slot, evicted), (1, 2));
    assert_eq!(table[1], entry(3, 3));
}

#[test]
fn lru_page_with_no_prior_use_is_immediate_candidate() {
    // page 10 never occurs before position 1, so it is maximally stale
    let mut table = vec![entry(0, 10), entry(0, 20)];
    let all: Vec<usize> = vec![20, 99];
    let (slot, evicted) = lru(&mut table, &all, 1);
    assert_eq!((slot, evicted), (0, 10));
    assert_eq!(table[0], entry(1, 99));
}

#[test]
fn opt_evicts_farthest_next_use() {
    // after position 2, page 2 recurs at 3 and page 1 at 4: evict page 1
    let mut table = vec![entry(0, 1), entry(1, 2)];
    let all: Vec<usize> = vec![1, 2, 9, 2, 1];
    let (slot, evicted) = opt(&mut table, &all, 2);
    assert_eq!((slot, evicted), (0, 1));
    assert_eq!(table[0], entry(2, 9));
}

#[test]
fn opt_page_without_future_use_wins() {
    // page 1 recurs at 3 but page 2 never again: evict page 2
    let mut table = vec![entry(0, 1), entry(1, 2)];
    let all: Vec<usize> = vec![1, 2, 9, 1];
    let (slot, evicted) = opt(&mut table, &all, 2);
    assert_eq!((slot, evicted), (1, 2));
    assert_eq!(table[1], entry(2, 9));
}

#[test]
fn opt_last_position_picks_slot_zero() {
    let mut table = vec![entry(0, 1), entry(1, 2)];
    let all: Vec<usize> = vec![1, 2, 9];
    let (slot, evicted) = opt(&mut table, &all, 2);
    assert_eq!((slot, evicted), (0, 1));
}

#[test]
fn algorithm_dispatches_by_variant() {
    let all: Vec<usize> = vec![1, 2, 1, 3];
    let mut fifo_table = vec![entry(0, 1), entry(1, 2)];
    let (slot, _) = PageReplacementAlgorithm::Fifo.algorithm(&mut fifo_table, &all, 3);
    assert_eq!(slot, 0);
    let mut lru_table = vec![entry(0, 1), entry(1, 2)];
    let (slot, _) = PageReplacementAlgorithm::Lru.algorithm(&mut lru_table, &all, 3);
    assert_eq!(slot, 1);
    let mut opt_table = vec![entry(0, 1), entry(1, 2)];
    let (slot, _) = PageReplacementAlgorithm::Opt.algorithm(&mut opt_table, &all, 3);
    assert_eq!(slot, 0);
}

#[test]
fn eject_overwrites_in_place() {
    let mut table = vec![entry(0, 5)];
    let all: Vec<usize> = vec![9];
    assert_eq!(eject(&mut table, &all, 0, 0), 5);
    assert_eq!(table, vec![entry(0, 9)]);
}

#[test]
fn find_frame_reports_lowest_matching_slot() {
    let table = vec![entry(0, 5), entry(1, 6), entry(2, 5)];
    assert_eq!(find_frame(&table, 5), Some(0));
    assert_eq!(find_frame(&table, 6), Some(1));
    assert_eq!(find_frame(&table, 7), None);
}

#[test]
fn rate_millis_rounds_to_nearest_thousandth() {
    assert_eq!(rate_millis(0, 0), 0);
    assert_eq!(rate_millis(0, 5), 0);
    assert_eq!(rate_millis(1, 3), 333);
    assert_eq!(rate_millis(2, 3), 667);
    assert_eq!(rate_millis(3, 4), 750);
    assert_eq!(rate_millis(5, 5), 1000);
    // a half-thousandth tie rounds up
    assert_eq!(rate_millis(1, 2000), 1);
    assert_eq!(rate_millis(3, 2000), 2);
}

#[test]
fn run_statistics_derives_hits_and_rates() {
    let s = run_statistics(4, 3, 3);
    assert_eq!(s.translated, 4);
    assert_eq!(s.page_faults, 3);
    assert_eq!(s.tlb_misses, 3);
    assert_eq!(s.tlb_hits, 1);
    assert_eq!(s.page_fault_rate_millis, 750);
    assert_eq!(s.tlb_hit_rate_millis, 250);
}

#[test]
fn cli_carries_the_recognized_options() {
    let cli = Cli {
        file: String::from("addresses.txt"),
        frames: DEFAULT_FRAMES,
        pra: PageReplacementAlgorithm::Fifo,
        tlb_entries: DEFAULT_TLB_ENTRIES,
        page_size: DEFAULT_PAGE_SIZE,
        debug: false,
    };
    assert_eq!(cli.frames, 256);
    assert_eq!(cli.tlb_entries, 16);
    assert_eq!(cli.page_size, 256);
    assert_eq!(cli.pra, PageReplacementAlgorithm::Fifo);
}
