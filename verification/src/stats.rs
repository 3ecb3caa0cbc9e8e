use vstd::prelude::*;

use vstd::arithmetic::div_mod::lemma_div_is_ordered;
use vstd::arithmetic::div_mod::lemma_fundamental_div_mod_converse;
use vstd::arithmetic::mul::lemma_mul_inequality;

verus! {

/// The summary a run reports: the counters, the derived hit count, and the
/// two rates in thousandths (each rate rounded to the nearest thousandth,
/// as a three-decimal display shows it).
#[derive(Clone, Copy, Debug, PartialEq, Eq, Structural)]
pub struct RunStatistics {
    /// Number of translated addresses.
    pub translated: usize,
    /// Number of page faults.
    pub page_faults: usize,
    /// Number of translation-cache hits.
    pub tlb_hits: usize,
    /// Number of translation-cache misses.
    pub tlb_misses: usize,
    /// Page faults per translated address, in thousandths.
    pub page_fault_rate_millis: usize,
    /// Cache hits per translated address, in thousandths.
    pub tlb_hit_rate_millis: usize,
}

/// `numerator / denominator` in thousandths, rounded to the nearest
/// thousandth with a half-thousandth rounding up. An empty run has
/// denominator 0 and reports rate 0 rather than dividing by zero.
pub fn rate_millis(numerator: usize, denominator: usize) -> (r: usize)
    requires
        numerator <= denominator,
    ensures
        denominator == 0 ==> r == 0,
        denominator > 0 ==> r == (2000 * numerator + denominator) / (2 * denominator as int),
        r <= 1000,
{
    if denominator == 0 {
        0
    } else {
        let q = (2000 * numerator as u128 + denominator as u128) / (2 * denominator as u128);
        proof {
            lemma_mul_inequality(numerator as int, denominator as int, 2000);
            lemma_div_is_ordered(
                2000 * numerator as int + denominator as int,
                2001 * denominator as int,
                2 * denominator as int,
            );
            lemma_fundamental_div_mod_converse(
                2001 * denominator as int,
                2 * denominator as int,
                1000,
                denominator as int,
            );
        }
        q as usize
    }
}

/// Derives a run's summary from its counters: the cache-hit count is the
/// complement of the miss count, and both rates are guarded against the
/// zero-address case.
pub fn run_statistics(translated: usize, page_faults: usize, tlb_misses: usize) -> (r:
    RunStatistics)
    requires
        page_faults <= translated,
        tlb_misses <= translated,
    ensures
        r.translated == translated,
        r.page_faults == page_faults,
        r.tlb_misses == tlb_misses,
        r.tlb_hits == translated - tlb_misses,
        translated == 0 ==> r.page_fault_rate_millis == 0 && r.tlb_hit_rate_millis == 0,
        translated > 0 ==> r.page_fault_rate_millis == (2000 * page_faults + translated) / (2
            * translated as int),
        translated > 0 ==> r.tlb_hit_rate_millis == (2000 * (translated - tlb_misses)
            + translated) / (2 * translated as int),
{
    let tlb_hits = translated - tlb_misses;
    RunStatistics {
        translated,
        page_faults,
        tlb_hits,
        tlb_misses,
        page_fault_rate_millis: rate_millis(page_faults, translated),
        tlb_hit_rate_millis: rate_millis(tlb_hits, translated),
    }
}

} // verus!
