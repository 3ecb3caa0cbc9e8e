use memsim::tlb::Tlb;

#[test]
fn tlb_starts_empty() {
    let t = Tlb::new(4);
    assert_eq!(t.len(), 0);
    assert!(!t.contains(1));
}

#[test]
fn tlb_push_and_contains() {
    let mut t = Tlb::new(4);
    t.push(10);
    t.push(20);
    assert_eq!(t.len(), 2);
    assert!(t.contains(10));
    assert!(t.contains(20));
    assert!(!t.contains(30));
}

#[test]
fn tlb_evicts_least_recently_inserted() {
    let mut t = Tlb::new(2);
    t.push(1);
    t.push(2);
    t.push(3);
    assert_eq!(t.len(), 2);
    assert!(!t.contains(1));
    assert!(t.contains(2));
    assert!(t.contains(3));
}

#[test]
fn tlb_hit_does_not_refresh_recency() {
    let mut t = Tlb::new(2);
    t.push(1);
    t.push(2);
    // 1 is already present: a no-op, not a move to the back
    t.push(1);
    // so 1 is still the oldest and is the one evicted now
    t.push(3);
    assert!(!t.contains(1));
    assert!(t.contains(2));
    assert!(t.contains(3));
}

#[test]
fn tlb_remove_drops_only_the_named_page() {
    let mut t = Tlb::new(4);
    t.push(1);
    t.push(2);
    t.push(3);
    t.remove(2);
    assert_eq!(t.len(), 2);
    assert!(t.contains(1));
    assert!(!t.contains(2));
    assert!(t.contains(3));
    // removing an absent page changes nothing
    t.remove(42);
    assert_eq!(t.len(), 2);
}

#[test]
fn tlb_zero_capacity_holds_nothing() {
    let mut t = Tlb::new(0);
    t.push(7);
    assert_eq!(t.len(), 0);
    assert!(!t.contains(7));
}

#[test]
fn tlb_eviction_order_is_insertion_order() {
    let mut t = Tlb::new(3);
    t.push(1);
    t.push(2);
    t.push(3);
    t.push(4);
    assert!(!t.contains(1));
    t.push(5);
    assert!(!t.contains(2));
    assert!(t.contains(3));
    assert!(t.contains(4));
    assert!(t.contains(5));
}
