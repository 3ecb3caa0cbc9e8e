use vstd::prelude::*;

use linked_hash_set::LinkedHashSet;

verus! {

#[verifier::external_type_specification]
#[verifier::external_body]
#[verifier::reject_recursive_types(T)]
#[verifier::reject_recursive_types(S)]
pub struct ExLinkedHashSet<T, S>(LinkedHashSet<T, S>);

/// The page numbers a translation-cache set holds, in insertion order: the
/// front (least recently inserted) element first.
pub uninterp spec fn cache_order(s: LinkedHashSet<usize>) -> Seq<usize>;

/// Relies on linked_hash_set::LinkedHashSet::new: the new set is empty.
#[verifier::external_body]
fn raw_new() -> (s: LinkedHashSet<usize>)
    ensures
        cache_order(s) == Seq::<usize>::empty(),
{
    LinkedHashSet::new()
}

/// Relies on linked_hash_set::LinkedHashSet::len: the number of elements.
#[verifier::external_body]
fn raw_len(s: &LinkedHashSet<usize>) -> (r: usize)
    ensures
        r == cache_order(*s).len(),
{
    s.len()
}

/// Relies on linked_hash_set::LinkedHashSet::contains: whether an element
/// equal to `pn` is in the set.
#[verifier::external_body]
fn raw_contains(s: &LinkedHashSet<usize>, pn: usize) -> (r: bool)
    ensures
        r == cache_order(*s).contains(pn),
{
    s.contains(&pn)
}

/// Relies on linked_hash_set::LinkedHashSet::insert: an element not yet
/// present is appended at the back of the insertion order. (On an element
/// already present the call would refresh its position, so that case is
/// excluded here.)
#[verifier::external_body]
fn raw_insert(s: &mut LinkedHashSet<usize>, pn: usize)
    requires
        !cache_order(*old(s)).contains(pn),
    ensures
        cache_order(*final(s)) == cache_order(*old(s)).push(pn),
{
    s.insert(pn);
}

/// Relies on linked_hash_set::LinkedHashSet::pop_front: removes and returns
/// the front (least recently inserted) element, if any.
#[verifier::external_body]
fn raw_pop_front(s: &mut LinkedHashSet<usize>) -> (r: Option<usize>)
    ensures
        cache_order(*old(s)).len() == 0 ==> r is None && cache_order(*final(s)) == cache_order(
            *old(s),
        ),
        cache_order(*old(s)).len() > 0 ==> r == Some(cache_order(*old(s))[0]) && cache_order(
            *final(s),
        ) == cache_order(*old(s)).drop_first(),
{
    s.pop_front()
}

/// Relies on linked_hash_set::LinkedHashSet::remove: drops the element equal
/// to `pn` if present, keeping the order of the other elements.
#[verifier::external_body]
fn raw_remove(s: &mut LinkedHashSet<usize>, pn: usize) -> (r: bool)
    ensures
        r == cache_order(*old(s)).contains(pn),
        !cache_order(*old(s)).contains(pn) ==> cache_order(*final(s)) == cache_order(*old(s)),
        cache_order(*old(s)).contains(pn) ==> exists|i: int|
            0 <= i < cache_order(*old(s)).len() && cache_order(*old(s))[i] == pn && cache_order(
                *final(s),
            ) == cache_order(*old(s)).remove(i),
{
    s.remove(&pn)
}

/// Whether a cache-contents sequence holds no page number twice.
pub open spec fn cache_distinct(cache: Seq<usize>) -> bool {
    forall|j: int, k: int| 0 <= j < k < cache.len() ==> cache[j] != cache[k]
}

/// The cache contents after pushing `pn` into a cache of capacity `cap`: a
/// no-op when `pn` is already present (a hit never refreshes recency);
/// otherwise `pn` is appended and, if the cache then exceeds its capacity,
/// the least recently inserted entry is evicted.
pub open spec fn cache_push(cache: Seq<usize>, pn: usize, cap: usize) -> Seq<usize> {
    if cache.contains(pn) {
        cache
    } else {
        let grown = cache.push(pn);
        if grown.len() > cap {
            grown.drop_first()
        } else {
            grown
        }
    }
}

/// The cache contents after dropping `pn` if present, keeping the order of
/// the other entries.
pub open spec fn cache_remove(cache: Seq<usize>, pn: usize) -> Seq<usize> {
    if cache.contains(pn) {
        cache.remove(cache.index_of(pn))
    } else {
        cache
    }
}

/// The translation cache: a fixed-capacity, insertion-ordered set of page
/// numbers with FIFO eviction of its own, independent of the resident
/// table's replacement policy. A hit never refreshes an entry's position.
pub struct Tlb {
    entries: LinkedHashSet<usize>,
    max_size: usize,
}

impl View for Tlb {
    type V = Seq<usize>;

    closed spec fn view(&self) -> Seq<usize> {
        cache_order(self.entries)
    }
}

impl Tlb {
    /// The cache's fixed capacity.
    pub closed spec fn capacity(&self) -> usize {
        self.max_size
    }

    /// Well-formed: never more entries than the capacity, and no page number
    /// held twice.
    pub open spec fn wf(&self) -> bool {
        self@.len() <= self.capacity() && cache_distinct(self@)
    }

    /// An empty translation cache of capacity `size`.
    pub fn new(size: usize) -> (r: Tlb)
        ensures
            r.wf(),
            r@ == Seq::<usize>::empty(),
            r.capacity() == size,
    {
        Tlb { entries: raw_new(), max_size: size }
    }

    /// The number of page numbers currently cached.
    pub fn len(&self) -> (r: usize)
        ensures
            r == self@.len(),
    {
        raw_len(&self.entries)
    }

    /// Whether `pn` is currently cached.
    pub fn contains(&self, pn: usize) -> (r: bool)
        ensures
            r == self@.contains(pn),
    {
        raw_contains(&self.entries, pn)
    }

    /// Caches `pn`: a no-op when already present; otherwise `pn` is inserted
    /// and, if the cache is then over capacity, the least recently inserted
    /// entry is evicted.
    pub fn push(&mut self, pn: usize)
        requires
            old(self).wf(),
        ensures
            final(self).wf(),
            final(self)@ == cache_push(old(self)@, pn, old(self).capacity()),
            final(self).capacity() == old(self).capacity(),
    {
        if !raw_contains(&self.entries, pn) {
            raw_insert(&mut self.entries, pn);
            if raw_len(&self.entries) > self.max_size {
                let _evicted = raw_pop_front(&mut self.entries);
            }
        }
    }

    /// Drops `pn` from the cache if present. Invoked whenever `pn` is
    /// evicted from the resident table, so that the cache never points at a
    /// non-resident page.
    pub fn remove(&mut self, pn: usize)
        requires
            old(self).wf(),
        ensures
            final(self).wf(),
            final(self)@ == cache_remove(old(self)@, pn),
            final(self).capacity() == old(self).capacity(),
    {
        let ghost before = self@;
        let _was_present = raw_remove(&mut self.entries, pn);
        proof {
            if before.contains(pn) {
                let i = choose|i: int|
                    0 <= i < before.len() && before[i] == pn && self@ == before.remove(i);
                let j = before.index_of(pn);
                assert(0 <= j < before.len() && before[j] == pn);
                assert(i == j);
            }
        }
    }
}

} // verus!
