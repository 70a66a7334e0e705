use vstd::prelude::*;
use bloom::{BloomFilter, ASMS};
use crate::conf::{BLOOM_FILTER_BITS, BLOOM_FILTER_HASHES};

verus! {

#[verifier::external_type_specification]
#[verifier::external_body]
#[verifier::reject_recursive_types(R)]
#[verifier::reject_recursive_types(S)]
pub struct ExBloomFilter<R, S>(bloom::BloomFilter<R, S>);

/// The items for which a bloom filter's `contains` answers yes.
pub uninterp spec fn bloom_answers(b: BloomFilter) -> Set<u128>;

/// The number of bits a bloom filter was made with.
pub uninterp spec fn bloom_num_bits(b: BloomFilter) -> nat;

/// Relies on `bloom::BloomFilter::with_size`: a filter of `num_bits` bits, all
/// clear, so that with at least one hash it answers no to every item.
#[verifier::external_body]
fn bloom_with_size(num_bits: usize, num_hashes: u32) -> (r: BloomFilter)
    requires
        num_bits > 0,
        num_hashes > 0,
    ensures
        bloom_answers(r) == Set::<u128>::empty(),
        bloom_num_bits(r) == num_bits,
{
    BloomFilter::with_size(num_bits, num_hashes)
}

/// Relies on `ASMS::insert` of `bloom::BloomFilter`: it sets the item's bits,
/// so the filter answers yes to it and to everything it answered yes to. It
/// takes each bit index modulo the size, so the size must not be zero.
#[verifier::external_body]
fn bloom_insert(b: &mut BloomFilter, item: u128)
    requires
        bloom_num_bits(*old(b)) > 0,
    ensures
        bloom_answers(*old(b)).insert(item).subset_of(bloom_answers(*final(b))),
        bloom_num_bits(*final(b)) == bloom_num_bits(*old(b)),
{
    b.insert(&item);
}

/// Relies on `ASMS::contains` of `bloom::BloomFilter`: whether the filter
/// answers yes to the item. It takes each bit index modulo the size, so the
/// size must not be zero.
#[verifier::external_body]
fn bloom_contains(b: &BloomFilter, item: u128) -> (r: bool)
    requires
        bloom_num_bits(*b) > 0,
    ensures
        r == bloom_answers(*b).contains(item),
{
    b.contains(&item)
}

/// An approximate set of keys: it may answer yes to keys never inserted,
/// never no to one that was.
pub struct BloomMembership {
    filter: BloomFilter,
    inserted: Ghost<Set<u128>>,
}

impl BloomMembership {
    /// Every inserted key is answered yes, and the filter has bits.
    pub closed spec fn wf(&self) -> bool {
        &&& self.inserted@.subset_of(bloom_answers(self.filter))
        &&& bloom_num_bits(self.filter) > 0
    }

    /// The keys inserted so far.
    pub closed spec fn items(&self) -> Set<u128> {
        self.inserted@
    }

    /// The keys the structure answers yes to.
    pub closed spec fn answers(&self) -> Set<u128> {
        bloom_answers(self.filter)
    }

    /// An empty membership structure, sized by the configuration.
    pub fn new() -> (r: BloomMembership)
        ensures
            r.wf(),
            r.items() == Set::<u128>::empty(),
            r.answers() == Set::<u128>::empty(),
    {
        BloomMembership {
            filter: bloom_with_size(BLOOM_FILTER_BITS, BLOOM_FILTER_HASHES),
            inserted: Ghost(Set::empty()),
        }
    }

    /// Adds a key.
    pub fn insert(&mut self, id: u128)
        requires
            old(self).wf(),
        ensures
            final(self).wf(),
            final(self).items() == old(self).items().insert(id),
            old(self).answers().insert(id).subset_of(final(self).answers()),
    {
        bloom_insert(&mut self.filter, id);
        self.inserted = Ghost(self.inserted@.insert(id));
    }

    /// Whether the structure answers yes to the key; no means it was never
    /// inserted.
    pub fn contains(&self, id: u128) -> (r: bool)
        requires
            self.wf(),
        ensures
            r == self.answers().contains(id),
            self.items().contains(id) ==> r,
    {
        bloom_contains(&self.filter, id)
    }
}

} // verus!
