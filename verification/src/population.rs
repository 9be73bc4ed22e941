//! Approximate tracking of the unique clients seen by this process.
//!
//! A Bloom filter records the hash of every client identifier seen; asking
//! it whether an identifier was seen before can err only one way, reporting
//! an unseen identifier as seen (a false positive), never the reverse. The
//! filter backs an approximate unique-client counter and nothing else, so a
//! bounded false-positive rate is acceptable by design.

use vstd::prelude::*;

use crate::GraphQuery;
use crate::wariness::fnv1a;
use crate::wariness::hash_identifier;

verus! {

#[verifier::external_type_specification]
#[verifier::external_body]
pub struct ExFilter(cbloom::Filter);

/// The set of items recorded in a Bloom filter so far.
pub uninterp spec fn filter_items(f: cbloom::Filter) -> Set<u64>;

/// Whether a Bloom filter is well formed: built with a nonzero bit array,
/// so that insertion and query never divide or reduce by zero.
pub uninterp spec fn filter_wf(f: cbloom::Filter) -> bool;

/// Relies on cbloom::Filter::new: a fresh filter has every bit clear, so
/// nothing is recorded in it yet. With at least one byte its bit array is
/// nonempty, and at least one expected element keeps the hasher count
/// computation from dividing by zero, so the call returns normally.
#[verifier::external_body]
fn filter_new(bytes: usize, expected_elements: usize) -> (f: cbloom::Filter)
    requires
        bytes >= 1,
        expected_elements >= 1,
    ensures
        filter_items(f) == Set::<u64>::empty(),
        filter_wf(f),
{
    cbloom::Filter::new(bytes, expected_elements)
}

/// Relies on cbloom::Filter::insert: on a well-formed filter it sets the
/// bits belonging to the given item, recording that item and nothing else,
/// and leaves the filter's shape untouched.
#[verifier::external_body]
fn filter_insert(f: &mut cbloom::Filter, item: u64)
    requires
        filter_wf(*old(f)),
    ensures
        filter_items(*final(f)) == filter_items(*old(f)).insert(item),
        filter_wf(*final(f)),
{
    f.insert(item);
}

/// Relies on cbloom::Filter::maybe_contains on a well-formed filter: a
/// recorded item always reports true (a Bloom filter has no false
/// negatives), and on a filter with nothing recorded every bit is still
/// clear, so every query reports false.
#[verifier::external_body]
fn filter_maybe_contains(f: &cbloom::Filter, item: u64) -> (r: bool)
    requires
        filter_wf(*f),
    ensures
        filter_items(*f).contains(item) ==> r,
        filter_items(*f).is_empty() ==> !r,
{
    f.maybe_contains(item)
}

/// An approximate set of the client identifiers seen by this process
/// instance. Created once at process start and never reset; recording is
/// monotonic — once an identifier's hash is in, a query for it never again
/// comes back negative.
pub struct PopulationTracker {
    filter: cbloom::Filter,
}

impl PopulationTracker {
    /// The set of identifier hashes recorded so far.
    pub closed spec fn items(self) -> Set<u64> {
        filter_items(self.filter)
    }

    /// Whether the tracker's filter is well formed; established by `new`
    /// and preserved by every operation.
    pub closed spec fn wf(self) -> bool {
        filter_wf(self.filter)
    }

    /// Creates a tracker with `bytes` bytes of filter state (at least one),
    /// sized for the expected number of unique clients (at least one).
    pub fn new(bytes: usize, expected_elements: usize) -> (t: Self)
        requires
            bytes >= 1,
            expected_elements >= 1,
        ensures
            t.items() == Set::<u64>::empty(),
            t.wf(),
    {
        PopulationTracker { filter: filter_new(bytes, expected_elements) }
    }

    /// Records a client identifier. True means this is believed to be the
    /// identifier's first sighting, and only then is its hash newly
    /// recorded; a false result on a never-seen identifier is possible (a
    /// false positive), a true result on a seen one is not.
    pub fn record(&mut self, id: &str) -> (fresh: bool)
        requires
            old(self).wf(),
        ensures
            final(self).wf(),
            old(self).items().contains(fnv1a(id@)) ==> !fresh,
            old(self).items().is_empty() ==> fresh,
            fresh ==> !old(self).items().contains(fnv1a(id@)) && final(self).items() == old(
                self,
            ).items().insert(fnv1a(id@)),
            !fresh ==> final(self).items() == old(self).items(),
    {
        let h: u64 = hash_identifier(id);
        if !filter_maybe_contains(&self.filter, h) {
            filter_insert(&mut self.filter, h);
            true
        } else {
            false
        }
    }
}

/// The per-request population step: when the query carries a client
/// identifier, records it; the result says whether the unique-client
/// counter is to be incremented, exactly when the identifier is believed
/// new. A query without an identifier changes nothing.
pub fn pe_record_metrics(tracker: &mut PopulationTracker, query: &GraphQuery) -> (count_unique:
    bool)
    requires
        old(tracker).wf(),
    ensures
        final(tracker).wf(),
        query.node_uuid is None ==> *final(tracker) == *old(tracker) && !count_unique,
        query.node_uuid matches Some(u) ==> ((old(tracker).items().contains(fnv1a(u@))
            ==> !count_unique) && (old(tracker).items().is_empty() ==> count_unique) && (
        count_unique ==> !old(tracker).items().contains(fnv1a(u@)) && final(tracker).items() == old(
            tracker,
        ).items().insert(fnv1a(u@))) && (!count_unique ==> final(tracker).items() == old(
            tracker,
        ).items())),
{
    match &query.node_uuid {
        Some(u) => tracker.record(u.as_str()),
        None => false,
    }
}

/// Counting a client once: from a tracker with nothing recorded, two
/// sequential records of one identifier count a unique client exactly once
/// — the first call is fresh, the repeat is not. The hypotheses are
/// `record`'s own guarantees for the two calls; on a tracker with something
/// already recorded, a false positive may make the first call count zero,
/// which the Bloom-filter model leaves open.
pub proof fn lemma_unique_client_counted_once(
    items0: Set<u64>,
    h: u64,
    fresh1: bool,
    items1: Set<u64>,
    fresh2: bool,
)
    requires
        items0.is_empty(),
        items0.is_empty() ==> fresh1,
        fresh1 ==> items1 == items0.insert(h),
        items1.contains(h) ==> !fresh2,
    ensures
        fresh1,
        !fresh2,
{
    assert(items1.contains(h));
}

} // verus!
