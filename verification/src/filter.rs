//! Per-document approximate-membership filters, backed by a cuckoo filter.
//!
//! A filter is modelled by the set of strings it reports as present: adding a
//! token puts it into that set and never removes anything already there, so
//! the filter has no false negatives, while the set may hold extra strings
//! (false positives). Only the small trusted wrappers below touch the outside
//! crate; everything else is verified against the model.

use vstd::prelude::*;

use cuckoofilter::CuckooFilter;
use std::collections::hash_map::DefaultHasher;

verus! {

#[verifier::external_type_specification]
#[verifier::external_body]
#[verifier::reject_recursive_types(H)]
pub struct ExCuckooFilter<H>(CuckooFilter<H>);

/// The set of strings that the filter reports as present: `contains` is a
/// pure function of the filter's bucket table, which these names abstract.
pub uninterp spec fn present_of(f: CuckooFilter<DefaultHasher>) -> Set<Seq<char>>;

/// The number of buckets in the filter's table; adding never resizes it, and
/// displacement during an add keeps present strings present exactly when this
/// count is a power of two.
pub uninterp spec fn buckets_of(f: CuckooFilter<DefaultHasher>) -> nat;

/// What a filter reconstructed from an exported bucket table and element
/// count reports as present; reconstruction is a pure function of the two.
pub uninterp spec fn present_of_export(values: Seq<u8>, length: nat) -> Set<Seq<char>>;

pub open spec fn is_pow2(n: nat) -> bool
    decreases n,
{
    if n == 0 {
        false
    } else if n == 1 {
        true
    } else {
        n % 2 == 0 && is_pow2(n / 2)
    }
}

/// The error surfaced when a document's filter runs out of space before all
/// of its tokens are inserted.
#[derive(Clone, Copy, PartialEq, Eq, Structural, Debug)]
pub enum BuildError {
    FilterFull,
}

/// The exportable state of one filter: its bucket table laid out as bytes,
/// and its logical element count.
pub struct ExportedFilter {
    pub values: Vec<u8>,
    pub length: usize,
}

/// Relies on `cuckoofilter::CuckooFilter::new`: the table size is
/// `max(1, DEFAULT_CAPACITY.next_power_of_two() / BUCKET_SIZE)` buckets, a
/// power of two, and every slot holds the reserved empty fingerprint, which
/// `Fingerprint::from_data` never produces, so no lookup can match.
#[verifier::external_body]
fn new_filter() -> (r: CuckooFilter<DefaultHasher>)
    ensures
        is_pow2(buckets_of(r)),
        present_of(r) == Set::<Seq<char>>::empty(),
{
    CuckooFilter::new()
}

/// Relies on `cuckoofilter::CuckooFilter::add`: with at least one bucket it
/// never panics and the table never changes size; on success the given
/// string's fingerprint sits in one of its two probe buckets, and each
/// displaced fingerprint moves to the other probe bucket of every string it
/// matches (the alternate index is the XOR of the bucket index and the
/// fingerprint's hash, which commutes with the power-of-two table mask), so
/// every string reported present before stays present.
#[verifier::external_body]
fn filter_add(f: &mut DocumentFilter, token: &str) -> (r: Result<(), BuildError>)
    requires
        0 < buckets_of(old(f).inner),
    ensures
        buckets_of(final(f).inner) == buckets_of(old(f).inner),
        r is Ok && is_pow2(buckets_of(old(f).inner)) ==> present_of(old(f).inner).subset_of(
            present_of(final(f).inner),
        ) && present_of(final(f).inner).contains(token@),
{
    match f.inner.add(token) {
        Ok(()) => Ok(()),
        Err(cuckoofilter::CuckooError::NotEnoughSpace) => Err(BuildError::FilterFull),
    }
}

/// Relies on `cuckoofilter::CuckooFilter::contains`: with at least one
/// bucket it never panics, and it is a pure read of the bucket table, true
/// exactly for the strings modelled as present.
#[verifier::external_body]
fn filter_contains(f: &CuckooFilter<DefaultHasher>, token: &str) -> (r: bool)
    requires
        0 < buckets_of(*f),
    ensures
        r == present_of(*f).contains(token@),
{
    f.contains(token)
}

/// Relies on `cuckoofilter::CuckooFilter::export`: it emits the bucket table
/// as bytes — four bytes per bucket, so a non-empty table gives a non-empty
/// run — together with the element count, and rebuilding a filter from them
/// (see `filter_import`) restores a table with identical lookups.
#[verifier::external_body]
fn filter_export(f: &CuckooFilter<DefaultHasher>) -> (r: ExportedFilter)
    ensures
        present_of_export(r.values@, r.length as nat) == present_of(*f),
        0 < buckets_of(*f) ==> 0 < r.values@.len(),
{
    let e = f.export();
    ExportedFilter { values: e.values, length: e.length }
}

/// Relies on `cuckoofilter::CuckooFilter::from(ExportedCuckooFilter)`: the
/// bucket table is rebuilt from the exported bytes alone — one bucket per
/// four-byte chunk, rounded up, so non-empty bytes give at least one bucket —
/// and what the result reports present is a pure function of the exported
/// state.
#[verifier::external_body]
fn filter_import(e: ExportedFilter) -> (r: CuckooFilter<DefaultHasher>)
    ensures
        present_of(r) == present_of_export(e.values@, e.length as nat),
        0 < e.values@.len() ==> 0 < buckets_of(r),
{
    CuckooFilter::from(cuckoofilter::ExportedCuckooFilter { values: e.values, length: e.length })
}

/// One document's approximate-membership filter.
pub struct DocumentFilter {
    inner: CuckooFilter<DefaultHasher>,
}

impl View for DocumentFilter {
    type V = Set<Seq<char>>;

    closed spec fn view(&self) -> Set<Seq<char>> {
        present_of(self.inner)
    }
}

impl DocumentFilter {
    /// Every filter has at least one bucket, so the backing crate's modular
    /// probing is well defined and no lookup or add can panic. Fresh filters
    /// have a power-of-two table; imported ones a non-empty byte run.
    #[verifier::type_invariant]
    spec fn well_formed(self) -> bool {
        0 < buckets_of(self.inner)
    }

    /// The filter's table still has the power-of-two shape that keeps adds
    /// from dropping present strings; true of every filter built fresh.
    pub closed spec fn extendable(&self) -> bool {
        is_pow2(buckets_of(self.inner))
    }

    /// A fresh filter with nothing present.
    pub fn new() -> (r: DocumentFilter)
        ensures
            r@ == Set::<Seq<char>>::empty(),
            r.extendable(),
    {
        let inner = new_filter();
        proof {
            assert(0 < buckets_of(inner));
        }
        DocumentFilter { inner }
    }

    /// Adds a token. On success the token is present and everything present
    /// before stays present; a full filter reports `BuildError::FilterFull`.
    pub fn insert(&mut self, token: &str) -> (r: Result<(), BuildError>)
        requires
            old(self).extendable(),
        ensures
            final(self).extendable(),
            r is Ok ==> old(self)@.subset_of(final(self)@) && final(self)@.contains(token@),
    {
        proof {
            use_type_invariant(&*self);
        }
        filter_add(self, token)
    }

    /// Whether the filter reports `token` as present.
    pub fn contains(&self, token: &str) -> (r: bool)
        ensures
            r == self@.contains(token@),
    {
        proof {
            use_type_invariant(&*self);
        }
        filter_contains(&self.inner, token)
    }

    /// The filter's exportable state: a non-empty byte run whose import
    /// restores a filter that reports exactly the same strings present.
    pub fn export(&self) -> (r: ExportedFilter)
        ensures
            present_of_export(r.values@, r.length as nat) == self@,
            0 < r.values@.len(),
    {
        proof {
            use_type_invariant(&*self);
        }
        filter_export(&self.inner)
    }

    /// Rebuilds a filter from exported state; the byte run must be non-empty,
    /// as every exported one is, so that the table has at least one bucket.
    pub fn import(e: ExportedFilter) -> (r: DocumentFilter)
        requires
            0 < e.values@.len(),
        ensures
            r@ == present_of_export(e.values@, e.length as nat),
    {
        DocumentFilter { inner: filter_import(e) }
    }
}

/// Builds one document's filter from its token list: on success every token
/// is present; an empty token list always succeeds and yields a filter with
/// nothing present; a capacity overflow is surfaced, never swallowed.
pub fn build_filter(tokens: &Vec<String>) -> (r: Result<DocumentFilter, BuildError>)
    ensures
        r matches Ok(f) ==> (forall|k: int|
            0 <= k < tokens@.len() ==> f@.contains(#[trigger] tokens@[k]@)) && f.extendable(),
        tokens@.len() == 0 ==> (r matches Ok(f) && f@ == Set::<Seq<char>>::empty()),
{
    let mut f = DocumentFilter::new();
    let mut i: usize = 0;
    while i < tokens.len()
        invariant
            i <= tokens@.len(),
            f.extendable(),
            forall|k: int| 0 <= k < i ==> f@.contains(#[trigger] tokens@[k]@),
            tokens@.len() == 0 ==> f@ == Set::<Seq<char>>::empty(),
        decreases tokens@.len() - i,
    {
        match f.insert(tokens[i].as_str()) {
            Ok(()) => {},
            Err(e) => {
                return Err(e);
            },
        }
        i += 1;
    }
    Ok(f)
}

} // verus!
