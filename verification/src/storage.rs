//! The persisted unit: the full collection of document-id/filter pairs,
//! built once from a corpus snapshot, written as one blob and loaded whole.

use vstd::prelude::*;

use crate::codec::{
    decode_storage, encode_storage, entries_view, entry_view, spec_decode_err,
    spec_decode_storage, DecodeError, EntryModel,
};
use crate::filter::{
    build_filter, present_of_export, BuildError, DocumentFilter, ExportedFilter,
};
use crate::tokenizer::{elem_set, token_set, tokenize};

verus! {

/// A document's identifier: an opaque pair of strings, used only as a key.
pub type PostId = (String, String);

/// The in-memory collection: one filter per document, in build order.
pub type Filters = Vec<(PostId, DocumentFilter)>;

/// The model of a storage: each document id (as character sequences) with
/// the set of strings its filter reports present.
pub type StorageModel = Seq<((Seq<char>, Seq<char>), Set<Seq<char>>)>;

/// A document id as character sequences.
pub open spec fn id_view(id: PostId) -> (Seq<char>, Seq<char>) {
    (id.0@, id.1@)
}

/// The whole document-to-filter collection.
pub struct Storage {
    pub filters: Filters,
}

impl View for Storage {
    type V = StorageModel;

    open spec fn view(&self) -> StorageModel {
        self.filters@.map_values(|p: (PostId, DocumentFilter)| (id_view(p.0), p.1@))
    }
}

impl From<Filters> for Storage {
    fn from(filters: Filters) -> (r: Storage) {
        Storage { filters }
    }
}

impl vstd::std_specs::convert::FromSpecImpl<Filters> for Storage {
    open spec fn obeys_from_spec() -> bool {
        true
    }

    open spec fn from_spec(filters: Filters) -> Storage {
        Storage { filters }
    }
}

/// Each DocumentId occurs at most once.
pub open spec fn distinct_ids(sv: StorageModel) -> bool {
    forall|k1: int, k2: int| 0 <= k1 < k2 < sv.len() ==> sv[k1].0 != sv[k2].0
}

/// The persisted entries stand for the storage: same ids in the same order,
/// and each exported state restores a filter with exactly the same present
/// set.
pub open spec fn entries_match(es: Seq<EntryModel>, sv: StorageModel) -> bool {
    &&& es.len() == sv.len()
    &&& forall|k: int|
        0 <= k < es.len() ==> (#[trigger] es[k]).0 == sv[k].0 && present_of_export(
            es[k].1.0,
            es[k].1.1,
        ) == sv[k].1
}

impl Storage {
    /// Exports every filter, pairing it with its document id; every exported
    /// bucket run is non-empty, so the blob of the result always decodes.
    fn dehydrate(&self) -> (r: Vec<(PostId, ExportedFilter)>)
        ensures
            entries_match(entries_view(r@), self@),
            forall|k: int| 0 <= k < r@.len() ==> 0 < (#[trigger] r@[k]).1.values@.len(),
    {
        let mut out: Vec<(PostId, ExportedFilter)> = Vec::new();
        let n = self.filters.len();
        let mut i: usize = 0;
        while i < n
            invariant
                n == self.filters@.len(),
                i <= n,
                out@.len() == i,
                forall|k: int|
                    0 <= k < i ==> (#[trigger] entries_view(out@)[k]).0 == self@[k].0
                        && present_of_export(entries_view(out@)[k].1.0, entries_view(out@)[k].1.1)
                        == self@[k].1,
                forall|k: int| 0 <= k < out@.len() ==> 0 < (#[trigger] out@[k]).1.values@.len(),
            decreases n - i,
        {
            let e = &self.filters[i];
            let id = (e.0.0.clone(), e.0.1.clone());
            let ex = e.1.export();
            let ghost prev = out@;
            out.push((id, ex));
            proof {
                assert forall|k: int| 0 <= k < i + 1 implies (#[trigger] entries_view(out@)[k]).0
                    == self@[k].0 && present_of_export(
                    entries_view(out@)[k].1.0,
                    entries_view(out@)[k].1.1,
                ) == self@[k].1 by {
                    if k < i {
                        assert(out@[k] == prev[k]);
                        assert(entries_view(out@)[k] == entries_view(prev)[k]);
                    } else {
                        assert(entries_view(out@)[k] == entry_view(out@[k]));
                    }
                }
            }
            i += 1;
        }
        out
    }

    /// Restores every filter from its exported state, keeping ids and order.
    /// The exported bucket runs must be non-empty, as decoding guarantees.
    fn hydrate(exported: Vec<(PostId, ExportedFilter)>) -> (r: Filters)
        requires
            forall|k: int|
                0 <= k < exported@.len() ==> 0 < (#[trigger] exported@[k]).1.values@.len(),
        ensures
            r@.len() == exported@.len(),
            forall|k: int|
                0 <= k < r@.len() ==> (#[trigger] r@[k]).0 == exported@[k].0 && r@[k].1@
                    == present_of_export(
                    exported@[k].1.values@,
                    exported@[k].1.length as nat,
                ),
    {
        let ghost orig = exported@;
        let mut src = exported;
        let mut out: Filters = Vec::new();
        while src.len() > 0
            invariant
                out@.len() + src@.len() == orig.len(),
                src@ =~= orig.skip(out@.len() as int),
                forall|k: int| 0 <= k < orig.len() ==> 0 < (#[trigger] orig[k]).1.values@.len(),
                forall|k: int|
                    0 <= k < out@.len() ==> (#[trigger] out@[k]).0 == orig[k].0 && out@[k].1@
                        == present_of_export(orig[k].1.values@, orig[k].1.length as nat),
            decreases src@.len(),
        {
            let ghost m = out@.len() as int;
            proof {
                assert(src@[0] == orig[m]);
            }
            let e = src.remove(0);
            let f = DocumentFilter::import(e.1);
            out.push((e.0, f));
            proof {
                assert(src@ =~= orig.skip(m + 1));
            }
        }
        out
    }

    /// Serializes the collection into one blob. The blob decodes back to
    /// entries that stand for this storage, id for id and filter for filter.
    pub fn to_bytes(&self) -> (r: Vec<u8>)
        ensures
            spec_decode_storage(r@) matches Some(es) && entries_match(es, self@),
    {
        let exported = self.dehydrate();
        encode_storage(&exported)
    }

    /// Loads a collection from a blob. Succeeds exactly on blobs the format
    /// accepts, whole; a truncated, malformed or wrong-version blob is
    /// rejected with the matching error and nothing is restored.
    pub fn from_bytes(bytes: &[u8]) -> (r: Result<Storage, DecodeError>)
        ensures
            r is Ok <==> spec_decode_storage(bytes@) is Some,
            r matches Ok(s) ==> entries_match(spec_decode_storage(bytes@).unwrap(), s@),
            r matches Err(e) ==> e == spec_decode_err(bytes@),
    {
        match decode_storage(bytes) {
            Ok(v) => {
                let ghost es = entries_view(v@);
                let filters = Storage::hydrate(v);
                let s = Storage { filters };
                proof {
                    assert forall|k: int| 0 <= k < es.len() implies (#[trigger] es[k]).0 == s@[k].0
                        && present_of_export(es[k].1.0, es[k].1.1) == s@[k].1 by {
                        assert(es[k] == entry_view(v@[k]));
                    }
                }
                Ok(s)
            },
            Err(e) => Err(e),
        }
    }
}

/// Builds one filter per document from a corpus snapshot, in order. On
/// success every token of every document is present in that document's
/// filter, and a document with no tokens gets a filter with nothing present;
/// a filter that runs out of space fails the whole build, so no token loss
/// can pass silently, and only a document that actually has tokens can make
/// the build fail — an empty corpus always succeeds.
pub fn generate_filters(posts: Vec<(PostId, String)>) -> (r: Result<Filters, BuildError>)
    ensures
        r matches Ok(fs) ==> fs@.len() == posts@.len() && forall|k: int|
            0 <= k < posts@.len() ==> (#[trigger] fs@[k]).0 == posts@[k].0 && token_set(
                posts@[k].1@,
            ).subset_of(fs@[k].1@) && (token_set(posts@[k].1@) == Set::<Seq<char>>::empty()
                ==> fs@[k].1@ == Set::<Seq<char>>::empty()),
        r matches Err(_) ==> exists|k: int|
            0 <= k < posts@.len() && token_set(posts@[k].1@) != Set::<Seq<char>>::empty(),
        posts@.len() == 0 ==> r is Ok,
{
    let ghost orig = posts@;
    let mut src = posts;
    let mut out: Filters = Vec::new();
    while src.len() > 0
        invariant
            orig == posts@,
            out@.len() + src@.len() == orig.len(),
            src@ =~= orig.skip(out@.len() as int),
            forall|k: int|
                0 <= k < out@.len() ==> (#[trigger] out@[k]).0 == orig[k].0 && token_set(
                    orig[k].1@,
                ).subset_of(out@[k].1@) && (token_set(orig[k].1@) == Set::<Seq<char>>::empty()
                    ==> out@[k].1@ == Set::<Seq<char>>::empty()),
        decreases src@.len(),
    {
        let ghost m = out@.len() as int;
        proof {
            assert(src@[0] == orig[m]);
        }
        let post = src.remove(0);
        let tokens = tokenize(post.1.as_str());
        proof {
            if tokens@.len() > 0 {
                assert(elem_set(tokens@).contains(tokens@[0]@));
                assert(token_set(orig[m].1@) != Set::<Seq<char>>::empty());
            }
        }
        let f = match build_filter(&tokens) {
            Ok(f) => f,
            Err(e) => {
                proof {
                    assert(tokens@.len() > 0);
                    assert(0 <= m < posts@.len() && token_set(posts@[m].1@) != Set::<
                        Seq<char>,
                    >::empty());
                }
                return Err(e);
            },
        };
        proof {
            assert forall|t: Seq<char>| token_set(orig[m].1@).contains(t) implies f@.contains(
                t,
            ) by {
                let k = choose|k: int| 0 <= k < tokens@.len() && tokens@[k]@ == t;
                assert(f@.contains(tokens@[k]@));
            }
            if token_set(orig[m].1@) == Set::<Seq<char>>::empty() {
                assert(tokens@.len() == 0);
                assert(f@ == Set::<Seq<char>>::empty());
            }
        }
        out.push((post.0, f));
        proof {
            assert(src@ =~= orig.skip(m + 1));
        }
    }
    Ok(out)
}

/// A storage whose filters were built from a corpus with pairwise-distinct
/// document ids — as `generate_filters` keeps them, id for id — holds each
/// id at most once.
pub proof fn lemma_build_keeps_ids_distinct(posts: Seq<(PostId, String)>, s: Storage)
    requires
        s.filters@.len() == posts.len(),
        forall|k: int| 0 <= k < posts.len() ==> (#[trigger] s.filters@[k]).0 == posts[k].0,
        forall|k1: int, k2: int|
            0 <= k1 < k2 < posts.len() ==> id_view(posts[k1].0) != id_view(posts[k2].0),
    ensures
        distinct_ids(s@),
{
    assert forall|k1: int, k2: int| 0 <= k1 < k2 < s@.len() implies s@[k1].0 != s@[k2].0 by {
        assert(s@[k1].0 == id_view(s.filters@[k1].0));
        assert(s@[k2].0 == id_view(s.filters@[k2].0));
        assert(id_view(posts[k1].0) != id_view(posts[k2].0));
    }
}

/// Storage round-trip completeness: two storages that one blob's entries
/// stand for agree completely — the same ids in the same order, and for each
/// id a filter with exactly the same present set. Deserializing a storage's
/// own blob therefore restores its model unchanged.
pub proof fn lemma_storage_round_trip(es: Seq<EntryModel>, before: StorageModel, after: StorageModel)
    requires
        entries_match(es, before),
        entries_match(es, after),
    ensures
        after == before,
{
    assert forall|k: int| 0 <= k < before.len() implies after[k] == before[k] by {
        assert(es[k].0 == before[k].0 && present_of_export(es[k].1.0, es[k].1.1) == before[k].1);
        assert(es[k].0 == after[k].0 && present_of_export(es[k].1.0, es[k].1.1) == after[k].1);
    }
    assert(after =~~= before);
}

/// Round-trip no-false-negative: every token a document's filter reports
/// present before export is still reported present by the filter restored
/// from the blob.
pub proof fn lemma_round_trip_no_false_negative(
    es: Seq<EntryModel>,
    before: StorageModel,
    after: StorageModel,
    k: int,
    t: Seq<char>,
)
    requires
        entries_match(es, before),
        entries_match(es, after),
        0 <= k < before.len(),
        before[k].1.contains(t),
    ensures
        after[k].1.contains(t),
{
    lemma_storage_round_trip(es, before, after);
}

} // verus!
