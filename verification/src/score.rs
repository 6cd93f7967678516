//! Query scoring: counting how many terms of a query a document's filter
//! reports as present, after the same case-folding the tokenizer applies.

use vstd::prelude::*;

use crate::filter::DocumentFilter;
use crate::tokenizer::{lower_of, lowercase};

verus! {

/// The score of a query against a present-set: the number of terms, counted
/// with multiplicity, whose case-folded form the set contains.
pub open spec fn spec_score(present: Set<Seq<char>>, terms: Seq<Seq<char>>) -> nat
    decreases terms.len(),
{
    if terms.len() == 0 {
        0
    } else {
        spec_score(present, terms.drop_last()) + (if present.contains(lower_of(terms.last())) {
            1nat
        } else {
            0nat
        })
    }
}

/// A score is bounded above by the number of query terms.
pub proof fn lemma_score_le_len(present: Set<Seq<char>>, terms: Seq<Seq<char>>)
    ensures
        spec_score(present, terms) <= terms.len(),
    decreases terms.len(),
{
    if terms.len() > 0 {
        lemma_score_le_len(present, terms.drop_last());
    }
}

/// Empty-query identity: scoring an empty query yields zero against any
/// filter.
pub proof fn lemma_empty_query_scores_zero(present: Set<Seq<char>>)
    ensures
        spec_score(present, Seq::<Seq<char>>::empty()) == 0,
{
}

/// A filter with nothing present — as a zero-token document's filter is —
/// scores zero against every query.
pub proof fn lemma_empty_filter_scores_zero(terms: Seq<Seq<char>>)
    ensures
        spec_score(Set::<Seq<char>>::empty(), terms) == 0,
    decreases terms.len(),
{
    if terms.len() > 0 {
        lemma_empty_filter_scores_zero(terms.drop_last());
    }
}

/// Self-score identity: a query whose terms are all present and are fixed
/// points of case-folding — as a document's own token list is — scores its
/// full length, one point per term.
pub proof fn lemma_self_score(present: Set<Seq<char>>, terms: Seq<Seq<char>>)
    requires
        forall|k: int| 0 <= k < terms.len() ==> present.contains(#[trigger] terms[k]),
        forall|k: int| 0 <= k < terms.len() ==> lower_of(#[trigger] terms[k]) == terms[k],
    ensures
        spec_score(present, terms) == terms.len(),
    decreases terms.len(),
{
    if terms.len() > 0 {
        let prefix = terms.drop_last();
        assert(forall|k: int| 0 <= k < prefix.len() ==> prefix[k] == terms[k]);
        lemma_self_score(present, prefix);
        assert(terms.last() == terms[terms.len() - 1]);
    }
}

/// The relevance primitive: one integer score per document.
pub trait Score {
    /// The model the score is counted against: the strings this filter
    /// reports as present.
    spec fn present(&self) -> Set<Seq<char>>;

    /// Counts the terms of `terms`, with multiplicity, whose case-folded
    /// form the filter reports as present.
    fn score(&self, terms: &Vec<String>) -> (r: u32)
        requires
            terms@.len() <= u32::MAX,
        ensures
            r as nat == spec_score(self.present(), terms.deep_view()),
    ;
}

impl Score for DocumentFilter {
    open spec fn present(&self) -> Set<Seq<char>> {
        self@
    }

    fn score(&self, terms: &Vec<String>) -> (r: u32) {
        let mut count: u32 = 0;
        let mut i: usize = 0;
        proof {
            assert(terms.deep_view().take(0) =~= Seq::<Seq<char>>::empty());
        }
        while i < terms.len()
            invariant
                i <= terms@.len(),
                terms@.len() <= u32::MAX,
                count <= i,
                count as nat == spec_score(self@, terms.deep_view().take(i as int)),
            decreases terms@.len() - i,
        {
            let folded = lowercase(terms[i].as_str());
            let hit = self.contains(folded.as_str());
            proof {
                let dv = terms.deep_view();
                assert(dv[i as int] == terms@[i as int]@);
                assert(dv.take(i as int + 1).drop_last() =~= dv.take(i as int));
                assert(dv.take(i as int + 1).last() == dv[i as int]);
            }
            if hit {
                count += 1;
            }
            i += 1;
        }
        proof {
            assert(terms.deep_view().take(terms@.len() as int) =~= terms.deep_view());
        }
        count
    }
}

} // verus!
