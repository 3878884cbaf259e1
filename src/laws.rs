use vstd::prelude::*;
use crate::index::{Index, doc_key, length_sum};
use crate::lookup::lemma_find_in;
use crate::record::{count_in, freq_sum};
use crate::search::{is_top, ranks_before};

verus! {

/// In every well-formed index, the term counts of each document add up to
/// the document's length.
pub proof fn lemma_counts_sum_to_length(index: Index, id: u32)
    requires
        index.wf(),
        index.record(id) is Some,
    ensures
        freq_sum(index.record(id)->0.term_freq@) == index.record(id)->0.doc_length,
{
    let i = lemma_find_in(index.docs(), doc_key(), id);
    assert(index.docs()[i].wf());
}

/// In every well-formed index, the running total is the sum of the lengths
/// of the indexed documents. Every mutation keeps the index well-formed, so
/// this holds after any sequence of them.
pub proof fn lemma_total_is_sum(index: Index)
    requires
        index.wf(),
    ensures
        index.total() == length_sum(index.docs()),
{
}

/// In every well-formed index, a document is listed under a term exactly
/// when the document's record counts that term.
pub proof fn lemma_postings_match_records(index: Index, t: Seq<char>, id: u32)
    requires
        index.wf(),
    ensures
        index.posted(t, id) <==> index.has_term(id, t),
{
}

/// Removing the same document twice in a row: the second removal changes
/// nothing.
pub proof fn lemma_remove_twice(a: Index, b: Index, c: Index, id: u32)
    requires
        a.wf(),
        Index::removed(a, b, id),
        Index::removed(b, c, id),
    ensures
        c == b,
{
}

/// Re-adding a document replaces it: its length is that of the new terms,
/// and it is listed exactly under the new terms.
pub proof fn lemma_overwrite(a: Index, b: Index, terms: Seq<Seq<char>>, id: u32, t: Seq<char>)
    requires
        a.wf(),
        Index::added(a, b, terms, id),
    ensures
        b.length_of(id) == terms.len(),
        b.posted(t, id) <==> count_in(terms, t) > 0,
{
}

/// The ranking is deterministic: two entries with equal keys are kept in
/// ascending order of identifier.
pub proof fn lemma_ties_by_id(scored: Seq<(u64, u32)>, top_k: int, r: Seq<(u64, u32)>, i: int, j: int)
    requires
        is_top(scored, top_k, r),
        0 <= i < j < r.len(),
        r[i].0 == r[j].0,
    ensures
        r[i].1 < r[j].1,
{
    assert(ranks_before(r[i], r[j]));
}

/// Ranking nothing gives nothing, whatever `top_k` is.
pub proof fn lemma_rank_empty(top_k: int, r: Seq<(u64, u32)>)
    requires
        is_top(Seq::empty(), top_k, r),
    ensures
        r.len() == 0,
{
    if r.len() > 0 {
        assert(Seq::<(u64, u32)>::empty().contains(r[0]));
    }
}

} // verus!
