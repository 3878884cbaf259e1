//! An incremental, in-memory full-text index ranked with BM25.
//!
//! The index keeps one record per document (its length and per-term counts),
//! a posting list per term, and the running sum of all document lengths. The
//! state it keeps is proved consistent after every mutation; candidate
//! gathering for a query and the deterministic top-k ranking are verified
//! too. The floating-point BM25 formula itself is left to the caller, who
//! receives every statistic it needs.

mod index;
mod laws;
mod lookup;
mod postings;
mod record;
mod search;
mod text;

pub use index::{
    DEFAULT_B_BITS, DEFAULT_K_BITS, Index, IndexError, Snapshot, add_document, create_index, doc_key,
    get_document_stats, get_index, length_sum, remove_document,
};
pub use laws::{
    lemma_counts_sum_to_length, lemma_overwrite, lemma_postings_match_records, lemma_rank_empty,
    lemma_remove_twice, lemma_ties_by_id, lemma_total_is_sum,
};
pub use lookup::{find_by, keys_unique};
pub use postings::{Posting, posted_in, posting_in, posting_key, postings_wf};
pub use record::{DocumentStats, count_in, count_terms, freq_sum, term_key, tf_of, views};
pub use search::{
    Candidate, TermHit, distinct_terms, ids_distinct, is_top, query_terms, rank, ranked,
    ranks_before,
};
pub use text::words_of;
