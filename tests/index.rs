use bm25s::{
    add_document, create_index, get_document_stats, get_index, query_terms, rank, remove_document,
    Index, DEFAULT_B_BITS, DEFAULT_K_BITS,
};

fn order_key(score: f64) -> u64 {
    let bits = score.to_bits();
    if bits >> 63 == 1 {
        !bits
    } else {
        bits | (1u64 << 63)
    }
}

fn from_key(key: u64) -> f64 {
    if key >> 63 == 1 {
        f64::from_bits(key & !(1u64 << 63))
    } else {
        f64::from_bits(!key)
    }
}

fn bm25_search(index: &Index, query: &str, top_k: usize) -> Vec<(f64, u32)> {
    let terms = query_terms(query);
    let cands = index.candidates(&terms);
    if cands.is_empty() {
        return Vec::new();
    }
    let n = index.doc_count() as f64;
    let avgdl = index.total_doc_lengths() as f64 / n;
    let k = f64::from_bits(index.k_bits());
    let b = f64::from_bits(index.b_bits());
    let mut scored = Vec::new();
    for c in &cands {
        let mut s = 0.0;
        for h in &c.hits {
            if h.term_freq > 0 {
                let df = h.doc_freq as f64;
                let idf = ((n - df + 0.5) / (df + 0.5) + 1.0).ln();
                let f = h.term_freq as f64;
                s += idf * (f * (k + 1.0))
                    / (f + k * (1.0 - b + b * c.doc_length as f64 / avgdl));
            }
        }
        scored.push((order_key(s), c.doc_id));
    }
    rank(&scored, top_k).into_iter().map(|(key, id)| (from_key(key), id)).collect()
}

fn posting_of(index: &Index, term: &str) -> Option<Vec<u32>> {
    let snap = get_index(index);
    snap.postings.iter().find(|p| p.term == term).map(|p| p.doc_ids.clone())
}

#[test]
fn counts_add_up_to_length() {
    let mut index = create_index();
    add_document(&mut index, "the cat the hat the", 7).unwrap();
    let stats = get_document_stats(&index, 7).unwrap();
    assert_eq!(stats.doc_id(), 7);
    assert_eq!(stats.doc_length(), 5);
    assert_eq!(stats.distinct_terms(), 3);
    assert_eq!(stats.term_count(&"the".to_string()), 3);
    assert_eq!(stats.term_count(&"cat".to_string()), 1);
    assert_eq!(stats.term_count(&"dog".to_string()), 0);
    let sum: u32 = stats.term_freq.iter().map(|e| e.1).sum();
    assert_eq!(sum, stats.doc_length());
}

#[test]
fn whitespace_of_any_kind_separates_terms() {
    let mut index = create_index();
    add_document(&mut index, "  a\tb\n\nc  ", 1).unwrap();
    let stats = get_document_stats(&index, 1).unwrap();
    assert_eq!(stats.doc_length(), 3);
    assert_eq!(stats.term_count(&"b".to_string()), 1);
}

#[test]
fn total_tracks_adds_and_removes() {
    let mut index = create_index();
    add_document(&mut index, "a b c", 1).unwrap();
    add_document(&mut index, "a b", 2).unwrap();
    add_document(&mut index, "d e f g", 3).unwrap();
    assert_eq!(index.total_doc_lengths(), 9);
    remove_document(&mut index, 2);
    assert_eq!(index.total_doc_lengths(), 7);
    add_document(&mut index, "z", 3).unwrap();
    assert_eq!(index.total_doc_lengths(), 4);
    let snap = get_index(&index);
    let sum: u32 = snap.documents.iter().map(|d| d.doc_length).sum();
    assert_eq!(sum, snap.total_doc_lengths);
    assert_eq!(index.doc_count(), 2);
}

#[test]
fn postings_match_records() {
    let mut index = create_index();
    add_document(&mut index, "a b c", 1).unwrap();
    add_document(&mut index, "b c d", 2).unwrap();
    add_document(&mut index, "c", 3).unwrap();
    remove_document(&mut index, 1);
    let snap = get_index(&index);
    for p in &snap.postings {
        assert!(!p.doc_ids.is_empty());
        for id in &p.doc_ids {
            let d = snap.documents.iter().find(|d| d.doc_id == *id).unwrap();
            assert!(d.term_freq.iter().any(|e| e.0 == p.term && e.1 > 0));
        }
    }
    for d in &snap.documents {
        for e in &d.term_freq {
            let p = snap.postings.iter().find(|p| p.term == e.0).unwrap();
            assert!(p.doc_ids.contains(&d.doc_id));
        }
    }
    assert_eq!(posting_of(&index, "a"), None);
    assert_eq!(posting_of(&index, "c").map(|v| v.len()), Some(2));
}

#[test]
fn remove_twice_is_a_no_op() {
    let mut index = create_index();
    add_document(&mut index, "a b", 1).unwrap();
    add_document(&mut index, "b c", 2).unwrap();
    remove_document(&mut index, 1);
    let first = get_index(&index);
    remove_document(&mut index, 1);
    let second = get_index(&index);
    assert_eq!(first.total_doc_lengths, second.total_doc_lengths);
    assert_eq!(first.documents.len(), second.documents.len());
    assert_eq!(first.postings.len(), second.postings.len());
    for (p, q) in first.postings.iter().zip(second.postings.iter()) {
        assert_eq!(p.term, q.term);
        assert_eq!(p.doc_ids, q.doc_ids);
    }
    assert!(get_document_stats(&index, 1).is_none());
    assert_eq!(posting_of(&index, "a"), None);
    assert_eq!(posting_of(&index, "b"), Some(vec![2]));
}

#[test]
fn removing_an_absent_document_changes_nothing() {
    let mut index = create_index();
    add_document(&mut index, "a", 1).unwrap();
    remove_document(&mut index, 99);
    assert_eq!(index.doc_count(), 1);
    assert_eq!(index.total_doc_lengths(), 1);
}

#[test]
fn overwrite_replaces_the_document() {
    let mut index = create_index();
    add_document(&mut index, "a b c", 1).unwrap();
    add_document(&mut index, "x y", 1).unwrap();
    assert_eq!(get_document_stats(&index, 1).unwrap().doc_length(), 2);
    assert_eq!(posting_of(&index, "a"), None);
    assert_eq!(posting_of(&index, "x"), Some(vec![1]));
    assert_eq!(index.total_doc_lengths(), 2);
    assert_eq!(index.doc_count(), 1);
}

#[test]
fn end_to_end_search() {
    let mut index = Index::new(1.2f64.to_bits(), 0.75f64.to_bits());
    add_document(&mut index, "the cat sat", 1).unwrap();
    add_document(&mut index, "the cat ran fast", 2).unwrap();
    let r = bm25_search(&index, "cat", 10);
    assert_eq!(r.len(), 2);
    assert_eq!(r[0].1, 1);
    assert_eq!(r[1].1, 2);
    assert!(r[0].0 > r[1].0);
    assert!(bm25_search(&index, "dog", 10).is_empty());
    assert!(bm25_search(&index, "cat", 0).is_empty());
    remove_document(&mut index, 1);
    let r = bm25_search(&index, "cat", 10);
    assert_eq!(r.len(), 1);
    assert_eq!(r[0].1, 2);
}

#[test]
fn bm25_score_of_a_single_document() {
    let mut index = create_index();
    add_document(&mut index, "a b", 1).unwrap();
    let r = bm25_search(&index, "a", 5);
    assert_eq!(r.len(), 1);
    let expected = (0.5f64 / 1.5 + 1.0).ln() * (1.0 * 2.2) / (1.0 + 1.2);
    assert!((r[0].0 - expected).abs() < 1e-12);
}

#[test]
fn empty_index_answers_nothing() {
    let index = create_index();
    assert!(index.candidates(&query_terms("anything at all")).is_empty());
    assert!(bm25_search(&index, "anything at all", 10).is_empty());
}

#[test]
fn equal_scores_rank_by_ascending_id() {
    let mut index = create_index();
    add_document(&mut index, "same words", 9).unwrap();
    add_document(&mut index, "same words", 4).unwrap();
    add_document(&mut index, "same words", 6).unwrap();
    let r = bm25_search(&index, "same", 10);
    let ids: Vec<u32> = r.iter().map(|e| e.1).collect();
    assert_eq!(ids, vec![4, 6, 9]);
    assert_eq!(r[0].0, r[2].0);
}

#[test]
fn rank_orders_and_truncates() {
    let scored = vec![(5u64, 3u32), (9, 1), (5, 2), (1, 7)];
    assert_eq!(rank(&scored, 3), vec![(9, 1), (5, 2), (5, 3)]);
    assert_eq!(rank(&scored, 10), vec![(9, 1), (5, 2), (5, 3), (1, 7)]);
    assert_eq!(rank(&scored, 0), vec![]);
    assert_eq!(rank(&Vec::new(), 4), vec![]);
}

#[test]
fn query_terms_are_distinct() {
    let t = query_terms("cat dog cat  bird dog");
    assert_eq!(t, vec!["cat".to_string(), "dog".to_string(), "bird".to_string()]);
    assert!(query_terms("   ").is_empty());
}

#[test]
fn candidates_carry_term_statistics() {
    let mut index = create_index();
    add_document(&mut index, "a a b", 1).unwrap();
    add_document(&mut index, "b c", 2).unwrap();
    add_document(&mut index, "d", 3).unwrap();
    let terms = query_terms("a b");
    let mut c = index.candidates(&terms);
    c.sort_by_key(|c| c.doc_id);
    assert_eq!(c.len(), 2);
    assert_eq!(c[0].doc_id, 1);
    assert_eq!(c[0].doc_length, 3);
    assert_eq!(c[0].hits[0].term_freq, 2);
    assert_eq!(c[0].hits[0].doc_freq, 1);
    assert_eq!(c[0].hits[1].term_freq, 1);
    assert_eq!(c[0].hits[1].doc_freq, 2);
    assert_eq!(c[1].doc_id, 2);
    assert_eq!(c[1].hits[0].term_freq, 0);
    assert_eq!(c[1].hits[1].term_freq, 1);
}

#[test]
fn parameters_are_kept_verbatim() {
    let index = create_index();
    assert_eq!(index.k_bits(), DEFAULT_K_BITS);
    assert_eq!(f64::from_bits(index.k_bits()), 1.2);
    assert_eq!(f64::from_bits(index.b_bits()), 0.75);
    assert_eq!(DEFAULT_B_BITS, 0.75f64.to_bits());
    let odd = Index::new((-3.0f64).to_bits(), 2.0f64.to_bits());
    assert_eq!(f64::from_bits(odd.k_bits()), -3.0);
    assert_eq!(f64::from_bits(odd.b_bits()), 2.0);
}

#[test]
fn distinct_terms_keep_first_occurrences() {
    let words: Vec<String> = ["b", "a", "b", "c", "a"].iter().map(|w| w.to_string()).collect();
    let t = bm25s::distinct_terms(&words);
    assert_eq!(t, vec!["b".to_string(), "a".to_string(), "c".to_string()]);
}
