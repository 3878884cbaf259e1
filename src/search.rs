use vstd::prelude::*;
use crate::record::views;
use crate::text::{split_words, words_of};

verus! {

/// The statistics of one query term in one document: how often the term
/// occurs there, and in how many documents it occurs.
pub struct TermHit {
    pub term_freq: u32,
    pub doc_freq: usize,
}

/// A document that contains at least one query term, with what scoring it
/// needs: its length, and one hit per query term, in query order.
pub struct Candidate {
    pub doc_id: u32,
    pub doc_length: u32,
    pub hits: Vec<TermHit>,
}

/// `a` comes before `b` in a ranking: a higher key, or an equal key and a
/// lower identifier.
pub open spec fn ranks_before(a: (u64, u32), b: (u64, u32)) -> bool {
    a.0 > b.0 || (a.0 == b.0 && a.1 < b.1)
}

/// No two entries of `s` carry the same identifier.
pub open spec fn ids_distinct(s: Seq<(u64, u32)>) -> bool {
    forall|i: int, j: int| 0 <= i < s.len() && 0 <= j < s.len() && i != j ==> s[i].1 != s[j].1
}

/// Each entry of `s` ranks before the next.
pub open spec fn ranked(s: Seq<(u64, u32)>) -> bool {
    forall|i: int, j: int| 0 <= i < j < s.len() ==> ranks_before(s[i], s[j])
}

/// `r` is the first `top_k` entries of `scored` in ranking order (all of
/// them, when there are fewer): each entry left out ranks after every entry
/// kept, and entries are left out only when `top_k` are kept.
pub open spec fn is_top(scored: Seq<(u64, u32)>, top_k: int, r: Seq<(u64, u32)>) -> bool {
    &&& r.len() <= top_k
    &&& ranked(r)
    &&& forall|i: int| 0 <= i < r.len() ==> scored.contains(#[trigger] r[i])
    &&& forall|e: (u64, u32)|
        #[trigger] scored.contains(e) && !r.contains(e) ==> r.len() == top_k && forall|i: int|
            0 <= i < r.len() ==> ranks_before(#[trigger] r[i], e)
}

/// The distinct terms of `query`, each once.
pub fn query_terms(query: &str) -> (r: Vec<String>)
    ensures
        views(r@).no_duplicates(),
        forall|t: Seq<char>| views(r@).contains(t) <==> words_of(query@).contains(t),
{
    let words = split_words(query);
    distinct_terms(&words)
}

/// The distinct strings of `words`, each once.
pub fn distinct_terms(words: &Vec<String>) -> (r: Vec<String>)
    ensures
        views(r@).no_duplicates(),
        forall|t: Seq<char>| views(r@).contains(t) <==> views(words@).contains(t),
{
    let mut r: Vec<String> = Vec::new();
    let mut i: usize = 0;
    while i < words.len()
        invariant
            i <= words@.len(),
            views(r@).no_duplicates(),
            forall|t: Seq<char>| views(r@).contains(t) <==> views(words@).take(i as int).contains(t),
        decreases words@.len() - i,
    {
        let ghost w = views(words@);
        let ghost before = views(r@);
        let mut j: usize = 0;
        let mut seen = false;
        while j < r.len()
            invariant
                j <= r@.len(),
                i < words@.len(),
                before == views(r@),
                seen <==> exists|k: int| 0 <= k < j && r@[k]@ == words@[i as int]@,
            decreases r@.len() - j,
        {
            if r[j] == words[i] {
                seen = true;
            }
            j = j + 1;
        }
        proof {
            assert(w.take(i + 1) =~= w.take(i as int).push(w[i as int]));
            assert(w[i as int] == words@[i as int]@);
            let w1 = w.take(i + 1);
            let w0 = w.take(i as int);
            assert forall|t: Seq<char>| w1.contains(t) <==> (w0.contains(t) || t == w[i as int]) by {
                if w1.contains(t) {
                    let k = choose|k: int| 0 <= k < w1.len() && w1[k] == t;
                    if k < i {
                        assert(w0[k] == t);
                    }
                }
                if w0.contains(t) {
                    let k = choose|k: int| 0 <= k < w0.len() && w0[k] == t;
                    assert(w1[k] == t);
                }
                if t == w[i as int] {
                    assert(w1[i as int] == t);
                }
            }
            if seen {
                let k = choose|k: int| 0 <= k < j && r@[k]@ == words@[i as int]@;
                assert(before[k] == w[i as int]);
            } else {
                assert forall|k: int| 0 <= k < before.len() implies before[k] != w[i as int] by {
                    assert(before[k] == r@[k]@);
                }
            }
        }
        if !seen {
            r.push(words[i].clone());
            proof {
                let after = views(r@);
                let wi = w[i as int];
                assert(after =~= before.push(w[i as int]));
                assert forall|t: Seq<char>| after.contains(t) <==> (before.contains(t) || t == wi) by {
                    if after.contains(t) {
                        let k = choose|k: int| 0 <= k < after.len() && after[k] == t;
                        if k < before.len() {
                            assert(before[k] == t);
                        }
                    }
                    if before.contains(t) {
                        let k = choose|k: int| 0 <= k < before.len() && before[k] == t;
                        assert(after[k] == t);
                    }
                    if t == wi {
                        assert(after[before.len() as int] == t);
                    }
                }
            }
        }
        i = i + 1;
    }
    proof {
        assert(views(words@).take(i as int) =~= views(words@));
    }
    r
}

/// The first `top_k` entries of `scored` in ranking order: higher keys
/// first, equal keys by ascending identifier.
pub fn rank(scored: &Vec<(u64, u32)>, top_k: usize) -> (r: Vec<(u64, u32)>)
    requires
        ids_distinct(scored@),
    ensures
        is_top(scored@, top_k as int, r@),
{
    let mut r: Vec<(u64, u32)> = Vec::new();
    let mut done = false;
    while r.len() < top_k && !done
        invariant
            ids_distinct(scored@),
            r@.len() <= top_k,
            ranked(r@),
            forall|i: int| 0 <= i < r@.len() ==> scored@.contains(#[trigger] r@[i]),
            forall|e: (u64, u32)|
                #[trigger] scored@.contains(e) && !r@.contains(e) ==> !done && forall|i: int|
                    0 <= i < r@.len() ==> ranks_before(#[trigger] r@[i], e),
        decreases top_k - r@.len(), if done {
            0int
        } else {
            1int
        },
    {
        let mut best: Option<usize> = None;
        let mut j: usize = 0;
        while j < scored.len()
            invariant
                j <= scored@.len(),
                ids_distinct(scored@),
                best matches Some(b) ==> b < j,
                best matches Some(b) ==> (r@.len() == 0 || ranks_before(r@.last(), scored@[b as int])),
                forall|k: int|
                    0 <= k < j && (r@.len() == 0 || ranks_before(r@.last(), scored@[k])) ==> (
                    best matches Some(b) && (k == b || ranks_before(scored@[b as int], scored@[k]))),
            decreases scored@.len() - j,
        {
            let e = scored[j];
            let eligible = if r.len() == 0 {
                true
            } else {
                let last = r[r.len() - 1];
                e.0 < last.0 || (e.0 == last.0 && e.1 > last.1)
            };
            if eligible {
                match best {
                    None => {
                        best = Some(j);
                    },
                    Some(b) => {
                        let cur = scored[b];
                        if e.0 > cur.0 || (e.0 == cur.0 && e.1 < cur.1) {
                            best = Some(j);
                        }
                    },
                }
            }
            j = j + 1;
        }
        match best {
            None => {
                proof {
                    assert forall|e: (u64, u32)| #[trigger] scored@.contains(e) implies r@.contains(e) by {
                        let k = choose|k: int| 0 <= k < scored@.len() && scored@[k] == e;
                        if !r@.contains(e) && r@.len() > 0 {
                            assert(ranks_before(r@[r@.len() - 1], e));
                        }
                    }
                }
                done = true;
            },
            Some(b) => {
                let ghost prev = r@;
                r.push(scored[b]);
                proof {
                    let x = scored@[b as int];
                    assert(r@.last() == x);
                    assert forall|i: int, k: int| 0 <= i < k < r@.len() implies ranks_before(
                        r@[i],
                        r@[k],
                    ) by {
                        if k == prev.len() && i < prev.len() - 1 {
                            assert(ranks_before(prev[i], prev.last()));
                        }
                    }
                    assert forall|i: int| 0 <= i < r@.len() implies scored@.contains(
                        #[trigger] r@[i],
                    ) by {
                        if i < prev.len() {
                            assert(r@[i] == prev[i]);
                        }
                    }
                    assert forall|e: (u64, u32)| #[trigger]
                        scored@.contains(e) && !r@.contains(e) implies !done && forall|i: int|
                        0 <= i < r@.len() ==> ranks_before(#[trigger] r@[i], e) by {
                        let k = choose|k: int| 0 <= k < scored@.len() && scored@[k] == e;
                        assert(r@[prev.len() as int] == x);
                        assert(!prev.contains(e)) by {
                            if prev.contains(e) {
                                let m = choose|m: int| 0 <= m < prev.len() && prev[m] == e;
                                assert(r@[m] == e);
                            }
                        }
                        if prev.len() > 0 {
                            assert(ranks_before(prev[prev.len() - 1], e));
                        }
                        assert(k != b);
                        assert(scored@[k].1 != scored@[b as int].1);
                        assert forall|i: int| 0 <= i < r@.len() implies ranks_before(
                            #[trigger] r@[i],
                            e,
                        ) by {
                            if i < prev.len() {
                                assert(r@[i] == prev[i]);
                            }
                        }
                    }
                }
            },
        }
    }
    r
}

} // verus!
