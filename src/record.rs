use vstd::prelude::*;
use crate::lookup::{find_by, keys_unique, lemma_find_at, lemma_find_none};

verus! {

/// The statistics kept for one indexed document: its identifier, its length
/// in tokens (repeats counted), and how often each of its terms occurs.
pub struct DocumentStats {
    pub doc_id: u32,
    pub doc_length: u32,
    pub term_freq: Vec<(String, u32)>,
}

/// The key of a term-count entry: the term's characters.
pub open spec fn term_key() -> spec_fn((String, u32)) -> Seq<char> {
    |e: (String, u32)| e.0@
}

/// The characters of each string of `s`.
pub open spec fn views(s: Seq<String>) -> Seq<Seq<char>> {
    s.map_values(|w: String| w@)
}

/// How often `t` occurs in `words`.
pub open spec fn count_in(words: Seq<Seq<char>>, t: Seq<char>) -> int
    decreases words.len(),
{
    if words.len() == 0 {
        0
    } else {
        count_in(words.drop_last(), t) + if words.last() == t {
            1int
        } else {
            0int
        }
    }
}

/// The count that the entries of `s` record for `t` (zero when none does).
pub open spec fn tf_of(s: Seq<(String, u32)>, t: Seq<char>) -> int
    decreases s.len(),
{
    if s.len() == 0 {
        0
    } else {
        tf_of(s.drop_last(), t) + if s.last().0@ == t {
            s.last().1 as int
        } else {
            0int
        }
    }
}

/// The sum of all counts in `s`.
pub open spec fn freq_sum(s: Seq<(String, u32)>) -> int
    decreases s.len(),
{
    if s.len() == 0 {
        0
    } else {
        freq_sum(s.drop_last()) + s.last().1 as int
    }
}

impl DocumentStats {
    /// How often `t` occurs in this document.
    pub open spec fn tf(&self, t: Seq<char>) -> int {
        tf_of(self.term_freq@, t)
    }

    /// Each term appears once with a positive count, and the counts add up
    /// to the document's length.
    pub open spec fn wf(&self) -> bool {
        &&& keys_unique(self.term_freq@, term_key())
        &&& forall|j: int| 0 <= j < self.term_freq@.len() ==> #[trigger] self.term_freq@[j].1 >= 1
        &&& freq_sum(self.term_freq@) == self.doc_length
    }

    /// The document's identifier.
    pub fn doc_id(&self) -> (r: u32)
        ensures
            r == self.doc_id,
    {
        self.doc_id
    }

    /// The document's length in tokens.
    pub fn doc_length(&self) -> (r: u32)
        ensures
            r == self.doc_length,
    {
        self.doc_length
    }

    /// How often `term` occurs in the document (zero when it does not).
    pub fn term_count(&self, term: &String) -> (r: u32)
        requires
            self.wf(),
        ensures
            r == self.tf(term@),
    {
        tf_lookup(&self.term_freq, term)
    }

    /// The number of distinct terms of the document.
    pub fn distinct_terms(&self) -> (r: usize)
        ensures
            r == self.term_freq@.len(),
    {
        self.term_freq.len()
    }

    /// A copy of the record.
    pub fn copy(&self) -> (r: DocumentStats)
        ensures
            r.doc_id == self.doc_id,
            r.doc_length == self.doc_length,
            r.term_freq@ == self.term_freq@,
    {
        let mut tf: Vec<(String, u32)> = Vec::new();
        let mut i: usize = 0;
        while i < self.term_freq.len()
            invariant
                i <= self.term_freq@.len(),
                tf@ == self.term_freq@.take(i as int),
            decreases self.term_freq@.len() - i,
        {
            tf.push((self.term_freq[i].0.clone(), self.term_freq[i].1));
            i = i + 1;
            assert(tf@ =~= self.term_freq@.take(i as int));
        }
        assert(tf@ =~= self.term_freq@);
        DocumentStats { doc_id: self.doc_id, doc_length: self.doc_length, term_freq: tf }
    }
}

/// A term whose key no entry carries has count zero.
pub proof fn lemma_tf_absent(s: Seq<(String, u32)>, t: Seq<char>)
    requires
        forall|j: int| 0 <= j < s.len() ==> (#[trigger] s[j]).0@ != t,
    ensures
        tf_of(s, t) == 0,
    decreases s.len(),
{
    if s.len() > 0 {
        assert(s[s.len() - 1].0@ != t);
        lemma_tf_absent(s.drop_last(), t);
    }
}

/// With unique keys, the count of the term at `j` is the entry's count.
pub proof fn lemma_tf_entry(s: Seq<(String, u32)>, j: int)
    requires
        keys_unique(s, term_key()),
        0 <= j < s.len(),
    ensures
        tf_of(s, s[j].0@) == s[j].1,
    decreases s.len(),
{
    let t = s.drop_last();
    assert forall|a: int, b: int|
        0 <= a < t.len() && 0 <= b < t.len() && a != b implies term_key()(#[trigger] t[a])
        != term_key()(#[trigger] t[b]) by {
        assert(t[a] == s[a] && t[b] == s[b]);
    }
    if j == s.len() - 1 {
        assert forall|a: int| 0 <= a < t.len() implies (#[trigger] t[a]).0@ != s[j].0@ by {
            assert(t[a] == s[a]);
            assert(term_key()(s[a]) != term_key()(s[j]));
        }
        lemma_tf_absent(t, s[j].0@);
    } else {
        assert(term_key()(s[s.len() - 1]) != term_key()(s[j]));
        assert(t[j] == s[j]);
        lemma_tf_entry(t, j);
    }
}

/// Setting the count of entry `j` to `c` changes that term's count and the
/// sum by the same amount, and no other term's count.
pub proof fn lemma_tf_set(s: Seq<(String, u32)>, j: int, c: u32, t: Seq<char>)
    requires
        0 <= j < s.len(),
    ensures
        tf_of(s.update(j, (s[j].0, c)), t) == tf_of(s, t) + if s[j].0@ == t {
            c - s[j].1
        } else {
            0
        },
        freq_sum(s.update(j, (s[j].0, c))) == freq_sum(s) + c - s[j].1,
    decreases s.len(),
{
    let u = s.update(j, (s[j].0, c));
    if j == s.len() - 1 {
        assert(u.drop_last() =~= s.drop_last());
    } else {
        assert(u.drop_last() =~= s.drop_last().update(j, (s[j].0, c)));
        lemma_tf_set(s.drop_last(), j, c, t);
    }
}

/// No single count exceeds the sum of all counts.
pub proof fn lemma_entry_le_sum(s: Seq<(String, u32)>, j: int)
    requires
        0 <= j < s.len(),
    ensures
        s[j].1 <= freq_sum(s),
    decreases s.len(),
{
    let t = s.drop_last();
    lemma_sum_nonneg(t);
    assert(freq_sum(s) == freq_sum(t) + s.last().1);
    if j < s.len() - 1 {
        assert(t[j] == s[j]);
        lemma_entry_le_sum(t, j);
    }
}

/// A term's count is never negative.
pub proof fn lemma_tf_nonneg(s: Seq<(String, u32)>, t: Seq<char>)
    ensures
        tf_of(s, t) >= 0,
    decreases s.len(),
{
    if s.len() > 0 {
        lemma_tf_nonneg(s.drop_last(), t);
    }
}

/// A sum of counts is never negative.
pub proof fn lemma_sum_nonneg(s: Seq<(String, u32)>)
    ensures
        freq_sum(s) >= 0,
    decreases s.len(),
{
    if s.len() > 0 {
        lemma_sum_nonneg(s.drop_last());
    }
}

/// The index of the entry of `tf` whose term is `t`, if there is one.
pub fn find_term(tf: &Vec<(String, u32)>, t: &String) -> (r: Option<usize>)
    ensures
        r matches Some(j) ==> j < tf@.len() && tf@[j as int].0@ == t@,
        r is None ==> forall|j: int| 0 <= j < tf@.len() ==> (#[trigger] tf@[j]).0@ != t@,
{
    let mut i: usize = 0;
    while i < tf.len()
        invariant
            i <= tf@.len(),
            forall|j: int| 0 <= j < i ==> (#[trigger] tf@[j]).0@ != t@,
        decreases tf@.len() - i,
    {
        if tf[i].0 == *t {
            return Some(i);
        }
        i = i + 1;
    }
    None
}

/// The count recorded for `t` in `tf`, or zero.
pub fn tf_lookup(tf: &Vec<(String, u32)>, t: &String) -> (r: u32)
    requires
        keys_unique(tf@, term_key()),
    ensures
        r == tf_of(tf@, t@),
{
    match find_term(tf, t) {
        Some(j) => {
            proof {
                lemma_tf_entry(tf@, j as int);
            }
            tf[j].1
        },
        None => {
            proof {
                lemma_tf_absent(tf@, t@);
            }
            0
        },
    }
}

/// The term counts of a sequence of words: one entry per distinct word,
/// each with the number of its occurrences.
pub fn count_terms(words: &Vec<String>) -> (r: Vec<(String, u32)>)
    requires
        words@.len() <= u32::MAX,
    ensures
        keys_unique(r@, term_key()),
        forall|j: int| 0 <= j < r@.len() ==> #[trigger] r@[j].1 >= 1,
        freq_sum(r@) == words@.len(),
        forall|t: Seq<char>| #[trigger] tf_of(r@, t) == count_in(views(words@), t),
{
    let mut r: Vec<(String, u32)> = Vec::new();
    let mut i: usize = 0;
    while i < words.len()
        invariant
            i <= words@.len(),
            words@.len() <= u32::MAX,
            keys_unique(r@, term_key()),
            forall|j: int| 0 <= j < r@.len() ==> #[trigger] r@[j].1 >= 1,
            freq_sum(r@) == i,
            forall|t: Seq<char>|
                #[trigger] tf_of(r@, t) == count_in(views(words@).take(i as int), t),
        decreases words@.len() - i,
    {
        let ghost prev = r@;
        let ghost w = views(words@);
        proof {
            assert(w.take(i + 1).drop_last() =~= w.take(i as int));
            assert(w[i as int] == words@[i as int]@);
        }
        match find_term(&r, &words[i]) {
            Some(j) => {
                let c = r[j].1;
                proof {
                    lemma_entry_le_sum(r@, j as int);
                }
                let key = r[j].0.clone();
                r.set(j, (key, c + 1));
                proof {
                    assert(r@ == prev.update(j as int, (prev[j as int].0, (c + 1) as u32)));
                    lemma_tf_set(prev, j as int, (c + 1) as u32, prev[j as int].0@);
                    assert forall|t: Seq<char>|
                        #[trigger] tf_of(r@, t) == count_in(w.take(i + 1), t) by {
                        lemma_tf_set(prev, j as int, (c + 1) as u32, t);
                    }
                    assert forall|a: int, b: int|
                        0 <= a < r@.len() && 0 <= b < r@.len() && a != b implies term_key()(
                        #[trigger] r@[a],
                    ) != term_key()(#[trigger] r@[b]) by {
                        assert(term_key()(r@[a]) == term_key()(prev[a]));
                        assert(term_key()(r@[b]) == term_key()(prev[b]));
                    }
                }
            },
            None => {
                r.push((words[i].clone(), 1));
                proof {
                    assert(r@.drop_last() =~= prev);
                    assert forall|t: Seq<char>|
                        #[trigger] tf_of(r@, t) == count_in(w.take(i + 1), t) by {
                        assert(tf_of(r@, t) == tf_of(prev, t) + if words@[i as int]@ == t {
                            1int
                        } else {
                            0int
                        });
                    }
                    assert forall|a: int, b: int|
                        0 <= a < r@.len() && 0 <= b < r@.len() && a != b implies term_key()(
                        #[trigger] r@[a],
                    ) != term_key()(#[trigger] r@[b]) by {
                        if a < prev.len() {
                            assert(r@[a] == prev[a]);
                        }
                        if b < prev.len() {
                            assert(r@[b] == prev[b]);
                        }
                    }
                }
            },
        }
        i = i + 1;
    }
    assert(views(words@).take(i as int) =~= views(words@));
    r
}

} // verus!
