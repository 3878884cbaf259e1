use vstd::prelude::*;
use crate::lookup::{
    find_by, keys_unique, lemma_find_at, lemma_find_in, lemma_find_none, lemma_find_push,
    lemma_find_remove, lemma_push_unique,
};
use crate::postings::{
    Posting, find_posting, lemma_no_posting, post, posted_in, posting_in, posting_key, postings_wf,
    unpost,
};
use crate::search::{Candidate, TermHit};
use crate::record::{
    DocumentStats, count_in, count_terms, lemma_tf_absent, lemma_tf_nonneg, term_key, tf_lookup, tf_of,
    views,
};
use crate::text::{split_words, words_of};

verus! {

/// The bit pattern of the default term-frequency saturation, 1.2.
pub const DEFAULT_K_BITS: u64 = 0x3FF3333333333333;

/// The bit pattern of the default length-normalization strength, 0.75.
pub const DEFAULT_B_BITS: u64 = 0x3FE8000000000000;

/// Why a document was not indexed.
#[derive(PartialEq, Eq, Structural, Debug, Clone, Copy)]
pub enum IndexError {
    /// The sum of all document lengths would not fit in a `u32`.
    TooLarge,
}

/// The key of a document record: its identifier.
pub open spec fn doc_key() -> spec_fn(DocumentStats) -> u32 {
    |d: DocumentStats| d.doc_id
}

/// The sum of the lengths of the documents of `s`.
pub open spec fn length_sum(s: Seq<DocumentStats>) -> int
    decreases s.len(),
{
    if s.len() == 0 {
        0
    } else {
        length_sum(s.drop_last()) + s.last().doc_length as int
    }
}

/// A full-text index: one record per document, one posting per term, the
/// sum of all document lengths, and the two ranking parameters, each kept
/// as the bit pattern of an IEEE 754 double.
pub struct Index {
    postings: Vec<Posting>,
    doc_stats: Vec<DocumentStats>,
    total_doc_lengths: u32,
    k_bits: u64,
    b_bits: u64,
}

impl Index {
    /// The document records.
    pub closed spec fn docs(&self) -> Seq<DocumentStats> {
        self.doc_stats@
    }

    /// The postings.
    pub closed spec fn posts(&self) -> Seq<Posting> {
        self.postings@
    }

    /// The running sum of the document lengths.
    pub closed spec fn total(&self) -> int {
        self.total_doc_lengths as int
    }

    /// The bit patterns of `k` and `b`.
    pub closed spec fn params(&self) -> (u64, u64) {
        (self.k_bits, self.b_bits)
    }

    /// The record of document `id`, if it is indexed.
    pub open spec fn record(&self, id: u32) -> Option<DocumentStats> {
        find_by(self.docs(), doc_key(), id)
    }

    /// The length of document `id`, zero when it is not indexed.
    pub open spec fn length_of(&self, id: u32) -> int {
        match self.record(id) {
            Some(d) => d.doc_length as int,
            None => 0,
        }
    }

    /// Document `id` is indexed and contains `t`.
    pub open spec fn has_term(&self, id: u32, t: Seq<char>) -> bool {
        &&& self.record(id) is Some
        &&& self.record(id)->0.tf(t) > 0
    }

    /// `id` is listed in the posting of `t`.
    pub open spec fn posted(&self, t: Seq<char>, id: u32) -> bool {
        posted_in(self.posts(), t, id)
    }

    /// The number of documents that contain `t`.
    pub open spec fn df(&self, t: Seq<char>) -> int {
        match posting_in(self.posts(), t) {
            Some(p) => p.doc_ids@.len() as int,
            None => 0,
        }
    }

    /// Identifiers are unique, each record is consistent, postings list
    /// exactly the documents that contain their term, and the running total
    /// is the sum of all document lengths.
    pub open spec fn wf(&self) -> bool {
        &&& keys_unique(self.docs(), doc_key())
        &&& forall|i: int| 0 <= i < self.docs().len() ==> (#[trigger] self.docs()[i]).wf()
        &&& postings_wf(self.posts())
        &&& forall|t: Seq<char>, id: u32|
            #![trigger self.posted(t, id)]
            #![trigger self.has_term(id, t)]
            self.posted(t, id) <==> self.has_term(id, t)
        &&& self.total() == length_sum(self.docs())
    }

    /// What `delete` does: `id` leaves the index, every other record stays,
    /// and nothing changes when `id` was not indexed.
    pub open spec fn removed(pre: Index, post: Index, id: u32) -> bool {
        &&& post.wf()
        &&& post.record(id) is None
        &&& forall|x: u32| x != id ==> #[trigger] post.record(x) == pre.record(x)
        &&& post.total() == pre.total() - pre.length_of(id)
        &&& post.params() == pre.params()
        &&& pre.record(id) is None ==> post == pre
    }

    /// The document lengths would overflow if document `id` were replaced by
    /// one of `n` tokens.
    pub open spec fn too_large(&self, n: int, id: u32) -> bool {
        self.total() - self.length_of(id) + n > u32::MAX
    }

    /// What a successful `add_terms` does: document `id` is replaced by the
    /// counts of `terms`, and every other record stays.
    pub open spec fn added(pre: Index, post: Index, terms: Seq<Seq<char>>, id: u32) -> bool {
        &&& post.wf()
        &&& post.record(id) is Some
        &&& post.record(id)->0.doc_id == id
        &&& post.record(id)->0.doc_length == terms.len()
        &&& forall|t: Seq<char>| #[trigger] post.record(id)->0.tf(t) == count_in(terms, t)
        &&& forall|x: u32| x != id ==> #[trigger] post.record(x) == pre.record(x)
        &&& post.total() == pre.total() - pre.length_of(id) + terms.len()
        &&& post.params() == pre.params()
    }

    /// An empty index with the given bit patterns of `k` and `b`.
    pub fn new(k_bits: u64, b_bits: u64) -> (r: Index)
        ensures
            r.wf(),
            r.docs().len() == 0,
            r.posts().len() == 0,
            r.total() == 0,
            r.params() == (k_bits, b_bits),
    {
        Index {
            postings: Vec::new(),
            doc_stats: Vec::new(),
            total_doc_lengths: 0,
            k_bits,
            b_bits,
        }
    }
}

impl Index {
    /// Removes document `doc_id`: its record goes, it leaves the posting of
    /// each of its terms, postings left empty go, and its length leaves the
    /// total. Nothing happens when it is not indexed.
    pub fn delete(&mut self, doc_id: u32)
        requires
            old(self).wf(),
        ensures
            Index::removed(*old(self), *final(self), doc_id),
    {
        let ghost pre = *self;
        match find_doc(&self.doc_stats, doc_id) {
            None => {},
            Some(di) => {
                let doc = self.doc_stats.remove(di);
                proof {
                    assert(doc == pre.docs()[di as int]);
                    assert(doc.wf());
                    lemma_find_remove(pre.docs(), doc_key(), di as int, doc_id);
                    assert(doc.term_freq@.take(0) =~= Seq::<(String, u32)>::empty());
                }
                let mut i: usize = 0;
                while i < doc.term_freq.len()
                    invariant
                        i <= doc.term_freq@.len(),
                        di < pre.docs().len(),
                        doc.wf(),
                        pre.wf(),
                        pre.record(doc_id) == Some(doc),
                        self.docs() == pre.docs().remove(di as int),
                        self.total() == pre.total(),
                        self.params() == pre.params(),
                        postings_wf(self.posts()),
                        forall|t: Seq<char>, x: u32|
                            x != doc_id ==> (#[trigger] self.posted(t, x) <==> pre.posted(t, x)),
                        forall|t: Seq<char>| #[trigger]
                            self.posted(t, doc_id) <==> (pre.posted(t, doc_id) && tf_of(
                                doc.term_freq@.take(i as int),
                                t,
                            ) == 0),
                    decreases doc.term_freq@.len() - i,
                {
                    let ghost ps0 = self.posts();
                    let ghost s0 = *self;
                    unpost(&mut self.postings, &doc.term_freq[i].0, doc_id);
                    proof {
                        let tf = doc.term_freq@;
                        assert(tf.take(i + 1).drop_last() =~= tf.take(i as int));
                        assert(tf[i as int].1 >= 1);
                        assert forall|t: Seq<char>| #[trigger]
                            self.posted(t, doc_id) <==> (pre.posted(t, doc_id) && tf_of(
                                tf.take(i + 1),
                                t,
                            ) == 0) by {
                            lemma_tf_nonneg(tf.take(i as int), t);
                            assert(s0.posted(t, doc_id) == posted_in(ps0, t, doc_id));
                            assert(tf.take(i + 1).last() == tf[i as int]);
                        }
                        assert forall|t: Seq<char>, x: u32|
                            x != doc_id implies (#[trigger] self.posted(t, x) <==> pre.posted(
                                t,
                                x,
                            )) by {
                            assert(s0.posted(t, x) == posted_in(ps0, t, x));
                        }
                    }
                    i = i + 1;
                }
                proof {
                    assert(doc.term_freq@.take(i as int) =~= doc.term_freq@);
                    lemma_length_sum_remove(pre.docs(), di as int);
                    lemma_length_sum_nonneg(self.docs());
                }
                let ghost s1 = *self;
                self.total_doc_lengths = self.total_doc_lengths - doc.doc_length;
                proof {
                    assert forall|t: Seq<char>, x: u32|
                        #![trigger self.posted(t, x)]
                        #![trigger self.has_term(x, t)]
                        self.posted(t, x) <==> self.has_term(x, t) by {
                        assert(pre.posted(t, x) <==> pre.has_term(x, t));
                        assert(s1.posted(t, x) == self.posted(t, x));
                        lemma_find_remove(pre.docs(), doc_key(), di as int, x);
                    }
                    assert forall|x: u32| #[trigger]
                        self.record(x) == (if x == doc_id {
                            None
                        } else {
                            pre.record(x)
                        }) by {
                        lemma_find_remove(pre.docs(), doc_key(), di as int, x);
                    }
                    assert forall|j: int|
                        0 <= j < self.docs().len() implies (#[trigger] self.docs()[j]).wf() by {
                        let sj = if j < di { j } else { j + 1 };
                        assert(self.docs()[j] == pre.docs()[sj]);
                    }
                }
            },
        }
    }

    /// Indexes the document `doc_id` made of `terms`, replacing the document
    /// that had this identifier. Refused, with nothing changed, when the sum
    /// of all document lengths would not fit in a `u32`.
    pub fn add_terms(&mut self, terms: &Vec<String>, doc_id: u32) -> (r: Result<(), IndexError>)
        requires
            old(self).wf(),
        ensures
            r is Err <==> old(self).too_large(terms@.len() as int, doc_id),
            r is Err ==> *final(self) == *old(self),
            r is Ok ==> Index::added(*old(self), *final(self), views(terms@), doc_id),
    {
        let ghost pre = *self;
        let old_len: u32 = match find_doc(&self.doc_stats, doc_id) {
            Some(j) => {
                proof {
                    lemma_length_sum_remove(pre.docs(), j as int);
                    lemma_length_sum_nonneg(pre.docs().remove(j as int));
                }
                self.doc_stats[j].doc_length
            },
            None => 0,
        };
        let rest: u32 = self.total_doc_lengths - old_len;
        if terms.len() > (u32::MAX - rest) as usize {
            return Err(IndexError::TooLarge);
        }
        self.delete(doc_id);
        let ghost mid = *self;
        let tf = count_terms(terms);
        proof {
            assert(tf@.take(0) =~= Seq::<(String, u32)>::empty());
            assert forall|t: Seq<char>| !(#[trigger] self.posted(t, doc_id)) by {
                assert(mid.posted(t, doc_id) <==> mid.has_term(doc_id, t));
            }
        }
        let mut i: usize = 0;
        while i < tf.len()
            invariant
                i <= tf@.len(),
                mid.wf(),
                mid.record(doc_id) is None,
                keys_unique(tf@, term_key()),
                forall|j: int| 0 <= j < tf@.len() ==> #[trigger] tf@[j].1 >= 1,
                self.docs() == mid.docs(),
                self.total() == mid.total(),
                self.params() == mid.params(),
                postings_wf(self.posts()),
                forall|t: Seq<char>, x: u32|
                    x != doc_id ==> (#[trigger] self.posted(t, x) <==> mid.posted(t, x)),
                forall|t: Seq<char>| #[trigger]
                    self.posted(t, doc_id) <==> tf_of(tf@.take(i as int), t) > 0,
            decreases tf@.len() - i,
        {
            let ghost ps0 = self.posts();
            let ghost s0 = *self;
            proof {
                assert(s0.posted(tf@[i as int].0@, doc_id) == posted_in(ps0, tf@[i as int].0@, doc_id));
                let pre_i = tf@.take(i as int);
                assert forall|j: int| 0 <= j < pre_i.len() implies (#[trigger] pre_i[j]).0@
                    != tf@[i as int].0@ by {
                    assert(pre_i[j] == tf@[j]);
                    assert(term_key()(tf@[j]) != term_key()(tf@[i as int]));
                }
                lemma_tf_absent(pre_i, tf@[i as int].0@);
            }
            post(&mut self.postings, &tf[i].0, doc_id);
            proof {
                assert(tf@.take(i + 1).drop_last() =~= tf@.take(i as int));
                assert(tf@[i as int].1 >= 1);
                assert forall|t: Seq<char>| #[trigger]
                    self.posted(t, doc_id) <==> tf_of(tf@.take(i + 1), t) > 0 by {
                    lemma_tf_nonneg(tf@.take(i as int), t);
                    assert(s0.posted(t, doc_id) == posted_in(ps0, t, doc_id));
                    assert(tf@.take(i + 1).last() == tf@[i as int]);
                }
                assert forall|t: Seq<char>, x: u32|
                    x != doc_id implies (#[trigger] self.posted(t, x) <==> mid.posted(t, x)) by {
                    assert(s0.posted(t, x) == posted_in(ps0, t, x));
                }
            }
            i = i + 1;
        }
        let ghost s1 = *self;
        let n = terms.len() as u32;
        let rec = DocumentStats { doc_id, doc_length: n, term_freq: tf };
        self.doc_stats.push(rec);
        self.total_doc_lengths = self.total_doc_lengths + n;
        proof {
            assert(tf@.take(i as int) =~= tf@);
            assert(self.docs() == mid.docs().push(rec));
            assert(self.docs().drop_last() =~= mid.docs());
            assert forall|x: u32| #[trigger]
                self.record(x) == (if x == doc_id {
                    Some(rec)
                } else {
                    mid.record(x)
                }) by {
                lemma_find_push(mid.docs(), doc_key(), rec, x);
            }
            lemma_push_unique(mid.docs(), doc_key(), rec);
            assert forall|j: int| 0 <= j < self.docs().len() implies (#[trigger] self.docs()[j]).wf() by {
                if j < mid.docs().len() {
                    assert(self.docs()[j] == mid.docs()[j]);
                }
            }
            assert forall|t: Seq<char>, x: u32|
                #![trigger self.posted(t, x)]
                #![trigger self.has_term(x, t)]
                self.posted(t, x) <==> self.has_term(x, t) by {
                assert(mid.posted(t, x) <==> mid.has_term(x, t));
                assert(s1.posted(t, x) == self.posted(t, x));
            }
        }
        Ok(())
    }

    /// Indexes `text` as document `doc_id`, replacing the document that had
    /// this identifier. Refused, with nothing changed, when the sum of all
    /// document lengths would not fit in a `u32`.
    pub fn upsert(&mut self, text: &str, doc_id: u32) -> (r: Result<(), IndexError>)
        requires
            old(self).wf(),
        ensures
            r is Err <==> old(self).too_large(words_of(text@).len() as int, doc_id),
            r is Err ==> *final(self) == *old(self),
            r is Ok ==> Index::added(*old(self), *final(self), words_of(text@), doc_id),
    {
        let terms = split_words(text);
        self.add_terms(&terms, doc_id)
    }
}

/// The position of the record of `id`, if there is one.
fn find_doc(docs: &Vec<DocumentStats>, id: u32) -> (r: Option<usize>)
    requires
        keys_unique(docs@, doc_key()),
    ensures
        r matches Some(j) ==> j < docs@.len() && docs@[j as int].doc_id == id && find_by(
            docs@,
            doc_key(),
            id,
        ) == Some(docs@[j as int]),
        r is None ==> find_by(docs@, doc_key(), id) is None,
{
    let mut i: usize = 0;
    while i < docs.len()
        invariant
            i <= docs@.len(),
            keys_unique(docs@, doc_key()),
            forall|j: int| 0 <= j < i ==> (#[trigger] docs@[j]).doc_id != id,
        decreases docs@.len() - i,
    {
        if docs[i].doc_id == id {
            proof {
                lemma_find_at(docs@, doc_key(), i as int);
            }
            return Some(i);
        }
        i = i + 1;
    }
    proof {
        assert forall|j: int| 0 <= j < docs@.len() implies doc_key()(#[trigger] docs@[j]) != id by {
            assert(docs@[j].doc_id != id);
        }
        lemma_find_none(docs@, doc_key(), id);
    }
    None
}

/// Removing the document at `i` takes its length off the sum.
proof fn lemma_length_sum_remove(s: Seq<DocumentStats>, i: int)
    requires
        0 <= i < s.len(),
    ensures
        length_sum(s.remove(i)) == length_sum(s) - s[i].doc_length,
    decreases s.len(),
{
    if i < s.len() - 1 {
        assert(s.remove(i).drop_last() =~= s.drop_last().remove(i));
        assert(s.remove(i).last() == s.last());
        lemma_length_sum_remove(s.drop_last(), i);
    } else {
        assert(s.remove(i) =~= s.drop_last());
    }
}

/// A sum of lengths is never negative.
proof fn lemma_length_sum_nonneg(s: Seq<DocumentStats>)
    ensures
        length_sum(s) >= 0,
    decreases s.len(),
{
    if s.len() > 0 {
        lemma_length_sum_nonneg(s.drop_last());
    }
}

impl Index {
    /// Document `id` is indexed and contains one of `terms`.
    pub open spec fn matches(&self, id: u32, terms: Seq<Seq<char>>) -> bool {
        &&& self.record(id) is Some
        &&& exists|j: int| 0 <= j < terms.len() && self.record(id)->0.tf(#[trigger] terms[j]) > 0
    }

    /// The number of documents that contain `t`.
    pub fn doc_freq(&self, t: &String) -> (r: usize)
        requires
            self.wf(),
        ensures
            r == self.df(t@),
    {
        match find_posting(&self.postings, t) {
            Some(p) => {
                proof {
                    lemma_find_at(self.posts(), posting_key(), p as int);
                }
                self.postings[p].doc_ids.len()
            },
            None => {
                proof {
                    lemma_no_posting(self.posts(), t@);
                }
                0
            },
        }
    }

    /// The documents that contain at least one of `terms`, each once, with
    /// their lengths and the statistics of each term.
    pub fn candidates(&self, terms: &Vec<String>) -> (r: Vec<Candidate>)
        requires
            self.wf(),
        ensures
            forall|c: int, d: int|
                0 <= c < r@.len() && 0 <= d < r@.len() && c != d ==> r@[c].doc_id != r@[d].doc_id,
            forall|c: int|
                0 <= c < r@.len() ==> {
                    let d = self.record(#[trigger] r@[c].doc_id)->0;
                    &&& self.matches(r@[c].doc_id, views(terms@))
                    &&& r@[c].doc_length == d.doc_length
                    &&& r@[c].hits@.len() == terms@.len()
                    &&& forall|j: int|
                        0 <= j < terms@.len() ==> (#[trigger] r@[c].hits@[j]).term_freq == d.tf(
                            terms@[j]@,
                        ) && r@[c].hits@[j].doc_freq == self.df(terms@[j]@)
                },
            forall|id: u32|
                #[trigger] self.matches(id, views(terms@)) ==> exists|c: int|
                    0 <= c < r@.len() && r@[c].doc_id == id,
            self.docs().len() == 0 ==> r@.len() == 0,
    {
        let mut r: Vec<Candidate> = Vec::new();
        let mut i: usize = 0;
        while i < self.doc_stats.len()
            invariant
                self.wf(),
                i <= self.docs().len(),
                forall|c: int, d: int|
                    0 <= c < r@.len() && 0 <= d < r@.len() && c != d ==> r@[c].doc_id
                        != r@[d].doc_id,
                forall|c: int|
                    0 <= c < r@.len() ==> exists|k: int|
                        0 <= k < i && self.docs()[k].doc_id == #[trigger] r@[c].doc_id,
                forall|c: int|
                    0 <= c < r@.len() ==> {
                        let d = self.record(#[trigger] r@[c].doc_id)->0;
                        &&& self.matches(r@[c].doc_id, views(terms@))
                        &&& r@[c].doc_length == d.doc_length
                        &&& r@[c].hits@.len() == terms@.len()
                        &&& forall|j: int|
                            0 <= j < terms@.len() ==> (#[trigger] r@[c].hits@[j]).term_freq
                                == d.tf(terms@[j]@) && r@[c].hits@[j].doc_freq == self.df(
                                terms@[j]@,
                            )
                    },
                forall|k: int|
                    0 <= k < i && self.matches(#[trigger] self.docs()[k].doc_id, views(terms@))
                        ==> exists|c: int| 0 <= c < r@.len() && r@[c].doc_id == self.docs()[k].doc_id,
            decreases self.docs().len() - i,
        {
            let doc = &self.doc_stats[i];
            proof {
                assert(doc.wf());
                lemma_find_at(self.docs(), doc_key(), i as int);
                assert(self.record(doc.doc_id) == Some(*doc));
            }
            let mut hits: Vec<TermHit> = Vec::new();
            let mut any = false;
            let mut j: usize = 0;
            while j < terms.len()
                invariant
                    self.wf(),
                    doc.wf(),
                    j <= terms@.len(),
                    hits@.len() == j,
                    forall|q: int|
                        0 <= q < j ==> (#[trigger] hits@[q]).term_freq == doc.tf(terms@[q]@)
                            && hits@[q].doc_freq == self.df(terms@[q]@),
                    any <==> exists|q: int| 0 <= q < j && doc.tf(#[trigger] terms@[q]@) > 0,
                decreases terms@.len() - j,
            {
                let tf = tf_lookup(&doc.term_freq, &terms[j]);
                let df = self.doc_freq(&terms[j]);
                if tf > 0 {
                    any = true;
                }
                hits.push(TermHit { term_freq: tf, doc_freq: df });
                j = j + 1;
            }
            proof {
                let v = views(terms@);
                assert forall|q: int| 0 <= q < terms@.len() implies #[trigger] v[q] == terms@[q]@ by {}
                if any {
                    let q = choose|q: int| 0 <= q < j && doc.tf(#[trigger] terms@[q]@) > 0;
                    assert(doc.tf(v[q]) > 0);
                } else {
                    assert forall|q: int| 0 <= q < v.len() implies doc.tf(#[trigger] v[q]) <= 0 by {
                        assert(v[q] == terms@[q]@);
                    }
                }
            }
            if any {
                let ghost prev = r@;
                r.push(Candidate { doc_id: doc.doc_id, doc_length: doc.doc_length, hits });
                proof {
                    assert forall|c: int|
                        0 <= c < r@.len() implies exists|k: int|
                        0 <= k < i + 1 && self.docs()[k].doc_id == #[trigger] r@[c].doc_id by {
                        if c < prev.len() {
                            assert(r@[c] == prev[c]);
                        }
                    }
                    assert forall|c: int, d: int|
                        0 <= c < r@.len() && 0 <= d < r@.len() && c != d implies r@[c].doc_id
                        != r@[d].doc_id by {
                        if c < prev.len() && d == prev.len() {
                            let k = choose|k: int|
                                0 <= k < i && self.docs()[k].doc_id == #[trigger] prev[c].doc_id;
                            assert(doc_key()(self.docs()[k]) != doc_key()(self.docs()[i as int]));
                        }
                        if d < prev.len() && c == prev.len() {
                            let k = choose|k: int|
                                0 <= k < i && self.docs()[k].doc_id == #[trigger] prev[d].doc_id;
                            assert(doc_key()(self.docs()[k]) != doc_key()(self.docs()[i as int]));
                        }
                    }
                    assert forall|k: int|
                        0 <= k < i + 1 && self.matches(
                            #[trigger] self.docs()[k].doc_id,
                            views(terms@),
                        ) implies exists|c: int|
                        0 <= c < r@.len() && r@[c].doc_id == self.docs()[k].doc_id by {
                        if k < i {
                            let c = choose|c: int|
                                0 <= c < prev.len() && prev[c].doc_id == self.docs()[k].doc_id;
                            assert(r@[c] == prev[c]);
                        } else {
                            assert(r@[prev.len() as int].doc_id == self.docs()[k].doc_id);
                        }
                    }
                    assert forall|c: int| 0 <= c < r@.len() implies {
                        let d = self.record(#[trigger] r@[c].doc_id)->0;
                        &&& self.matches(r@[c].doc_id, views(terms@))
                        &&& r@[c].doc_length == d.doc_length
                        &&& r@[c].hits@.len() == terms@.len()
                        &&& forall|j: int|
                            0 <= j < terms@.len() ==> (#[trigger] r@[c].hits@[j]).term_freq
                                == d.tf(terms@[j]@) && r@[c].hits@[j].doc_freq == self.df(
                                terms@[j]@,
                            )
                    } by {
                        if c < prev.len() {
                            assert(r@[c] == prev[c]);
                        }
                    }
                }
            }
            i = i + 1;
        }
        proof {
            assert forall|id: u32| #[trigger] self.matches(id, views(terms@)) implies exists|c: int|
                0 <= c < r@.len() && r@[c].doc_id == id by {
                let k = lemma_find_in(self.docs(), doc_key(), id);
                assert(self.docs()[k].doc_id == id);
            }
            if r@.len() > 0 {
                let k = lemma_find_in(self.docs(), doc_key(), r@[0].doc_id);
            }
        }
        r
    }
}

/// A point-in-time copy of the whole index.
pub struct Snapshot {
    pub postings: Vec<Posting>,
    pub documents: Vec<DocumentStats>,
    pub total_doc_lengths: u32,
    pub k_bits: u64,
    pub b_bits: u64,
}

/// A copy of a list of identifiers.
fn copy_ids(ids: &Vec<u32>) -> (r: Vec<u32>)
    ensures
        r@ == ids@,
{
    let mut r: Vec<u32> = Vec::new();
    let mut i: usize = 0;
    while i < ids.len()
        invariant
            i <= ids@.len(),
            r@ == ids@.take(i as int),
        decreases ids@.len() - i,
    {
        r.push(ids[i]);
        i = i + 1;
        assert(r@ =~= ids@.take(i as int));
    }
    assert(r@ =~= ids@);
    r
}

impl Index {
    /// The number of indexed documents.
    pub fn doc_count(&self) -> (r: usize)
        ensures
            r == self.docs().len(),
    {
        self.doc_stats.len()
    }

    /// The sum of the lengths of all indexed documents.
    pub fn total_doc_lengths(&self) -> (r: u32)
        ensures
            r == self.total(),
    {
        self.total_doc_lengths
    }

    /// The bit pattern of the term-frequency saturation `k`.
    pub fn k_bits(&self) -> (r: u64)
        ensures
            r == self.params().0,
    {
        self.k_bits
    }

    /// The bit pattern of the length-normalization strength `b`.
    pub fn b_bits(&self) -> (r: u64)
        ensures
            r == self.params().1,
    {
        self.b_bits
    }

    /// A copy of the record of document `doc_id`, or `None` when it is not
    /// indexed.
    pub fn document_stats(&self, doc_id: u32) -> (r: Option<DocumentStats>)
        requires
            self.wf(),
        ensures
            r is None <==> self.record(doc_id) is None,
            r matches Some(d) ==> d.doc_id == self.record(doc_id)->0.doc_id && d.doc_length
                == self.record(doc_id)->0.doc_length && d.term_freq@ == self.record(
                doc_id,
            )->0.term_freq@,
    {
        match find_doc(&self.doc_stats, doc_id) {
            Some(j) => Some(self.doc_stats[j].copy()),
            None => None,
        }
    }

    /// A copy of the postings, the records, the total length and the
    /// parameters.
    pub fn snapshot(&self) -> (r: Snapshot)
        ensures
            r.postings@.len() == self.posts().len(),
            forall|i: int|
                0 <= i < self.posts().len() ==> (#[trigger] r.postings@[i]).term@ == self.posts()[i].term@
                    && r.postings@[i].doc_ids@ == self.posts()[i].doc_ids@,
            r.documents@.len() == self.docs().len(),
            forall|i: int|
                0 <= i < self.docs().len() ==> (#[trigger] r.documents@[i]).doc_id
                    == self.docs()[i].doc_id && r.documents@[i].doc_length
                    == self.docs()[i].doc_length && r.documents@[i].term_freq@
                    == self.docs()[i].term_freq@,
            r.total_doc_lengths == self.total(),
            (r.k_bits, r.b_bits) == self.params(),
    {
        let mut postings: Vec<Posting> = Vec::new();
        let mut i: usize = 0;
        while i < self.postings.len()
            invariant
                i <= self.posts().len(),
                postings@.len() == i,
                forall|q: int|
                    0 <= q < i ==> (#[trigger] postings@[q]).term@ == self.posts()[q].term@
                        && postings@[q].doc_ids@ == self.posts()[q].doc_ids@,
            decreases self.posts().len() - i,
        {
            let p = Posting {
                term: self.postings[i].term.clone(),
                doc_ids: copy_ids(&self.postings[i].doc_ids),
            };
            postings.push(p);
            i = i + 1;
        }
        let mut documents: Vec<DocumentStats> = Vec::new();
        let mut j: usize = 0;
        while j < self.doc_stats.len()
            invariant
                j <= self.docs().len(),
                documents@.len() == j,
                forall|q: int|
                    0 <= q < j ==> (#[trigger] documents@[q]).doc_id == self.docs()[q].doc_id
                        && documents@[q].doc_length == self.docs()[q].doc_length
                        && documents@[q].term_freq@ == self.docs()[q].term_freq@,
            decreases self.docs().len() - j,
        {
            documents.push(self.doc_stats[j].copy());
            j = j + 1;
        }
        Snapshot {
            postings,
            documents,
            total_doc_lengths: self.total_doc_lengths,
            k_bits: self.k_bits,
            b_bits: self.b_bits,
        }
    }
}

/// An empty index with the default parameters, `k` = 1.2 and `b` = 0.75.
pub fn create_index() -> (r: Index)
    ensures
        r.wf(),
        r.docs().len() == 0,
        r.posts().len() == 0,
        r.total() == 0,
        r.params() == (DEFAULT_K_BITS, DEFAULT_B_BITS),
{
    Index::new(DEFAULT_K_BITS, DEFAULT_B_BITS)
}

/// Indexes `doc` as document `doc_id`, replacing the document that had this
/// identifier; see `Index::upsert`.
pub fn add_document(index: &mut Index, doc: &str, doc_id: u32) -> (r: Result<(), IndexError>)
    requires
        old(index).wf(),
    ensures
        r is Err <==> old(index).too_large(words_of(doc@).len() as int, doc_id),
        r is Err ==> *final(index) == *old(index),
        r is Ok ==> Index::added(*old(index), *final(index), words_of(doc@), doc_id),
{
    index.upsert(doc, doc_id)
}

/// Removes document `doc_id`; see `Index::delete`.
pub fn remove_document(index: &mut Index, doc_id: u32)
    requires
        old(index).wf(),
    ensures
        Index::removed(*old(index), *final(index), doc_id),
{
    index.delete(doc_id)
}

/// A copy of the record of document `doc_id`, or `None` when it is not
/// indexed.
pub fn get_document_stats(index: &Index, doc_id: u32) -> (r: Option<DocumentStats>)
    requires
        index.wf(),
    ensures
        r is None <==> index.record(doc_id) is None,
        r matches Some(d) ==> d.doc_id == index.record(doc_id)->0.doc_id && d.doc_length
            == index.record(doc_id)->0.doc_length && d.term_freq@ == index.record(
            doc_id,
        )->0.term_freq@,
{
    index.document_stats(doc_id)
}

/// A point-in-time copy of the whole index; see `Index::snapshot`.
pub fn get_index(index: &Index) -> (r: Snapshot)
    ensures
        r.postings@.len() == index.posts().len(),
        forall|i: int|
            0 <= i < index.posts().len() ==> (#[trigger] r.postings@[i]).term@
                == index.posts()[i].term@ && r.postings@[i].doc_ids@ == index.posts()[i].doc_ids@,
        r.documents@.len() == index.docs().len(),
        forall|i: int|
            0 <= i < index.docs().len() ==> (#[trigger] r.documents@[i]).doc_id
                == index.docs()[i].doc_id && r.documents@[i].doc_length
                == index.docs()[i].doc_length && r.documents@[i].term_freq@
                == index.docs()[i].term_freq@,
        r.total_doc_lengths == index.total(),
        (r.k_bits, r.b_bits) == index.params(),
{
    index.snapshot()
}

} // verus!
