use vstd::prelude::*;
use crate::lookup::{
    find_by, keys_unique, lemma_find_at, lemma_find_in, lemma_find_none, lemma_find_push,
    lemma_find_remove, lemma_push_unique,
};

verus! {

/// The identifiers of the documents that contain `term`.
pub struct Posting {
    pub term: String,
    pub doc_ids: Vec<u32>,
}

/// The key of a posting: its term's characters.
pub open spec fn posting_key() -> spec_fn(Posting) -> Seq<char> {
    |p: Posting| p.term@
}

/// The posting of `t` in `ps`, if there is one.
pub open spec fn posting_in(ps: Seq<Posting>, t: Seq<char>) -> Option<Posting> {
    find_by(ps, posting_key(), t)
}

/// `id` is listed under `t` in `ps`.
pub open spec fn posted_in(ps: Seq<Posting>, t: Seq<char>, id: u32) -> bool {
    &&& posting_in(ps, t) is Some
    &&& posting_in(ps, t)->0.doc_ids@.contains(id)
}

/// One posting per term, none empty, no identifier twice in one posting.
pub open spec fn postings_wf(ps: Seq<Posting>) -> bool {
    &&& keys_unique(ps, posting_key())
    &&& forall|i: int|
        0 <= i < ps.len() ==> (#[trigger] ps[i]).doc_ids@.len() > 0
            && ps[i].doc_ids@.no_duplicates()
}

/// The index of the posting of `t`, if there is one.
pub fn find_posting(ps: &Vec<Posting>, t: &String) -> (r: Option<usize>)
    ensures
        r matches Some(j) ==> j < ps@.len() && ps@[j as int].term@ == t@,
        r is None ==> forall|j: int| 0 <= j < ps@.len() ==> (#[trigger] ps@[j]).term@ != t@,
{
    let mut i: usize = 0;
    while i < ps.len()
        invariant
            i <= ps@.len(),
            forall|j: int| 0 <= j < i ==> (#[trigger] ps@[j]).term@ != t@,
        decreases ps@.len() - i,
    {
        if ps[i].term == *t {
            return Some(i);
        }
        i = i + 1;
    }
    None
}

/// The position of `id` in `ids`, if it is there.
pub fn find_id(ids: &Vec<u32>, id: u32) -> (r: Option<usize>)
    ensures
        r matches Some(j) ==> j < ids@.len() && ids@[j as int] == id,
        r is None ==> !ids@.contains(id),
{
    let mut i: usize = 0;
    while i < ids.len()
        invariant
            i <= ids@.len(),
            forall|j: int| 0 <= j < i ==> ids@[j] != id,
        decreases ids@.len() - i,
    {
        if ids[i] == id {
            return Some(i);
        }
        i = i + 1;
    }
    None
}

/// The posting of a term in a well-formed store is one of its elements.
proof fn lemma_posting_wf(ps: Seq<Posting>, t: Seq<char>)
    requires
        postings_wf(ps),
        posting_in(ps, t) is Some,
    ensures
        posting_in(ps, t)->0.doc_ids@.len() > 0,
        posting_in(ps, t)->0.doc_ids@.no_duplicates(),
        posting_in(ps, t)->0.term@ == t,
{
    let i = lemma_find_in(ps, posting_key(), t);
    assert(ps[i].doc_ids@.len() > 0);
}

/// A term that no posting carries has no posting.
pub(crate) proof fn lemma_no_posting(ps: Seq<Posting>, t: Seq<char>)
    requires
        forall|j: int| 0 <= j < ps.len() ==> (#[trigger] ps[j]).term@ != t,
    ensures
        posting_in(ps, t) is None,
{
    assert forall|j: int| 0 <= j < ps.len() implies posting_key()(#[trigger] ps[j]) != t by {
        assert(ps[j].term@ != t);
    }
    lemma_find_none(ps, posting_key(), t);
}

/// Takes `id` out of the posting of `t`, and drops the posting once empty.
pub fn unpost(ps: &mut Vec<Posting>, t: &String, id: u32)
    requires
        postings_wf(old(ps)@),
    ensures
        postings_wf(final(ps)@),
        forall|u: Seq<char>, x: u32| #[trigger]
            posted_in(final(ps)@, u, x) <==> (posted_in(old(ps)@, u, x) && !(u == t@ && x == id)),
{
    let ghost ps0 = ps@;
    match find_posting(ps, t) {
        None => {
            proof {
                lemma_no_posting(ps0, t@);
            }
        },
        Some(p) => {
            let mut entry = ps.remove(p);
            let ghost ps1 = ps@;
            let ghost ids0 = entry.doc_ids@;
            proof {
                assert(entry == ps0[p as int]);
                assert(posting_key()(ps0[p as int]) == t@);
                lemma_find_at(ps0, posting_key(), p as int);
                assert forall|u: Seq<char>| #[trigger]
                    posting_in(ps1, u) == (if u == t@ {
                        None
                    } else {
                        posting_in(ps0, u)
                    }) by {
                    lemma_find_remove(ps0, posting_key(), p as int, u);
                }
                lemma_find_remove(ps0, posting_key(), p as int, t@);
            }
            match find_id(&entry.doc_ids, id) {
                Some(j) => {
                    entry.doc_ids.remove(j);
                    proof {
                        let ids1 = entry.doc_ids@;
                        assert(ids1 == ids0.remove(j as int));
                        assert forall|x: u32| ids1.contains(x) <==> (ids0.contains(x) && x != id) by {
                            if ids0.contains(x) && x != id {
                                let k = choose|k: int| 0 <= k < ids0.len() && ids0[k] == x;
                                assert(k != j);
                                if k < j {
                                    assert(ids1[k] == x);
                                } else {
                                    assert(ids1[k - 1] == x);
                                }
                            }
                            if ids1.contains(x) {
                                let k = choose|k: int| 0 <= k < ids1.len() && ids1[k] == x;
                                if k < j {
                                    assert(ids0[k] == x);
                                } else {
                                    assert(ids0[k + 1] == x);
                                    assert(k + 1 != j);
                                }
                            }
                        }
                        assert(ids1.no_duplicates()) by {
                            assert forall|a: int, b: int|
                                0 <= a < ids1.len() && 0 <= b < ids1.len() && a != b implies ids1[a]
                                != ids1[b] by {
                                let sa = if a < j { a } else { a + 1 };
                                let sb = if b < j { b } else { b + 1 };
                                assert(ids1[a] == ids0[sa] && ids1[b] == ids0[sb]);
                            }
                        }
                    }
                },
                None => {},
            }
            assert forall|x: u32| entry.doc_ids@.contains(x) <==> (ids0.contains(x) && x != id) by {}
            if entry.doc_ids.len() > 0 {
                ps.push(entry);
                proof {
                    lemma_push_unique(ps1, posting_key(), entry);
                    assert forall|u: Seq<char>, x: u32| #[trigger]
                        posted_in(ps@, u, x) <==> (posted_in(ps0, u, x) && !(u == t@ && x == id)) by {
                        lemma_find_push(ps1, posting_key(), entry, u);
                        lemma_find_remove(ps0, posting_key(), p as int, u);
                        if u == t@ {
                            assert(entry.doc_ids@.contains(x) <==> (ids0.contains(x) && x != id));
                        }
                    }
                    assert forall|i: int| 0 <= i < ps@.len() implies (#[trigger] ps@[i]).doc_ids@.len()
                        > 0 && ps@[i].doc_ids@.no_duplicates() by {
                        if i < ps1.len() {
                            assert(ps@[i] == ps1[i]);
                            let si = if i < p { i } else { i + 1 };
                            assert(ps1[i] == ps0[si]);
                        }
                    }
                }
            } else {
                proof {
                    assert forall|x: u32| !ids0.contains(x) || x == id by {
                        if ids0.contains(x) && x != id {
                            assert(entry.doc_ids@.contains(x));
                        }
                    }
                    assert forall|i: int| 0 <= i < ps@.len() implies (#[trigger] ps@[i]).doc_ids@.len()
                        > 0 && ps@[i].doc_ids@.no_duplicates() by {
                        let si = if i < p { i } else { i + 1 };
                        assert(ps1[i] == ps0[si]);
                    }
                }
            }
        },
    }
}

/// Lists `id` under `t`, opening a posting for `t` if it has none.
pub fn post(ps: &mut Vec<Posting>, t: &String, id: u32)
    requires
        postings_wf(old(ps)@),
        !posted_in(old(ps)@, t@, id),
    ensures
        postings_wf(final(ps)@),
        forall|u: Seq<char>, x: u32| #[trigger]
            posted_in(final(ps)@, u, x) <==> (posted_in(old(ps)@, u, x) || (u == t@ && x == id)),
{
    let ghost ps0 = ps@;
    match find_posting(ps, t) {
        None => {
            let mut ids: Vec<u32> = Vec::new();
            ids.push(id);
            let entry = Posting { term: t.clone(), doc_ids: ids };
            proof {
                lemma_no_posting(ps0, t@);
                assert(entry.doc_ids@ =~= seq![id]);
                assert(entry.doc_ids@[0] == id);
            }
            ps.push(entry);
            proof {
                lemma_push_unique(ps0, posting_key(), entry);
                assert forall|u: Seq<char>, x: u32| #[trigger]
                    posted_in(ps@, u, x) <==> (posted_in(ps0, u, x) || (u == t@ && x == id)) by {
                    lemma_find_push(ps0, posting_key(), entry, u);
                }
                assert forall|i: int| 0 <= i < ps@.len() implies (#[trigger] ps@[i]).doc_ids@.len()
                    > 0 && ps@[i].doc_ids@.no_duplicates() by {
                    if i < ps0.len() {
                        assert(ps@[i] == ps0[i]);
                    }
                }
            }
        },
        Some(p) => {
            let mut entry = ps.remove(p);
            let ghost ps1 = ps@;
            let ghost ids0 = entry.doc_ids@;
            proof {
                assert(entry == ps0[p as int]);
                assert(posting_key()(ps0[p as int]) == t@);
                lemma_find_at(ps0, posting_key(), p as int);
                assert forall|u: Seq<char>| #[trigger]
                    posting_in(ps1, u) == (if u == t@ {
                        None
                    } else {
                        posting_in(ps0, u)
                    }) by {
                    lemma_find_remove(ps0, posting_key(), p as int, u);
                }
                lemma_find_remove(ps0, posting_key(), p as int, t@);
                assert(!ids0.contains(id));
            }
            entry.doc_ids.push(id);
            proof {
                let ids1 = entry.doc_ids@;
                assert(ids1 == ids0.push(id));
                assert forall|x: u32| ids1.contains(x) <==> (ids0.contains(x) || x == id) by {
                    if ids0.contains(x) {
                        let k = choose|k: int| 0 <= k < ids0.len() && ids0[k] == x;
                        assert(ids1[k] == x);
                    }
                    if x == id {
                        assert(ids1[ids0.len() as int] == x);
                    }
                    if ids1.contains(x) {
                        let k = choose|k: int| 0 <= k < ids1.len() && ids1[k] == x;
                        if k < ids0.len() {
                            assert(ids0[k] == x);
                        }
                    }
                }
                assert(ids1.no_duplicates()) by {
                    assert forall|a: int, b: int|
                        0 <= a < ids1.len() && 0 <= b < ids1.len() && a != b implies ids1[a]
                        != ids1[b] by {
                        if a < ids0.len() {
                            assert(ids1[a] == ids0[a]);
                        }
                        if b < ids0.len() {
                            assert(ids1[b] == ids0[b]);
                        }
                        if a == ids0.len() && b < ids0.len() {
                            assert(ids0.contains(ids1[b]));
                        }
                        if b == ids0.len() && a < ids0.len() {
                            assert(ids0.contains(ids1[a]));
                        }
                    }
                }
            }
            ps.push(entry);
            proof {
                lemma_push_unique(ps1, posting_key(), entry);
                assert forall|u: Seq<char>, x: u32| #[trigger]
                    posted_in(ps@, u, x) <==> (posted_in(ps0, u, x) || (u == t@ && x == id)) by {
                    lemma_find_push(ps1, posting_key(), entry, u);
                    lemma_find_remove(ps0, posting_key(), p as int, u);
                    if u == t@ {
                        assert(entry.doc_ids@.contains(x) <==> (ids0.contains(x) || x == id));
                    }
                }
                assert forall|i: int| 0 <= i < ps@.len() implies (#[trigger] ps@[i]).doc_ids@.len()
                    > 0 && ps@[i].doc_ids@.no_duplicates() by {
                    if i < ps1.len() {
                        assert(ps@[i] == ps1[i]);
                        let si = if i < p { i } else { i + 1 };
                        assert(ps1[i] == ps0[si]);
                    }
                }
            }
        },
    }
}

} // verus!
