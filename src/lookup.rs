use vstd::prelude::*;

verus! {

/// The last element of `s` whose key is `k`, if there is one.
pub open spec fn find_by<A, K>(s: Seq<A>, key: spec_fn(A) -> K, k: K) -> Option<A>
    decreases s.len(),
{
    if s.len() == 0 {
        None
    } else if key(s.last()) == k {
        Some(s.last())
    } else {
        find_by(s.drop_last(), key, k)
    }
}

/// No two elements of `s` share a key.
pub open spec fn keys_unique<A, K>(s: Seq<A>, key: spec_fn(A) -> K) -> bool {
    forall|i: int, j: int|
        0 <= i < s.len() && 0 <= j < s.len() && i != j ==> key(#[trigger] s[i]) != key(
            #[trigger] s[j],
        )
}

/// A key that no element carries is not found.
pub proof fn lemma_find_none<A, K>(s: Seq<A>, key: spec_fn(A) -> K, k: K)
    requires
        forall|i: int| 0 <= i < s.len() ==> key(#[trigger] s[i]) != k,
    ensures
        find_by(s, key, k) is None,
    decreases s.len(),
{
    if s.len() > 0 {
        assert(key(s[s.len() - 1]) != k);
        lemma_find_none(s.drop_last(), key, k);
    }
}

/// With unique keys, the element at `i` is the one found under its key.
pub proof fn lemma_find_at<A, K>(s: Seq<A>, key: spec_fn(A) -> K, i: int)
    requires
        keys_unique(s, key),
        0 <= i < s.len(),
    ensures
        find_by(s, key, key(s[i])) == Some(s[i]),
    decreases s.len(),
{
    if i != s.len() - 1 {
        let t = s.drop_last();
        assert(key(s[s.len() - 1]) != key(s[i]));
        assert(t[i] == s[i]);
        assert(keys_unique(t, key)) by {
            assert forall|a: int, b: int|
                0 <= a < t.len() && 0 <= b < t.len() && a != b implies key(#[trigger] t[a]) != key(
                #[trigger] t[b],
            ) by {
                assert(t[a] == s[a] && t[b] == s[b]);
            }
        }
        lemma_find_at(t, key, i);
    }
}

/// What is found under `k` is an element of `s` with key `k`.
pub proof fn lemma_find_in<A, K>(s: Seq<A>, key: spec_fn(A) -> K, k: K) -> (i: int)
    requires
        find_by(s, key, k) is Some,
    ensures
        0 <= i < s.len(),
        s[i] == find_by(s, key, k)->0,
        key(s[i]) == k,
    decreases s.len(),
{
    if key(s.last()) == k {
        s.len() - 1
    } else {
        let j = lemma_find_in(s.drop_last(), key, k);
        assert(s.drop_last()[j] == s[j]);
        j
    }
}

/// Pushing an element makes it the one found under its key.
pub proof fn lemma_find_push<A, K>(s: Seq<A>, key: spec_fn(A) -> K, x: A, k: K)
    ensures
        find_by(s.push(x), key, k) == (if key(x) == k {
            Some(x)
        } else {
            find_by(s, key, k)
        }),
{
    assert(s.push(x).drop_last() =~= s);
}

/// Pushing an element whose key is not yet present keeps keys unique.
pub proof fn lemma_push_unique<A, K>(s: Seq<A>, key: spec_fn(A) -> K, x: A)
    requires
        keys_unique(s, key),
        find_by(s, key, key(x)) is None,
    ensures
        keys_unique(s.push(x), key),
{
    let r = s.push(x);
    assert forall|a: int, b: int|
        0 <= a < r.len() && 0 <= b < r.len() && a != b implies key(#[trigger] r[a]) != key(
        #[trigger] r[b],
    ) by {
        if a < s.len() {
            assert(r[a] == s[a]);
        }
        if b < s.len() {
            assert(r[b] == s[b]);
        }
        if a < s.len() && b == s.len() && key(r[a]) == key(r[b]) {
            lemma_find_at(s, key, a);
        }
        if b < s.len() && a == s.len() && key(r[a]) == key(r[b]) {
            lemma_find_at(s, key, b);
        }
    }
}

/// With unique keys, removing the element at `i` removes its key and
/// leaves every other key's element in place.
pub proof fn lemma_find_remove<A, K>(s: Seq<A>, key: spec_fn(A) -> K, i: int, k: K)
    requires
        keys_unique(s, key),
        0 <= i < s.len(),
    ensures
        keys_unique(s.remove(i), key),
        find_by(s.remove(i), key, k) == (if key(s[i]) == k {
            None
        } else {
            find_by(s, key, k)
        }),
{
    let r = s.remove(i);
    assert forall|a: int| 0 <= a < r.len() implies #[trigger] r[a] == (if a < i {
        s[a]
    } else {
        s[a + 1]
    }) by {}
    assert(keys_unique(r, key)) by {
        assert forall|a: int, b: int|
            0 <= a < r.len() && 0 <= b < r.len() && a != b implies key(#[trigger] r[a]) != key(
            #[trigger] r[b],
        ) by {
            let sa = if a < i { a } else { a + 1 };
            let sb = if b < i { b } else { b + 1 };
            assert(r[a] == s[sa] && r[b] == s[sb]);
        }
    }
    if key(s[i]) == k {
        assert forall|a: int| 0 <= a < r.len() implies key(#[trigger] r[a]) != k by {
            let sa = if a < i { a } else { a + 1 };
            assert(r[a] == s[sa]);
        }
        lemma_find_none(r, key, k);
    } else if find_by(s, key, k) is Some {
        let j = lemma_find_in(s, key, k);
        let rj = if j < i { j } else { j - 1 };
        assert(r[rj] == s[j]);
        lemma_find_at(r, key, rj);
    } else {
        assert forall|a: int| 0 <= a < r.len() implies key(#[trigger] r[a]) != k by {
            let sa = if a < i { a } else { a + 1 };
            assert(r[a] == s[sa]);
            if key(r[a]) == k {
                lemma_find_at(s, key, sa);
            }
        }
        lemma_find_none(r, key, k);
    }
}

} // verus!
