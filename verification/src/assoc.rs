//! Association sequences: key-value pairs with unique keys, the model behind
//! the sliding-window maps.
use vstd::prelude::*;

verus! {

/// Some pair of `s` carries the key `k`.
pub open spec fn assoc_has<K, V>(s: Seq<(K, V)>, k: K) -> bool {
    exists|i: int| 0 <= i < s.len() && (#[trigger] s[i]).0 == k
}

pub open spec fn assoc_idx<K, V>(s: Seq<(K, V)>, k: K) -> int {
    choose|i: int| 0 <= i < s.len() && (#[trigger] s[i]).0 == k
}

/// The value stored under `k`; meaningful when `assoc_has(s, k)`.
pub open spec fn assoc_get<K, V>(s: Seq<(K, V)>, k: K) -> V {
    s[assoc_idx(s, k)].1
}

/// No key occurs twice.
pub open spec fn assoc_unique<K, V>(s: Seq<(K, V)>) -> bool {
    forall|i: int, j: int| 0 <= i < j < s.len() ==> (#[trigger] s[i]).0 != (#[trigger] s[j]).0
}

/// Pushing a fresh pair: old keys keep their values, the new key holds the
/// new value.
pub proof fn lemma_assoc_push<K, V>(s: Seq<(K, V)>, p: (K, V))
    requires
        assoc_unique(s),
        !assoc_has(s, p.0),
    ensures
        assoc_unique(s.push(p)),
        assoc_has(s.push(p), p.0),
        assoc_get(s.push(p), p.0) == p.1,
        forall|k: K| #[trigger] assoc_has(s.push(p), k) <==> (assoc_has(s, k) || k == p.0),
        forall|k: K|
            assoc_has(s, k) ==> #[trigger] assoc_get(s.push(p), k) == assoc_get(s, k),
{
    let sp = s.push(p);
    assert(sp[s.len() as int] == p);
    assert forall|i: int, j: int| 0 <= i < j < sp.len() implies (#[trigger] sp[i]).0 != (
    #[trigger] sp[j]).0 by {
        if j < s.len() {
            assert(s[i].0 != s[j].0);
        } else {
            assert(sp[j] == p);
            if sp[i].0 == p.0 {
                assert(assoc_has(s, p.0));
            }
        }
    }
    assert forall|k: K| #[trigger] assoc_has(sp, k) implies (assoc_has(s, k) || k == p.0) by {
        let i = choose|i: int| 0 <= i < sp.len() && (#[trigger] sp[i]).0 == k;
        if i < s.len() {
            assert(s[i].0 == k);
        }
    }
    assert forall|k: K| (assoc_has(s, k) || k == p.0) implies #[trigger] assoc_has(sp, k) by {
        if assoc_has(s, k) {
            let i = assoc_idx(s, k);
            assert(sp[i].0 == k);
        } else {
            assert(sp[s.len() as int].0 == k);
        }
    }
    assert forall|k: K| assoc_has(s, k) implies #[trigger] assoc_get(sp, k) == assoc_get(s, k) by {
        let i = assoc_idx(s, k);
        assert(sp[i].0 == k);
        let j = assoc_idx(sp, k);
        assert(sp[j].0 == k);
        if j != i {
            if j < s.len() {
                assert(s[i].0 == s[j].0);
                assert(false);
            } else {
                assert(sp[j] == p);
                assert(assoc_has(s, p.0));
                assert(false);
            }
        }
    }
    let j = assoc_idx(sp, p.0);
    assert(sp[s.len() as int].0 == p.0);
    if j != s.len() {
        assert(sp[j].0 == p.0);
        assert(s[j].0 == p.0);
        assert(assoc_has(s, p.0));
    }
}

/// Removing the pair at `i`: its key is gone, every other key keeps its
/// value.
pub proof fn lemma_assoc_remove<K, V>(s: Seq<(K, V)>, i: int)
    requires
        assoc_unique(s),
        0 <= i < s.len(),
    ensures
        assoc_unique(s.remove(i)),
        !assoc_has(s.remove(i), s[i].0),
        forall|k: K|
            k != s[i].0 ==> (#[trigger] assoc_has(s.remove(i), k) == assoc_has(s, k) && (
            assoc_has(s, k) ==> assoc_get(s.remove(i), k) == assoc_get(s, k))),
{
    let r = s.remove(i);
    assert(forall|j: int| 0 <= j < i ==> (#[trigger] r[j]) == s[j]);
    assert(forall|j: int| i <= j < r.len() ==> (#[trigger] r[j]) == s[j + 1]);
    assert forall|a: int, b: int| 0 <= a < b < r.len() implies (#[trigger] r[a]).0 != (
    #[trigger] r[b]).0 by {
        let a2: int = if a < i {
            a
        } else {
            a + 1
        };
        let b2: int = if b < i {
            b
        } else {
            b + 1
        };
        assert(s[a2].0 != s[b2].0);
    }
    if assoc_has(r, s[i].0) {
        let j = assoc_idx(r, s[i].0);
        assert(r[j].0 == s[i].0);
        let j2: int = if j < i {
            j
        } else {
            j + 1
        };
        assert(s[j2].0 == s[i].0);
        assert(j2 != i);
        if j2 < i {
            assert(s[j2].0 != s[i].0);
        } else {
            assert(s[i].0 != s[j2].0);
        }
    }
    assert forall|k: K| k != s[i].0 implies (#[trigger] assoc_has(r, k) == assoc_has(s, k) && (
    assoc_has(s, k) ==> assoc_get(r, k) == assoc_get(s, k))) by {
        if assoc_has(s, k) {
            let j = assoc_idx(s, k);
            assert(s[j].0 == k);
            assert(j != i);
            let j2: int = if j < i {
                j
            } else {
                j - 1
            };
            assert(r[j2].0 == k);
            lemma_assoc_at(r, j2);
            lemma_assoc_at(s, j);
        }
        if assoc_has(r, k) {
            let j = assoc_idx(r, k);
            assert(r[j].0 == k);
            let j2: int = if j < i {
                j
            } else {
                j + 1
            };
            assert(s[j2].0 == k);
            lemma_assoc_at(s, j2);
        }
    }
}

/// `s` with the pair under `k` removed, if it is there.
pub open spec fn assoc_remove_key<K, V>(s: Seq<(K, V)>, k: K) -> Seq<(K, V)> {
    if assoc_has(s, k) {
        s.remove(assoc_idx(s, k))
    } else {
        s
    }
}

/// Removing a key: it is gone, every other key keeps its value.
pub proof fn lemma_assoc_remove_key<K, V>(s: Seq<(K, V)>, k0: K)
    requires
        assoc_unique(s),
    ensures
        assoc_unique(assoc_remove_key(s, k0)),
        !assoc_has(assoc_remove_key(s, k0), k0),
        forall|k: K|
            k != k0 ==> ((#[trigger] assoc_has(assoc_remove_key(s, k0), k)) == assoc_has(s, k)
                && (assoc_has(s, k) ==> assoc_get(assoc_remove_key(s, k0), k) == assoc_get(s, k))),
        assoc_remove_key(s, k0).len() == if assoc_has(s, k0) {
            s.len() - 1
        } else {
            s.len() as int
        },
{
    if assoc_has(s, k0) {
        let i = assoc_idx(s, k0);
        assert(0 <= i < s.len() && s[i].0 == k0);
        lemma_assoc_remove(s, i);
    }
}

/// Inserting a fresh pair at the front: old keys keep their values, the new
/// key holds the new value.
pub proof fn lemma_assoc_front<K, V>(s: Seq<(K, V)>, p: (K, V))
    requires
        assoc_unique(s),
        !assoc_has(s, p.0),
    ensures
        assoc_unique(seq![p] + s),
        assoc_has(seq![p] + s, p.0),
        assoc_get(seq![p] + s, p.0) == p.1,
        forall|k: K| (#[trigger] assoc_has(seq![p] + s, k)) <==> (assoc_has(s, k) || k == p.0),
        forall|k: K|
            assoc_has(s, k) ==> #[trigger] assoc_get(seq![p] + s, k) == assoc_get(s, k),
{
    let sp = seq![p] + s;
    assert(sp[0] == p);
    assert(forall|i: int| 0 <= i < s.len() ==> (#[trigger] sp[i + 1]) == s[i]);
    assert forall|i: int, j: int| 0 <= i < j < sp.len() implies (#[trigger] sp[i]).0 != (
    #[trigger] sp[j]).0 by {
        if i == 0 {
            assert(sp[j] == s[j - 1]);
            if sp[0].0 == sp[j].0 {
                lemma_assoc_at(s, j - 1);
            }
        } else {
            assert(sp[i] == s[i - 1]);
            assert(sp[j] == s[j - 1]);
            assert(s[i - 1].0 != s[j - 1].0);
        }
    }
    assert forall|k: K| (#[trigger] assoc_has(sp, k)) implies (assoc_has(s, k) || k == p.0) by {
        let i = assoc_idx(sp, k);
        assert(sp[i].0 == k);
        if i > 0 {
            assert(sp[i] == s[i - 1]);
            lemma_assoc_at(s, i - 1);
        }
    }
    assert forall|k: K| (assoc_has(s, k) || k == p.0) implies (#[trigger] assoc_has(sp, k)) by {
        if assoc_has(s, k) {
            let i = assoc_idx(s, k);
            assert(sp[i + 1].0 == k);
        } else {
            assert(sp[0].0 == k);
        }
    }
    assert forall|k: K| assoc_has(s, k) implies #[trigger] assoc_get(sp, k) == assoc_get(s, k) by {
        let i = assoc_idx(s, k);
        assert(s[i].0 == k);
        lemma_assoc_at(s, i);
        assert(sp[i + 1].0 == k);
        assert(assoc_has(sp, k));
        let j = assoc_idx(sp, k);
        assert(sp[j].0 == k);
        if j == 0 {
            assert(k == p.0);
            assert(false);
        } else {
            assert(sp[j] == s[j - 1]);
            lemma_assoc_at(s, j - 1);
        }
    }
    assert(sp[0].0 == p.0);
    assert(assoc_has(sp, p.0));
    let j = assoc_idx(sp, p.0);
    if j != 0 {
        assert(sp[j].0 == p.0);
        assert(s[j - 1].0 == p.0);
        lemma_assoc_at(s, j - 1);
    }
}

/// In a unique association every index holding `k` is the index of `k`.
pub proof fn lemma_assoc_at<K, V>(s: Seq<(K, V)>, i: int)
    requires
        assoc_unique(s),
        0 <= i < s.len(),
    ensures
        assoc_has(s, s[i].0),
        assoc_get(s, s[i].0) == s[i].1,
{
    assert(s[i].0 == s[i].0);
    let j = assoc_idx(s, s[i].0);
    assert(s[j].0 == s[i].0);
    if i != j {
        if i < j {
            assert(s[i].0 != s[j].0);
        } else {
            assert(s[j].0 != s[i].0);
        }
    }
}

} // verus!
