//! Association sequences: every ledger of the library is a sequence of
//! key-value pairs with unique keys. Lookup takes the last matching
//! entry; an update rewrites the matching entry in place or appends a
//! fresh one, so entry order is stable.

use vstd::prelude::*;

verus! {

pub open spec fn kv_contains<K, V>(s: Seq<(K, V)>, k: K) -> bool {
    exists|i: int| 0 <= i < s.len() && (#[trigger] s[i]).0 == k
}

pub open spec fn kv_get<K, V>(s: Seq<(K, V)>, k: K) -> Option<V>
    decreases s.len(),
{
    if s.len() == 0 {
        None
    } else if s.last().0 == k {
        Some(s.last().1)
    } else {
        kv_get(s.drop_last(), k)
    }
}

pub open spec fn kv_put<K, V>(s: Seq<(K, V)>, k: K, v: V) -> Seq<(K, V)> {
    if kv_contains(s, k) {
        s.map_values(
            |e: (K, V)|
                if e.0 == k {
                    (k, v)
                } else {
                    e
                },
        )
    } else {
        s.push((k, v))
    }
}

pub open spec fn keys_unique<K, V>(s: Seq<(K, V)>) -> bool {
    forall|i: int, j: int| 0 <= i < j < s.len() ==> (#[trigger] s[i]).0 != (#[trigger] s[j]).0
}

pub proof fn lemma_kv_get_some_contains<K, V>(s: Seq<(K, V)>, k: K)
    ensures
        kv_get(s, k) is Some <==> kv_contains(s, k),
    decreases s.len(),
{
    if s.len() > 0 {
        lemma_kv_get_some_contains(s.drop_last(), k);
        if s.last().0 == k {
            assert(s[s.len() - 1].0 == k);
        } else {
            if kv_contains(s.drop_last(), k) {
                let i = choose|i: int|
                    0 <= i < s.drop_last().len() && (#[trigger] s.drop_last()[i]).0 == k;
                assert(s[i].0 == k);
            }
            if kv_contains(s, k) {
                let i = choose|i: int| 0 <= i < s.len() && (#[trigger] s[i]).0 == k;
                assert(s.drop_last()[i].0 == k);
            }
        }
    }
}

proof fn lemma_kv_get_map<K, V>(s: Seq<(K, V)>, k: K, v: V, q: K)
    ensures
        kv_get(
            s.map_values(
                |e: (K, V)|
                    if e.0 == k {
                        (k, v)
                    } else {
                        e
                    },
            ),
            q,
        ) == if q == k {
            if kv_contains(s, k) {
                Some(v)
            } else {
                None::<V>
            }
        } else {
            kv_get(s, q)
        },
    decreases s.len(),
{
    let f = |e: (K, V)|
        if e.0 == k {
            (k, v)
        } else {
            e
        };
    let m = s.map_values(f);
    if s.len() == 0 {
        assert(!kv_contains(s, k));
    } else {
        lemma_kv_get_map(s.drop_last(), k, v, q);
        assert(m.drop_last() =~= s.drop_last().map_values(f));
        assert(m.last() == f(s.last()));
        if s.last().0 == k {
            assert(kv_contains(s, k)) by {
                assert(s[s.len() - 1].0 == k);
            }
        } else {
            assert(kv_contains(s, k) <==> kv_contains(s.drop_last(), k)) by {
                if kv_contains(s, k) {
                    let i = choose|i: int| 0 <= i < s.len() && (#[trigger] s[i]).0 == k;
                    assert(s.drop_last()[i].0 == k);
                }
                if kv_contains(s.drop_last(), k) {
                    let i = choose|i: int|
                        0 <= i < s.drop_last().len() && (#[trigger] s.drop_last()[i]).0 == k;
                    assert(s[i].0 == k);
                }
            }
        }
    }
}

/// Updating key `k` changes the value read at `k` and nothing else.
pub proof fn lemma_kv_get_put<K, V>(s: Seq<(K, V)>, k: K, v: V, q: K)
    ensures
        kv_get(kv_put(s, k, v), q) == if q == k {
            Some(v)
        } else {
            kv_get(s, q)
        },
{
    if kv_contains(s, k) {
        lemma_kv_get_map(s, k, v, q);
    } else {
        let p = s.push((k, v));
        assert(p.last() == (k, v));
        assert(p.drop_last() =~= s);
    }
}

/// An update never duplicates a key.
pub proof fn lemma_kv_put_unique<K, V>(s: Seq<(K, V)>, k: K, v: V)
    requires
        keys_unique(s),
    ensures
        keys_unique(kv_put(s, k, v)),
{
    if kv_contains(s, k) {
        let f = |e: (K, V)|
            if e.0 == k {
                (k, v)
            } else {
                e
            };
        let m = s.map_values(f);
        assert forall|i: int, j: int| 0 <= i < j < m.len() implies (#[trigger] m[i]).0 != (
        #[trigger] m[j]).0 by {
            assert(m[i] == f(s[i]) && m[j] == f(s[j]));
        }
    } else {
        let p = s.push((k, v));
        assert forall|i: int, j: int| 0 <= i < j < p.len() implies (#[trigger] p[i]).0 != (
        #[trigger] p[j]).0 by {
            if j == s.len() {
                assert(p[i] == s[i]);
                assert(!(s[i].0 == k)) by {
                    if s[i].0 == k {
                        assert(kv_contains(s, k));
                    }
                }
            } else {
                assert(p[i] == s[i] && p[j] == s[j]);
            }
        }
    }
}

/// With unique keys, an entry's value is what lookup reads at its key.
pub proof fn lemma_kv_get_present<K, V>(s: Seq<(K, V)>, i: int)
    requires
        keys_unique(s),
        0 <= i < s.len(),
    ensures
        kv_get(s, s[i].0) == Some(s[i].1),
    decreases s.len(),
{
    if i == s.len() - 1 {
    } else {
        assert(s[i].0 != s.last().0);
        assert(s.drop_last()[i] == s[i]);
        lemma_kv_get_present(s.drop_last(), i);
    }
}

/// A key no entry holds reads as absent.
pub proof fn lemma_kv_get_absent<K, V>(s: Seq<(K, V)>, k: K)
    requires
        forall|i: int| 0 <= i < s.len() ==> (#[trigger] s[i]).0 != k,
    ensures
        kv_get(s, k) is None,
    decreases s.len(),
{
    if s.len() > 0 {
        assert(s[s.len() - 1].0 != k);
        lemma_kv_get_absent(s.drop_last(), k);
    }
}

} // verus!
