//! Tables of key-value pairs, as the proxies keep them: the first entry
//! of a key holds its value, and setting a key replaces that entry or adds
//! one at the end.

use crate::net::SocketAddress;
use vstd::prelude::*;

verus! {

/// The first position of key `k` in the table `s`, or -1.
pub open spec fn key_index<K, V>(s: Seq<(K, V)>, k: K) -> int
    decreases s.len(),
{
    if s.len() == 0 {
        -1
    } else {
        let p = key_index(s.drop_last(), k);
        if p >= 0 {
            p
        } else if s.last().0 == k {
            s.len() - 1
        } else {
            -1
        }
    }
}

/// The value of key `k` in the table `s`.
pub open spec fn lookup<K, V>(s: Seq<(K, V)>, k: K) -> Option<V> {
    let i = key_index(s, k);
    if i >= 0 {
        Some(s[i].1)
    } else {
        None
    }
}

/// The table `s` with key `k` set to `v`.
pub open spec fn put<K, V>(s: Seq<(K, V)>, k: K, v: V) -> Seq<(K, V)> {
    let i = key_index(s, k);
    if i >= 0 {
        s.update(i, (k, v))
    } else {
        s.push((k, v))
    }
}

/// The first position of a key lies in the table and holds the key.
pub proof fn lemma_key_index_bounds<K, V>(s: Seq<(K, V)>, k: K)
    ensures
        -1 <= key_index(s, k) < s.len(),
        key_index(s, k) >= 0 ==> s[key_index(s, k)].0 == k,
    decreases s.len(),
{
    if s.len() > 0 {
        lemma_key_index_bounds(s.drop_last(), k);
    }
}

/// A key found at `n` and not before is first at `n`; one not among the
/// entries has no position.
pub proof fn lemma_key_index_take<K, V>(s: Seq<(K, V)>, k: K, n: int)
    requires
        0 <= n <= s.len(),
        forall|j: int| 0 <= j < n ==> s[j].0 != k,
        n == s.len() || s[n].0 == k,
    ensures
        key_index(s, k) == (if n < s.len() {
            n
        } else {
            -1
        }),
    decreases s.len(),
{
    if s.len() > 0 {
        if n < s.len() {
            if n < s.len() - 1 {
                assert(s.drop_last()[n] == s[n]);
                lemma_key_index_take(s.drop_last(), k, n);
            } else {
                lemma_key_index_take(s.drop_last(), k, s.len() - 1);
            }
        } else {
            lemma_key_index_take(s.drop_last(), k, s.len() - 1);
        }
    }
}

/// Reading a key after setting one: the value set for that key, the old
/// value for any other.
pub proof fn lemma_lookup_put<K, V>(s: Seq<(K, V)>, k: K, v: V, q: K)
    ensures
        lookup(put(s, k, v), q) == (if q == k {
            Some(v)
        } else {
            lookup(s, q)
        }),
{
    lemma_key_index_bounds(s, k);
    lemma_key_index_bounds(s, q);
    let t = put(s, k, v);
    let i = key_index(s, k);
    let p = key_index(s, q);
    if q == k {
        if i >= 0 {
            assert forall|j: int| 0 <= j < i implies t[j].0 != q by {
                lemma_key_index_before(s, k, j);
            }
            lemma_key_index_take(t, q, i);
        } else {
            assert forall|j: int| 0 <= j < s.len() implies t[j].0 != q by {
                lemma_key_index_before(s, k, j);
            }
            lemma_key_index_take(t, q, s.len() as int);
        }
    } else {
        if p >= 0 {
            assert forall|j: int| 0 <= j < p implies t[j].0 != q by {
                lemma_key_index_before(s, q, j);
            }
            lemma_key_index_take(t, q, p);
        } else {
            assert forall|j: int| 0 <= j < t.len() implies t[j].0 != q by {
                if j < s.len() {
                    lemma_key_index_before(s, q, j);
                }
            }
            lemma_key_index_take(t, q, t.len() as int);
        }
    }
}

/// No entry before the first position of a key holds it.
pub proof fn lemma_key_index_before<K, V>(s: Seq<(K, V)>, k: K, j: int)
    requires
        0 <= j < s.len(),
        key_index(s, k) == -1 || j < key_index(s, k),
    ensures
        s[j].0 != k,
    decreases s.len(),
{
    lemma_key_index_bounds(s, k);
    if j < s.len() - 1 {
        lemma_key_index_bounds(s.drop_last(), k);
        assert(s.drop_last()[j] == s[j]);
        lemma_key_index_before(s.drop_last(), k, j);
    }
}

/// The counters of a connection.
#[derive(Clone, Copy, Debug, PartialEq, Eq, Structural)]
pub struct LoadState {
    pub num_bytes: u32,
    pub num_reqs: u32,
}

/// One more message of `n` header fields; the counters wrap around.
pub open spec fn bumped(old: Option<LoadState>, n: u32) -> LoadState {
    match old {
        Some(l) => LoadState { num_bytes: l.num_bytes.wrapping_add(n), num_reqs: l.num_reqs.wrapping_add(1) },
        None => LoadState { num_bytes: n, num_reqs: 1 },
    }
}

/// The position of the entry of address `a` in the table `s`.
pub fn addr_index<V>(s: &Vec<(SocketAddress, V)>, a: &SocketAddress) -> (r: Option<usize>)
    ensures
        match r {
            Some(i) => i < s@.len() && key_index(s@, *a) == i,
            None => key_index(s@, *a) == -1,
        },
{
    let mut i: usize = 0;
    while i < s.len()
        invariant
            i <= s@.len(),
            forall|j: int| 0 <= j < i ==> s@[j].0 != *a,
        decreases s.len() - i,
    {
        if s[i].0 == *a {
            proof {
                lemma_key_index_take(s@, *a, i as int);
            }
            return Some(i);
        }
        i = i + 1;
    }
    proof {
        lemma_key_index_take(s@, *a, s@.len() as int);
    }
    None
}

} // verus!
