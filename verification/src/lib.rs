//! A bidirectional map (bimap): a mapping that supports lookup in both
//! directions, key to value and value to key.
//!
//! The map is backed by two hash tables, one per direction, and every
//! operation keeps them describing exactly the same set of pairs. The
//! abstract state is the forward map (`self@`, a `Map<K, V>`); the backward
//! index is its inverse, so no key and no value ever occurs in more than one
//! pair.

use core::hash::Hash;
use std::collections::HashMap;
use vstd::prelude::*;
use vstd::std_specs::hash::obeys_key_model;

verus! {

broadcast use vstd::std_specs::hash::group_hash_axioms;

/// The two indices describe the same set of pairs: every forward entry
/// `k -> v` has the backward entry `v -> k`, and the other way round.
pub open spec fn consistent<K, V>(f: Map<K, V>, b: Map<V, K>) -> bool {
    &&& forall|k: K| #[trigger] f.dom().contains(k) ==> b.dom().contains(f[k]) && b[f[k]] == k
    &&& forall|v: V| #[trigger] b.dom().contains(v) ==> f.dom().contains(b[v]) && f[b[v]] == v
}

/// The forward map after inserting the pair `(k, v)`: any prior pair with
/// key `k` is overwritten, and any prior pair with value `v` is evicted, so
/// that each key and each value keeps exactly one partner.
pub open spec fn upserted<K, V>(m: Map<K, V>, k: K, v: V) -> Map<K, V> {
    Map::new(
        |x: K| x == k || (m.dom().contains(x) && m[x] != v),
        |x: K| if x == k {
            v
        } else {
            m[x]
        },
    )
}

/// The error of the failing lookup forms [`Bimap::get`] and
/// [`Bimap::get_key`]: the requested key or value is absent.
#[derive(Clone, Copy, Debug, PartialEq, Eq, Structural)]
pub enum LookupError {
    NotFound,
}

/// A bidirectional map between keys of type `K` and values of type `V`.
///
/// Each key is associated with exactly one value and each value with exactly
/// one key. Both directions can be queried; both are kept in step by every
/// mutation.
#[verifier::reject_recursive_types(K)]
#[verifier::reject_recursive_types(V)]
pub struct Bimap<K, V> {
    fwd: HashMap<K, V>,
    bwd: HashMap<V, K>,
}

impl<K, V> View for Bimap<K, V> {
    type V = Map<K, V>;

    closed spec fn view(&self) -> Map<K, V> {
        self.fwd@
    }
}

impl<K, V> Bimap<K, V> {
    /// The backward index as a map from values to keys. Under `inv` it is
    /// exactly `self@.invert()`.
    pub closed spec fn rev_view(self) -> Map<V, K> {
        self.bwd@
    }

    /// Well-formedness: the two indices agree, and both key types behave as
    /// hash-table keys (their equality and hash follow their abstract value).
    pub closed spec fn inv(self) -> bool {
        &&& obeys_key_model::<K>()
        &&& obeys_key_model::<V>()
        &&& consistent(self.fwd@, self.bwd@)
    }
}

impl<K: Copy + Eq + Hash, V: Copy + Eq + Hash> Bimap<K, V> {
    /// Creates an empty bimap.
    pub fn new() -> (r: Self)
        requires
            obeys_key_model::<K>(),
            obeys_key_model::<V>(),
        ensures
            r.inv(),
            r@ == Map::<K, V>::empty(),
    {
        Bimap { fwd: HashMap::new(), bwd: HashMap::new() }
    }

    /// The number of pairs currently stored.
    pub fn size(&self) -> (n: usize)
        requires
            self.inv(),
        ensures
            n == self@.dom().len(),
    {
        self.fwd.len()
    }

    /// True iff `k` is the key of some stored pair.
    pub fn contains_key(&self, k: K) -> (r: bool)
        requires
            self.inv(),
        ensures
            r == self@.contains_key(k),
    {
        self.fwd.contains_key(&k)
    }

    /// True iff `*k` is the key of some stored pair; the borrowing form of
    /// [`Bimap::contains_key`].
    pub fn contains_key_ref(&self, k: &K) -> (r: bool)
        requires
            self.inv(),
        ensures
            r == self@.contains_key(*k),
    {
        self.fwd.contains_key(k)
    }

    /// True iff `v` is the value of some stored pair.
    pub fn contains_value(&self, v: V) -> (r: bool)
        requires
            self.inv(),
        ensures
            r == self@.contains_value(v),
    {
        proof {
            if self@.contains_value(v) {
                let k = choose|k: K| self@.dom().contains(k) && self@[k] == v;
                assert(self.bwd@.dom().contains(self.fwd@[k]));
            }
        }
        self.bwd.contains_key(&v)
    }

    /// The value of key `k`; `None` if `k` is absent.
    pub fn find(&self, k: K) -> (r: Option<V>)
        requires
            self.inv(),
        ensures
            match r {
                Some(v) => self@.contains_key(k) && v == self@[k],
                None => !self@.contains_key(k),
            },
    {
        match self.fwd.get(&k) {
            Some(v) => Some(*v),
            None => None,
        }
    }

    /// The key of value `v`; `None` if `v` is absent. The non-failing
    /// reverse lookup.
    pub fn find_key(&self, v: V) -> (r: Option<K>)
        requires
            self.inv(),
        ensures
            match r {
                Some(k) => self@.contains_key(k) && self@[k] == v && (forall|x: K|
                    self@.contains_key(x) && self@[x] == v ==> x == k),
                None => !self@.contains_value(v),
            },
    {
        proof {
            if self@.contains_value(v) {
                let k = choose|k: K| self@.dom().contains(k) && self@[k] == v;
                assert(self.bwd@.dom().contains(self.fwd@[k]));
            }
        }
        match self.bwd.get(&v) {
            Some(k) => Some(*k),
            None => None,
        }
    }

    /// The value of key `k`; fails with [`LookupError::NotFound`] if `k` is
    /// absent.
    pub fn get(&self, k: K) -> (r: Result<V, LookupError>)
        requires
            self.inv(),
        ensures
            match r {
                Ok(v) => self@.contains_key(k) && v == self@[k],
                Err(e) => !self@.contains_key(k) && e == LookupError::NotFound,
            },
    {
        match self.fwd.get(&k) {
            Some(v) => Ok(*v),
            None => Err(LookupError::NotFound),
        }
    }

    /// The key of value `v`; fails with [`LookupError::NotFound`] if `v` is
    /// absent. The failing form of the reverse lookup.
    pub fn get_key(&self, v: V) -> (r: Result<K, LookupError>)
        requires
            self.inv(),
        ensures
            match r {
                Ok(k) => self@.contains_key(k) && self@[k] == v && (forall|x: K|
                    self@.contains_key(x) && self@[x] == v ==> x == k),
                Err(e) => !self@.contains_value(v) && e == LookupError::NotFound,
            },
    {
        match self.find_key(v) {
            Some(k) => Ok(k),
            None => Err(LookupError::NotFound),
        }
    }

    /// Inserts the pair `(k, v)` and returns whether an existing key was
    /// overwritten.
    ///
    /// Any prior pair with key `k` is removed from both indices first, so no
    /// stale reverse entry survives an overwrite. A prior pair whose value
    /// is `v` is evicted as well (the last insert wins), so that both
    /// indices always describe one set of pairs in which each key and each
    /// value occurs once.
    pub fn insert(&mut self, k: K, v: V) -> (overwrote: bool)
        requires
            old(self).inv(),
        ensures
            final(self).inv(),
            final(self)@ == upserted(old(self)@, k, v),
            overwrote == old(self)@.contains_key(k),
    {
        let ghost f0 = self.fwd@;
        let ghost b0 = self.bwd@;
        let prior_value: Option<V> = match self.fwd.get(&k) {
            Some(v0) => Some(*v0),
            None => None,
        };
        let overwrote: bool = match prior_value {
            Some(v0) => {
                self.bwd.remove(&v0);
                true
            },
            None => false,
        };
        let prior_key: Option<K> = match self.bwd.get(&v) {
            Some(k0) => Some(*k0),
            None => None,
        };
        if let Some(k0) = prior_key {
            self.fwd.remove(&k0);
        }
        self.fwd.insert(k, v);
        self.bwd.insert(v, k);
        proof {
            lemma_upsert_consistent(f0, b0, k, v);
        }
        overwrote
    }

    /// Removes the pair keyed `k` from both indices and returns its value,
    /// or `None` if `k` is absent (in which case nothing changes).
    pub fn remove(&mut self, k: K) -> (r: Option<V>)
        requires
            old(self).inv(),
        ensures
            final(self).inv(),
            final(self)@ == old(self)@.remove(k),
            match r {
                Some(v) => old(self)@.contains_key(k) && v == old(self)@[k],
                None => !old(self)@.contains_key(k),
            },
    {
        let ghost f0 = self.fwd@;
        let ghost b0 = self.bwd@;
        match self.fwd.remove(&k) {
            Some(v) => {
                self.bwd.remove(&v);
                proof {
                    lemma_remove_consistent(f0, b0, k);
                }
                Some(v)
            },
            None => {
                proof {
                    assert(f0.remove(k) =~= f0);
                }
                None
            },
        }
    }

    /// Removes the pair valued `v` from both indices and returns its key,
    /// or `None` if `v` is absent (in which case nothing changes). The
    /// removal driven from the value side.
    pub fn remove_key(&mut self, v: V) -> (r: Option<K>)
        requires
            old(self).inv(),
        ensures
            final(self).inv(),
            match r {
                Some(k) => old(self)@.contains_key(k) && old(self)@[k] == v && final(self)@
                    == old(self)@.remove(k),
                None => !old(self)@.contains_value(v) && final(self)@ == old(self)@,
            },
    {
        let ghost f0 = self.fwd@;
        let ghost b0 = self.bwd@;
        match self.bwd.remove(&v) {
            Some(k) => {
                self.fwd.remove(&k);
                proof {
                    assert(consistent(b0, f0));
                    lemma_remove_consistent(b0, f0, v);
                    assert(consistent(self.fwd@, self.bwd@));
                }
                Some(k)
            },
            None => {
                proof {
                    if f0.contains_value(v) {
                        let kx = choose|kx: K| f0.dom().contains(kx) && f0[kx] == v;
                        assert(b0.dom().contains(f0[kx]));
                    }
                    assert(self.bwd@ =~= b0);
                }
                None
            },
        }
    }

    /// Empties both indices.
    pub fn clear(&mut self)
        requires
            old(self).inv(),
        ensures
            final(self).inv(),
            final(self)@ == Map::<K, V>::empty(),
    {
        self.fwd.clear();
        self.bwd.clear();
    }

    /// Swaps the roles of keys and values: the result owns the same two
    /// indices, with the original's backward index as its forward one. No
    /// pair is copied; every lookup on the result answers as the reverse
    /// lookup on the original did.
    pub fn reverse(self) -> (r: Bimap<V, K>)
        requires
            self.inv(),
        ensures
            r.inv(),
            r@ == self.rev_view(),
            r.rev_view() == self@,
    {
        let Bimap { fwd, bwd } = self;
        Bimap { fwd: bwd, bwd: fwd }
    }

    /// Every stored pair, enumerated in the (implementation-defined) order
    /// of the forward index: the canonical traversal, from which the key
    /// and value enumerations are derived.
    pub fn pairs(&self) -> (r: Vec<(K, V)>)
        requires
            self.inv(),
        ensures
            r@.len() == self@.dom().len(),
            forall|i: int|
                0 <= i < r@.len() ==> self@.contains_key(#[trigger] r@[i].0) && self@[r@[i].0]
                    == r@[i].1,
            forall|k: K| #[trigger]
                self@.dom().contains(k) ==> exists|i: int|
                    0 <= i < r@.len() && r@[i] == (k, self@[k]),
            forall|i: int, j: int| 0 <= i < j < r@.len() ==> r@[i].0 != r@[j].0,
    {
        let mut r: Vec<(K, V)> = Vec::new();
        for kv in it: self.fwd.iter()
            invariant
                self.inv(),
                it.seq().len() == self@.dom().len(),
                forall|i: int|
                    0 <= i < it.seq().len() ==> self@.contains_key(#[trigger] (*it.seq()[i].0))
                        && self@[*it.seq()[i].0] == *it.seq()[i].1,
                forall|k: K| #[trigger]
                    self@.dom().contains(k) ==> it.seq().contains((&k, &self@[k])),
                it.seq().no_duplicates(),
                r@.len() == it.index(),
                forall|i: int|
                    0 <= i < r@.len() ==> #[trigger] r@[i] == (*it.seq()[i].0, *it.seq()[i].1),
                forall|i: int|
                    0 <= i < r@.len() ==> self@.contains_key(#[trigger] r@[i].0) && self@[r@[i].0]
                        == r@[i].1,
                forall|i: int, j: int| 0 <= i < j < r@.len() ==> r@[i].0 != r@[j].0,
        {
            r.push((*kv.0, *kv.1));
        }
        proof {
            lemma_distinct_pairs_cover(self@, r@);
        }
        r
    }

    /// Every stored key, in the order of the canonical traversal
    /// [`Bimap::pairs`].
    pub fn keys(&self) -> (r: Vec<K>)
        requires
            self.inv(),
        ensures
            r@.len() == self@.dom().len(),
            forall|i: int| 0 <= i < r@.len() ==> self@.dom().contains(#[trigger] r@[i]),
            forall|k: K| #[trigger] self@.dom().contains(k) ==> r@.contains(k),
            r@.no_duplicates(),
    {
        let ps = self.pairs();
        let mut r: Vec<K> = Vec::new();
        let mut i: usize = 0;
        while i < ps.len()
            invariant
                i <= ps@.len(),
                r@.len() == i,
                forall|j: int| 0 <= j < r@.len() ==> #[trigger] r@[j] == ps@[j].0,
            decreases ps@.len() - i,
        {
            r.push(ps[i].0);
            i = i + 1;
        }
        proof {
            assert forall|k: K| #[trigger] self@.dom().contains(k) implies r@.contains(k) by {
                let j = choose|j: int| 0 <= j < ps@.len() && ps@[j] == (k, self@[k]);
                assert(r@[j] == k);
            };
        }
        r
    }

    /// Every stored value, in the order of the canonical traversal
    /// [`Bimap::pairs`].
    pub fn values(&self) -> (r: Vec<V>)
        requires
            self.inv(),
        ensures
            r@.len() == self@.dom().len(),
            forall|i: int| 0 <= i < r@.len() ==> self@.contains_value(#[trigger] r@[i]),
            forall|v: V| #[trigger] self@.contains_value(v) ==> r@.contains(v),
            r@.no_duplicates(),
    {
        let ps = self.pairs();
        let mut r: Vec<V> = Vec::new();
        let mut i: usize = 0;
        while i < ps.len()
            invariant
                i <= ps@.len(),
                r@.len() == i,
                forall|j: int| 0 <= j < r@.len() ==> #[trigger] r@[j] == ps@[j].1,
            decreases ps@.len() - i,
        {
            r.push(ps[i].1);
            i = i + 1;
        }
        proof {
            assert forall|i2: int| 0 <= i2 < r@.len() implies self@.contains_value(
                #[trigger] r@[i2],
            ) by {
                assert(self@.dom().contains(ps@[i2].0) && self@[ps@[i2].0] == r@[i2]);
            };
            assert forall|v: V| #[trigger] self@.contains_value(v) implies r@.contains(v) by {
                let k = choose|k: K| self@.dom().contains(k) && self@[k] == v;
                let j = choose|j: int| 0 <= j < ps@.len() && ps@[j] == (k, self@[k]);
                assert(r@[j] == v);
            };
            assert forall|i2: int, j2: int| 0 <= i2 < j2 < r@.len() implies r@[i2] != r@[j2] by {
                let ka = ps@[i2].0;
                let kb = ps@[j2].0;
                assert(self.bwd@.dom().contains(self.fwd@[ka]) && self.bwd@[self.fwd@[ka]] == ka);
                assert(self.bwd@.dom().contains(self.fwd@[kb]) && self.bwd@[self.fwd@[kb]] == kb);
            };
        }
        r
    }

    /// The value of key `k`, which the caller must know to be present; the
    /// indexing form of [`Bimap::get`].
    pub fn index(&self, k: K) -> (v: V)
        requires
            self.inv(),
            self@.contains_key(k),
        ensures
            v == self@[k],
    {
        match self.fwd.get(&k) {
            Some(v) => *v,
            None => vstd::pervasive::unreached(),
        }
    }
}

/// Removing the pair keyed `k` from the forward index and its value from
/// the backward index leaves the two indices agreeing.
proof fn lemma_remove_consistent<K, V>(f: Map<K, V>, b: Map<V, K>, k: K)
    requires
        consistent(f, b),
        f.dom().contains(k),
    ensures
        consistent(f.remove(k), b.remove(f[k])),
{
    let f1 = f.remove(k);
    let b1 = b.remove(f[k]);
    assert forall|x: K| #[trigger] f1.dom().contains(x) implies b1.dom().contains(f1[x])
        && b1[f1[x]] == x by {
        assert(b.dom().contains(f[x]) && b[f[x]] == x);
        assert(b.dom().contains(f[k]) && b[f[k]] == k);
    };
    assert forall|y: V| #[trigger] b1.dom().contains(y) implies f1.dom().contains(b1[y])
        && f1[b1[y]] == y by {
        assert(f.dom().contains(b[y]) && f[b[y]] == y);
    };
}

/// A sequence of pairs of `m` with pairwise-distinct keys and as many
/// entries as `m` has keys enumerates every pair of `m`.
proof fn lemma_distinct_pairs_cover<K, V>(m: Map<K, V>, s: Seq<(K, V)>)
    requires
        m.dom().finite(),
        s.len() == m.dom().len(),
        forall|i: int|
            0 <= i < s.len() ==> m.dom().contains(#[trigger] s[i].0) && m[s[i].0] == s[i].1,
        forall|i: int, j: int| 0 <= i < j < s.len() ==> s[i].0 != s[j].0,
    ensures
        forall|k: K| #[trigger]
            m.dom().contains(k) ==> exists|i: int| 0 <= i < s.len() && s[i] == (k, m[k]),
    decreases s.len(),
{
    if s.len() > 0 {
        let last = s[s.len() - 1];
        let m1 = m.remove(last.0);
        let s1 = s.drop_last();
        assert(m.dom().len() == 1 + m1.dom().len()) by {
            m.lemma_remove_key_len(last.0);
        }
        lemma_distinct_pairs_cover(m1, s1);
        assert forall|k: K| #[trigger] m.dom().contains(k) implies exists|i: int|
            0 <= i < s.len() && s[i] == (k, m[k]) by {
            if k == last.0 {
                assert(s[s.len() - 1] == (k, m[k]));
            } else {
                assert(m1.dom().contains(k));
                let i = choose|i: int| 0 <= i < s1.len() && s1[i] == (k, m1[k]);
                assert(s[i] == (k, m[k]));
            }
        };
    } else {
        assert(m.dom() =~= Set::<K>::empty()) by {
            if m.dom().len() == 0 {
                m.dom().lemma_len0_is_empty();
            }
        }
    }
}

/// The two-sided eviction performed by `insert`, stated over the maps: after
/// dropping `k`'s old value from the backward index and `v`'s old key from
/// the forward index, writing the pair `(k, v)` into both indices leaves
/// them agreeing, and the forward index is exactly `upserted(f0, k, v)`.
proof fn lemma_upsert_consistent<K, V>(f0: Map<K, V>, b0: Map<V, K>, k: K, v: V)
    requires
        consistent(f0, b0),
    ensures
        ({
            let b1 = if f0.dom().contains(k) {
                b0.remove(f0[k])
            } else {
                b0
            };
            let f2 = if b1.dom().contains(v) {
                f0.remove(b1[v])
            } else {
                f0
            };
            &&& consistent(f2.insert(k, v), b1.insert(v, k))
            &&& f2.insert(k, v) == upserted(f0, k, v)
        }),
{
    let b1 = if f0.dom().contains(k) {
        b0.remove(f0[k])
    } else {
        b0
    };
    let f2 = if b1.dom().contains(v) {
        f0.remove(b1[v])
    } else {
        f0
    };
    let f3 = f2.insert(k, v);
    let b3 = b1.insert(v, k);
    let up = upserted(f0, k, v);
    // When a key is evicted for already holding value v, it owns v in f0 and
    // differs from k.
    if b1.dom().contains(v) {
        let k0 = b1[v];
        assert(b0.dom().contains(v) && b0[v] == k0);
        assert(f0.dom().contains(k0) && f0[k0] == v);
        assert(k0 != k) by {
            if k0 == k {
                assert(f0.dom().contains(k) && f0[k] == v);
                assert(!b0.remove(f0[k]).dom().contains(v));
            }
        };
    }
    // No key other than k and the evicted one holds value v in f0.
    assert forall|x: K| x != k && f0.dom().contains(x) && f0[x] == v implies b1.dom().contains(
        v,
    ) && x == b1[v] by {
        assert(b0.dom().contains(f0[x]) && b0[f0[x]] == x);
        if f0.dom().contains(k) {
            assert(b0.dom().contains(f0[k]) && b0[f0[k]] == k);
        }
    };
    assert forall|x: K| #[trigger] up.dom().contains(x) implies f3.dom().contains(x) && f3[x]
        == up[x] by {
        if x != k {
            assert(f0.dom().contains(x) && f0[x] != v);
        }
    };
    assert forall|x: K| #[trigger] f3.dom().contains(x) implies up.dom().contains(x) by {
        if x != k {
            assert(f0.dom().contains(x));
        }
    };
    assert(f3 =~= up);
    assert forall|x: K| #[trigger] f3.dom().contains(x) implies b3.dom().contains(f3[x])
        && b3[f3[x]] == x by {
        if x != k {
            assert(b0.dom().contains(f0[x]) && b0[f0[x]] == x);
            if f0.dom().contains(k) {
                assert(b0.dom().contains(f0[k]) && b0[f0[k]] == k);
            }
        }
    };
    assert forall|y: V| #[trigger] b3.dom().contains(y) implies f3.dom().contains(b3[y])
        && f3[b3[y]] == y by {
        if y != v {
            assert(f0.dom().contains(b0[y]) && f0[b0[y]] == y);
            if b1.dom().contains(v) {
                assert(f0[b1[v]] == v);
            }
        }
    };
}

/// The two indices are two views of one set of pairs: the forward map never
/// sends two keys to one value, the backward index is exactly its inverse,
/// and both sides hold the same number of pairs.
pub proof fn lemma_size_parity<K, V>(b: Bimap<K, V>)
    requires
        b.inv(),
    ensures
        b@.is_injective(),
        b.rev_view() == b@.invert(),
        b@.dom().finite(),
        b.rev_view().dom().finite(),
        b.rev_view().dom().len() == b@.dom().len(),
{
    let f = b@;
    let w = b.rev_view();
    assert forall|x: K, y: K|
        x != y && f.dom().contains(x) && f.dom().contains(y) implies #[trigger] f[x]
        != #[trigger] f[y] by {
        if f[x] == f[y] {
            assert(w.dom().contains(f[x]) && w[f[x]] == x);
            assert(w.dom().contains(f[y]) && w[f[y]] == y);
        }
    };
    assert forall|v: V| #[trigger] w.dom().contains(v) implies f.invert().dom().contains(v)
        && f.invert()[v] == w[v] by {
        assert(f.dom().contains(w[v]) && f[w[v]] == v);
        assert(f.contains_pair(w[v], v));
        let k0 = choose|k0: K| f.contains_pair(k0, v);
        assert(f.contains_pair(k0, v));
        assert(f[k0] == f[w[v]]);
    };
    assert forall|v: V| #[trigger] f.invert().dom().contains(v) implies w.dom().contains(v) by {
        let k0 = choose|k0: K| f.dom().contains(k0) && f[k0] == v;
        assert(w.dom().contains(f[k0]));
    };
    assert(w =~= f.invert());
    assert(f.invert().dom() =~= f.values());
    f.lemma_injective_values_len();
}

/// The round-trip law: a key's value leads back to that key alone, and a
/// value's key leads back to that value. Looking up `get(k)` in reverse can
/// only answer `k`, since no two keys share a value.
pub proof fn lemma_round_trip<K, V>(b: Bimap<K, V>, k1: K, k2: K)
    requires
        b.inv(),
        b@.contains_key(k1),
        b@.contains_key(k2),
        b@[k1] == b@[k2],
    ensures
        k1 == k2,
{
    lemma_size_parity(b);
}

/// Writing a pair never breaks the one-partner-per-side discipline.
pub proof fn lemma_upsert_injective<K, V>(m: Map<K, V>, k: K, v: V)
    requires
        m.is_injective(),
    ensures
        upserted(m, k, v).is_injective(),
{
    let up = upserted(m, k, v);
    assert forall|x: K, y: K|
        x != y && up.dom().contains(x) && up.dom().contains(y) implies #[trigger] up[x]
        != #[trigger] up[y] by {};
}

/// The upsert-overwrite law: after `insert(k, v1)` then `insert(k, v2)`,
/// the stale value `v1` is gone from both sides, and `v2` belongs to `k`
/// alone.
pub proof fn lemma_upsert_overwrite<K, V>(m: Map<K, V>, k: K, v1: V, v2: V)
    requires
        v1 != v2,
    ensures
        ({
            let m2 = upserted(upserted(m, k, v1), k, v2);
            &&& !m2.contains_value(v1)
            &&& m2.contains_key(k) && m2[k] == v2
            &&& forall|x: K| m2.contains_key(x) && #[trigger] m2[x] == v2 ==> x == k
        }),
{
    let m1 = upserted(m, k, v1);
    let m2 = upserted(m1, k, v2);
    assert forall|x: K| #[trigger] m2.dom().contains(x) implies m2[x] != v1 by {
        if x != k {
            assert(m1.dom().contains(x) && m1[x] != v2);
            assert(m1[x] != v1);
        }
    };
}

/// The removal-symmetry law: removing a pair by its key erases its value
/// from the value side too (and, trivially, the key from the key side), so
/// neither direction can still resolve the dead pair.
pub proof fn lemma_removal_symmetry<K, V>(b: Bimap<K, V>, k: K)
    requires
        b.inv(),
        b@.contains_key(k),
    ensures
        !b@.remove(k).contains_value(b@[k]),
        !b@.remove(k).contains_key(k),
{
    lemma_size_parity(b);
    let m1 = b@.remove(k);
    assert forall|x: K| #[trigger] m1.dom().contains(x) implies m1[x] != b@[k] by {
        assert(b@.dom().contains(x));
    };
}

/// The clear law: the empty map holds no key and no value, and its size is
/// zero; after `clear()` both directions reject every query.
pub proof fn lemma_clear_empties<K, V>(k: K, v: V)
    ensures
        Map::<K, V>::empty().dom().len() == 0,
        !Map::<K, V>::empty().contains_key(k),
        !Map::<K, V>::empty().contains_value(v),
{
    assert(Map::<K, V>::empty().dom() =~= Set::<K>::empty());
}

/// The reverse-aliasing law: a reversed bimap answers forward lookups
/// exactly as the original answers reverse lookups — it holds `v` as a key
/// precisely when the original holds `v` as a value, and resolves it to the
/// key the original pairs with `v`.
pub proof fn lemma_reverse_lookup<K, V>(b: Bimap<K, V>, r: Bimap<V, K>, v: V)
    requires
        b.inv(),
        r.inv(),
        r@ == b.rev_view(),
        r.rev_view() == b@,
    ensures
        r@.contains_key(v) <==> b@.contains_value(v),
        r@.contains_key(v) ==> b@.contains_key(r@[v]) && b@[r@[v]] == v,
{
    if r@.contains_key(v) {
        assert(b@.dom().contains(r@[v]) && b@[r@[v]] == v);
    }
    if b@.contains_value(v) {
        let k0 = choose|k0: K| b@.dom().contains(k0) && b@[k0] == v;
        assert(r@.dom().contains(b@[k0]));
    }
}

/// A map with no value shared between two keys agrees with its own
/// inverse.
proof fn lemma_invert_consistent<K, V>(m: Map<K, V>)
    requires
        m.is_injective(),
    ensures
        consistent(m, m.invert()),
{
    let w = m.invert();
    assert forall|x: K| #[trigger] m.dom().contains(x) implies w.dom().contains(m[x]) && w[m[x]]
        == x by {
        assert(m.contains_pair(x, m[x]));
        let x0 = choose|x0: K| m.contains_pair(x0, m[x]);
        assert(m.contains_pair(x0, m[x]));
    };
    assert forall|y: V| #[trigger] w.dom().contains(y) implies m.dom().contains(w[y]) && m[w[y]]
        == y by {
        let x1 = choose|x1: K| m.dom().contains(x1) && m[x1] == y;
        assert(m.contains_pair(x1, y));
        let x0 = choose|x0: K| m.contains_pair(x0, y);
        assert(m.contains_pair(x0, y));
    };
}

/// A forward map determines its consistent backward partner.
proof fn lemma_consistent_unique<K, V>(f: Map<K, V>, b1: Map<V, K>, b2: Map<V, K>)
    requires
        consistent(f, b1),
        consistent(f, b2),
    ensures
        b1 == b2,
{
    assert forall|y: V| #[trigger] b1.dom().contains(y) implies b2.dom().contains(y) && b2[y]
        == b1[y] by {
        assert(f.dom().contains(b1[y]) && f[b1[y]] == y);
    };
    assert forall|y: V| #[trigger] b2.dom().contains(y) implies b1.dom().contains(y) by {
        assert(f.dom().contains(b2[y]) && f[b2[y]] == y);
    };
    assert(b1 =~= b2);
}

/// The other half of the reverse-aliasing law: the two handles share their
/// storage, so writing through either is one and the same mutation —
/// inserting `(k, v)` forward and then reversing equals reversing and then
/// inserting `(v, k)`.
pub proof fn lemma_reverse_upsert<K, V>(m: Map<K, V>, k: K, v: V)
    requires
        m.is_injective(),
    ensures
        upserted(m, k, v).invert() == upserted(m.invert(), v, k),
{
    let w = m.invert();
    let up = upserted(m, k, v);
    lemma_invert_consistent(m);
    lemma_upsert_injective(m, k, v);
    lemma_invert_consistent(up);
    lemma_upsert_consistent(m, w, k, v);
    let b1 = if m.dom().contains(k) {
        w.remove(m[k])
    } else {
        w
    };
    let b3 = b1.insert(v, k);
    let rhs = upserted(w, v, k);
    assert forall|y: V| #[trigger] b3.dom().contains(y) implies rhs.dom().contains(y) && rhs[y]
        == b3[y] by {
        if y != v {
            assert(w.dom().contains(y));
            assert(m.dom().contains(w[y]) && m[w[y]] == y);
            if w[y] == k {
                assert(y == m[k]);
            }
        }
    };
    assert forall|y: V| #[trigger] rhs.dom().contains(y) implies b3.dom().contains(y) by {
        if y != v {
            assert(w.dom().contains(y) && w[y] != k);
            if m.dom().contains(k) && y == m[k] {
                assert(w[m[k]] == k);
            }
        }
    };
    assert(b3 =~= rhs);
    lemma_consistent_unique(up, up.invert(), b3);
}

/// Creates an empty bimap; the free-function spelling of [`Bimap::new`].
pub fn bimap<K: Copy + Eq + Hash, V: Copy + Eq + Hash>() -> (r: Bimap<K, V>)
    requires
        obeys_key_model::<K>(),
        obeys_key_model::<V>(),
    ensures
        r.inv(),
        r@ == Map::<K, V>::empty(),
{
    Bimap::new()
}

} // verus!
