//! A small association map, kept as a list of key-value pairs with distinct
//! keys, for keys that are compared by what they stand for: names, nodes and
//! ports. Every table of the Hut graph is one of these.
use vstd::prelude::*;

verus! {

/// A key that can be compared, with the value it stands for in contracts.
pub trait MapKey: Sized {
    type Key;

    spec fn key(&self) -> Self::Key;

    fn same(&self, other: &Self) -> (r: bool)
        ensures
            r == (self.key() == other.key()),
    ;
}

/// A map from `K` to `T`.
pub struct AssocMap<K: MapKey, T> {
    keys: Vec<K>,
    values: Vec<T>,
}

/// The entries of `m` that `keep` accepts.
pub open spec fn filtered<Key, T>(m: Map<Key, T>, keep: spec_fn(Key, T) -> bool) -> Map<Key, T> {
    Map::new(|k: Key| m.contains_key(k) && keep(k, m[k]), |k: Key| m[k])
}

/// The pairs of two lists of equal length.
pub open spec fn zipped<K, T>(keys: Seq<K>, values: Seq<T>) -> Seq<(K, T)> {
    Seq::new(keys.len(), |i: int| (keys[i], values[i]))
}

pub open spec fn keys_distinct<K: MapKey, T>(s: Seq<(K, T)>) -> bool {
    forall|i: int, j: int|
        #![trigger s[i], s[j]]
        0 <= i < j < s.len() ==> s[i].0.key() != s[j].0.key()
}

pub open spec fn key_at<K: MapKey, T>(s: Seq<(K, T)>, k: K::Key, i: int) -> bool {
    0 <= i < s.len() && s[i].0.key() == k
}

pub open spec fn has_key<K: MapKey, T>(s: Seq<(K, T)>, k: K::Key) -> bool {
    exists|i: int| key_at(s, k, i)
}

/// The map that a list of pairs stands for.
pub open spec fn pairs_map<K: MapKey, T>(s: Seq<(K, T)>) -> Map<K::Key, T> {
    Map::new(|k: K::Key| has_key(s, k), |k: K::Key| s[choose|i: int| key_at(s, k, i)].1)
}

proof fn lemma_at<K: MapKey, T>(s: Seq<(K, T)>, i: int)
    requires
        keys_distinct(s),
        0 <= i < s.len(),
    ensures
        pairs_map(s).contains_key(s[i].0.key()),
        pairs_map(s)[s[i].0.key()] == s[i].1,
{
    let k = s[i].0.key();
    assert(key_at(s, k, i));
    let j = choose|j: int| key_at(s, k, j);
    assert(key_at(s, k, j));
    assert(s[i].0.key() == s[j].0.key());
}

proof fn lemma_push<K: MapKey, T>(s: Seq<(K, T)>, k: K, v: T)
    requires
        keys_distinct(s),
        !has_key(s, k.key()),
    ensures
        keys_distinct(s.push((k, v))),
        pairs_map(s.push((k, v))) == pairs_map(s).insert(k.key(), v),
{
    let t = s.push((k, v));
    assert forall|i: int, j: int|
        #![trigger t[i], t[j]]
        0 <= i < j < t.len() implies t[i].0.key() != t[j].0.key() by {
        if j == s.len() {
            assert(!key_at(s, k.key(), i));
        } else {
            assert(t[i] == s[i] && t[j] == s[j]);
        }
    }
    assert forall|q: K::Key| has_key(t, q) <==> (has_key(s, q) || q == k.key()) by {
        if has_key(s, q) {
            let i = choose|i: int| key_at(s, q, i);
            assert(t[i] == s[i]);
            assert(key_at(t, q, i));
        }
        if q == k.key() {
            assert(key_at(t, q, s.len() as int));
        }
        if has_key(t, q) {
            let i = choose|i: int| key_at(t, q, i);
            if i < s.len() {
                assert(key_at(s, q, i));
            }
        }
    }
    assert forall|q: K::Key| has_key(t, q) implies #[trigger] pairs_map(t)[q] == pairs_map(s).insert(
        k.key(),
        v,
    )[q] by {
        if q == k.key() {
            lemma_at(t, s.len() as int);
        } else {
            let i = choose|i: int| key_at(s, q, i);
            assert(key_at(s, q, i));
            lemma_at(s, i);
            lemma_at(t, i);
        }
    }
    assert(pairs_map(t) =~= pairs_map(s).insert(k.key(), v));
}

proof fn lemma_remove<K: MapKey, T>(s: Seq<(K, T)>, at: int)
    requires
        keys_distinct(s),
        0 <= at < s.len(),
    ensures
        keys_distinct(s.remove(at)),
        pairs_map(s.remove(at)) == pairs_map(s).remove(s[at].0.key()),
{
    let t = s.remove(at);
    let k = s[at].0.key();
    assert forall|i: int, j: int|
        #![trigger t[i], t[j]]
        0 <= i < j < t.len() implies t[i].0.key() != t[j].0.key() by {
        let i2 = if i < at { i } else { i + 1 };
        let j2 = if j < at { j } else { j + 1 };
        assert(t[i] == s[i2] && t[j] == s[j2]);
    }
    assert forall|q: K::Key| has_key(t, q) <==> (has_key(s, q) && q != k) by {
        if has_key(s, q) && q != k {
            let i = choose|i: int| key_at(s, q, i);
            assert(key_at(s, q, i));
            assert(key_at(t, q, if i < at { i } else { i - 1 }));
        }
        if has_key(t, q) {
            let i = choose|i: int| key_at(t, q, i);
            let i2 = if i < at { i } else { i + 1 };
            assert(key_at(s, q, i2));
            assert(s[i2].0.key() != s[at].0.key());
        }
    }
    assert forall|q: K::Key| has_key(t, q) implies #[trigger] pairs_map(t)[q] == pairs_map(s)[q] by {
        let i = choose|i: int| key_at(t, q, i);
        assert(key_at(t, q, i));
        let i2 = if i < at { i } else { i + 1 };
        assert(t[i] == s[i2]);
        lemma_at(t, i);
        lemma_at(s, i2);
    }
    assert(pairs_map(t) =~= pairs_map(s).remove(k));
}

proof fn lemma_update<K: MapKey, T>(s: Seq<(K, T)>, at: int, v: T)
    requires
        keys_distinct(s),
        0 <= at < s.len(),
    ensures
        keys_distinct(s.update(at, (s[at].0, v))),
        pairs_map(s.update(at, (s[at].0, v))) == pairs_map(s).insert(s[at].0.key(), v),
{
    let t = s.update(at, (s[at].0, v));
    let k = s[at].0.key();
    assert forall|i: int| 0 <= i < s.len() implies (#[trigger] t[i]).0 == s[i].0 by {}
    assert forall|i: int, j: int|
        #![trigger t[i], t[j]]
        0 <= i < j < t.len() implies t[i].0.key() != t[j].0.key() by {
        assert(s[i].0.key() != s[j].0.key());
    }
    assert forall|q: K::Key| has_key(t, q) <==> has_key(s, q) by {
        if has_key(s, q) {
            let i = choose|i: int| key_at(s, q, i);
            assert(key_at(s, q, i));
            assert(key_at(t, q, i));
        }
        if has_key(t, q) {
            let i = choose|i: int| key_at(t, q, i);
            assert(key_at(t, q, i));
            assert(key_at(s, q, i));
        }
    }
    assert(key_at(s, k, at));
    assert forall|q: K::Key| has_key(t, q) implies #[trigger] pairs_map(t)[q] == pairs_map(s).insert(
        k,
        v,
    )[q] by {
        let i = choose|i: int| key_at(t, q, i);
        assert(key_at(t, q, i));
        lemma_at(t, i);
        lemma_at(s, i);
        if i != at {
            assert(t[i] == s[i]);
            if i < at {
                assert(s[i].0.key() != s[at].0.key());
            } else {
                assert(s[at].0.key() != s[i].0.key());
            }
        }
    }
    assert(pairs_map(t) =~= pairs_map(s).insert(k, v));
}

impl<K: MapKey, T> View for AssocMap<K, T> {
    type V = Map<K::Key, T>;

    closed spec fn view(&self) -> Map<K::Key, T> {
        pairs_map(zipped(self.keys@, self.values@))
    }
}

impl<K: MapKey, T> AssocMap<K, T> {
    #[verifier::type_invariant]
    spec fn distinct(self) -> bool {
        &&& self.keys@.len() == self.values@.len()
        &&& keys_distinct(zipped(self.keys@, self.values@))
    }

    /// The empty map.
    pub fn new() -> (r: Self)
        ensures
            r@ == Map::<K::Key, T>::empty(),
    {
        let r = AssocMap { keys: Vec::new(), values: Vec::new() };
        proof {
            assert forall|k: K::Key| !has_key(zipped(r.keys@, r.values@), k) by {}
            assert(r@ =~= Map::<K::Key, T>::empty());
        }
        r
    }

    fn position(&self, k: &K) -> (r: Option<usize>)
        ensures
            match r {
                Some(i) => i < self.keys@.len() && self.keys@[i as int].key() == k.key(),
                None => !has_key(zipped(self.keys@, self.values@), k.key()),
            },
    {
        for i in 0..self.keys.len()
            invariant
                forall|j: int| 0 <= j < i ==> (#[trigger] self.keys@[j]).key() != k.key(),
        {
            if self.keys[i].same(k) {
                return Some(i);
            }
        }
        assert forall|j: int| !key_at(zipped(self.keys@, self.values@), k.key(), j) by {
            if 0 <= j < self.keys@.len() {
                assert(self.keys@[j].key() != k.key());
            }
        }
        None
    }

    pub fn contains_key(&self, k: &K) -> (r: bool)
        ensures
            r == self@.contains_key(k.key()),
    {
        proof {
            use_type_invariant(self);
        }
        match self.position(k) {
            Some(i) => {
                proof {
                    lemma_at(zipped(self.keys@, self.values@), i as int);
                }
                true
            },
            None => false,
        }
    }

    pub fn get(&self, k: &K) -> (r: Option<&T>)
        ensures
            r == (if self@.contains_key(k.key()) {
                Some(&self@[k.key()])
            } else {
                None::<&T>
            }),
    {
        proof {
            use_type_invariant(self);
        }
        match self.position(k) {
            Some(i) => {
                proof {
                    lemma_at(zipped(self.keys@, self.values@), i as int);
                }
                Some(&self.values[i])
            },
            None => None,
        }
    }

    /// The value under `k`, to be changed in place.
    pub fn get_mut(&mut self, k: &K) -> (r: Option<&mut T>)
        ensures
            match r {
                Some(v) => {
                    &&& old(self)@.contains_key(k.key())
                    &&& *v == old(self)@[k.key()]
                    &&& final(self)@ == old(self)@.insert(k.key(), *final(v))
                },
                None => !old(self)@.contains_key(k.key()) && final(self)@ == old(self)@,
            },
    {
        proof {
            use_type_invariant(&*self);
        }
        match self.position(k) {
            Some(i) => {
                proof {
                    Self::lemma_set(self.keys@, self.values@, i as int);
                    lemma_at(zipped(self.keys@, self.values@), i as int);
                }
                Some(&mut self.values[i])
            },
            None => None,
        }
    }

    proof fn lemma_set(keys: Seq<K>, values: Seq<T>, i: int)
        requires
            keys.len() == values.len(),
            keys_distinct(zipped(keys, values)),
            0 <= i < keys.len(),
        ensures
            forall|v: T|
                #![trigger values.update(i, v)]
                {
                    &&& keys_distinct(zipped(keys, values.update(i, v)))
                    &&& pairs_map(zipped(keys, values.update(i, v))) == pairs_map(
                        zipped(keys, values),
                    ).insert(keys[i].key(), v)
                },
    {
        let s = zipped(keys, values);
        assert forall|v: T|
            #![trigger values.update(i, v)]
            {
                &&& keys_distinct(zipped(keys, values.update(i, v)))
                &&& pairs_map(zipped(keys, values.update(i, v))) == pairs_map(
                    zipped(keys, values),
                ).insert(keys[i].key(), v)
            } by {
            lemma_update(s, i, v);
            assert(zipped(keys, values.update(i, v)) =~= s.update(i, (s[i].0, v)));
        }
    }

    /// Sets the value under `k`, replacing what was there.
    pub fn insert(&mut self, k: K, v: T)
        ensures
            final(self)@ == old(self)@.insert(k.key(), v),
    {
        proof {
            use_type_invariant(&*self);
        }
        let found = self.position(&k);
        let mut whole = AssocMap::new();
        std::mem::swap(&mut whole, self);
        let AssocMap { keys: mut keys, values: mut values } = whole;
        let ghost before = zipped(keys@, values@);
        match found {
            Some(i) => {
                proof {
                    Self::lemma_set(keys@, values@, i as int);
                }
                values.set(i, v);
            },
            None => {
                proof {
                    lemma_push(before, k, v);
                    assert(zipped(keys@.push(k), values@.push(v)) =~= before.push((k, v)));
                }
                keys.push(k);
                values.push(v);
            },
        }
        *self = AssocMap { keys, values };
    }

    /// Takes the value under `k` out of the map.
    pub fn remove(&mut self, k: &K) -> (r: Option<T>)
        ensures
            r == (if old(self)@.contains_key(k.key()) {
                Some(old(self)@[k.key()])
            } else {
                None::<T>
            }),
            final(self)@ == old(self)@.remove(k.key()),
    {
        proof {
            use_type_invariant(&*self);
        }
        let found = self.position(k);
        match found {
            Some(i) => {
                let mut whole = AssocMap::new();
                std::mem::swap(&mut whole, self);
                let AssocMap { keys: mut keys, values: mut values } = whole;
                proof {
                    let s = zipped(keys@, values@);
                    lemma_at(s, i as int);
                    lemma_remove(s, i as int);
                    assert(zipped(keys@.remove(i as int), values@.remove(i as int)) =~= s.remove(i as int));
                }
                keys.remove(i);
                let r = values.remove(i);
                *self = AssocMap { keys, values };
                Some(r)
            },
            None => {
                assert(self@ =~= self@.remove(k.key()));
                None
            },
        }
    }

    /// Drops every entry.
    pub fn clear(&mut self)
        ensures
            final(self)@ == Map::<K::Key, T>::empty(),
    {
        *self = AssocMap::new();
    }

    /// Takes out the entry that was added last.
    pub fn pop(&mut self) -> (r: Option<(K, T)>)
        ensures
            match r {
                Some(e) => {
                    &&& old(self)@.contains_pair(e.0.key(), e.1)
                    &&& final(self)@ == old(self)@.remove(e.0.key())
                    &&& final(self).size() == old(self).size() - 1
                },
                None => old(self)@ == Map::<K::Key, T>::empty() && final(self)@ == old(self)@,
            },
    {
        proof {
            use_type_invariant(&*self);
        }
        let mut whole = AssocMap::new();
        std::mem::swap(&mut whole, self);
        let AssocMap { keys: mut keys, values: mut values } = whole;
        let ghost s = zipped(keys@, values@);
        match keys.pop() {
            None => {
                assert forall|k: K::Key| !has_key(s, k) by {}
                assert(pairs_map(s) =~= Map::<K::Key, T>::empty());
                None
            },
            Some(k) => {
                let v = values.pop().unwrap();
                proof {
                    let n = s.len() - 1;
                    lemma_at(s, n);
                    lemma_remove(s, n);
                    assert(s.remove(n) =~= zipped(keys@, values@));
                }
                *self = AssocMap { keys, values };
                Some((k, v))
            },
        }
    }

    /// Keeps only the entries that `f` accepts.
    pub(crate) fn retain<F: Fn(&K, &T) -> bool>(
        &mut self,
        f: F,
        Ghost(keep): Ghost<spec_fn(K::Key, T) -> bool>,
    )
        requires
            forall|k: &K, v: &T| #[trigger] call_requires(f, (k, v)),
            forall|k: &K, v: &T, r: bool| #[trigger]
                call_ensures(f, (k, v), r) ==> r == keep(k.key(), *v),
        ensures
            final(self)@ == filtered(old(self)@, keep),
    {
        let ghost all = self@;
        let mut rest = AssocMap::new();
        std::mem::swap(&mut rest, self);
        let mut kept: AssocMap<K, T> = AssocMap::new();
        loop
            invariant
                forall|k: &K, v: &T| #[trigger] call_requires(f, (k, v)),
                forall|k: &K, v: &T, r: bool| #[trigger]
                    call_ensures(f, (k, v), r) ==> r == keep(k.key(), *v),
                forall|k: K::Key| #[trigger]
                    rest@.contains_key(k) ==> all.contains_key(k) && rest@[k] == all[k],
                forall|k: K::Key| #[trigger]
                    kept@.contains_key(k) <==> (all.contains_key(k) && !rest@.contains_key(k)
                        && keep(k, all[k])),
                forall|k: K::Key| #[trigger] kept@.contains_key(k) ==> kept@[k] == all[k],
            ensures
                kept@ == filtered(all, keep),
            decreases rest.size(),
        {
            let ghost left = rest@;
            match rest.pop() {
                None => {
                    assert(kept@ =~= filtered(all, keep));
                    break ;
                },
                Some((k, v)) => {
                    assert(left.contains_key(k.key()) && left[k.key()] == v);
                    assert(all.contains_key(k.key()) && all[k.key()] == v);
                    if f(&k, &v) {
                        kept.insert(k, v);
                    }
                },
            }
        }
        *self = kept;
    }

    /// Replaces every value by what `f` makes of it.
    pub(crate) fn map_values<F: Fn(&T) -> T>(
        &mut self,
        f: F,
        Ghost(made): Ghost<spec_fn(T, T) -> bool>,
    )
        requires
            forall|v: &T| #[trigger] call_requires(f, (v,)),
            forall|v: &T, r: T| #[trigger] call_ensures(f, (v,), r) ==> made(*v, r),
        ensures
            final(self)@.dom() == old(self)@.dom(),
            forall|k: K::Key| #[trigger]
                old(self)@.contains_key(k) ==> made(old(self)@[k], final(self)@[k]),
    {
        let ghost all = self@;
        let mut rest = AssocMap::new();
        std::mem::swap(&mut rest, self);
        let mut out: AssocMap<K, T> = AssocMap::new();
        loop
            invariant
                forall|v: &T| #[trigger] call_requires(f, (v,)),
                forall|v: &T, r: T| #[trigger] call_ensures(f, (v,), r) ==> made(*v, r),
                forall|k: K::Key| #[trigger]
                    rest@.contains_key(k) ==> all.contains_key(k) && rest@[k] == all[k],
                forall|k: K::Key| #[trigger]
                    out@.contains_key(k) <==> (all.contains_key(k) && !rest@.contains_key(k)),
                forall|k: K::Key| #[trigger] out@.contains_key(k) ==> made(all[k], out@[k]),
            ensures
                out@.dom() == all.dom(),
                forall|k: K::Key| #[trigger] all.contains_key(k) ==> made(all[k], out@[k]),
            decreases rest.size(),
        {
            let ghost left = rest@;
            match rest.pop() {
                None => {
                    assert(out@.dom() =~= all.dom());
                    assert forall|k: K::Key| #[trigger] all.contains_key(k) implies made(
                        all[k],
                        out@[k],
                    ) by {
                        assert(out@.contains_key(k));
                    }
                    break ;
                },
                Some((k, v)) => {
                    assert(left.contains_key(k.key()) && left[k.key()] == v);
                    assert(all.contains_key(k.key()) && all[k.key()] == v);
                    let w = f(&v);
                    out.insert(k, w);
                },
            }
        }
        *self = out;
    }

    /// The keys, each once.
    pub fn keys(&self) -> (r: Vec<K>) where K: Copy
        ensures
            forall|i: int, j: int|
                0 <= i < j < r@.len() ==> (#[trigger] r@[i]).key() != (#[trigger] r@[j]).key(),
            forall|k: K::Key|
                self@.contains_key(k) <==> exists|i: int|
                    0 <= i < r@.len() && (#[trigger] r@[i]).key() == k,
    {
        proof {
            use_type_invariant(self);
        }
        let ghost pairs = zipped(self.keys@, self.values@);
        let mut out: Vec<K> = Vec::new();
        for i in 0..self.keys.len()
            invariant
                out@ == self.keys@.take(i as int),
        {
            out.push(self.keys[i]);
            assert(out@ =~= self.keys@.take(i + 1));
        }
        proof {
            assert(out@ =~= self.keys@);
            assert forall|i: int, j: int| 0 <= i < j < out@.len() implies (#[trigger] out@[i]).key()
                != (#[trigger] out@[j]).key() by {
                assert(pairs[i].0.key() != pairs[j].0.key());
            }
            assert forall|k: K::Key|
                self@.contains_key(k) <==> exists|i: int|
                    0 <= i < out@.len() && (#[trigger] out@[i]).key() == k by {
                if has_key(pairs, k) {
                    let i = choose|i: int| key_at(pairs, k, i);
                    assert(out@[i].key() == k);
                }
                if exists|i: int| 0 <= i < out@.len() && (#[trigger] out@[i]).key() == k {
                    let i = choose|i: int| 0 <= i < out@.len() && (#[trigger] out@[i]).key() == k;
                    assert(key_at(pairs, k, i));
                }
            }
        }
        out
    }

    /// How many entries there are.
    pub closed spec fn size(self) -> nat {
        self.keys@.len()
    }
}

} // verus!
