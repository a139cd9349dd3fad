//! A map keyed by 32-byte ids, each id at most once, kept as a list.

use vstd::prelude::*;
use crate::ids::KEY_LEN;

verus! {

/// Compares two ids in constant time: `subtle::ConstantTimeEq::ct_eq` on
/// the two byte slices, made a `bool`. The source answers 1 exactly when
/// the slices have the same length and every byte is equal.
#[verifier::external_body]
pub(crate) fn ct_eq_key(a: &[u8; KEY_LEN], b: &[u8; KEY_LEN]) -> (r: bool)
    ensures
        r == (a@ == b@),
{
    bool::from(subtle::ConstantTimeEq::ct_eq(&a[..], &b[..]))
}

/// Byte-wise equality of two ids.
pub fn same_id(a: &[u8; KEY_LEN], b: &[u8; KEY_LEN]) -> (r: bool)
    ensures
        r == (a@ == b@),
{
    let mut i: usize = 0;
    while i < KEY_LEN
        invariant
            i <= KEY_LEN,
            a@.len() == KEY_LEN,
            b@.len() == KEY_LEN,
            forall|k: int| 0 <= k < i ==> a@[k] == b@[k],
        decreases KEY_LEN - i,
    {
        if a[i] != b[i] {
            return false;
        }
        i = i + 1;
    }
    assert(a@ =~= b@);
    true
}

/// Something with an expiry time.
pub trait Expires {
    spec fn expiry_spec(&self) -> u64;

    fn expiry(&self) -> (r: u64)
        ensures
            r == self.expiry_spec(),
    ;
}

/// Ids to values; no id occurs twice.
pub struct KeyMap<V> {
    entries: Vec<([u8; KEY_LEN], V)>,
}

impl<V> KeyMap<V> {
    pub closed spec fn wf(self) -> bool {
        forall|i: int, j: int|
            0 <= i < j < self.entries@.len() ==> self.entries@[i].0@ != self.entries@[j].0@
    }

    /// The map the list stands for.
    pub closed spec fn map(self) -> Map<Seq<u8>, V> {
        Map::new(
            |k: Seq<u8>| exists|i: int| 0 <= i < self.entries@.len() && self.entries@[i].0@ == k,
            |k: Seq<u8>|
                self.entries@[choose|i: int|
                    0 <= i < self.entries@.len() && self.entries@[i].0@ == k].1,
        )
    }

    /// The values in the order the list keeps them.
    pub closed spec fn values(self) -> Seq<V> {
        Seq::new(self.entries@.len(), |i: int| self.entries@[i].1)
    }

    pub fn new() -> (r: Self)
        ensures
            r.wf(),
            r.map() == Map::<Seq<u8>, V>::empty(),
            r.values() == Seq::<V>::empty(),
    {
        let r = KeyMap { entries: Vec::new() };
        assert(r.map() =~= Map::<Seq<u8>, V>::empty());
        assert(r.values() =~= Seq::<V>::empty());
        r
    }

    proof fn lemma_map_at(self, i: int)
        requires
            self.wf(),
            0 <= i < self.entries@.len(),
        ensures
            self.map().contains_key(self.entries@[i].0@),
            self.map()[self.entries@[i].0@] == self.entries@[i].1,
    {
        let k = self.entries@[i].0@;
        let j = choose|j: int| 0 <= j < self.entries@.len() && self.entries@[j].0@ == k;
        if j != i {
            if j < i {
                assert(self.entries@[j].0@ != self.entries@[i].0@);
            } else {
                assert(self.entries@[i].0@ != self.entries@[j].0@);
            }
        }
    }

    /// Every value of the map is among the listed values, and the other way.
    pub proof fn lemma_values(self)
        requires
            self.wf(),
        ensures
            forall|k: Seq<u8>| #[trigger] self.map().contains_key(k) ==> exists|i: int|
                0 <= i < self.values().len() && self.values()[i] == self.map()[k],
            self.values().len() == self.map().dom().len(),
            self.map().dom().finite(),
    {
        assert forall|k: Seq<u8>| #[trigger] self.map().contains_key(k) implies exists|i: int|
            0 <= i < self.values().len() && self.values()[i] == self.map()[k] by {
            let i = choose|i: int| 0 <= i < self.entries@.len() && self.entries@[i].0@ == k;
            self.lemma_map_at(i);
            assert(self.values()[i] == self.entries@[i].1);
        }
        self.lemma_dom_len();
    }

    proof fn lemma_dom_len(self)
        requires
            self.wf(),
        ensures
            self.map().dom().len() == self.entries@.len(),
            self.map().dom().finite(),
    {
        let keys = Seq::new(self.entries@.len(), |i: int| self.entries@[i].0@);
        assert(keys.no_duplicates()) by {
            assert forall|i: int, j: int| 0 <= i < keys.len() && 0 <= j < keys.len() && i != j implies keys[i] != keys[j] by {
                if i < j {
                    assert(self.entries@[i].0@ != self.entries@[j].0@);
                } else {
                    assert(self.entries@[j].0@ != self.entries@[i].0@);
                }
            }
        }
        assert(self.map().dom() =~= keys.to_set()) by {
            assert forall|k: Seq<u8>| self.map().dom().contains(k) <==> keys.to_set().contains(k) by {
                if keys.to_set().contains(k) {
                    let i = choose|i: int| 0 <= i < keys.len() && keys[i] == k;
                    assert(self.entries@[i].0@ == k);
                }
                if self.map().dom().contains(k) {
                    let i = choose|i: int| 0 <= i < self.entries@.len() && self.entries@[i].0@ == k;
                    assert(keys[i] == k);
                }
            }
        }
        keys.unique_seq_to_set();
    }

    fn find(&self, k: &[u8; KEY_LEN]) -> (r: Option<usize>)
        requires
            self.wf(),
        ensures
            match r {
                Some(i) => i < self.entries@.len() && self.entries@[i as int].0@ == k@,
                None => !self.map().contains_key(k@),
            },
    {
        let mut i: usize = 0;
        while i < self.entries.len()
            invariant
                i <= self.entries@.len(),
                forall|m: int| 0 <= m < i ==> self.entries@[m].0@ != k@,
            decreases self.entries@.len() - i,
        {
            if same_id(&self.entries[i].0, k) {
                return Some(i);
            }
            i = i + 1;
        }
        None
    }

    pub fn contains(&self, k: &[u8; KEY_LEN]) -> (r: bool)
        requires
            self.wf(),
        ensures
            r == self.map().contains_key(k@),
    {
        match self.find(k) {
            Some(i) => {
                proof {
                    self.lemma_map_at(i as int);
                }
                true
            },
            None => false,
        }
    }

    /// The value for `k`, if any.
    pub fn get(&self, k: &[u8; KEY_LEN]) -> (r: Option<&V>)
        requires
            self.wf(),
        ensures
            match r {
                Some(v) => self.map().contains_key(k@) && self.map()[k@] == *v,
                None => !self.map().contains_key(k@),
            },
    {
        match self.find(k) {
            Some(i) => {
                proof {
                    self.lemma_map_at(i as int);
                }
                Some(&self.entries[i].1)
            },
            None => None,
        }
    }

    pub fn len(&self) -> (n: usize)
        ensures
            n == self.values().len(),
    {
        self.entries.len()
    }

    /// The `i`-th value in list order.
    pub fn value_at(&self, i: usize) -> (v: &V)
        requires
            i < self.values().len(),
        ensures
            *v == self.values()[i as int],
    {
        &self.entries[i].1
    }

    /// Puts `v` under `k`, replacing any value there.
    pub fn insert(&mut self, k: [u8; KEY_LEN], v: V)
        requires
            old(self).wf(),
        ensures
            final(self).wf(),
            final(self).map() == old(self).map().insert(k@, v),
    {
        match self.find(&k) {
            Some(i) => {
                proof {
                    old(self).lemma_map_at(i as int);
                }
                let ghost kv = k@;
                let ghost vv = v;
                self.entries.set(i, (k, v));
                proof {
                    assert forall|a: int, b: int|
                        0 <= a < b < self.entries@.len() implies self.entries@[a].0@
                        != self.entries@[b].0@ by {
                        assert(old(self).entries@[a].0@ != old(self).entries@[b].0@);
                    }
                    self.lemma_same_keys_update(*old(self), i as int, kv, vv);
                }
            },
            None => {
                let ghost kv = k@;
                let ghost vv = v;
                self.entries.push((k, v));
                proof {
                    self.lemma_push(*old(self), kv, vv);
                }
            },
        }
    }

    proof fn lemma_same_keys_update(self, before: KeyMap<V>, i: int, k: Seq<u8>, v: V)
        requires
            before.wf(),
            self.wf(),
            0 <= i < before.entries@.len(),
            before.entries@[i].0@ == k,
            self.entries@ == before.entries@.update(i, self.entries@[i]),
            self.entries@[i].0@ == k,
            self.entries@[i].1 == v,
        ensures
            self.map() == before.map().insert(k, v),
    {
        assert forall|key: Seq<u8>| #[trigger] self.map().contains_key(key)
            <==> before.map().insert(k, v).contains_key(key) by {
            if self.map().contains_key(key) {
                let j = choose|j: int| 0 <= j < self.entries@.len() && self.entries@[j].0@ == key;
                if j != i {
                    assert(before.entries@[j] == self.entries@[j]);
                }
            }
            if before.map().contains_key(key) {
                let j = choose|j: int|
                    0 <= j < before.entries@.len() && before.entries@[j].0@ == key;
                if j != i {
                    assert(before.entries@[j] == self.entries@[j]);
                }
            }
        }
        assert forall|key: Seq<u8>| #[trigger] self.map().contains_key(key) implies self.map()[key]
            == before.map().insert(k, v)[key] by {
            let j = choose|j: int| 0 <= j < self.entries@.len() && self.entries@[j].0@ == key;
            self.lemma_map_at(j);
            if j != i {
                assert(before.entries@[j] == self.entries@[j]);
                before.lemma_map_at(j);
            }
        }
        assert(self.map() =~= before.map().insert(k, v));
    }

    proof fn lemma_push(self, before: KeyMap<V>, k: Seq<u8>, v: V)
        requires
            before.wf(),
            !before.map().contains_key(k),
            self.entries@ == before.entries@.push(self.entries@.last()),
            self.entries@.last().0@ == k,
            self.entries@.last().1 == v,
        ensures
            self.wf(),
            self.map() == before.map().insert(k, v),
    {
        let n = before.entries@.len() as int;
        assert forall|a: int, b: int|
            0 <= a < b < self.entries@.len() implies self.entries@[a].0@ != self.entries@[b].0@ by {
            if b < n {
                assert(before.entries@[a].0@ != before.entries@[b].0@);
            } else {
                assert(self.entries@[a] == before.entries@[a]);
            }
        }
        assert forall|key: Seq<u8>| #[trigger] self.map().contains_key(key)
            <==> before.map().insert(k, v).contains_key(key) by {
            if self.map().contains_key(key) && key != k {
                let j = choose|j: int| 0 <= j < self.entries@.len() && self.entries@[j].0@ == key;
                assert(j < n);
                assert(before.entries@[j] == self.entries@[j]);
            }
            if before.map().contains_key(key) {
                let j = choose|j: int|
                    0 <= j < before.entries@.len() && before.entries@[j].0@ == key;
                assert(before.entries@[j] == self.entries@[j]);
            }
            if key == k {
                assert(self.entries@[n].0@ == k);
            }
        }
        assert forall|key: Seq<u8>| #[trigger] self.map().contains_key(key) implies self.map()[key]
            == before.map().insert(k, v)[key] by {
            let j = choose|j: int| 0 <= j < self.entries@.len() && self.entries@[j].0@ == key;
            self.lemma_map_at(j);
            if j < n {
                assert(before.entries@[j] == self.entries@[j]);
                before.lemma_map_at(j);
            }
        }
        assert(self.map() =~= before.map().insert(k, v));
    }

    /// Removes `k` and returns its value, if it had one.
    pub fn remove(&mut self, k: &[u8; KEY_LEN]) -> (r: Option<V>)
        requires
            old(self).wf(),
        ensures
            final(self).wf(),
            final(self).map() == old(self).map().remove(k@),
            r == (if old(self).map().contains_key(k@) {
                Some(old(self).map()[k@])
            } else {
                None
            }),
    {
        match self.find(k) {
            None => {
                assert(self.map().remove(k@) =~= self.map());
                None
            },
            Some(i) => {
                proof {
                    self.lemma_map_at(i as int);
                }
                let ghost before = *self;
                let (_, v) = self.entries.remove(i);
                proof {
                    assert forall|a: int, b: int|
                        0 <= a < b < self.entries@.len() implies self.entries@[a].0@
                        != self.entries@[b].0@ by {
                        let a0 = if a < i { a } else { a + 1 };
                        let b0 = if b < i { b } else { b + 1 };
                        assert(self.entries@[a] == before.entries@[a0]);
                        assert(self.entries@[b] == before.entries@[b0]);
                        assert(before.entries@[a0].0@ != before.entries@[b0].0@);
                    }
                    assert forall|key: Seq<u8>| #[trigger] self.map().contains_key(key)
                        <==> before.map().remove(k@).contains_key(key) by {
                        if self.map().contains_key(key) {
                            let j = choose|j: int|
                                0 <= j < self.entries@.len() && self.entries@[j].0@ == key;
                            let j0 = if j < i { j } else { j + 1 };
                            assert(self.entries@[j] == before.entries@[j0]);
                            assert(before.entries@[j0].0@ != before.entries@[i as int].0@);
                        }
                        if before.map().contains_key(key) && key != k@ {
                            let j = choose|j: int|
                                0 <= j < before.entries@.len() && before.entries@[j].0@ == key;
                            assert(j != i);
                            let j1 = if j < i { j } else { j - 1 };
                            assert(self.entries@[j1] == before.entries@[j]);
                        }
                    }
                    assert forall|key: Seq<u8>| #[trigger] self.map().contains_key(key) implies self.map()[key]
                        == before.map().remove(k@)[key] by {
                        let j = choose|j: int|
                            0 <= j < self.entries@.len() && self.entries@[j].0@ == key;
                        self.lemma_map_at(j);
                        let j0 = if j < i { j } else { j + 1 };
                        assert(self.entries@[j] == before.entries@[j0]);
                        before.lemma_map_at(j0);
                    }
                    assert(self.map() =~= before.map().remove(k@));
                }
                Some(v)
            },
        }
    }
}

/// The entries of `m` that have not expired at `now`.
pub open spec fn unexpired_map<V: Expires>(m: Map<Seq<u8>, V>, now: u64) -> Map<Seq<u8>, V> {
    Map::new(|k: Seq<u8>| m.contains_key(k) && m[k].expiry_spec() > now, |k: Seq<u8>| m[k])
}

/// The entries among the first `i` of the list that have not expired.
pub open spec fn kept_prefix<V: Expires>(m: KeyMap<V>, i: int, now: u64) -> Map<Seq<u8>, V> {
    Map::new(
        |k: Seq<u8>| exists|j: int| 0 <= j < i && m.key_at(j) == k && #[trigger] m.values()[j].expiry_spec() > now,
        |k: Seq<u8>| m.map()[k],
    )
}

impl<V> KeyMap<V> {
    /// The `j`-th key in list order.
    pub closed spec fn key_at(self, j: int) -> Seq<u8> {
        self.entries@[j].0@
    }

    pub proof fn lemma_key_at(self, j: int)
        requires
            self.wf(),
            0 <= j < self.values().len(),
        ensures
            self.map().contains_key(self.key_at(j)),
            self.map()[self.key_at(j)] == self.values()[j],
            forall|k: int| 0 <= k < self.values().len() && k != j ==> self.key_at(k) != self.key_at(j),
    {
        self.lemma_map_at(j);
        assert forall|k: int| 0 <= k < self.values().len() && k != j implies self.key_at(k) != self.key_at(j) by {
            if k < j {
                assert(self.entries@[k].0@ != self.entries@[j].0@);
            } else {
                assert(self.entries@[j].0@ != self.entries@[k].0@);
            }
        }
    }

    pub proof fn lemma_key_of(self, k: Seq<u8>) -> (j: int)
        requires
            self.wf(),
            self.map().contains_key(k),
        ensures
            0 <= j < self.values().len(),
            self.key_at(j) == k,
            self.map()[k] == self.values()[j],
    {
        let j = choose|j: int| 0 <= j < self.entries@.len() && self.entries@[j].0@ == k;
        self.lemma_map_at(j);
        j
    }

    /// The `i`-th key in list order.
    pub fn key_at_exec(&self, i: usize) -> (k: [u8; KEY_LEN])
        requires
            i < self.values().len(),
        ensures
            k@ == self.key_at(i as int),
    {
        self.entries[i].0
    }
}

impl<V: Expires + Copy> KeyMap<V> {
    /// Keeps the entries whose expiry is after `now`.
    pub fn retain_unexpired(&mut self, now: u64)
        requires
            old(self).wf(),
        ensures
            final(self).wf(),
            final(self).map() == unexpired_map(old(self).map(), now),
    {
        let mut kept: KeyMap<V> = KeyMap::new();
        let n = self.len();
        let mut i: usize = 0;
        assert(kept.map() =~= kept_prefix(*self, 0, now));
        while i < n
            invariant
                n == self.values().len(),
                i <= n,
                self.wf(),
                kept.wf(),
                kept.map() == kept_prefix(*self, i as int, now),
            decreases n - i,
        {
            let k = self.key_at_exec(i);
            let v = *self.value_at(i);
            proof {
                self.lemma_key_at(i as int);
            }
            if v.expiry() > now {
                kept.insert(k, v);
                assert(kept.map() =~= kept_prefix(*self, i + 1, now)) by {
                    assert forall|key: Seq<u8>| kept_prefix(*self, i + 1, now).contains_key(key) implies kept.map().contains_key(key) by {
                        let j = choose|j: int| 0 <= j < i + 1 && self.key_at(j) == key && #[trigger] self.values()[j].expiry_spec() > now;
                        if j < i {
                            assert(kept_prefix(*self, i as int, now).contains_key(key));
                        }
                    }
                    assert forall|key: Seq<u8>| kept.map().contains_key(key) implies kept_prefix(*self, i + 1, now).contains_key(key) by {
                        if key != k@ {
                            assert(kept_prefix(*self, i as int, now).contains_key(key));
                            let j = choose|j: int| 0 <= j < i && self.key_at(j) == key && #[trigger] self.values()[j].expiry_spec() > now;
                            assert(0 <= j < i + 1);
                        } else {
                            assert(self.values()[i as int].expiry_spec() > now);
                        }
                    }
                }
            } else {
                assert(kept.map() =~= kept_prefix(*self, i + 1, now)) by {
                    assert forall|key: Seq<u8>| kept_prefix(*self, i + 1, now).contains_key(key) implies kept_prefix(*self, i as int, now).contains_key(key) by {
                        let j = choose|j: int| 0 <= j < i + 1 && self.key_at(j) == key && #[trigger] self.values()[j].expiry_spec() > now;
                        assert(j != i);
                    }
                    assert forall|key: Seq<u8>| kept_prefix(*self, i as int, now).contains_key(key) implies kept_prefix(*self, i + 1, now).contains_key(key) by {
                        let j = choose|j: int| 0 <= j < i && self.key_at(j) == key && #[trigger] self.values()[j].expiry_spec() > now;
                        assert(0 <= j < i + 1);
                    }
                }
            }
            i = i + 1;
        }
        proof {
            let before = *self;
            assert(kept.map() =~= unexpired_map(before.map(), now)) by {
                assert forall|key: Seq<u8>| kept_prefix(before, n as int, now).contains_key(key) implies unexpired_map(before.map(), now).contains_key(key) by {
                    let j = choose|j: int| 0 <= j < n && before.key_at(j) == key && #[trigger] before.values()[j].expiry_spec() > now;
                    before.lemma_key_at(j);
                }
                assert forall|key: Seq<u8>| unexpired_map(before.map(), now).contains_key(key) implies kept_prefix(before, n as int, now).contains_key(key) by {
                    let j = before.lemma_key_of(key);
                    assert(before.values()[j].expiry_spec() > now);
                }
            }
        }
        *self = kept;
    }
}

} // verus!
