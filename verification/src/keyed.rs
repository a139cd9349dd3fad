//! Maps kept as lists sorted by key: the stored forms write their map
//! entries in key order, text keys in byte order.

use vstd::prelude::*;
use vstd::utf8::encode_utf8;
use crate::home_state::{id_lt, lemma_id_lt_transitive};

verus! {

broadcast use vstd::utf8::encode_utf8_decode_utf8;

/// How two keys compare.
#[derive(Clone, Copy, Debug, PartialEq, Eq, Structural)]
pub enum KeyOrder {
    Below,
    Same,
    Above,
}

/// A key type whose views are totally ordered by `below`.
pub trait OrderedKey: View + Sized {
    spec fn below(a: Self::V, b: Self::V) -> bool;

    proof fn lemma_below_irreflexive(a: Self::V)
        ensures
            !Self::below(a, a),
    ;

    proof fn lemma_below_transitive(a: Self::V, b: Self::V, c: Self::V)
        requires
            Self::below(a, b),
            Self::below(b, c),
        ensures
            Self::below(a, c),
    ;

    proof fn lemma_below_total(a: Self::V, b: Self::V)
        ensures
            a == b || Self::below(a, b) || Self::below(b, a),
    ;

    fn order(&self, other: &Self) -> (r: KeyOrder)
        ensures
            (r == KeyOrder::Below) == Self::below(self@, other@),
            (r == KeyOrder::Same) == (self@ == other@),
            (r == KeyOrder::Above) == Self::below(other@, self@),
    ;
}

// ---------------------------------------------------------------------------
// Byte strings in lexicographic order
// ---------------------------------------------------------------------------

/// `a` comes before `b` in byte order: at the first byte where they differ
/// `a`'s is smaller, or `a` is a proper prefix of `b`.
pub open spec fn bytes_below(a: Seq<u8>, b: Seq<u8>) -> bool {
    id_lt(a, b) || (a.len() < b.len() && b.take(a.len() as int) == a)
}

pub proof fn lemma_bytes_irreflexive(a: Seq<u8>)
    ensures
        !bytes_below(a, a),
{
}

pub proof fn lemma_bytes_transitive(a: Seq<u8>, b: Seq<u8>, c: Seq<u8>)
    requires
        bytes_below(a, b),
        bytes_below(b, c),
    ensures
        bytes_below(a, c),
{
    if id_lt(a, b) && id_lt(b, c) {
        lemma_id_lt_transitive(a, b, c);
    } else if id_lt(a, b) {
        let k = choose|k: int| 0 <= k < a.len() && k < b.len() && a.take(k) == b.take(k) && #[trigger] a[k] < b[k];
        assert(c.take(b.len() as int) == b);
        assert(c[k] == b[k]) by {
            assert(c.take(b.len() as int)[k] == c[k]);
        }
        assert(c.take(k) =~= b.take(k)) by {
            assert forall|j: int| 0 <= j < k implies c.take(k)[j] == b.take(k)[j] by {
                assert(c.take(b.len() as int)[j] == c[j]);
            }
        }
        assert(id_lt(a, c));
    } else if id_lt(b, c) {
        let k = choose|k: int| 0 <= k < b.len() && k < c.len() && b.take(k) == c.take(k) && #[trigger] b[k] < c[k];
        assert(b.take(a.len() as int) == a);
        if k < a.len() {
            assert(a[k] == b[k]) by {
                assert(b.take(a.len() as int)[k] == b[k]);
            }
            assert(a.take(k) =~= c.take(k)) by {
                assert forall|j: int| 0 <= j < k implies a.take(k)[j] == c.take(k)[j] by {
                    assert(b.take(a.len() as int)[j] == b[j]);
                    assert(b.take(k)[j] == c.take(k)[j]);
                }
            }
            assert(id_lt(a, c));
        } else {
            assert(c.take(a.len() as int) =~= a) by {
                assert forall|j: int| 0 <= j < a.len() implies c.take(a.len() as int)[j] == a[j] by {
                    assert(b.take(a.len() as int)[j] == b[j]);
                    assert(b.take(k)[j] == c.take(k)[j]);
                }
            }
        }
    } else {
        assert(c.take(a.len() as int) =~= a) by {
            assert forall|j: int| 0 <= j < a.len() implies c.take(a.len() as int)[j] == a[j] by {
                assert(b.take(a.len() as int)[j] == b[j]);
                assert(c.take(b.len() as int)[j] == c[j]);
            }
        }
    }
}

proof fn lemma_first_mismatch(a: Seq<u8>, b: Seq<u8>, i: int)
    requires
        0 <= i <= a.len(),
        i <= b.len(),
        forall|j: int| 0 <= j < i ==> a[j] == b[j],
    ensures
        bytes_below(a, b) || bytes_below(b, a) || a == b,
    decreases a.len() - i,
{
    if i == a.len() || i == b.len() {
        if a.len() == b.len() {
            assert(a =~= b);
        } else if a.len() < b.len() {
            assert(b.take(a.len() as int) =~= a);
        } else {
            assert(a.take(b.len() as int) =~= b);
        }
    } else if a[i] != b[i] {
        assert(a.take(i) =~= b.take(i));
        if a[i] < b[i] {
            assert(id_lt(a, b));
        } else {
            assert(id_lt(b, a));
        }
    } else {
        lemma_first_mismatch(a, b, i + 1);
    }
}

pub proof fn lemma_bytes_total(a: Seq<u8>, b: Seq<u8>)
    ensures
        a == b || bytes_below(a, b) || bytes_below(b, a),
{
    lemma_first_mismatch(a, b, 0);
}

pub proof fn lemma_bytes_asymmetric(a: Seq<u8>, b: Seq<u8>)
    requires
        bytes_below(a, b),
    ensures
        !bytes_below(b, a),
{
    if bytes_below(b, a) {
        lemma_bytes_transitive(a, b, a);
    }
}

/// Compares two byte strings in byte order.
pub fn order_bytes(a: &[u8], b: &[u8]) -> (r: KeyOrder)
    ensures
        (r == KeyOrder::Below) == bytes_below(a@, b@),
        (r == KeyOrder::Same) == (a@ == b@),
        (r == KeyOrder::Above) == bytes_below(b@, a@),
{
    let mut i: usize = 0;
    while i < a.len() && i < b.len()
        invariant
            i <= a@.len(),
            i <= b@.len(),
            forall|j: int| 0 <= j < i ==> a@[j] == b@[j],
        decreases a@.len() - i,
    {
        if a[i] != b[i] {
            proof {
                assert(a@.take(i as int) =~= b@.take(i as int));
                lemma_first_mismatch(a@, b@, i as int);
            }
            if a[i] < b[i] {
                assert(id_lt(a@, b@));
                proof {
                    lemma_bytes_asymmetric(a@, b@);
                }
                return KeyOrder::Below;
            } else {
                assert(id_lt(b@, a@));
                proof {
                    lemma_bytes_asymmetric(b@, a@);
                }
                return KeyOrder::Above;
            }
        }
        i = i + 1;
    }
    proof {
        lemma_first_mismatch(a@, b@, i as int);
        lemma_bytes_irreflexive(a@);
    }
    if a.len() == b.len() {
        assert(a@ =~= b@);
        KeyOrder::Same
    } else if a.len() < b.len() {
        assert(b@.take(a@.len() as int) =~= a@);
        proof {
            lemma_bytes_asymmetric(a@, b@);
        }
        KeyOrder::Below
    } else {
        assert(a@.take(b@.len() as int) =~= b@);
        proof {
            lemma_bytes_asymmetric(b@, a@);
        }
        KeyOrder::Above
    }
}

// ---------------------------------------------------------------------------
// Key types
// ---------------------------------------------------------------------------

/// Text keys are ordered by their UTF-8 bytes, as `str` compares.
impl OrderedKey for String {
    open spec fn below(a: Seq<char>, b: Seq<char>) -> bool {
        bytes_below(encode_utf8(a), encode_utf8(b))
    }

    proof fn lemma_below_irreflexive(a: Seq<char>) {
    }

    proof fn lemma_below_transitive(a: Seq<char>, b: Seq<char>, c: Seq<char>) {
        lemma_bytes_transitive(encode_utf8(a), encode_utf8(b), encode_utf8(c));
    }

    proof fn lemma_below_total(a: Seq<char>, b: Seq<char>) {
        lemma_bytes_total(encode_utf8(a), encode_utf8(b));
        assert(vstd::utf8::decode_utf8(encode_utf8(a)) == a);
        assert(vstd::utf8::decode_utf8(encode_utf8(b)) == b);
    }

    fn order(&self, other: &Self) -> (r: KeyOrder) {
        let r = order_bytes(self.as_str().as_bytes(), other.as_str().as_bytes());
        proof {
            assert(vstd::utf8::decode_utf8(encode_utf8(self@)) == self@);
            assert(vstd::utf8::decode_utf8(encode_utf8(other@)) == other@);
        }
        r
    }
}

impl OrderedKey for u32 {
    open spec fn below(a: u32, b: u32) -> bool {
        a < b
    }

    proof fn lemma_below_irreflexive(a: u32) {
    }

    proof fn lemma_below_transitive(a: u32, b: u32, c: u32) {
    }

    proof fn lemma_below_total(a: u32, b: u32) {
    }

    fn order(&self, other: &Self) -> (r: KeyOrder) {
        if *self < *other {
            KeyOrder::Below
        } else if *self == *other {
            KeyOrder::Same
        } else {
            KeyOrder::Above
        }
    }
}

/// Pairs of numbers in lexicographic order.
impl OrderedKey for (u32, u32) {
    open spec fn below(a: (u32, u32), b: (u32, u32)) -> bool {
        a.0 < b.0 || (a.0 == b.0 && a.1 < b.1)
    }

    proof fn lemma_below_irreflexive(a: (u32, u32)) {
    }

    proof fn lemma_below_transitive(a: (u32, u32), b: (u32, u32), c: (u32, u32)) {
    }

    proof fn lemma_below_total(a: (u32, u32), b: (u32, u32)) {
    }

    fn order(&self, other: &Self) -> (r: KeyOrder) {
        if self.0 < other.0 || (self.0 == other.0 && self.1 < other.1) {
            KeyOrder::Below
        } else if self.0 == other.0 && self.1 == other.1 {
            KeyOrder::Same
        } else {
            KeyOrder::Above
        }
    }
}

// ---------------------------------------------------------------------------
// Sorted entry lists
// ---------------------------------------------------------------------------

pub open spec fn entries_view<K: View, V: View>(s: Seq<(K, V)>) -> Seq<(K::V, V::V)> {
    Seq::new(s.len(), |i: int| (s[i].0@, s[i].1@))
}

/// Keys strictly increase along the list (so none occurs twice).
pub open spec fn sorted_keys<K: OrderedKey, V>(s: Seq<(K::V, V)>) -> bool {
    forall|i: int, j: int| 0 <= i < j < s.len() ==> #[trigger] K::below(s[i].0, s[j].0)
}

/// The list after `(k, v)` is put in: after every smaller key, replacing
/// an entry with the same key.
pub open spec fn put_spec<K: OrderedKey, V>(s: Seq<(K::V, V)>, k: K::V, v: V) -> Seq<(K::V, V)>
    decreases s.len(),
{
    if s.len() == 0 {
        seq![(k, v)]
    } else if K::below(s.last().0, k) {
        s.push((k, v))
    } else if s.last().0 == k {
        s.drop_last().push((k, v))
    } else {
        put_spec::<K, V>(s.drop_last(), k, v).push(s.last())
    }
}

/// The list that putting `rows` in, one after another, into an empty list
/// gives (a later row replaces an earlier one with the same key).
pub open spec fn put_all<K: OrderedKey, V>(rows: Seq<(K::V, V)>) -> Seq<(K::V, V)>
    decreases rows.len(),
{
    if rows.len() == 0 {
        Seq::empty()
    } else {
        put_spec::<K, V>(put_all::<K, V>(rows.drop_last()), rows.last().0, rows.last().1)
    }
}

proof fn lemma_put_below<K: OrderedKey, V>(s: Seq<(K::V, V)>, k: K::V, v: V, b: K::V)
    requires
        forall|i: int| 0 <= i < s.len() ==> K::below(#[trigger] s[i].0, b),
        K::below(k, b),
    ensures
        forall|i: int| 0 <= i < put_spec::<K, V>(s, k, v).len() ==> K::below(
            #[trigger] put_spec::<K, V>(s, k, v)[i].0,
            b,
        ),
    decreases s.len(),
{
    if s.len() > 0 && !K::below(s.last().0, k) && s.last().0 != k {
        lemma_put_below::<K, V>(s.drop_last(), k, v, b);
        let r = put_spec::<K, V>(s.drop_last(), k, v);
        assert forall|i: int| 0 <= i < r.push(s.last()).len() implies K::below(#[trigger] r.push(s.last())[i].0, b) by {
            if i < r.len() {
                assert(r.push(s.last())[i] == r[i]);
            } else {
                assert(s.last() == s[s.len() - 1]);
            }
        }
    } else if s.len() > 0 && s.last().0 == k {
        assert forall|i: int| 0 <= i < s.drop_last().push((k, v)).len() implies K::below(
            #[trigger] s.drop_last().push((k, v))[i].0,
            b,
        ) by {
            if i < s.len() - 1 {
                assert(s.drop_last().push((k, v))[i] == s[i]);
            }
        }
    } else if s.len() > 0 {
        assert forall|i: int| 0 <= i < s.push((k, v)).len() implies K::below(#[trigger] s.push((k, v))[i].0, b) by {
            if i < s.len() {
                assert(s.push((k, v))[i] == s[i]);
            }
        }
    }
}

/// Putting an entry in keeps the list sorted.
pub proof fn lemma_put_sorted<K: OrderedKey, V>(s: Seq<(K::V, V)>, k: K::V, v: V)
    requires
        sorted_keys::<K, V>(s),
    ensures
        sorted_keys::<K, V>(put_spec::<K, V>(s, k, v)),
    decreases s.len(),
{
    if s.len() == 0 {
        return;
    }
    let l = s.last();
    let r = put_spec::<K, V>(s, k, v);
    if K::below(l.0, k) {
        assert forall|i: int, j: int| 0 <= i < j < r.len() implies #[trigger] K::below(r[i].0, r[j].0) by {
            if j == s.len() {
                if i < s.len() - 1 {
                    assert(K::below(s[i].0, s[s.len() - 1].0));
                    K::lemma_below_transitive(s[i].0, l.0, k);
                }
            } else {
                assert(K::below(s[i].0, s[j].0));
            }
        }
    } else if l.0 == k {
        assert forall|i: int, j: int| 0 <= i < j < r.len() implies #[trigger] K::below(r[i].0, r[j].0) by {
            if j == s.len() - 1 {
                assert(K::below(s[i].0, s[s.len() - 1].0));
            } else {
                assert(K::below(s[i].0, s[j].0));
            }
        }
    } else {
        let d = s.drop_last();
        assert(sorted_keys::<K, V>(d)) by {
            assert forall|i: int, j: int| 0 <= i < j < d.len() implies #[trigger] K::below(d[i].0, d[j].0) by {
                assert(K::below(s[i].0, s[j].0));
            }
        }
        lemma_put_sorted::<K, V>(d, k, v);
        let r0 = put_spec::<K, V>(d, k, v);
        assert(K::below(k, l.0)) by {
            K::lemma_below_total(l.0, k);
        }
        assert forall|i: int| 0 <= i < d.len() implies K::below(#[trigger] d[i].0, l.0) by {
            assert(K::below(s[i].0, s[s.len() - 1].0));
        }
        lemma_put_below::<K, V>(d, k, v, l.0);
        assert forall|i: int, j: int| 0 <= i < j < r.len() implies #[trigger] K::below(r[i].0, r[j].0) by {
            if j == r0.len() {
                assert(r[i] == r0[i]);
                assert(K::below(r0[i].0, l.0));
            } else {
                assert(r[i] == r0[i] && r[j] == r0[j]);
                assert(K::below(r0[i].0, r0[j].0));
            }
        }
    }
}

/// Putting the entries of a sorted list in one after another rebuilds it.
pub proof fn lemma_put_all_sorted<K: OrderedKey, V>(rows: Seq<(K::V, V)>)
    requires
        sorted_keys::<K, V>(rows),
    ensures
        put_all::<K, V>(rows) == rows,
    decreases rows.len(),
{
    if rows.len() > 0 {
        let d = rows.drop_last();
        assert(sorted_keys::<K, V>(d)) by {
            assert forall|i: int, j: int| 0 <= i < j < d.len() implies #[trigger] K::below(d[i].0, d[j].0) by {
                assert(K::below(rows[i].0, rows[j].0));
            }
        }
        lemma_put_all_sorted::<K, V>(d);
        if d.len() == 0 {
            assert(rows =~= seq![(rows.last().0, rows.last().1)]);
        } else {
            assert(K::below(d.last().0, rows.last().0)) by {
                assert(K::below(rows[d.len() - 1].0, rows[rows.len() - 1].0));
            }
            assert(d.push((rows.last().0, rows.last().1)) =~= rows);
        }
    }
}

/// Puts `(k, v)` in a sorted entry list.
pub fn put<K: OrderedKey, V: View>(s: &mut Vec<(K, V)>, k: K, v: V)
    ensures
        entries_view(final(s)@) == put_spec::<K, V::V>(entries_view(old(s)@), k@, v@),
    decreases old(s)@.len(),
{
    let ghost before = entries_view(s@);
    let n = s.len();
    if n == 0 {
        s.push((k, v));
        assert(entries_view(s@) =~= seq![(k@, v@)]);
        return;
    }
    let o = s[n - 1].0.order(&k);
    assert(before.last() == (s@[n - 1].0@, s@[n - 1].1@));
    match o {
        KeyOrder::Below => {
            s.push((k, v));
            assert(entries_view(s@) =~= before.push((k@, v@)));
        },
        KeyOrder::Same => {
            s.pop();
            s.push((k, v));
            assert(entries_view(s@) =~= before.drop_last().push((k@, v@)));
        },
        KeyOrder::Above => {
            let last = s.pop().unwrap();
            assert(entries_view(s@) =~= before.drop_last());
            proof {
                K::lemma_below_irreflexive(k@);
                if K::below(before.last().0, k@) {
                    K::lemma_below_transitive(before.last().0, k@, before.last().0);
                }
            }
            put(s, k, v);
            let ghost mid = entries_view(s@);
            s.push(last);
            assert(entries_view(s@) =~= mid.push(before.last()));
        },
    }
}

/// The value under key `k`, if the list has it.
pub open spec fn key_value<K: OrderedKey, W>(s: Seq<(K::V, W)>, k: K::V) -> Option<W>
    decreases s.len(),
{
    if s.len() == 0 {
        None
    } else if s.last().0 == k {
        Some(s.last().1)
    } else {
        key_value::<K, W>(s.drop_last(), k)
    }
}

/// The position of the last entry with key `k`.
pub fn find_key<K: OrderedKey, V: View>(s: &Vec<(K, V)>, k: &K) -> (r: Option<usize>)
    ensures
        match key_value::<K, V::V>(entries_view(s@), k@) {
            Some(w) => r matches Some(i) && i < s@.len() && entries_view(s@)[i as int] == (k@, w),
            None => r is None,
        },
{
    let mut i: usize = s.len();
    assert(entries_view(s@).take(i as int) =~= entries_view(s@));
    while i > 0
        invariant
            i <= s@.len(),
            key_value::<K, V::V>(entries_view(s@), k@) == key_value::<K, V::V>(entries_view(s@).take(i as int), k@),
        decreases i,
    {
        let ghost pre = entries_view(s@).take(i as int);
        assert(pre.last() == entries_view(s@)[i - 1]);
        if s[i - 1].0.order(k) == KeyOrder::Same {
            return Some(i - 1);
        }
        assert(pre.drop_last() =~= entries_view(s@).take(i - 1));
        i = i - 1;
    }
    None
}


/// A key the list gives a value for sits at some position of the list.
pub proof fn lemma_key_value_at<K: OrderedKey, W>(s: Seq<(K::V, W)>, k: K::V)
    requires
        key_value::<K, W>(s, k) is Some,
    ensures
        exists|i: int| 0 <= i < s.len() && #[trigger] s[i].0 == k,
    decreases s.len(),
{
    if s.last().0 != k {
        lemma_key_value_at::<K, W>(s.drop_last(), k);
        let i = choose|i: int| 0 <= i < s.drop_last().len() && #[trigger] s.drop_last()[i].0 == k;
        assert(s[i].0 == k);
    } else {
        assert(s[s.len() - 1].0 == k);
    }
}

/// In a key-sorted list, the entries before the last give no value for
/// the last key.
proof fn lemma_last_key_once<K: OrderedKey, W>(s: Seq<(K::V, W)>)
    requires
        s.len() > 0,
        sorted_keys::<K, W>(s),
    ensures
        key_value::<K, W>(s.drop_last(), s.last().0) is None,
{
    let k = s.last().0;
    if key_value::<K, W>(s.drop_last(), k) is Some {
        lemma_key_value_at::<K, W>(s.drop_last(), k);
        let i = choose|i: int| 0 <= i < s.drop_last().len() && #[trigger] s.drop_last()[i].0 == k;
        assert(K::below(s[i].0, s[s.len() - 1].0));
        K::lemma_below_irreflexive(k);
    }
}

/// A key-sorted list is the only key-sorted list with its contents: two
/// of them that give the same value for every key are the same list.
pub proof fn law_sorted_unique<K: OrderedKey, W>(a: Seq<(K::V, W)>, b: Seq<(K::V, W)>)
    requires
        sorted_keys::<K, W>(a),
        sorted_keys::<K, W>(b),
        forall|k: K::V| #[trigger] key_value::<K, W>(a, k) == key_value::<K, W>(b, k),
    ensures
        a == b,
    decreases a.len() + b.len(),
{
    if a.len() == 0 && b.len() == 0 {
        assert(a =~= b);
    } else if a.len() == 0 {
        assert(key_value::<K, W>(b, b.last().0) is Some);
        assert(key_value::<K, W>(a, b.last().0) is None);
    } else if b.len() == 0 {
        assert(key_value::<K, W>(a, a.last().0) is Some);
        assert(key_value::<K, W>(b, a.last().0) is None);
    } else {
        let ka = a.last().0;
        let kb = b.last().0;
        assert(key_value::<K, W>(a, ka) == Some(a.last().1));
        assert(key_value::<K, W>(b, kb) == Some(b.last().1));
        lemma_key_value_at::<K, W>(b, ka);
        lemma_key_value_at::<K, W>(a, kb);
        let j = choose|j: int| 0 <= j < b.len() && #[trigger] b[j].0 == ka;
        let i = choose|i: int| 0 <= i < a.len() && #[trigger] a[i].0 == kb;
        if ka != kb {
            if j < b.len() - 1 {
                assert(K::below(b[j].0, b[b.len() - 1].0));
            }
            if i < a.len() - 1 {
                assert(K::below(a[i].0, a[a.len() - 1].0));
            }
            K::lemma_below_irreflexive(ka);
            K::lemma_below_irreflexive(kb);
            if j < b.len() - 1 && i < a.len() - 1 {
                K::lemma_below_transitive(ka, kb, ka);
            }
        }
        assert(ka == kb);
        assert(a.last().1 == b.last().1);
        let a2 = a.drop_last();
        let b2 = b.drop_last();
        lemma_last_key_once::<K, W>(a);
        lemma_last_key_once::<K, W>(b);
        assert forall|k: K::V| #[trigger] key_value::<K, W>(a2, k) == key_value::<K, W>(b2, k) by {
            if k != ka {
                assert(key_value::<K, W>(a, k) == key_value::<K, W>(a2, k));
                assert(key_value::<K, W>(b, k) == key_value::<K, W>(b2, k));
            }
        }
        assert(sorted_keys::<K, W>(a2));
        assert(sorted_keys::<K, W>(b2));
        law_sorted_unique::<K, W>(a2, b2);
        assert(a =~= a2.push(a.last()));
        assert(b =~= b2.push(b.last()));
    }
}

} // verus!
