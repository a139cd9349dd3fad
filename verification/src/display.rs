//! The display settings an installation keeps in its vault: a nickname
//! per contact and a disappearing-message timer per chat. Both are keyed by
//! text; the stored form lists each in key order.

use vstd::prelude::*;
use crate::cbor::{
    Value, ValueSpec, enc, parse, lookup, map_get, view_items, view_entries, well_formed, nesting,
    law_decode_encode, lemma_nesting_items_bound, lemma_nesting_entries_bound, lemma_view_items_push,
    lemma_view_entries_push,
};
use crate::error::CoreError;
use crate::keyed::{put, put_spec, put_all, sorted_keys, entries_view, lemma_put_sorted, lemma_put_all_sorted};

verus! {

/// Version tag of the stored form.
pub const DISPLAY_VERSION: u64 = 1;

/// Nicknames and timers, each list sorted by its key.
pub struct DisplayPrefs {
    pub nicknames: Vec<(String, String)>,
    pub disappear: Vec<(String, u64)>,
}

pub struct DisplayView {
    pub nicknames: Seq<(Seq<char>, Seq<char>)>,
    pub disappear: Seq<(Seq<char>, u64)>,
}

impl View for DisplayPrefs {
    type V = DisplayView;

    open spec fn view(&self) -> DisplayView {
        DisplayView { nicknames: entries_view(self.nicknames@), disappear: entries_view(self.disappear@) }
    }
}

/// Each key occurs once and the lists are in key order.
pub open spec fn display_ok(d: DisplayView) -> bool {
    sorted_keys::<String, Seq<char>>(d.nicknames) && sorted_keys::<String, u64>(d.disappear)
}

// ---------------------------------------------------------------------------
// Stored form
// ---------------------------------------------------------------------------

pub open spec fn nick_row(e: (Seq<char>, Seq<char>)) -> ValueSpec {
    ValueSpec::Array(seq![ValueSpec::Text(e.0), ValueSpec::Text(e.1)])
}

pub open spec fn timer_row(e: (Seq<char>, u64)) -> ValueSpec {
    ValueSpec::Array(seq![ValueSpec::Text(e.0), ValueSpec::Uint(e.1)])
}

pub open spec fn nick_rows(s: Seq<(Seq<char>, Seq<char>)>) -> Seq<ValueSpec> {
    Seq::new(s.len(), |i: int| nick_row(s[i]))
}

pub open spec fn timer_rows(s: Seq<(Seq<char>, u64)>) -> Seq<ValueSpec> {
    Seq::new(s.len(), |i: int| timer_row(s[i]))
}

/// The stored map: version, nicknames, timers.
pub open spec fn display_entries(d: DisplayView) -> Seq<(u64, ValueSpec)> {
    seq![
        (0u64, ValueSpec::Uint(DISPLAY_VERSION)),
        (1u64, ValueSpec::Array(nick_rows(d.nicknames))),
        (2u64, ValueSpec::Array(timer_rows(d.disappear))),
    ]
}

/// A nickname row: an array of two texts.
pub open spec fn nick_from(v: ValueSpec) -> Option<(Seq<char>, Seq<char>)> {
    match v {
        ValueSpec::Array(r) => if r.len() == 2 {
            match (r[0], r[1]) {
                (ValueSpec::Text(k), ValueSpec::Text(n)) => Some((k, n)),
                _ => None,
            }
        } else {
            None
        },
        _ => None,
    }
}

/// A timer row: an array of a text and a number.
pub open spec fn timer_from(v: ValueSpec) -> Option<(Seq<char>, u64)> {
    match v {
        ValueSpec::Array(r) => if r.len() == 2 {
            match (r[0], r[1]) {
                (ValueSpec::Text(k), ValueSpec::Uint(n)) => Some((k, n)),
                _ => None,
            }
        } else {
            None
        },
        _ => None,
    }
}

/// The rows read in order, a later row for a key replacing an earlier one.
pub open spec fn nicks_from(items: Seq<ValueSpec>) -> Option<Seq<(Seq<char>, Seq<char>)>>
    decreases items.len(),
{
    if items.len() == 0 {
        Some(seq![])
    } else {
        match (nicks_from(items.drop_last()), nick_from(items.last())) {
            (Some(s), Some(e)) => Some(put_spec::<String, Seq<char>>(s, e.0, e.1)),
            _ => None,
        }
    }
}

pub open spec fn timers_from(items: Seq<ValueSpec>) -> Option<Seq<(Seq<char>, u64)>>
    decreases items.len(),
{
    if items.len() == 0 {
        Some(seq![])
    } else {
        match (timers_from(items.drop_last()), timer_from(items.last())) {
            (Some(s), Some(e)) => Some(put_spec::<String, u64>(s, e.0, e.1)),
            _ => None,
        }
    }
}

/// The settings a stored map holds: version 1, then the two row lists.
pub open spec fn display_from(m: Seq<(u64, ValueSpec)>) -> Option<DisplayView> {
    match (lookup(m, 0), lookup(m, 1), lookup(m, 2)) {
        (Some(ValueSpec::Uint(v)), Some(ValueSpec::Array(n)), Some(ValueSpec::Array(t))) => if v
            == DISPLAY_VERSION {
            match (nicks_from(n), timers_from(t)) {
                (Some(ns), Some(ts)) => Some(DisplayView { nicknames: ns, disappear: ts }),
                _ => None,
            }
        } else {
            None
        },
        _ => None,
    }
}

/// The settings stored bytes hold: one map filling them exactly.
pub open spec fn display_decoded(b: Seq<u8>) -> Option<DisplayView> {
    match parse(b, 0) {
        Some((ValueSpec::Dict(m), n)) => if n == b.len() {
            display_from(m)
        } else {
            None
        },
        _ => None,
    }
}

proof fn lemma_nicks_ok(items: Seq<ValueSpec>)
    ensures
        nicks_from(items) matches Some(s) ==> sorted_keys::<String, Seq<char>>(s),
    decreases items.len(),
{
    if items.len() > 0 {
        lemma_nicks_ok(items.drop_last());
        if let Some(s) = nicks_from(items.drop_last()) {
            if let Some(e) = nick_from(items.last()) {
                lemma_put_sorted::<String, Seq<char>>(s, e.0, e.1);
            }
        }
    }
}

proof fn lemma_timers_ok(items: Seq<ValueSpec>)
    ensures
        timers_from(items) matches Some(s) ==> sorted_keys::<String, u64>(s),
    decreases items.len(),
{
    if items.len() > 0 {
        lemma_timers_ok(items.drop_last());
        if let Some(s) = timers_from(items.drop_last()) {
            if let Some(e) = timer_from(items.last()) {
                lemma_put_sorted::<String, u64>(s, e.0, e.1);
            }
        }
    }
}

fn push_item(items: &mut Vec<Value>, v: Value)
    ensures
        view_items(final(items)@) == view_items(old(items)@).push(v@),
{
    proof {
        lemma_view_items_push(items@, v);
    }
    items.push(v);
}

fn push_entry(pairs: &mut Vec<(u64, Value)>, k: u64, v: Value)
    ensures
        view_entries(final(pairs)@) == view_entries(old(pairs)@).push((k, v@)),
{
    proof {
        lemma_view_entries_push(pairs@, (k, v));
    }
    pairs.push((k, v));
}

fn pair_value(a: Value, b: Value) -> (v: Value)
    ensures
        v@ == ValueSpec::Array(seq![a@, b@]),
{
    let mut row: Vec<Value> = Vec::new();
    let ghost av = a@;
    let ghost bv = b@;
    push_item(&mut row, a);
    push_item(&mut row, b);
    assert(view_items(Seq::<Value>::empty()) =~= Seq::<ValueSpec>::empty());
    assert(view_items(row@) =~= seq![av, bv]);
    Value::Array(row)
}

impl DisplayPrefs {
    /// No nicknames and no timers.
    pub fn new() -> (d: DisplayPrefs)
        ensures
            d@.nicknames == Seq::<(Seq<char>, Seq<char>)>::empty(),
            d@.disappear == Seq::<(Seq<char>, u64)>::empty(),
            display_ok(d@),
    {
        let d = DisplayPrefs { nicknames: Vec::new(), disappear: Vec::new() };
        assert(d@.nicknames =~= Seq::<(Seq<char>, Seq<char>)>::empty());
        assert(d@.disappear =~= Seq::<(Seq<char>, u64)>::empty());
        d
    }

    /// Sets a contact's nickname (replacing one it had).
    pub fn set_nickname(&mut self, peer: String, nickname: String)
        ensures
            final(self)@.nicknames == put_spec::<String, Seq<char>>(old(self)@.nicknames, peer@, nickname@),
            final(self)@.disappear == old(self)@.disappear,
            display_ok(old(self)@) ==> display_ok(final(self)@),
    {
        proof {
            if display_ok(old(self)@) {
                lemma_put_sorted::<String, Seq<char>>(old(self)@.nicknames, peer@, nickname@);
            }
        }
        put(&mut self.nicknames, peer, nickname);
    }

    /// Sets a chat's disappearing-message timer (replacing one it had).
    pub fn set_disappear(&mut self, peer: String, secs: u64)
        ensures
            final(self)@.disappear == put_spec::<String, u64>(old(self)@.disappear, peer@, secs),
            final(self)@.nicknames == old(self)@.nicknames,
            display_ok(old(self)@) ==> display_ok(final(self)@),
    {
        proof {
            if display_ok(old(self)@) {
                lemma_put_sorted::<String, u64>(old(self)@.disappear, peer@, secs);
            }
        }
        put(&mut self.disappear, peer, secs);
    }

    /// The stored form: version, nickname rows and timer rows, each list in
    /// key order.
    pub fn save_display(&self) -> (r: Vec<u8>)
        ensures
            r@ == enc(ValueSpec::Dict(display_entries(self@))),
            well_formed(ValueSpec::Dict(display_entries(self@))),
    {
        let mut nicks: Vec<Value> = Vec::new();
        let mut i: usize = 0;
        assert(view_items(nicks@) =~= nick_rows(self@.nicknames.take(0)));
        while i < self.nicknames.len()
            invariant
                i <= self.nicknames@.len(),
                view_items(nicks@) == nick_rows(self@.nicknames.take(i as int)),
            decreases self.nicknames@.len() - i,
        {
            let k = self.nicknames[i].0.clone();
            let n = self.nicknames[i].1.clone();
            let row = pair_value(Value::Text(k), Value::Text(n));
            push_item(&mut nicks, row);
            i = i + 1;
            assert(nick_rows(self@.nicknames.take(i as int)) =~= nick_rows(self@.nicknames.take(i - 1)).push(
                nick_row(self@.nicknames[i - 1]),
            ));
        }
        assert(self@.nicknames.take(i as int) =~= self@.nicknames);
        let mut timers: Vec<Value> = Vec::new();
        let mut j: usize = 0;
        assert(view_items(timers@) =~= timer_rows(self@.disappear.take(0)));
        while j < self.disappear.len()
            invariant
                j <= self.disappear@.len(),
                view_items(timers@) == timer_rows(self@.disappear.take(j as int)),
            decreases self.disappear@.len() - j,
        {
            let k = self.disappear[j].0.clone();
            let row = pair_value(Value::Text(k), Value::Uint(self.disappear[j].1));
            push_item(&mut timers, row);
            j = j + 1;
            assert(timer_rows(self@.disappear.take(j as int)) =~= timer_rows(self@.disappear.take(j - 1)).push(
                timer_row(self@.disappear[j - 1]),
            ));
        }
        assert(self@.disappear.take(j as int) =~= self@.disappear);
        let mut pairs: Vec<(u64, Value)> = Vec::new();
        push_entry(&mut pairs, 0, Value::Uint(DISPLAY_VERSION));
        push_entry(&mut pairs, 1, Value::Array(nicks));
        push_entry(&mut pairs, 2, Value::Array(timers));
        assert(view_entries(Seq::<(u64, Value)>::empty()) =~= Seq::<(u64, ValueSpec)>::empty());
        assert(view_entries(pairs@) =~= display_entries(self@));
        crate::cbor::encode(&Value::Dict(pairs))
    }
}

fn read_nicks(items: &Vec<Value>) -> (r: Option<Vec<(String, String)>>)
    ensures
        match nicks_from(view_items(items@)) {
            Some(s) => r matches Some(v) && entries_view(v@) == s,
            None => r is None,
        },
{
    let mut out: Vec<(String, String)> = Vec::new();
    let mut i: usize = 0;
    proof {
        crate::cbor::lemma_view_items_len(items@);
        assert(view_items(items@).take(0) =~= Seq::<ValueSpec>::empty());
        assert(entries_view(out@) =~= Seq::<(Seq<char>, Seq<char>)>::empty());
    }
    while i < items.len()
        invariant
            i <= items@.len(),
            view_items(items@).len() == items@.len(),
            nicks_from(view_items(items@).take(i as int)) == Some(entries_view(out@)),
        decreases items@.len() - i,
    {
        let ghost pre = view_items(items@).take(i as int);
        let ghost cur = view_items(items@).take(i + 1);
        proof {
            assert(cur.drop_last() =~= pre);
            assert(cur.last() == view_items(items@)[i as int]);
            assert(view_items(items@)[i as int] == items@[i as int]@) by {
                lemma_view_items_index(items@, i as int);
            }
        }
        let (k, n) = match &items[i] {
            Value::Array(row) => {
                if row.len() != 2 {
                    proof {
                        assert(view_items(row@).len() == row@.len()) by {
                            crate::cbor::lemma_view_items_len(row@);
                        }
                        lemma_prefix_fails_nicks(view_items(items@), i as int);
                    }
                    return None;
                }
                proof {
                    crate::cbor::lemma_view_items_len(row@);
                    lemma_view_items_index(row@, 0);
                    lemma_view_items_index(row@, 1);
                }
                match (&row[0], &row[1]) {
                    (Value::Text(k), Value::Text(n)) => (k.clone(), n.clone()),
                    _ => {
                        proof {
                            lemma_prefix_fails_nicks(view_items(items@), i as int);
                        }
                        return None;
                    },
                }
            },
            _ => {
                proof {
                    lemma_prefix_fails_nicks(view_items(items@), i as int);
                }
                return None;
            },
        };
        put(&mut out, k, n);
        i = i + 1;
    }
    assert(view_items(items@).take(i as int) =~= view_items(items@));
    Some(out)
}

fn read_timers(items: &Vec<Value>) -> (r: Option<Vec<(String, u64)>>)
    ensures
        match timers_from(view_items(items@)) {
            Some(s) => r matches Some(v) && entries_view(v@) == s,
            None => r is None,
        },
{
    let mut out: Vec<(String, u64)> = Vec::new();
    let mut i: usize = 0;
    proof {
        crate::cbor::lemma_view_items_len(items@);
        assert(view_items(items@).take(0) =~= Seq::<ValueSpec>::empty());
        assert(entries_view(out@) =~= Seq::<(Seq<char>, u64)>::empty());
    }
    while i < items.len()
        invariant
            i <= items@.len(),
            view_items(items@).len() == items@.len(),
            timers_from(view_items(items@).take(i as int)) == Some(entries_view(out@)),
        decreases items@.len() - i,
    {
        let ghost pre = view_items(items@).take(i as int);
        let ghost cur = view_items(items@).take(i + 1);
        proof {
            assert(cur.drop_last() =~= pre);
            assert(cur.last() == view_items(items@)[i as int]);
            assert(view_items(items@)[i as int] == items@[i as int]@) by {
                lemma_view_items_index(items@, i as int);
            }
        }
        let (k, n) = match &items[i] {
            Value::Array(row) => {
                if row.len() != 2 {
                    proof {
                        assert(view_items(row@).len() == row@.len()) by {
                            crate::cbor::lemma_view_items_len(row@);
                        }
                        lemma_prefix_fails_timers(view_items(items@), i as int);
                    }
                    return None;
                }
                proof {
                    crate::cbor::lemma_view_items_len(row@);
                    lemma_view_items_index(row@, 0);
                    lemma_view_items_index(row@, 1);
                }
                match (&row[0], &row[1]) {
                    (Value::Text(k), Value::Uint(n)) => (k.clone(), *n),
                    _ => {
                        proof {
                            lemma_prefix_fails_timers(view_items(items@), i as int);
                        }
                        return None;
                    },
                }
            },
            _ => {
                proof {
                    lemma_prefix_fails_timers(view_items(items@), i as int);
                }
                return None;
            },
        };
        put(&mut out, k, n);
        i = i + 1;
    }
    assert(view_items(items@).take(i as int) =~= view_items(items@));
    Some(out)
}

proof fn lemma_view_items_index(s: Seq<Value>, i: int)
    requires
        0 <= i < s.len(),
    ensures
        view_items(s).len() == s.len(),
        view_items(s)[i] == s[i]@,
    decreases s.len(),
{
    crate::cbor::lemma_view_items_len(s);
    if i < s.len() - 1 {
        lemma_view_items_index(s.drop_last(), i);
    }
}

/// A row that does not read makes every longer prefix fail.
proof fn lemma_prefix_fails_nicks(items: Seq<ValueSpec>, i: int)
    requires
        0 <= i < items.len(),
        nick_from(items[i]) is None,
    ensures
        nicks_from(items) is None,
    decreases items.len(),
{
    if i < items.len() - 1 {
        assert(items.drop_last()[i] == items[i]);
        lemma_prefix_fails_nicks(items.drop_last(), i);
    }
}

proof fn lemma_prefix_fails_timers(items: Seq<ValueSpec>, i: int)
    requires
        0 <= i < items.len(),
        timer_from(items[i]) is None,
    ensures
        timers_from(items) is None,
    decreases items.len(),
{
    if i < items.len() - 1 {
        assert(items.drop_last()[i] == items[i]);
        lemma_prefix_fails_timers(items.drop_last(), i);
    }
}

/// Reads the stored settings: nothing stored reads as no settings; bytes
/// that are not a version-1 map of two row lists are corrupt. A later row
/// for a key replaces an earlier one.
pub fn load_display(stored: Option<&[u8]>) -> (r: Result<DisplayPrefs, CoreError>)
    ensures
        stored is None ==> (r matches Ok(d) && d@.nicknames.len() == 0 && d@.disappear.len() == 0),
        stored matches Some(b) ==> match display_decoded(b@) {
            Some(d) => r matches Ok(x) && x@ == d,
            None => r == Err::<DisplayPrefs, CoreError>(CoreError::VaultCorrupt),
        },
        r matches Ok(d) ==> display_ok(d@),
{
    let b = match stored {
        None => {
            return Ok(DisplayPrefs::new());
        },
        Some(b) => b,
    };
    proof {
        if let Some((ValueSpec::Dict(m), n)) = parse(b@, 0) {
            if let (Some(ValueSpec::Array(ns)), Some(ValueSpec::Array(ts))) = (lookup(m, 1), lookup(m, 2)) {
                lemma_nicks_ok(ns);
                lemma_timers_ok(ts);
            }
        }
    }
    let m = match crate::cbor::decode(b) {
        Some(Value::Dict(m)) => m,
        _ => {
            return Err(CoreError::VaultCorrupt);
        },
    };
    let m = m.as_slice();
    let version = match map_get(m, 0) {
        Some(Value::Uint(v)) => *v,
        _ => {
            return Err(CoreError::VaultCorrupt);
        },
    };
    let nicks = match map_get(m, 1) {
        Some(Value::Array(items)) => read_nicks(items),
        _ => {
            return Err(CoreError::VaultCorrupt);
        },
    };
    let timers = match map_get(m, 2) {
        Some(Value::Array(items)) => read_timers(items),
        _ => {
            return Err(CoreError::VaultCorrupt);
        },
    };
    if version != DISPLAY_VERSION {
        return Err(CoreError::VaultCorrupt);
    }
    match (nicks, timers) {
        (Some(n), Some(t)) => Ok(DisplayPrefs { nicknames: n, disappear: t }),
        _ => Err(CoreError::VaultCorrupt),
    }
}

proof fn lemma_nicks_roundtrip(s: Seq<(Seq<char>, Seq<char>)>)
    ensures
        nicks_from(nick_rows(s)) == Some(put_all::<String, Seq<char>>(s)),
    decreases s.len(),
{
    if s.len() > 0 {
        assert(nick_rows(s).drop_last() =~= nick_rows(s.drop_last()));
        lemma_nicks_roundtrip(s.drop_last());
        assert(nick_from(nick_rows(s).last()) == Some(s.last()));
    } else {
        assert(nick_rows(s) =~= Seq::<ValueSpec>::empty());
    }
}

proof fn lemma_timers_roundtrip(s: Seq<(Seq<char>, u64)>)
    ensures
        timers_from(timer_rows(s)) == Some(put_all::<String, u64>(s)),
    decreases s.len(),
{
    if s.len() > 0 {
        assert(timer_rows(s).drop_last() =~= timer_rows(s.drop_last()));
        lemma_timers_roundtrip(s.drop_last());
        assert(timer_from(timer_rows(s).last()) == Some(s.last()));
    } else {
        assert(timer_rows(s) =~= Seq::<ValueSpec>::empty());
    }
}

/// Stored settings read back as the same settings.
pub proof fn law_display_roundtrip(d: DisplayView)
    requires
        display_ok(d),
        well_formed(ValueSpec::Dict(display_entries(d))),
    ensures
        display_decoded(enc(ValueSpec::Dict(display_entries(d)))) == Some(d),
{
    let e = display_entries(d);
    let nr = nick_rows(d.nicknames);
    let tr = timer_rows(d.disappear);
    assert forall|i: int| 0 <= i < nr.len() implies nesting(#[trigger] nr[i]) <= 1 by {
        let items = seq![ValueSpec::Text(d.nicknames[i].0), ValueSpec::Text(d.nicknames[i].1)];
        assert forall|j: int| 0 <= j < items.len() implies nesting(#[trigger] items[j]) <= 0 by {}
        lemma_nesting_items_bound(items, 0);
    }
    lemma_nesting_items_bound(nr, 1);
    assert forall|i: int| 0 <= i < tr.len() implies nesting(#[trigger] tr[i]) <= 1 by {
        let items = seq![ValueSpec::Text(d.disappear[i].0), ValueSpec::Uint(d.disappear[i].1)];
        assert forall|j: int| 0 <= j < items.len() implies nesting(#[trigger] items[j]) <= 0 by {}
        lemma_nesting_items_bound(items, 0);
    }
    lemma_nesting_items_bound(tr, 1);
    assert forall|j: int| 0 <= j < e.len() implies nesting(#[trigger] e[j].1) <= 2 by {}
    lemma_nesting_entries_bound(e, 2);
    law_decode_encode(ValueSpec::Dict(e));
    reveal_with_fuel(lookup, 4);
    lemma_nicks_roundtrip(d.nicknames);
    lemma_timers_roundtrip(d.disappear);
    lemma_put_all_sorted::<String, Seq<char>>(d.nicknames);
    lemma_put_all_sorted::<String, u64>(d.disappear);
}

} // verus!
